//! The change tree as one value that owns its arena and root.
use indextree::{Arena, NodeId};
use vstd::prelude::*;

use crate::arena::{arena_new, arena_new_node, arena_nodes, node_data};
use crate::highest_change_tree::{
    add_components, collect_leaves, leaf_views, trim_children, LeafRecord,
    TreeData as NodeData,
};
use crate::laws::{fanout_bounded, law_fanout_bounded, lemma_tree_view_shaped, view_shaped};
use crate::listing::{
    depth_below, kids_in_view, lemma_entries_match, lemma_kids_distinct, lemma_listing_apart,
    kids_distinct, lemma_view_facts, lemma_view_leaves_fuel, lemma_walk_keeps_names, names_free,
    reports_apart, view_leaves,
};
use crate::text::{chars_of, push_char, lemma_split_nonempty, lemma_split_pieces_free, split_on, split_str, string_views};
use crate::tree_model::{
    add_walk, change_tree_wf, depth_bound, bounds_depth, leaf_entries, lemma_single_node,
    root_view, shaped, trim_nodes, trim_view, tree_view, LeafEntry, Path, TreeView,
};

verus! {

/// A path (a component when added, a full path when listed) and an inode.
#[derive(Debug, Clone)]
pub struct TreeData {
    pub path: String,
    pub ino: u64,
}

/// The paths and inodes of a list of tree data.
pub open spec fn path_views(v: Seq<TreeData>) -> Seq<(Seq<char>, u64)> {
    v.map_values(|d: TreeData| (d.path@, d.ino))
}

/// A change tree: the arena that holds its nodes, and its root.
#[derive(Debug)]
pub struct ChangeTree {
    arena: Arena<NodeData>,
    root: NodeId,
}

/// What the listing reports for the leaves `entries`, where `is_file` says
/// which leaves are files: a directory leaf is reported with its own path, a
/// file leaf with its parent's path (the directory to rescan), each with the
/// leaf's inode; a path is not reported again once it has been entered in
/// `cache`, which records the parent of every file leaf met so far.
pub open spec fn select_parents(
    entries: Seq<LeafEntry>,
    is_file: Seq<bool>,
    cache: Seq<Seq<char>>,
) -> Seq<(Seq<char>, u64)>
    decreases entries.len(),
{
    if entries.len() == 0 || is_file.len() == 0 {
        Seq::<(Seq<char>, u64)>::empty()
    } else {
        let e = entries[0];
        let reported = if is_file[0] {
            e.parent
        } else {
            e.path
        };
        let emitted = if cache.contains(reported) {
            Seq::<(Seq<char>, u64)>::empty()
        } else {
            seq![(reported, e.ino)]
        };
        let cache2 = if is_file[0] {
            cache.push(e.parent)
        } else {
            cache
        };
        emitted + select_parents(entries.drop_first(), is_file.drop_first(), cache2)
    }
}

/// Every path that the listing would report for the leaves `entries` (the
/// parent's path for a file leaf, the leaf's own path otherwise) lies below
/// `root_path`: it starts with `root_path` and a `/`.
pub open spec fn reports_under(entries: Seq<LeafEntry>, is_file: Seq<bool>, root_path: Seq<char>) -> bool {
    forall|i: int|
        0 <= i < entries.len() && i < is_file.len() ==> (root_path + seq!['/']).is_prefix_of(
            if #[trigger] is_file[i] {
                entries[i].parent
            } else {
                entries[i].path
            },
        )
}

/// Whether `p` is a prefix of `s`.
fn starts_with_chars(s: &Vec<char>, p: &Vec<char>) -> (found: bool)
    ensures
        found == p@.is_prefix_of(s@),
{
    if p.len() > s.len() {
        return false;
    }
    let mut k: usize = 0;
    while k < p.len()
        invariant
            p.len() <= s.len(),
            0 <= k <= p.len(),
            forall|t: int| 0 <= t < k ==> s@[t] == p@[t],
        decreases p.len() - k,
    {
        if s[k] != p[k] {
            return false;
        }
        k = k + 1;
    }
    assert(p@ =~= s@.subrange(0, p@.len() as int));
    true
}

/// No path occurs twice in `out`.
pub open spec fn no_repeated_paths(out: Seq<(Seq<char>, u64)>) -> bool {
    forall|i: int, j: int|
        #![trigger out[i], out[j]]
        0 <= i < j < out.len() ==> out[i].0 != out[j].0
}

proof fn lemma_select_apart(entries: Seq<LeafEntry>, is_file: Seq<bool>, cache: Seq<Seq<char>>)
    requires
        reports_apart(entries),
    ensures
        no_repeated_paths(select_parents(entries, is_file, cache)),
        forall|k: int|
            0 <= k < select_parents(entries, is_file, cache).len() ==> !cache.contains(
                (#[trigger] select_parents(entries, is_file, cache)[k]).0,
            ),
        forall|k: int|
            0 <= k < select_parents(entries, is_file, cache).len() ==> exists|b: int|
                0 <= b < entries.len() && ((#[trigger] select_parents(entries, is_file, cache)[k]).0
                    == entries[b].path || select_parents(entries, is_file, cache)[k].0
                    == entries[b].parent),
    decreases entries.len(),
{
    let out = select_parents(entries, is_file, cache);
    if entries.len() > 0 && is_file.len() > 0 {
        let e = entries[0];
        let reported = if is_file[0] {
            e.parent
        } else {
            e.path
        };
        let emitted = if cache.contains(reported) {
            Seq::<(Seq<char>, u64)>::empty()
        } else {
            seq![(reported, e.ino)]
        };
        let cache2 = if is_file[0] {
            cache.push(e.parent)
        } else {
            cache
        };
        let later = entries.drop_first();
        assert(reports_apart(later)) by {
            assert forall|a: int, b: int|
                #![trigger later[a], later[b]]
                0 <= a < b < later.len() implies {
                    &&& later[a].path != later[b].path
                    &&& later[a].path != later[b].parent
                    &&& later[a].parent != later[b].path
                } by {
                assert(later[a] == entries[a + 1]);
                assert(later[b] == entries[b + 1]);
            }
        }
        lemma_select_apart(later, is_file.drop_first(), cache2);
        let rest = select_parents(later, is_file.drop_first(), cache2);
        assert(out == emitted + rest);
        assert forall|k: int| 0 <= k < rest.len() implies (#[trigger] rest[k]).0 != reported && !cache.contains(rest[k].0) by {
            assert(!cache2.contains(rest[k].0));
            if is_file[0] {
                assert(cache2.last() == e.parent);
                if rest[k].0 == reported {
                    assert(cache2.contains(rest[k].0));
                }
                if cache.contains(rest[k].0) {
                    let i = choose|i: int| 0 <= i < cache.len() && cache[i] == rest[k].0;
                    assert(cache2[i] == rest[k].0);
                }
            } else {
                let b = choose|b: int|
                    0 <= b < later.len() && (rest[k].0 == later[b].path || rest[k].0 == later[b].parent);
                assert(later[b] == entries[b + 1]);
                assert(entries[0].path != entries[b + 1].path);
                assert(entries[0].path != entries[b + 1].parent);
            }
        }
        assert forall|i: int, j: int|
            #![trigger out[i], out[j]]
            0 <= i < j < out.len() implies out[i].0 != out[j].0 by {
            if i < emitted.len() {
                assert(out[i] == (reported, e.ino));
                assert(out[j] == rest[j - emitted.len()]);
            } else {
                assert(out[i] == rest[i - emitted.len()]);
                assert(out[j] == rest[j - emitted.len()]);
            }
        }
        assert forall|k: int| 0 <= k < out.len() implies !cache.contains((#[trigger] out[k]).0) by {
            if k >= emitted.len() {
                assert(out[k] == rest[k - emitted.len()]);
            }
        }
        assert forall|k: int| 0 <= k < out.len() implies exists|b: int|
            0 <= b < entries.len() && ((#[trigger] out[k]).0 == entries[b].path || out[k].0
                == entries[b].parent) by {
            if k < emitted.len() {
                assert(out[k].0 == entries[0].path || out[k].0 == entries[0].parent);
            } else {
                assert(out[k] == rest[k - emitted.len()]);
                let b = choose|b: int|
                    0 <= b < later.len() && (rest[k - emitted.len()].0 == later[b].path || rest[k
                        - emitted.len()].0 == later[b].parent);
                assert(later[b] == entries[b + 1]);
            }
        }
    }
}

/// The path reported for leaf `e`: its parent's path if it is a file, its
/// own path otherwise.
pub open spec fn reported_path(e: LeafEntry, is_file: bool) -> Seq<char> {
    if is_file {
        e.parent
    } else {
        e.path
    }
}

/// Whether some item of `out` reports path `p`.
pub open spec fn reports_path(out: Seq<(Seq<char>, u64)>, p: Seq<char>) -> bool {
    exists|k: int| 0 <= k < out.len() && #[trigger] out[k].0 == p
}

proof fn lemma_select_covers(entries: Seq<LeafEntry>, is_file: Seq<bool>, cache: Seq<Seq<char>>)
    ensures
        forall|i: int|
            0 <= i < entries.len() && i < is_file.len() ==> reports_path(
                select_parents(entries, is_file, cache),
                #[trigger] reported_path(entries[i], is_file[i]),
            ) || cache.contains(reported_path(entries[i], is_file[i])),
    decreases entries.len(),
{
    let out = select_parents(entries, is_file, cache);
    if entries.len() > 0 && is_file.len() > 0 {
        let e = entries[0];
        let reported = reported_path(e, is_file[0]);
        let emitted = if cache.contains(reported) {
            Seq::<(Seq<char>, u64)>::empty()
        } else {
            seq![(reported, e.ino)]
        };
        let cache2 = if is_file[0] {
            cache.push(e.parent)
        } else {
            cache
        };
        let later = entries.drop_first();
        let flags = is_file.drop_first();
        lemma_select_covers(later, flags, cache2);
        let rest = select_parents(later, flags, cache2);
        assert(out == emitted + rest);
        assert forall|i: int|
            0 <= i < entries.len() && i < is_file.len() implies reports_path(
                out,
                #[trigger] reported_path(entries[i], is_file[i]),
            ) || cache.contains(reported_path(entries[i], is_file[i])) by {
            let p = reported_path(entries[i], is_file[i]);
            if i == 0 {
                if !cache.contains(p) {
                    assert(out[0].0 == p);
                }
            } else {
                assert(later[i - 1] == entries[i]);
                assert(flags[i - 1] == is_file[i]);
                assert(reported_path(later[i - 1], flags[i - 1]) == p);
                if reports_path(rest, p) {
                    let k = choose|k: int| 0 <= k < rest.len() && #[trigger] rest[k].0 == p;
                    assert(out[emitted.len() + k] == rest[k]);
                } else if cache.contains(p) {
                } else {
                    assert(cache2.contains(p));
                    let j = choose|j: int| 0 <= j < cache2.len() && cache2[j] == p;
                    if j < cache.len() {
                        assert(cache[j] == p);
                    } else {
                        assert(is_file[0] && p == e.parent);
                        assert(p == reported);
                        assert(out[0].0 == p);
                    }
                }
            }
        }
    }
}

/// Every changed leaf is covered by the listing: for each leaf, the
/// directory to rescan for it (its parent when it is a file, itself
/// otherwise) is among the paths reported.
pub proof fn law_every_leaf_reported(entries: Seq<LeafEntry>, is_file: Seq<bool>, i: int)
    requires
        0 <= i < entries.len(),
        i < is_file.len(),
    ensures
        reports_path(
            select_parents(entries, is_file, Seq::<Seq<char>>::empty()),
            if is_file[i] {
                entries[i].parent
            } else {
                entries[i].path
            },
        ),
{
    lemma_select_covers(entries, is_file, Seq::<Seq<char>>::empty());
    assert(reported_path(entries[i], is_file[i]) == (if is_file[i] {
        entries[i].parent
    } else {
        entries[i].path
    }));
}

/// Everything reported is the directory to rescan for some leaf: the
/// parent of a file leaf, or a directory leaf itself, with that leaf's
/// inode.
pub proof fn law_only_leaves_reported(entries: Seq<LeafEntry>, is_file: Seq<bool>, k: int)
    requires
        0 <= k < select_parents(entries, is_file, Seq::<Seq<char>>::empty()).len(),
    ensures
        exists|i: int|
            0 <= i < entries.len() && i < is_file.len() && select_parents(
                entries,
                is_file,
                Seq::<Seq<char>>::empty(),
            )[k] == (if #[trigger] is_file[i] {
                entries[i].parent
            } else {
                entries[i].path
            }, entries[i].ino),
{
    lemma_select_sources(entries, is_file, Seq::<Seq<char>>::empty());
}

proof fn lemma_select_sources(entries: Seq<LeafEntry>, is_file: Seq<bool>, cache: Seq<Seq<char>>)
    ensures
        forall|k: int|
            0 <= k < select_parents(entries, is_file, cache).len() ==> exists|i: int|
                0 <= i < entries.len() && i < is_file.len() && #[trigger] select_parents(
                    entries,
                    is_file,
                    cache,
                )[k] == (if is_file[i] {
                    entries[i].parent
                } else {
                    entries[i].path
                }, entries[i].ino),
    decreases entries.len(),
{
    let out = select_parents(entries, is_file, cache);
    if entries.len() > 0 && is_file.len() > 0 {
        let e = entries[0];
        let reported = reported_path(e, is_file[0]);
        let emitted = if cache.contains(reported) {
            Seq::<(Seq<char>, u64)>::empty()
        } else {
            seq![(reported, e.ino)]
        };
        let cache2 = if is_file[0] {
            cache.push(e.parent)
        } else {
            cache
        };
        let later = entries.drop_first();
        let flags = is_file.drop_first();
        lemma_select_sources(later, flags, cache2);
        let rest = select_parents(later, flags, cache2);
        assert(out == emitted + rest);
        assert forall|k: int| 0 <= k < out.len() implies exists|i: int|
            0 <= i < entries.len() && i < is_file.len() && #[trigger] out[k] == (if is_file[i] {
                entries[i].parent
            } else {
                entries[i].path
            }, entries[i].ino) by {
            if k < emitted.len() {
                assert(out[k] == (if is_file[0] {
                    entries[0].parent
                } else {
                    entries[0].path
                }, entries[0].ino));
            } else {
                assert(out[k] == rest[k - emitted.len()]);
                let i = choose|i: int|
                    0 <= i < later.len() && i < flags.len() && #[trigger] rest[k - emitted.len()]
                        == (if flags[i] {
                        later[i].parent
                    } else {
                        later[i].path
                    }, later[i].ino);
                assert(later[i] == entries[i + 1]);
                assert(flags[i] == is_file[i + 1]);
            }
        }
    }
}

/// Whether `v` holds a string equal to `s`.
fn contains_string(v: &Vec<String>, s: &String) -> (found: bool)
    ensures
        found == string_views(v@).contains(s@),
{
    let mut i: usize = 0;
    while i < v.len()
        invariant
            0 <= i <= v.len(),
            forall|j: int| 0 <= j < i ==> v@[j]@ != s@,
        decreases v.len() - i,
    {
        if v[i] == *s {
            assert(string_views(v@)[i as int] == s@);
            return true;
        }
        i = i + 1;
    }
    proof {
        if string_views(v@).contains(s@) {
            let j = choose|j: int| 0 <= j < string_views(v@).len() && string_views(v@)[j] == s@;
            assert(v@[j]@ == s@);
        }
    }
    false
}

impl View for ChangeTree {
    type V = TreeView;

    closed spec fn view(&self) -> TreeView {
        tree_view(arena_nodes(self.arena), self.root)
    }
}

impl ChangeTree {
    /// The arena holds one well-formed tree, rooted at the root; no node has
    /// more than `MAX_CHILD_COUNT` children, and no name below the root holds
    /// a `/`.
    pub closed spec fn well_formed(&self) -> bool {
        &&& change_tree_wf(arena_nodes(self.arena), self.root)
        &&& fanout_bounded(self@)
        &&& names_free(self@)
    }

    /// The path that the root holds.
    pub closed spec fn root_path(&self) -> Seq<char> {
        arena_nodes(self.arena)[self.root].name
    }

    /// The leaves of the tree, depth first, for a walk that starts with the
    /// full path `partial_path` at the root.
    pub closed spec fn leaves(&self, partial_path: Seq<char>) -> Seq<LeafEntry> {
        leaf_entries(
            arena_nodes(self.arena),
            arena_nodes(self.arena)[self.root].children,
            partial_path,
            depth_bound(arena_nodes(self.arena)),
        )
    }

    /// The view of a well-formed tree is shaped: the root is a position, and
    /// every other position hangs below a position that lists it among its
    /// children; no position has more than `MAX_CHILD_COUNT` children, lists a
    /// name twice among its children, or holds a name with a `/` in it.
    pub proof fn lemma_view_shaped(tree: &ChangeTree)
        requires
            tree.well_formed(),
        ensures
            view_shaped(tree@),
            tree@.dom().contains(Seq::<Seq<char>>::empty()),
            fanout_bounded(tree@),
            kids_distinct(tree@),
            names_free(tree@),
    {
        let m = arena_nodes(tree.arena);
        lemma_tree_view_shaped(m, tree.root);
        let (pm, bound) = choose|pm: Map<NodeId, Path>, bound: nat| shaped(m, tree.root, pm, bound);
        crate::tree_model::lemma_node_at_complete(m, tree.root, pm, bound, tree.root);
        lemma_kids_distinct(m, tree.root, pm, bound);
    }

    /// The tree has a depth: some bound that no position of its view reaches;
    /// and every name that a position lists among its children leads to a
    /// position.
    pub proof fn lemma_depth(tree: &ChangeTree) -> (b: nat)
        requires
            tree.well_formed(),
        ensures
            depth_below(tree@, b),
            kids_in_view(tree@),
    {
        let m = arena_nodes(tree.arena);
        let (pm, bound) = choose|pm: Map<NodeId, Path>, bound: nat| shaped(m, tree.root, pm, bound);
        lemma_view_facts(m, tree.root, pm, bound);
        bound
    }

    /// The leaves that `leaf_paths` and `parse_leaves` walk are those of the
    /// view: depth first, children in the order they were added, each
    /// position without children listed with its full path and inode.
    pub proof fn lemma_leaves_of_view(tree: &ChangeTree, partial_path: Seq<char>, b: nat)
        requires
            tree.well_formed(),
            depth_below(tree@, b),
        ensures
            tree.leaves(partial_path) == view_leaves(
                tree@,
                Seq::<Seq<char>>::empty(),
                tree@[Seq::<Seq<char>>::empty()].kids,
                partial_path,
                b,
            ),
    {
        let m = arena_nodes(tree.arena);
        let root = tree.root;
        let v = tree@;
        let (pm, bound) = choose|pm: Map<NodeId, Path>, bound: nat| shaped(m, root, pm, bound);
        lemma_view_facts(m, root, pm, bound);
        assert(bounds_depth(m, bound));
        let b0 = depth_bound(m);
        let (r1, pm1) = choose|r: NodeId, pm1: Map<NodeId, Path>| shaped(m, r, pm1, b0);
        crate::tree_model::lemma_root_unique(m, r1, pm1, b0, root, pm, bound);
        lemma_view_facts(m, root, pm1, b0);
        lemma_entries_match(m, root, pm, bound, root, m[root].children, partial_path, b0);
        crate::tree_model::lemma_node_at_complete(m, root, pm, bound, root);
        let top = Seq::<Seq<char>>::empty();
        assert(v.dom().contains(top));
        assert forall|i: int| 0 <= i < v[top].kids.len() implies v.dom().contains(#[trigger] top.push(v[top].kids[i])) by {}
        let least: nat = if b0 <= b { b0 } else { b };
        lemma_view_leaves_fuel(v, top, v[top].kids, partial_path, b0, b, least);
    }

    /// The listing never reports a directory twice: a directory leaf, the
    /// parent of a file leaf, and the parents of other file leaves all have
    /// different full paths, whatever the filesystem says of which leaves are
    /// files.
    pub proof fn law_parse_leaves_no_repeats(tree: &ChangeTree, partial_path: Seq<char>, is_file: Seq<bool>)
        requires
            tree.well_formed(),
        ensures
            no_repeated_paths(
                select_parents(tree.leaves(partial_path), is_file, Seq::<Seq<char>>::empty()),
            ),
    {
        let m = arena_nodes(tree.arena);
        let (pm, bound) = choose|pm: Map<NodeId, Path>, bound: nat| shaped(m, tree.root, pm, bound);
        Self::lemma_view_shaped(tree);
        let b = Self::lemma_depth(tree);
        lemma_kids_distinct(m, tree.root, pm, bound);
        Self::lemma_leaves_of_view(tree, partial_path, b);
        lemma_listing_apart(tree@, partial_path, b);
        lemma_select_apart(tree.leaves(partial_path), is_file, Seq::<Seq<char>>::empty());
    }

    /// Creates a tree that is the root alone, holding `root`.
    pub fn new(root: TreeData) -> (tree: Self)
        ensures
            tree.well_formed(),
            tree@ == root_view(root.ino),
            tree.root_path() == root.path@,
    {
        let mut arena = arena_new();
        let ino = root.ino;
        let id = arena_new_node(&mut arena, NodeData { name: root.path, ino });
        proof {
            let m = arena_nodes(arena);
            assert(m.dom() =~= Set::<NodeId>::empty().insert(id));
            lemma_single_node(m, id);
        }
        let tree = ChangeTree { arena, root: id };
        assert(fanout_bounded(tree@));
        assert(names_free(tree@));
        tree
    }

    /// Adds the path of `data` (components separated by `/`): walks down the
    /// components as `add_walk` describes, so that afterwards the change is
    /// covered by a leaf, trimming when necessary. Every node added holds the
    /// inode of `data`.
    pub fn add_path(tree: &mut ChangeTree, data: TreeData)
        requires
            old(tree).well_formed(),
        ensures
            final(tree).well_formed(),
            final(tree).root_path() == old(tree).root_path(),
            final(tree)@ == add_walk(
                old(tree)@,
                Seq::<Seq<char>>::empty(),
                split_on(data.path@, '/'),
                0,
                data.ino,
                data.ino,
            ),
    {
        let comps = split_str(data.path.as_str(), '/');
        proof {
            lemma_split_nonempty(data.path@, '/');
        }
        proof {
            Self::lemma_view_shaped(tree);
            law_fanout_bounded(tree@, split_on(data.path@, '/'), data.ino, data.ino);
            lemma_split_pieces_free(data.path@, '/');
            lemma_walk_keeps_names(
                tree@,
                Seq::<Seq<char>>::empty(),
                split_on(data.path@, '/'),
                0,
                data.ino,
                data.ino,
            );
        }
        add_components(&mut tree.arena, tree.root, &comps, data.ino, data.ino);
    }

    /// Trims all nodes below `node`.
    fn trim_below(tree: &mut ChangeTree, node: NodeId, Ghost(pm): Ghost<Map<NodeId, Path>>, Ghost(bound): Ghost<nat>)
        requires
            shaped(arena_nodes(old(tree).arena), old(tree).root, pm, bound),
            fanout_bounded(old(tree)@),
            names_free(old(tree)@),
            arena_nodes(old(tree).arena).dom().contains(node),
        ensures
            final(tree).root == old(tree).root,
            arena_nodes(final(tree).arena) == trim_nodes(arena_nodes(old(tree).arena), node),
            final(tree).well_formed(),
            final(tree)@ == trim_view(old(tree)@, pm[node]),
    {
        let root = tree.root;
        trim_children(&mut tree.arena, node, Ghost(root), Ghost(pm), Ghost(bound));
        proof {
            let m2 = arena_nodes(tree.arena);
            assert(shaped(m2, root, pm.restrict(m2.dom()), bound));
        }
    }

    /// Trims all nodes below the root, for the case where the root itself
    /// changed: afterwards the tree is the root alone.
    pub fn trim_below_root(tree: &mut ChangeTree)
        requires
            old(tree).well_formed(),
        ensures
            final(tree).well_formed(),
            final(tree).root_path() == old(tree).root_path(),
            final(tree)@ == trim_view(old(tree)@, Seq::<Seq<char>>::empty()),
    {
        let ghost m = arena_nodes(tree.arena);
        let ghost (pm, bound) = choose|pm: Map<NodeId, Path>, bound: nat| shaped(m, tree.root, pm, bound);
        let root = tree.root;
        Self::trim_below(tree, root, Ghost(pm), Ghost(bound));
    }

    /// The leaves of the tree, depth first: full path (`partial_path`, then
    /// `/` and a name for each level) and inode of each.
    pub fn leaf_paths(&self, partial_path: String) -> (leaves: Vec<TreeData>)
        requires
            self.well_formed(),
        ensures
            path_views(leaves@) == self.leaves(partial_path@).map_values(|e: LeafEntry| (e.path, e.ino)),
    {
        let records = self.leaf_records(&partial_path);
        let ghost entries = leaf_views(records@);
        let mut out: Vec<TreeData> = Vec::new();
        let mut i: usize = 0;
        while i < records.len()
            invariant
                entries == leaf_views(records@),
                0 <= i <= records.len(),
                path_views(out@) == entries.subrange(0, i as int).map_values(|e: LeafEntry| (e.path, e.ino)),
            decreases records.len() - i,
        {
            let r = &records[i];
            let ghost before = path_views(out@);
            let path = r.path.clone();
            out.push(TreeData { path, ino: r.ino });
            assert(path_views(out@) =~= before.push((r.path@, r.ino)));
            assert(entries.subrange(0, i + 1).map_values(|e: LeafEntry| (e.path, e.ino)) =~= entries.subrange(0, i as int).map_values(|e: LeafEntry| (e.path, e.ino)).push((r.path@, r.ino)));
            i = i + 1;
        }
        assert(entries.subrange(0, i as int) =~= entries);
        out
    }

    fn leaf_records(&self, partial_path: &String) -> (records: Vec<LeafRecord>)
        requires
            self.well_formed(),
        ensures
            leaf_views(records@) == self.leaves(partial_path@),
    {
        let ghost m = arena_nodes(self.arena);
        proof {
            let (pm0, b0) = choose|pm: Map<NodeId, Path>, b: nat| shaped(m, self.root, pm, b);
            assert(bounds_depth(m, b0));
        }
        let ghost b = depth_bound(m);
        let ghost (root, pm) = choose|r: NodeId, pm: Map<NodeId, Path>| shaped(m, r, pm, b);
        proof {
            let (pm1, b1) = choose|pm: Map<NodeId, Path>, b: nat| shaped(m, self.root, pm, b);
            crate::tree_model::lemma_root_unique(m, root, pm, b, self.root, pm1, b1);
        }
        let mut records: Vec<LeafRecord> = Vec::new();
        collect_leaves(&self.arena, self.root, &mut records, partial_path, Ghost(root), Ghost(pm), Ghost(b), Ghost(b));
        assert(leaf_views(records@) =~= self.leaves(partial_path@));
        records
    }

    /// The path that the root holds.
    pub fn get_root_path(&self) -> (path: String)
        requires
            self.well_formed(),
        ensures
            path@ == self.root_path(),
    {
        proof {
            let m = arena_nodes(self.arena);
            let (pm, bound) = choose|pm: Map<NodeId, Path>, bound: nat| shaped(m, self.root, pm, bound);
        }
        node_data(&self.arena, self.root).name.clone()
    }

    /// Whether every path that `parse_leaves` would report, for the same
    /// `partial_path` and `is_file`, lies below the root's path (see
    /// `reports_under`); `parse_leaves` is only for lists where it does.
    pub fn reports_under_root(&self, partial_path: &String, is_file: &Vec<bool>) -> (ok: bool)
        requires
            self.well_formed(),
        ensures
            ok == reports_under(self.leaves(partial_path@), is_file@, self.root_path()),
    {
        let records = self.leaf_records(partial_path);
        let ghost entries = leaf_views(records@);
        let mut prefix = self.get_root_path();
        push_char(&mut prefix, '/');
        let pre = chars_of(prefix.as_str());
        let mut i: usize = 0;
        while i < records.len() && i < is_file.len()
            invariant
                entries == leaf_views(records@),
                entries == self.leaves(partial_path@),
                pre@ == self.root_path() + seq!['/'],
                0 <= i <= records.len(),
                forall|k: int|
                    0 <= k < i && k < is_file@.len() ==> (self.root_path() + seq!['/']).is_prefix_of(
                        if #[trigger] is_file@[k] {
                            entries[k].parent
                        } else {
                            entries[k].path
                        },
                    ),
            decreases records.len() - i,
        {
            let r = &records[i];
            let reported = if is_file[i] {
                chars_of(r.parent.as_str())
            } else {
                chars_of(r.path.as_str())
            };
            assert(entries[i as int] == LeafEntry { path: r.path@, parent: r.parent@, ino: r.ino });
            if !starts_with_chars(&reported, &pre) {
                return false;
            }
            i = i + 1;
        }
        true
    }

    /// Lists the leaves, depth first, into `parent_list`, for a walk that
    /// starts with the full path `partial_path` at the root. `is_file` says,
    /// leaf by leaf in the order of `leaf_paths`, whether the leaf is a file
    /// (as the filesystem reports it); a file leaf is replaced by its parent
    /// directory, and a parent already reported for a file is not repeated.
    /// Every path reported must lie below the root's path (`reports_under`,
    /// checked by `reports_under_root`): each is turned into a path relative
    /// to the root on the way, which fails for any other path.
    pub fn parse_leaves(&self, parent_list: &mut Vec<TreeData>, partial_path: String, is_file: &Vec<bool>)
        requires
            self.well_formed(),
            is_file.len() == self.leaves(partial_path@).len(),
            reports_under(self.leaves(partial_path@), is_file@, self.root_path()),
        ensures
            path_views(final(parent_list)@) == path_views(old(parent_list)@) + select_parents(
                self.leaves(partial_path@),
                is_file@,
                Seq::<Seq<char>>::empty(),
            ),
    {
        let records = self.leaf_records(&partial_path);
        let ghost entries = leaf_views(records@);
        let ghost start = path_views(parent_list@);
        let mut cache: Vec<String> = Vec::new();
        let mut i: usize = 0;
        assert(entries.subrange(0, entries.len() as int) =~= entries);
        assert(is_file@.subrange(0, is_file@.len() as int) =~= is_file@);
        assert(string_views(cache@) =~= Seq::<Seq<char>>::empty());
        while i < records.len()
            invariant
                entries == leaf_views(records@),
                entries == self.leaves(partial_path@),
                is_file.len() == records.len(),
                0 <= i <= records.len(),
                start + select_parents(entries, is_file@, Seq::<Seq<char>>::empty()) == path_views(
                    parent_list@,
                ) + select_parents(
                    entries.subrange(i as int, entries.len() as int),
                    is_file@.subrange(i as int, is_file@.len() as int),
                    string_views(cache@),
                ),
            decreases records.len() - i,
        {
            let r = &records[i];
            let f = is_file[i];
            let ghost rest = entries.subrange(i as int, entries.len() as int);
            let ghost frest = is_file@.subrange(i as int, is_file@.len() as int);
            assert(rest[0] == entries[i as int]);
            assert(frest[0] == f);
            assert(rest.drop_first() =~= entries.subrange(i + 1, entries.len() as int));
            assert(frest.drop_first() =~= is_file@.subrange(i + 1, is_file@.len() as int));
            let ghost reported_view = if f {
                entries[i as int].parent
            } else {
                entries[i as int].path
            };
            let reported = if f {
                r.parent.clone()
            } else {
                r.path.clone()
            };
            let ghost before = path_views(parent_list@);
            let seen = contains_string(&cache, &reported);
            if !seen {
                let ino = r.ino;
                parent_list.push(TreeData { path: reported, ino });
                assert(path_views(parent_list@) =~= before.push((reported_view, ino)));
            }
            if f {
                let ghost cv = string_views(cache@);
                let parent = r.parent.clone();
                cache.push(parent);
                assert(string_views(cache@) =~= cv.push(entries[i as int].parent));
            }
            i = i + 1;
        }
        assert(entries.subrange(i as int, entries.len() as int).len() == 0);
    }
}

} // verus!
