//! What the change finder keeps while it walks the changelog: the tree of
//! changed directories below the filesystem root, whether the root itself
//! changed, and the last entry recorded.
use indextree::{Arena, NodeId};
use vstd::prelude::*;

use crate::arena::arena_nodes;
use crate::changelog::WalkInodesEntry;
use crate::highest_change_tree::{
    data_views, entry_pairs, highest_change_tree_add_path, highest_change_tree_create,
    highest_change_tree_new_node, highest_change_tree_parse_leaves,
    highest_change_tree_trim_below, TreeData,
};
use crate::text::{lemma_split_pieces_free, split_on};
use crate::change_tree::no_repeated_paths;
use crate::laws::lemma_tree_view_shaped;
use crate::listing::{
    depth_below, kids_in_view, lemma_entries_match, lemma_kids_distinct, lemma_listing_apart,
    lemma_view_facts, lemma_view_leaves_fuel, lemma_walk_keeps_names, names_free, view_leaves,
};
use crate::tree_model::{
    add_walk, bounds_depth, change_tree_wf, depth_bound, leaf_entries, lemma_node_at_complete,
    lemma_root_unique, node_at, root_view, shaped, trim_view, tree_view, LeafEntry, Path,
    TreeView,
};

verus! {

/// The inode of the filesystem root.
pub const ROOT_INO: u64 = 1;

/// What a change finder holds, seen from outside.
pub ghost struct FinderView {
    /// The tree of changed directories below the root.
    pub tree: TreeView,
    /// The path of the filesystem root.
    pub root_path: Seq<char>,
    /// The root itself changed: the whole filesystem is to be rescanned.
    pub root_scanned: bool,
    /// The last changelog entry recorded, all zeros before the first.
    pub final_state: WalkInodesEntry,
}

/// The state of the change finder.
pub struct ChangeFinder {
    arena: Arena<TreeData>,
    root: NodeId,
    root_path: String,
    root_scanned: bool,
    final_state: WalkInodesEntry,
}

/// The all-zero changelog position, where a walk with no state starts.
pub open spec fn zero_state() -> WalkInodesEntry {
    WalkInodesEntry { major: 0, ino: 0, minor: 0 }
}

impl View for ChangeFinder {
    type V = FinderView;

    closed spec fn view(&self) -> FinderView {
        FinderView {
            tree: tree_view(arena_nodes(self.arena), self.root),
            root_path: self.root_path@,
            root_scanned: self.root_scanned,
            final_state: self.final_state,
        }
    }
}

impl ChangeFinder {
    /// The arena holds one well-formed tree, rooted at the root, no name below
    /// the root holds a `/`, and once the root has changed the root has no
    /// children.
    pub closed spec fn well_formed(&self) -> bool {
        &&& change_tree_wf(arena_nodes(self.arena), self.root)
        &&& names_free(self@.tree)
        &&& self.root_scanned ==> arena_nodes(self.arena)[self.root].children.len() == 0
    }

    /// The leaves of the tree, depth first, with full paths that start at the
    /// root's path.
    pub closed spec fn leaves(&self) -> Seq<LeafEntry> {
        leaf_entries(
            arena_nodes(self.arena),
            arena_nodes(self.arena)[self.root].children,
            self.root_path@,
            depth_bound(arena_nodes(self.arena)),
        )
    }

    /// The tree has a depth: some bound that no position of its view reaches;
    /// and every name that a position lists among its children leads to a
    /// position.
    pub proof fn lemma_depth(finder: &ChangeFinder) -> (b: nat)
        requires
            finder.well_formed(),
        ensures
            depth_below(finder@.tree, b),
            kids_in_view(finder@.tree),
    {
        let m = arena_nodes(finder.arena);
        let (pm, bound) = choose|pm: Map<NodeId, Path>, bound: nat| shaped(m, finder.root, pm, bound);
        lemma_view_facts(m, finder.root, pm, bound);
        bound
    }

    /// The leaves that `rescan_list` reports are those of the view of the
    /// tree: depth first, children in the order they were added, each
    /// position without children listed with its full path and inode.
    pub proof fn lemma_leaves_of_view(finder: &ChangeFinder, b: nat)
        requires
            finder.well_formed(),
            depth_below(finder@.tree, b),
        ensures
            finder.leaves() == view_leaves(
                finder@.tree,
                Seq::<Seq<char>>::empty(),
                finder@.tree[Seq::<Seq<char>>::empty()].kids,
                finder@.root_path,
                b,
            ),
    {
        let m = arena_nodes(finder.arena);
        let root = finder.root;
        let v = finder@.tree;
        let (pm, bound) = choose|pm: Map<NodeId, Path>, bound: nat| shaped(m, root, pm, bound);
        lemma_view_facts(m, root, pm, bound);
        assert(bounds_depth(m, bound));
        let b0 = depth_bound(m);
        let (r1, pm1) = choose|r: NodeId, pm1: Map<NodeId, Path>| shaped(m, r, pm1, b0);
        lemma_root_unique(m, r1, pm1, b0, root, pm, bound);
        lemma_view_facts(m, root, pm1, b0);
        lemma_entries_match(m, root, pm, bound, root, m[root].children, finder.root_path@, b0);
        lemma_node_at_complete(m, root, pm, bound, root);
        let top = Seq::<Seq<char>>::empty();
        assert(v.dom().contains(top));
        assert forall|i: int| 0 <= i < v[top].kids.len() implies v.dom().contains(#[trigger] top.push(v[top].kids[i])) by {}
        let least: nat = if b0 <= b { b0 } else { b };
        lemma_view_leaves_fuel(v, top, v[top].kids, finder.root_path@, b0, b, least);
    }

    /// The rescan list never names a directory twice.
    pub proof fn law_rescan_list_no_repeats(finder: &ChangeFinder)
        requires
            finder.well_formed(),
        ensures
            no_repeated_paths(
                (if finder@.root_scanned {
                    seq![(finder@.root_path, ROOT_INO)]
                } else {
                    Seq::<(Seq<char>, u64)>::empty()
                }) + entry_pairs(finder.leaves()),
            ),
    {
        let m = arena_nodes(finder.arena);
        let (pm, bound) = choose|pm: Map<NodeId, Path>, bound: nat| shaped(m, finder.root, pm, bound);
        lemma_tree_view_shaped(m, finder.root);
        lemma_node_at_complete(m, finder.root, pm, bound, finder.root);
        lemma_kids_distinct(m, finder.root, pm, bound);
        let b = Self::lemma_depth(finder);
        Self::lemma_leaves_of_view(finder, b);
        lemma_listing_apart(finder@.tree, finder@.root_path, b);
        let entries = finder.leaves();
        let pairs = entry_pairs(entries);
        if finder.root_scanned {
            assert(leaf_entries(m, m[finder.root].children, finder.root_path@, depth_bound(m)) =~= Seq::<LeafEntry>::empty());
            assert(pairs =~= Seq::<(Seq<char>, u64)>::empty());
        }
        let head = if finder@.root_scanned {
            seq![(finder@.root_path, ROOT_INO)]
        } else {
            Seq::<(Seq<char>, u64)>::empty()
        };
        let out = head + pairs;
        assert forall|i: int, j: int|
            #![trigger out[i], out[j]]
            0 <= i < j < out.len() implies out[i].0 != out[j].0 by {
            if head.len() == 0 {
                assert(out[i] == pairs[i]);
                assert(out[j] == pairs[j]);
                assert(entries[i].path != entries[j].path);
            } else {
                assert(pairs.len() == 0);
            }
        }
    }

    /// A finder for the filesystem rooted at `fs_root_path`: its tree is the
    /// root alone, holding the root inode, and nothing is recorded yet.
    pub fn new(fs_root_path: String) -> (finder: Self)
        ensures
            finder.well_formed(),
            finder@ == (FinderView {
                tree: root_view(ROOT_INO),
                root_path: fs_root_path@,
                root_scanned: false,
                final_state: zero_state(),
            }),
    {
        let mut arena = highest_change_tree_create();
        let name = fs_root_path.clone();
        let root = highest_change_tree_new_node(&mut arena, TreeData { name, ino: ROOT_INO });
        ChangeFinder {
            arena,
            root,
            root_path: fs_root_path,
            root_scanned: false,
            final_state: WalkInodesEntry { major: 0, ino: 0, minor: 0 },
        }
    }

    /// Records one path of the inode of a changelog entry. Once the root has
    /// changed nothing more is added; a change of the root (its inode) trims
    /// the whole tree; any other path is added to the tree, its new leaf
    /// holding the entry's inode. The entry becomes the final state.
    pub fn record_path(&mut self, entry: WalkInodesEntry, path: String)
        requires
            old(self).well_formed(),
        ensures
            final(self).well_formed(),
            final(self)@.root_path == old(self)@.root_path,
            final(self)@.final_state == entry,
            final(self)@.root_scanned == (old(self)@.root_scanned || entry.ino == ROOT_INO),
            final(self)@.tree == (if old(self)@.root_scanned {
                old(self)@.tree
            } else if entry.ino == ROOT_INO {
                trim_view(old(self)@.tree, Seq::<Seq<char>>::empty())
            } else {
                add_walk(old(self)@.tree, Seq::<Seq<char>>::empty(), split_on(path@, '/'), 0, entry.ino, 0)
            }),
    {
        if self.root_scanned {
            self.final_state = entry;
            return;
        }
        if entry.ino == ROOT_INO {
            let ghost m = arena_nodes(self.arena);
            assert(node_at(m, self.root, Seq::<Seq<char>>::empty()) == Some(self.root));
            proof {
                let (pm, b) = choose|pm: Map<NodeId, Path>, b: nat| shaped(m, self.root, pm, b);
                assert(m.dom().contains(self.root));
            }
            highest_change_tree_trim_below(&mut self.arena, self.root);
            self.root_scanned = true;
            self.final_state = entry;
            return;
        }
        proof {
            let m = arena_nodes(self.arena);
            let (pm, b) = choose|pm: Map<NodeId, Path>, b: nat| shaped(m, self.root, pm, b);
            lemma_node_at_complete(m, self.root, pm, b, self.root);
            lemma_split_pieces_free(path@, '/');
            lemma_walk_keeps_names(
                self@.tree,
                Seq::<Seq<char>>::empty(),
                split_on(path@, '/'),
                0,
                entry.ino,
                0,
            );
        }
        highest_change_tree_add_path(&mut self.arena, self.root, path, entry.ino);
        self.final_state = entry;
    }

    /// The directories to rescan, if anything was recorded: the root first
    /// if it changed, then the leaves of the tree, depth first, each with its
    /// full path and inode. Nothing when no entry was recorded.
    pub fn rescan_list(&self) -> (list: Option<Vec<TreeData>>)
        requires
            self.well_formed(),
        ensures
            self@.final_state == zero_state() ==> list is None,
            self@.root_scanned ==> self.leaves() == Seq::<LeafEntry>::empty(),
            self@.final_state != zero_state() ==> (list matches Some(l) && data_views(l@) == (
            if self@.root_scanned {
                seq![(self@.root_path, ROOT_INO)]
            } else {
                Seq::<(Seq<char>, u64)>::empty()
            }) + entry_pairs(self.leaves())),
    {
        if self.final_state.major == 0 && self.final_state.ino == 0 && self.final_state.minor == 0 {
            return None;
        }
        let mut list: Vec<TreeData> = Vec::new();
        if self.root_scanned {
            let name = self.root_path.clone();
            list.push(TreeData { name, ino: ROOT_INO });
        }
        let ghost head = data_views(list@);
        proof {
            let m = arena_nodes(self.arena);
            let (pm, b) = choose|pm: Map<NodeId, Path>, b: nat| shaped(m, self.root, pm, b);
            assert(m.dom().contains(self.root));
        }
        highest_change_tree_parse_leaves(self.root, &mut list, self.root_path.clone(), &self.arena);
        assert(head == (if self.root_scanned {
            seq![(self.root_path@, ROOT_INO)]
        } else {
            Seq::<(Seq<char>, u64)>::empty()
        }));
        Some(list)
    }
}

} // verus!
