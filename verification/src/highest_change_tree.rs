//! The change tree kept directly in an indextree arena: a tree whose leaves
//! are the highest directories in which changes occurred in a filesystem.
//! Paths from a changelog are added one by one; a path that would end below
//! an existing leaf is ignored, and a path that ends above existing nodes
//! trims them so that it becomes a leaf itself. A node that collects too many
//! children is trimmed and becomes a leaf, so that its whole directory is
//! rescanned. The leaves are then listed for reindexing.
use indextree::{Arena, NodeId};
use vstd::prelude::*;

use crate::arena::{
    arena_new, arena_new_node, arena_nodes, node_append, node_children, node_data,
    node_first_child, node_remove_subtree, ArenaNode,
};
use crate::text::{split_on, split_str, string_views};
use crate::tree_model::{
    add_child_view, add_walk, change_tree_wf, find_child, lemma_add_child, lemma_ancestor,
    lemma_node_at_complete, lemma_node_at_sound, lemma_parent_of, lemma_remove_child,
    lemma_remove_first, lemma_root_unique, lemma_trim, node_at, shaped, strictly_below, lemma_child_path,
    trim_nodes, trim_view, tree_view, with_child_appended, with_new_leaf, Nodes, Path,
    MAX_CHILD_COUNT, leaf_entries, LeafEntry, depth_bound, bounds_depth, root_view,
    lemma_single_node, child_names,
};
use crate::laws::{
    covered, law_added_path_is_covered, law_covered_path_ignored, lemma_tree_view_shaped,
    root_has_room,
};
use crate::text::lemma_split_nonempty;
use crate::text::push_char;

verus! {

/// One node of the change tree: a path component (or, in listed output, a
/// full path) and the inode number recorded for it.
#[derive(Debug)]
pub struct TreeData {
    pub name: String,
    pub ino: u64,
}

/// Removes the subtrees of all children of `node`, one child after another.
pub(crate) fn trim_children(
    arena: &mut Arena<TreeData>,
    node: NodeId,
    Ghost(root): Ghost<NodeId>,
    Ghost(pm): Ghost<Map<NodeId, Path>>,
    Ghost(bound): Ghost<nat>,
)
    requires
        shaped(arena_nodes(*old(arena)), root, pm, bound),
        arena_nodes(*old(arena)).dom().contains(node),
    ensures
        arena_nodes(*final(arena)) == trim_nodes(arena_nodes(*old(arena)), node),
        shaped(arena_nodes(*final(arena)), root, pm.restrict(arena_nodes(*final(arena)).dom()), bound),
        tree_view(arena_nodes(*final(arena)), root) == trim_view(
            tree_view(arena_nodes(*old(arena)), root),
            pm[node],
        ),
{
    let ghost m0 = arena_nodes(*arena);
    let ghost pn = pm[node];
    let kids = node_children(node, arena);
    let ghost names = kids@.map_values(|c: NodeId| m0[c].name);
    proof {
        lemma_trim(m0, root, pm, bound, node);
        assert(kids@.subrange(0, kids@.len() as int) =~= kids@);
        assert(m0.restrict(m0.dom()) =~= m0);
        assert(pm.restrict(m0.dom()) =~= pm);
        assert(names.subrange(0, 0) =~= Seq::<Seq<char>>::empty());
    }
    let mut i: usize = 0;
    while i < kids.len()
        invariant
            shaped(m0, root, pm, bound),
            m0.dom().contains(node),
            pn == pm[node],
            kids@ == m0[node].children,
            names == kids@.map_values(|c: NodeId| m0[c].name),
            0 <= i <= kids.len(),
            shaped(arena_nodes(*arena), root, pm.restrict(arena_nodes(*arena).dom()), bound),
            forall|x: NodeId| #[trigger]
                arena_nodes(*arena).dom().contains(x) == (m0.dom().contains(x) && !(strictly_below(
                    pm[x],
                    pn,
                ) && names.subrange(0, i as int).contains(pm[x][pn.len() as int]))),
            arena_nodes(*arena).dom().contains(node),
            arena_nodes(*arena)[node].children == kids@.subrange(i as int, kids@.len() as int),
            arena_nodes(*arena)[node].name == m0[node].name,
            arena_nodes(*arena)[node].ino == m0[node].ino,
            forall|x: NodeId|
                arena_nodes(*arena).dom().contains(x) && x != node ==> #[trigger] arena_nodes(
                    *arena,
                )[x] == m0[x],
        decreases kids.len() - i,
    {
        let ghost mi = arena_nodes(*arena);
        let ghost pmi = pm.restrict(mi.dom());
        let c = kids[i];
        proof {
            assert(mi[node].children[0] == c);
            assert(mi[node].children.contains(c));
        }
        node_remove_subtree(c, arena);
        proof {
            let m2 = arena_nodes(*arena);
            lemma_remove_child(mi, root, pmi, bound, node, c, m2);
            assert(pmi.restrict(m2.dom()) =~= pm.restrict(m2.dom()));
            lemma_remove_first(mi[node].children, c);
            assert(mi[node].children.drop_first() =~= kids@.subrange(i + 1, kids@.len() as int));
            assert(m0[node].children[i as int] == c);
            assert(m0.dom().contains(c));
            assert(pm[c] == pn.push(m0[c].name));
            assert(names[i as int] == m0[c].name);
            assert forall|x: NodeId| #[trigger]
                m2.dom().contains(x) == (m0.dom().contains(x) && !(strictly_below(pm[x], pn)
                    && names.subrange(0, i + 1).contains(pm[x][pn.len() as int]))) by {
                if m0.dom().contains(x) {
                    let below = strictly_below(pm[x], pn);
                    if below {
                        let w = pm[x][pn.len() as int];
                        let pre1 = names.subrange(0, i + 1);
                        let pre0 = names.subrange(0, i as int);
                        assert(pre1 =~= pre0.push(names[i as int]));
                        assert(pre1.contains(w) == (pre0.contains(w) || w == names[i as int])) by {
                            if pre1.contains(w) {
                                let j = choose|j: int| 0 <= j < pre1.len() && pre1[j] == w;
                                if j < pre0.len() {
                                    assert(pre0[j] == w);
                                }
                            }
                            if pre0.contains(w) {
                                let j = choose|j: int| 0 <= j < pre0.len() && pre0[j] == w;
                                assert(pre1[j] == w);
                            }
                            if w == names[i as int] {
                                assert(pre1[pre0.len() as int] == w);
                            }
                        }
                        assert(pm[c].is_prefix_of(pm[x]) == (w == names[i as int])) by {
                            if w == names[i as int] {
                                assert(pm[c] =~= pm[x].subrange(0, pm[c].len() as int));
                            }
                            if pm[c].is_prefix_of(pm[x]) {
                                assert(pm[c][pn.len() as int] == pm[x][pn.len() as int]);
                            }
                        }
                    } else {
                        assert(!pm[c].is_prefix_of(pm[x])) by {
                            if pm[c].is_prefix_of(pm[x]) {
                                assert(pn =~= pm[x].subrange(0, pn.len() as int));
                            }
                        }
                    }
                    if mi.dom().contains(x) {
                        assert(pmi[x] == pm[x]);
                    }
                }
            }
        }
        i = i + 1;
    }
    proof {
        let mf = arena_nodes(*arena);
        let trimmed = trim_nodes(m0, node);
        assert forall|x: NodeId| #[trigger] mf.dom().contains(x) == trimmed.dom().contains(x) by {
            if m0.dom().contains(x) && strictly_below(pm[x], pn) {
                let y = lemma_ancestor(m0, root, pm, bound, x, pn.len() as int + 1);
                assert(y != root);
                let p = lemma_parent_of(m0, root, pm, bound, y);
                assert(pm[p] =~= pn);
                assert(p == node);
                let k = choose|k: int| 0 <= k < kids@.len() && kids@[k] == y;
                assert(names[k] == m0[y].name);
                assert(pm[y] == pm[p].push(m0[y].name));
                assert(pm[y][pn.len() as int] == m0[y].name);
                assert(pm[y][pn.len() as int] == pm[x].subrange(0, pn.len() as int + 1)[pn.len() as int]);
                assert(m0[y].name == pm[x][pn.len() as int]);
                assert(names.subrange(0, kids@.len() as int)[k] == names[k]);
            }
        }
        assert(mf.dom() =~= trimmed.dom());
        assert(mf[node].children =~= Seq::<NodeId>::empty());
        assert(mf =~= trimmed);
    }
}


/// The first of `kids` whose name is `name`.
fn find_named_child(arena: &Arena<TreeData>, kids: &Vec<NodeId>, name: &String) -> (found: Option<
    NodeId,
>)
    requires
        forall|i: int| 0 <= i < kids@.len() ==> arena_nodes(*arena).dom().contains(#[trigger] kids@[i]),
    ensures
        found == find_child(arena_nodes(*arena), kids@, name@),
{
    let ghost m = arena_nodes(*arena);
    assert(kids@.subrange(0, kids@.len() as int) =~= kids@);
    let mut k: usize = 0;
    while k < kids.len()
        invariant
            m == arena_nodes(*arena),
            forall|i: int| 0 <= i < kids@.len() ==> m.dom().contains(#[trigger] kids@[i]),
            0 <= k <= kids.len(),
            find_child(m, kids@, name@) == find_child(m, kids@.subrange(k as int, kids@.len() as int), name@),
        decreases kids.len() - k,
    {
        let c = kids[k];
        let data = node_data(arena, c);
        let ghost rest = kids@.subrange(k as int, kids@.len() as int);
        assert(rest[0] == c);
        assert(rest.drop_first() =~= kids@.subrange(k + 1, kids@.len() as int));
        if data.name == *name {
            return Some(c);
        }
        k = k + 1;
    }
    None
}

/// Every node live in both `m0` and `m` holds the same name and inode in
/// both.
pub open spec fn kept_data(m0: Nodes, m: Nodes) -> bool {
    forall|n: NodeId|
        #[trigger] m.dom().contains(n) && m0.dom().contains(n) ==> m[n].name == m0[n].name
            && m[n].ino == m0[n].ino
}

/// Every position that leads to a node from `root` both in `m0` and in `m`
/// leads to the same node in both: the node there survived, under its
/// identifier.
pub open spec fn same_nodes(m0: Nodes, m: Nodes, root: NodeId) -> bool {
    forall|q: Path|
        #[trigger] node_at(m, root, q) is Some && node_at(m0, root, q) is Some ==> node_at(
            m,
            root,
            q,
        ) == node_at(m0, root, q)
}

/// An arena whose tree shows the same view, keeps the data of its nodes and
/// has the same node at every position is the same arena. With the
/// `ensures` of `highest_change_tree_add_path`, an add that leaves the view
/// unchanged (a path already covered, a path added twice) leaves the arena
/// unchanged.
pub proof fn law_same_view_same_arena(m0: Nodes, m: Nodes, root: NodeId)
    requires
        change_tree_wf(m0, root),
        change_tree_wf(m, root),
        tree_view(m0, root) == tree_view(m, root),
        kept_data(m0, m),
        same_nodes(m0, m, root),
    ensures
        m == m0,
{
    let (pm0, b0) = choose|pm: Map<NodeId, Path>, b: nat| shaped(m0, root, pm, b);
    let (pm, b) = choose|pm: Map<NodeId, Path>, b: nat| shaped(m, root, pm, b);
    let v = tree_view(m, root);
    assert forall|n: NodeId| #[trigger] m0.dom().contains(n) implies m.dom().contains(n) && pm[n] == pm0[n] by {
        lemma_node_at_complete(m0, root, pm0, b0, n);
        assert(tree_view(m0, root).dom().contains(pm0[n]));
        assert(v.dom().contains(pm0[n]));
        assert(node_at(m, root, pm0[n]) is Some);
        assert(node_at(m, root, pm0[n]) == Some(n));
        lemma_node_at_sound(m, root, pm, b, pm0[n]);
    }
    assert forall|n: NodeId| #[trigger] m.dom().contains(n) implies m0.dom().contains(n) by {
        lemma_node_at_complete(m, root, pm, b, n);
        assert(v.dom().contains(pm[n]));
        assert(tree_view(m0, root).dom().contains(pm[n]));
        assert(node_at(m0, root, pm[n]) is Some);
        assert(node_at(m, root, pm[n]) == Some(n));
        assert(node_at(m0, root, pm[n]) == Some(n));
        lemma_node_at_sound(m0, root, pm0, b0, pm[n]);
    }
    assert forall|n: NodeId| #[trigger] m.dom().contains(n) == m0.dom().contains(n) by {
        if m.dom().contains(n) {
            assert(m0.dom().contains(n));
        }
    }
    assert(m.dom() =~= m0.dom());
    assert forall|n: NodeId| #[trigger] m.dom().contains(n) implies m[n] == m0[n] by {
        let q = pm[n];
        lemma_node_at_complete(m, root, pm, b, n);
        assert(v.dom().contains(q));
        let kids = m[n].children;
        let kids0 = m0[n].children;
        assert(v[q].kids == child_names(m, kids));
        assert(tree_view(m0, root)[q].kids == child_names(m0, kids0)) by {
            lemma_node_at_complete(m0, root, pm0, b0, n);
        }
        assert(kids.len() == kids0.len());
        assert forall|i: int| 0 <= i < kids.len() implies kids[i] == kids0[i] by {
            let c = kids[i];
            let c0 = kids0[i];
            assert(m[n].children.contains(c));
            assert(m0[n].children.contains(c0));
            lemma_child_path(m, root, pm, b, n, c);
            lemma_child_path(m0, root, pm0, b0, n, c0);
            assert(child_names(m, kids)[i] == child_names(m0, kids0)[i]);
            assert(m[c].name == m0[c0].name);
            lemma_node_at_complete(m, root, pm, b, c);
            lemma_node_at_complete(m0, root, pm0, b0, c0);
            assert(pm[c] == pm0[c0]);
        }
        assert(kids =~= kids0);
    }
    assert(m =~= m0);
}

/// An add of a path that a leaf already covers leaves the arena as it was:
/// no node is created, removed or changed (a node that would end up below
/// an existing leaf is ignored).
pub proof fn law_covered_add_keeps_arena(
    m0: Nodes,
    m: Nodes,
    root: NodeId,
    comps: Seq<Seq<char>>,
    leaf_ino: u64,
    inner_ino: u64,
)
    requires
        change_tree_wf(m0, root),
        change_tree_wf(m, root),
        covered(tree_view(m0, root), comps),
        tree_view(m, root) == add_walk(
            tree_view(m0, root),
            Seq::<Seq<char>>::empty(),
            comps,
            0,
            leaf_ino,
            inner_ino,
        ),
        kept_data(m0, m),
        same_nodes(m0, m, root),
    ensures
        m == m0,
{
    lemma_tree_view_shaped(m0, root);
    law_covered_path_ignored(tree_view(m0, root), comps, leaf_ino, inner_ino);
    law_same_view_same_arena(m0, m, root);
}

/// Adding the same path a second time leaves the arena as the first add
/// left it, when the first add did not overflow the root.
pub proof fn law_add_twice_keeps_arena(
    m0: Nodes,
    m1: Nodes,
    m2: Nodes,
    root: NodeId,
    comps: Seq<Seq<char>>,
    leaf_ino: u64,
    inner_ino: u64,
)
    requires
        change_tree_wf(m0, root),
        change_tree_wf(m1, root),
        change_tree_wf(m2, root),
        comps.len() >= 1,
        root_has_room(tree_view(m0, root), comps),
        tree_view(m1, root) == add_walk(
            tree_view(m0, root),
            Seq::<Seq<char>>::empty(),
            comps,
            0,
            leaf_ino,
            inner_ino,
        ),
        tree_view(m2, root) == add_walk(
            tree_view(m1, root),
            Seq::<Seq<char>>::empty(),
            comps,
            0,
            leaf_ino,
            inner_ino,
        ),
        kept_data(m1, m2),
        same_nodes(m1, m2, root),
    ensures
        m2 == m1,
{
    let (pm, b) = choose|pm: Map<NodeId, Path>, b: nat| shaped(m0, root, pm, b);
    lemma_node_at_complete(m0, root, pm, b, root);
    law_added_path_is_covered(tree_view(m0, root), comps, leaf_ino, inner_ino);
    law_covered_add_keeps_arena(m1, m2, root, comps, leaf_ino, inner_ino);
}

/// Walks the components `comps` down from `root`, as `add_walk` describes,
/// adding, trimming and stopping as it goes.
pub(crate) fn add_components(
    arena: &mut Arena<TreeData>,
    root: NodeId,
    comps: &Vec<String>,
    leaf_ino: u64,
    inner_ino: u64,
)
    requires
        change_tree_wf(arena_nodes(*old(arena)), root),
        comps.len() >= 1,
    ensures
        change_tree_wf(arena_nodes(*final(arena)), root),
        tree_view(arena_nodes(*final(arena)), root) == add_walk(
            tree_view(arena_nodes(*old(arena)), root),
            Seq::<Seq<char>>::empty(),
            string_views(comps@),
            0,
            leaf_ino,
            inner_ino,
        ),
        kept_data(arena_nodes(*old(arena)), arena_nodes(*final(arena))),
        same_nodes(arena_nodes(*old(arena)), arena_nodes(*final(arena)), root),
        arena_nodes(*final(arena)).dom().contains(root),
{
    let ghost m0 = arena_nodes(*arena);
    let ghost cs = string_views(comps@);
    let ghost target = add_walk(tree_view(arena_nodes(*arena), root), Seq::<Seq<char>>::empty(), cs, 0, leaf_ino, inner_ino);
    let mut cur = root;
    let ghost mut cur_path: Path = Seq::<Seq<char>>::empty();
    let mut j: usize = 0;
    while j < comps.len()
        invariant_except_break
            node_at(arena_nodes(*arena), root, cur_path) == Some(cur),
            add_walk(tree_view(arena_nodes(*arena), root), cur_path, cs, j as int, leaf_ino, inner_ino) == target,
            j < comps.len() ==> m0.dom().subset_of(arena_nodes(*arena).dom()),
            j < comps.len() ==> tree_view(m0, root).dom().subset_of(
                tree_view(arena_nodes(*arena), root).dom(),
            ),
        invariant
            cs == string_views(comps@),
            comps.len() >= 1,
            0 <= j <= comps.len(),
            change_tree_wf(arena_nodes(*arena), root),
            kept_data(m0, arena_nodes(*arena)),
            same_nodes(m0, arena_nodes(*arena), root),
            arena_nodes(*arena).dom().contains(root),
        ensures
            change_tree_wf(arena_nodes(*arena), root),
            tree_view(arena_nodes(*arena), root) == target,
            kept_data(m0, arena_nodes(*arena)),
            same_nodes(m0, arena_nodes(*arena), root),
            arena_nodes(*arena).dom().contains(root),
        decreases comps.len() - j,
    {
        let ghost m = arena_nodes(*arena);
        let ghost v = tree_view(m, root);
        let ghost (pm, bound) = choose|pm: Map<NodeId, Path>, bound: nat| shaped(m, root, pm, bound);
        proof {
            lemma_node_at_sound(m, root, pm, bound, cur_path);
        }
        let e = &comps[j];
        let ghost next = cur_path.push(e@);
        assert(cs[j as int] == e@);
        assert(next.drop_last() =~= cur_path);
        let kids = node_children(cur, arena);
        proof {
            assert forall|i: int| 0 <= i < kids@.len() implies m.dom().contains(#[trigger] kids@[i]) by {
                assert(m[cur].children[i] == kids@[i]);
            }
        }
        let found = find_named_child(arena, &kids, e);
        let child: NodeId;
        match found {
            Some(c) => {
                proof {
                    assert(node_at(m, root, next) == Some(c));
                    lemma_node_at_sound(m, root, pm, bound, next);
                }
                let ckids = node_children(c, arena);
                assert(v[next].kids.len() == ckids@.len());
                if ckids.len() == 0 {
                    break;
                }
                if j == comps.len() - 1 {
                    trim_children(arena, c, Ghost(root), Ghost(pm), Ghost(bound));
                    proof {
                        let m2 = arena_nodes(*arena);
                        let pm2 = pm.restrict(m2.dom());
                        lemma_trim(m, root, pm, bound, c);
                        assert(m2.dom().contains(c));
                        lemma_node_at_complete(m2, root, pm2, bound, c);
                        assert forall|q: Path|
                            #[trigger] node_at(m2, root, q) is Some && node_at(m0, root, q) is Some implies node_at(
                            m2,
                            root,
                            q,
                        ) == node_at(m0, root, q) by {
                            lemma_node_at_sound(m2, root, pm2, bound, q);
                            let x = node_at(m2, root, q)->0;
                            lemma_node_at_complete(m, root, pm, bound, x);
                        }
                    }
                }
                child = c;
            },
            None => {
                proof {
                    assert(node_at(m, root, next) is None);
                }
                let ino = if j == comps.len() - 1 {
                    leaf_ino
                } else {
                    inner_ino
                };
                let new = arena_new_node(arena, TreeData { name: e.clone(), ino });
                proof {
                    let m1 = arena_nodes(*arena);
                    assert(m1 == with_new_leaf(m, new, e@, ino));
                    assert forall|n: NodeId| m1.dom().contains(n) implies !(#[trigger] m1[n].children.contains(new)) by {
                        if n != new {
                            if m[n].children.contains(new) {
                                let i = choose|i: int| 0 <= i < m[n].children.len() && m[n].children[i] == new;
                                assert(m.dom().contains(m[n].children[i]));
                            }
                        }
                    }
                }
                node_append(cur, new, arena);
                let ghost pm2 = pm.insert(new, pm[cur].push(e@));
                proof {
                    let m2 = arena_nodes(*arena);
                    assert(m2 == with_child_appended(with_new_leaf(m, new, e@, ino), cur, new));
                    lemma_add_child(m, root, pm, bound, cur, new, e@, ino);
                    lemma_node_at_complete(m2, root, pm2, bound + 1, cur);
                    lemma_node_at_complete(m2, root, pm2, bound + 1, new);
                    assert(tree_view(m2, root) == add_child_view(v, cur_path, e@, ino));
                    assert forall|q: Path|
                        #[trigger] node_at(m2, root, q) is Some && node_at(m0, root, q) is Some implies node_at(
                        m2,
                        root,
                        q,
                    ) == node_at(m0, root, q) by {
                        assert(tree_view(m0, root).dom().contains(q));
                        assert(v.dom().contains(q));
                        lemma_node_at_sound(m, root, pm, bound, q);
                        let y = node_at(m, root, q)->0;
                        assert(pm2[y] == q);
                        lemma_node_at_complete(m2, root, pm2, bound + 1, y);
                    }
                }
                let ghost m2_nodes = arena_nodes(*arena);
                let count = node_children(cur, arena).len();
                if count > MAX_CHILD_COUNT {
                    trim_children(arena, cur, Ghost(root), Ghost(pm2), Ghost(bound + 1));
                    proof {
                        let m3 = arena_nodes(*arena);
                        assert(shaped(m3, root, pm2.restrict(m3.dom()), bound + 1));
                        assert(pm2[cur] == cur_path);
                        assert(add_child_view(v, cur_path, e@, ino)[cur_path].kids.len() > MAX_CHILD_COUNT);
                        assert(tree_view(m3, root) == target);
                        assert forall|q: Path|
                            #[trigger] node_at(m3, root, q) is Some && node_at(m0, root, q) is Some implies node_at(
                            m3,
                            root,
                            q,
                        ) == node_at(m0, root, q) by {
                            lemma_node_at_sound(m3, root, pm2.restrict(m3.dom()), bound + 1, q);
                            let x = node_at(m3, root, q)->0;
                            lemma_node_at_complete(m2_nodes, root, pm2, bound + 1, x);
                            assert(node_at(m2_nodes, root, q) is Some);
                        }
                    }
                    break;
                }
                proof {
                    let m2 = arena_nodes(*arena);
                    assert(m2[new].children.len() == 0);
                }
                child = new;
            },
        }
        cur = child;
        proof {
            cur_path = next;
        }
        j = j + 1;
    }
}


/// The full paths and inodes of a list of tree data.
pub open spec fn data_views(v: Seq<TreeData>) -> Seq<(Seq<char>, u64)> {
    v.map_values(|d: TreeData| (d.name@, d.ino))
}

/// The full paths and inodes of a list of leaf entries.
pub open spec fn entry_pairs(e: Seq<LeafEntry>) -> Seq<(Seq<char>, u64)> {
    e.map_values(|x: LeafEntry| (x.path, x.ino))
}

/// `prefix`, a slash, and `name`.
fn join_component(prefix: &String, name: &String) -> (joined: String)
    ensures
        joined@ == prefix@ + seq!['/'] + name@,
{
    let mut joined = prefix.clone();
    push_char(&mut joined, '/');
    joined.append(name.as_str());
    joined
}

/// A leaf found by a depth-first walk: its full path, its parent's full path,
/// and its inode.
pub(crate) struct LeafRecord {
    pub(crate) path: String,
    pub(crate) parent: String,
    pub(crate) ino: u64,
}

pub(crate) open spec fn leaf_views(v: Seq<LeafRecord>) -> Seq<LeafEntry> {
    v.map_values(|r: LeafRecord| LeafEntry { path: r.path@, parent: r.parent@, ino: r.ino })
}

/// Appends to `out`, depth first, the leaves below `node`, with full paths.
pub(crate) fn collect_leaves(
    arena: &Arena<TreeData>,
    node: NodeId,
    out: &mut Vec<LeafRecord>,
    prefix: &String,
    Ghost(root): Ghost<NodeId>,
    Ghost(pm): Ghost<Map<NodeId, Path>>,
    Ghost(bound): Ghost<nat>,
    Ghost(fuel): Ghost<nat>,
)
    requires
        shaped(arena_nodes(*arena), root, pm, bound),
        arena_nodes(*arena).dom().contains(node),
        fuel + pm[node].len() + 1 >= bound,
    ensures
        leaf_views(final(out)@) == leaf_views(old(out)@) + leaf_entries(
            arena_nodes(*arena),
            arena_nodes(*arena)[node].children,
            prefix@,
            fuel,
        ),
    decreases bound - pm[node].len(),
{
    let ghost m = arena_nodes(*arena);
    let ghost start = leaf_views(out@);
    let ghost all = leaf_entries(m, m[node].children, prefix@, fuel);
    let kids = node_children(node, arena);
    assert(kids@.subrange(0, kids@.len() as int) =~= kids@);
    assert(leaf_views(out@) + Seq::<LeafEntry>::empty() =~= leaf_views(out@));
    let mut i: usize = 0;
    while i < kids.len()
        invariant
            m == arena_nodes(*arena),
            shaped(m, root, pm, bound),
            m.dom().contains(node),
            fuel + pm[node].len() + 1 >= bound,
            kids@ == m[node].children,
            all == leaf_entries(m, kids@, prefix@, fuel),
            0 <= i <= kids.len(),
            start + all == leaf_views(out@) + leaf_entries(
                m,
                kids@.subrange(i as int, kids@.len() as int),
                prefix@,
                fuel,
            ),
        decreases kids.len() - i,
    {
        let ghost rest = kids@.subrange(i as int, kids@.len() as int);
        let c = kids[i];
        assert(rest[0] == c);
        assert(rest.drop_first() =~= kids@.subrange(i + 1, kids@.len() as int));
        proof {
            assert(m[node].children[i as int] == c);
            lemma_child_path(m, root, pm, bound, node, c);
        }
        let data = node_data(arena, c);
        let path = join_component(prefix, &data.name);
        let ghost here = if m[c].children.len() == 0 {
            seq![LeafEntry { path: path@, parent: prefix@, ino: m[c].ino }]
        } else if fuel == 0 {
            Seq::<LeafEntry>::empty()
        } else {
            leaf_entries(m, m[c].children, path@, (fuel - 1) as nat)
        };
        proof {
            assert(leaf_entries(m, rest, prefix@, fuel) == here + leaf_entries(m, rest.drop_first(), prefix@, fuel));
        }
        let ghost before = leaf_views(out@);
        match node_first_child(arena, c) {
            None => {
                let ino = data.ino;
                out.push(LeafRecord { path, parent: prefix.clone(), ino });
                proof {
                    assert(leaf_views(out@) =~= before + here);
                }
            },
            Some(g) => {
                proof {
                    lemma_child_path(m, root, pm, bound, c, g);
                    assert(m[c].children[0] == g);
                    assert(m[c].children.contains(g));
                }
                collect_leaves(arena, c, out, &path, Ghost(root), Ghost(pm), Ghost(bound), Ghost((fuel - 1) as nat));
            },
        }
        proof {
            assert(leaf_views(out@) == before + here);
            assert(start + all == leaf_views(out@) + leaf_entries(m, rest.drop_first(), prefix@, fuel));
        }
        i = i + 1;
    }
}


/// Creates the arena that holds a change tree; it has no nodes yet.
pub fn highest_change_tree_create() -> (arena: Arena<TreeData>)
    ensures
        arena_nodes(arena).dom() == Set::<NodeId>::empty(),
{
    arena_new()
}

/// Adds a node holding `data`, without parent or children (no live node
/// lists it as a child), and returns its identifier. It is meant for the root: the first node added to an empty
/// arena makes it a change tree that is that root alone.
pub fn highest_change_tree_new_node(arena: &mut Arena<TreeData>, data: TreeData) -> (id: NodeId)
    ensures
        !arena_nodes(*old(arena)).dom().contains(id),
        forall|n: NodeId|
            #[trigger] arena_nodes(*final(arena)).dom().contains(n) ==> !arena_nodes(
                *final(arena),
            )[n].children.contains(id),
        arena_nodes(*final(arena)) == arena_nodes(*old(arena)).insert(
            id,
            (ArenaNode { name: data.name@, ino: data.ino, children: Seq::<NodeId>::empty() }),
        ),
        arena_nodes(*old(arena)).dom() == Set::<NodeId>::empty() ==> change_tree_wf(
            arena_nodes(*final(arena)),
            id,
        ),
        arena_nodes(*old(arena)).dom() == Set::<NodeId>::empty() ==> tree_view(
            arena_nodes(*final(arena)),
            id,
        ) == root_view(data.ino),
{
    let ghost name = data.name@;
    let ghost ino = data.ino;
    let id = arena_new_node(arena, data);
    proof {
        let m = arena_nodes(*arena);
        if arena_nodes(*old(arena)).dom() == Set::<NodeId>::empty() {
            assert(m.dom() =~= Set::<NodeId>::empty().insert(id));
            lemma_single_node(m, id);
        }
    }
    id
}

/// Adds the path `path` (components separated by `/`) below `tree_root`:
/// walks down the components as `add_walk` describes, so that afterwards the
/// change is covered by a leaf. A node added for the last component holds
/// `ino`, a node added for another component holds 0. The root keeps its
/// name and inode, every node that stays keeps its data, and every position
/// that stays is held by the node that held it before.
pub fn highest_change_tree_add_path(
    arena: &mut Arena<TreeData>,
    tree_root: NodeId,
    path: String,
    ino: u64,
)
    requires
        change_tree_wf(arena_nodes(*old(arena)), tree_root),
    ensures
        change_tree_wf(arena_nodes(*final(arena)), tree_root),
        tree_view(arena_nodes(*final(arena)), tree_root) == add_walk(
            tree_view(arena_nodes(*old(arena)), tree_root),
            Seq::<Seq<char>>::empty(),
            split_on(path@, '/'),
            0,
            ino,
            0,
        ),
        arena_nodes(*final(arena)).dom().contains(tree_root),
        arena_nodes(*final(arena))[tree_root].name == arena_nodes(*old(arena))[tree_root].name,
        arena_nodes(*final(arena))[tree_root].ino == arena_nodes(*old(arena))[tree_root].ino,
        kept_data(arena_nodes(*old(arena)), arena_nodes(*final(arena))),
        same_nodes(arena_nodes(*old(arena)), arena_nodes(*final(arena)), tree_root),
{
    let comps = split_str(path.as_str(), '/');
    proof {
        lemma_split_nonempty(path@, '/');
    }
    add_components(arena, tree_root, &comps, ino, 0);
}

/// Removes every node below `node`, which becomes a leaf. It is public so
/// that a caller can trim below the root when the root itself changed.
pub fn highest_change_tree_trim_below(arena: &mut Arena<TreeData>, node: NodeId)
    requires
        exists|r: NodeId| change_tree_wf(arena_nodes(*old(arena)), r),
        arena_nodes(*old(arena)).dom().contains(node),
    ensures
        arena_nodes(*final(arena)) == trim_nodes(arena_nodes(*old(arena)), node),
        forall|r: NodeId| #[trigger]
            change_tree_wf(arena_nodes(*old(arena)), r) ==> change_tree_wf(
                arena_nodes(*final(arena)),
                r,
            ),
        forall|r: NodeId, q: Path|
            change_tree_wf(arena_nodes(*old(arena)), r) && #[trigger] node_at(
                arena_nodes(*old(arena)),
                r,
                q,
            ) == Some(node) ==> tree_view(arena_nodes(*final(arena)), r) == trim_view(
                tree_view(arena_nodes(*old(arena)), r),
                q,
            ),
{
    let ghost m = arena_nodes(*arena);
    let ghost root = choose|r: NodeId| change_tree_wf(m, r);
    let ghost (pm, bound) = choose|pm: Map<NodeId, Path>, bound: nat| shaped(m, root, pm, bound);
    trim_children(arena, node, Ghost(root), Ghost(pm), Ghost(bound));
    proof {
        let m2 = arena_nodes(*arena);
        assert(shaped(m2, root, pm.restrict(m2.dom()), bound));
        assert forall|r: NodeId| #[trigger] change_tree_wf(m, r) implies change_tree_wf(m2, r) by {
            let (pm1, b1) = choose|pm1: Map<NodeId, Path>, b1: nat| shaped(m, r, pm1, b1);
            lemma_root_unique(m, r, pm1, b1, root, pm, bound);
        }
        assert forall|r: NodeId, q: Path|
            change_tree_wf(m, r) && #[trigger] node_at(m, r, q) == Some(node) implies tree_view(m2, r) == trim_view(tree_view(m, r), q) by {
            let (pm1, b1) = choose|pm1: Map<NodeId, Path>, b1: nat| shaped(m, r, pm1, b1);
            lemma_root_unique(m, r, pm1, b1, root, pm, bound);
            lemma_node_at_sound(m, root, pm, bound, q);
        }
    }
}

/// Appends to `parent_list`, depth first, the leaves below `node`: for each,
/// its full path (`partial_path`, then `/` and a name for each level) and its
/// inode.
pub fn highest_change_tree_parse_leaves(
    node: NodeId,
    parent_list: &mut Vec<TreeData>,
    partial_path: String,
    arena: &Arena<TreeData>,
)
    requires
        exists|r: NodeId| change_tree_wf(arena_nodes(*arena), r),
        arena_nodes(*arena).dom().contains(node),
    ensures
        data_views(final(parent_list)@) == data_views(old(parent_list)@) + entry_pairs(
            leaf_entries(
                arena_nodes(*arena),
                arena_nodes(*arena)[node].children,
                partial_path@,
                depth_bound(arena_nodes(*arena)),
            ),
        ),
{
    let ghost m = arena_nodes(*arena);
    proof {
        let r0 = choose|r: NodeId| change_tree_wf(m, r);
        let (pm0, b0) = choose|pm: Map<NodeId, Path>, b: nat| shaped(m, r0, pm, b);
        assert(bounds_depth(m, b0));
    }
    let ghost b = depth_bound(m);
    let ghost (root, pm) = choose|r: NodeId, pm: Map<NodeId, Path>| shaped(m, r, pm, b);
    let mut leaves: Vec<LeafRecord> = Vec::new();
    collect_leaves(arena, node, &mut leaves, &partial_path, Ghost(root), Ghost(pm), Ghost(b), Ghost(b));
    assert(leaf_views(leaves@) =~= leaf_entries(m, m[node].children, partial_path@, b));
    let ghost start = data_views(parent_list@);
    let ghost entries = leaf_views(leaves@);
    let mut i: usize = 0;
    while i < leaves.len()
        invariant
            entries == leaf_views(leaves@),
            0 <= i <= leaves.len(),
            data_views(parent_list@) == start + entry_pairs(entries.subrange(0, i as int)),
        decreases leaves.len() - i,
    {
        let leaf = &leaves[i];
        let ghost before = data_views(parent_list@);
        let name = leaf.path.clone();
        parent_list.push(TreeData { name, ino: leaf.ino });
        assert(data_views(parent_list@) =~= before.push((leaf.path@, leaf.ino)));
        assert(entries[i as int] == LeafEntry { path: leaf.path@, parent: leaf.parent@, ino: leaf.ino });
        assert(entry_pairs(entries.subrange(0, i + 1)) =~= entry_pairs(entries.subrange(0, i as int)).push((leaf.path@, leaf.ino)));
        i = i + 1;
    }
    assert(entries.subrange(0, i as int) =~= entries);
}

} // verus!
