//! What holds of the change tree across calls: an added path ends up covered
//! by a leaf, what was covered stays covered, a path that is already covered
//! changes nothing, adding a path twice is adding it once, leaves are never
//! nested, and no node collects too many children. Which leaves a run of
//! adds leaves is stated in `leaf_set`.
use indextree::NodeId;
use vstd::prelude::*;

use crate::tree_model::{
    add_child_view, add_walk, change_tree_wf, lemma_find_child_some, node_at, root_view, shaped,
    strictly_below, trim_view, tree_view, Nodes, Path, TreeView, MAX_CHILD_COUNT,
};

verus! {

/// Position `q` is in the view and has no children.
pub open spec fn is_leaf_at(v: TreeView, q: Path) -> bool {
    v.dom().contains(q) && v[q].kids.len() == 0
}

/// Some leaf other than the root lies at or above position `x`: a change at
/// `x` is covered by the rescan of that leaf.
pub open spec fn covered(v: TreeView, x: Path) -> bool {
    exists|q: Path| 0 < q.len() && #[trigger] is_leaf_at(v, q) && q.is_prefix_of(x)
}

/// The walk does not overflow the root: either the first component already
/// names a child of the root, or the root has room for one more child.
pub open spec fn root_has_room(v: TreeView, comps: Seq<Seq<char>>) -> bool {
    v.dom().contains(Seq::<Seq<char>>::empty().push(comps[0]))
        || v[Seq::<Seq<char>>::empty()].kids.len() < MAX_CHILD_COUNT
}

/// Every position in the view hangs below a position in the view that lists
/// its last name among its children.
pub open spec fn view_shaped(v: TreeView) -> bool {
    forall|q: Path, k: Seq<char>| #[trigger] v.dom().contains(q.push(k)) ==> v.dom().contains(q)
        && v[q].kids.contains(k)
}

pub proof fn lemma_prefix_trans(a: Path, b: Path, c: Path)
    requires
        a.is_prefix_of(b),
        b.is_prefix_of(c),
    ensures
        a.is_prefix_of(c),
{
    assert forall|i: int| 0 <= i < a.len() implies a[i] == c[i] by {
        assert(a[i] == b[i]);
        assert(b[i] == c[i]);
    }
    assert(a =~= c.subrange(0, a.len() as int));
}

pub proof fn lemma_take_push(comps: Seq<Seq<char>>, j: int)
    requires
        0 <= j < comps.len(),
    ensures
        comps.subrange(0, j).push(comps[j]) == comps.subrange(0, j + 1),
        comps.subrange(0, j + 1).is_prefix_of(comps),
        comps.subrange(0, j).is_prefix_of(comps),
{
    assert(comps.subrange(0, j).push(comps[j]) =~= comps.subrange(0, j + 1));
    assert(comps.subrange(0, j + 1) =~= comps.subrange(0, j + 1).subrange(0, j + 1));
}

proof fn lemma_walk_covers(
    v: TreeView,
    cur: Path,
    comps: Seq<Seq<char>>,
    j: int,
    leaf_ino: u64,
    inner_ino: u64,
)
    requires
        comps.len() >= 1,
        0 <= j <= comps.len(),
        cur == comps.subrange(0, j),
        v.dom().contains(cur),
        j == comps.len() ==> v[cur].kids.len() == 0,
        j == 0 ==> root_has_room(v, comps),
    ensures
        covered(add_walk(v, cur, comps, j, leaf_ino, inner_ino), comps),
    decreases comps.len() - j,
{
    if j == comps.len() {
        assert(comps.subrange(0, j) =~= comps);
        assert(is_leaf_at(v, cur));
        assert(cur.is_prefix_of(comps));
    } else {
        let e = comps[j];
        let next = cur.push(e);
        lemma_take_push(comps, j);
        if v.dom().contains(next) {
            if v[next].kids.len() == 0 {
                assert(is_leaf_at(v, next));
            } else if j == comps.len() - 1 {
                let t = trim_view(v, next);
                assert(!strictly_below(next, next));
                lemma_walk_covers(t, next, comps, j + 1, leaf_ino, inner_ino);
            } else {
                assert(j + 1 < comps.len());
                lemma_walk_covers(v, next, comps, j + 1, leaf_ino, inner_ino);
            }
        } else {
            let ino = if j == comps.len() - 1 {
                leaf_ino
            } else {
                inner_ino
            };
            let grown = add_child_view(v, cur, e, ino);
            assert(next != cur);
            assert(grown[cur].kids == v[cur].kids.push(e));
            if grown[cur].kids.len() > MAX_CHILD_COUNT {
                assert(j > 0) by {
                    if j == 0 {
                        assert(cur =~= Seq::<Seq<char>>::empty());
                        assert(next =~= Seq::<Seq<char>>::empty().push(comps[0]));
                    }
                }
                let t = trim_view(grown, cur);
                assert(!strictly_below(cur, cur));
                assert(is_leaf_at(t, cur));
            } else {
                lemma_walk_covers(grown, next, comps, j + 1, leaf_ino, inner_ino);
            }
        }
    }
}

/// After a path is added, a leaf covers it: the walk of `add_path` always
/// leaves a leaf at or above the added position, unless the root overflows.
pub proof fn law_added_path_is_covered(
    v: TreeView,
    comps: Seq<Seq<char>>,
    leaf_ino: u64,
    inner_ino: u64,
)
    requires
        v.dom().contains(Seq::<Seq<char>>::empty()),
        comps.len() >= 1,
        root_has_room(v, comps),
    ensures
        covered(add_walk(v, Seq::<Seq<char>>::empty(), comps, 0, leaf_ino, inner_ino), comps),
{
    assert(comps.subrange(0, 0) =~= Seq::<Seq<char>>::empty());
    lemma_walk_covers(v, Seq::<Seq<char>>::empty(), comps, 0, leaf_ino, inner_ino);
}

proof fn lemma_walk_keeps(
    v: TreeView,
    cur: Path,
    comps: Seq<Seq<char>>,
    j: int,
    leaf_ino: u64,
    inner_ino: u64,
    x: Path,
    w: Path,
)
    requires
        comps.len() >= 1,
        0 <= j <= comps.len(),
        cur == comps.subrange(0, j),
        v.dom().contains(cur),
        j == 0 ==> root_has_room(v, comps),
        is_leaf_at(v, w),
        0 < w.len(),
        w.is_prefix_of(x),
        w != cur,
    ensures
        covered(add_walk(v, cur, comps, j, leaf_ino, inner_ino), x),
    decreases comps.len() - j,
{
    if j == comps.len() {
        assert(is_leaf_at(v, w));
    } else {
        let e = comps[j];
        let next = cur.push(e);
        lemma_take_push(comps, j);
        if v.dom().contains(next) {
            if v[next].kids.len() == 0 {
                assert(is_leaf_at(v, w));
            } else if j == comps.len() - 1 {
                let t = trim_view(v, next);
                assert(add_walk(t, next, comps, j + 1, leaf_ino, inner_ino) == t);
                assert(w != next);
                if strictly_below(w, next) {
                    assert(!strictly_below(next, next));
                    assert(is_leaf_at(t, next));
                    lemma_prefix_trans(next, w, x);
                } else {
                    assert(is_leaf_at(t, w));
                }
            } else {
                assert(w != next);
                lemma_walk_keeps(v, next, comps, j + 1, leaf_ino, inner_ino, x, w);
            }
        } else {
            let ino = if j == comps.len() - 1 {
                leaf_ino
            } else {
                inner_ino
            };
            let grown = add_child_view(v, cur, e, ino);
            assert(next != cur);
            assert(w != next);
            assert(grown[cur].kids == v[cur].kids.push(e));
            assert(is_leaf_at(grown, w));
            if grown[cur].kids.len() > MAX_CHILD_COUNT {
                assert(j > 0) by {
                    if j == 0 {
                        assert(cur =~= Seq::<Seq<char>>::empty());
                        assert(next =~= Seq::<Seq<char>>::empty().push(comps[0]));
                    }
                }
                let t = trim_view(grown, cur);
                if strictly_below(w, cur) {
                    assert(!strictly_below(cur, cur));
                    assert(is_leaf_at(t, cur));
                    lemma_prefix_trans(cur, w, x);
                } else {
                    assert(is_leaf_at(t, w));
                }
            } else {
                lemma_walk_keeps(grown, next, comps, j + 1, leaf_ino, inner_ino, x, w);
            }
        }
    }
}

/// What was covered stays covered: adding a path never loses a change that a
/// leaf already covered (a leaf is only trimmed together with its subtree,
/// under a node that becomes a leaf itself). This fails when the root
/// overflows.
pub proof fn law_coverage_kept(
    v: TreeView,
    comps: Seq<Seq<char>>,
    leaf_ino: u64,
    inner_ino: u64,
    x: Path,
)
    requires
        v.dom().contains(Seq::<Seq<char>>::empty()),
        comps.len() >= 1,
        root_has_room(v, comps),
        covered(v, x),
    ensures
        covered(add_walk(v, Seq::<Seq<char>>::empty(), comps, 0, leaf_ino, inner_ino), x),
{
    let w = choose|q: Path| 0 < q.len() && #[trigger] is_leaf_at(v, q) && q.is_prefix_of(x);
    assert(comps.subrange(0, 0) =~= Seq::<Seq<char>>::empty());
    lemma_walk_keeps(v, Seq::<Seq<char>>::empty(), comps, 0, leaf_ino, inner_ino, x, w);
}

/// In a shaped view, every position strictly above a position of the view is
/// in the view and has children.
pub proof fn lemma_above_is_inner(v: TreeView, w: Path, q: Path)
    requires
        view_shaped(v),
        v.dom().contains(w),
        q.is_prefix_of(w),
        q.len() < w.len(),
    ensures
        v.dom().contains(q),
        v[q].kids.len() > 0,
    decreases w.len(),
{
    let up = w.drop_last();
    assert(up.push(w.last()) =~= w);
    assert(v.dom().contains(up.push(w.last())));
    assert(v[up].kids.contains(w.last()));
    if q.len() < up.len() {
        assert(q =~= up.subrange(0, q.len() as int));
        lemma_above_is_inner(v, up, q);
    } else {
        assert(q =~= up);
    }
}

proof fn lemma_walk_ignores(
    v: TreeView,
    cur: Path,
    comps: Seq<Seq<char>>,
    j: int,
    leaf_ino: u64,
    inner_ino: u64,
    w: Path,
)
    requires
        view_shaped(v),
        0 <= j < w.len(),
        w.len() <= comps.len(),
        cur == comps.subrange(0, j),
        is_leaf_at(v, w),
        w.is_prefix_of(comps),
    ensures
        add_walk(v, cur, comps, j, leaf_ino, inner_ino) == v,
    decreases comps.len() - j,
{
    let e = comps[j];
    let next = cur.push(e);
    lemma_take_push(comps, j);
    assert(next.is_prefix_of(w)) by {
        assert(next =~= w.subrange(0, j + 1));
    }
    if j + 1 == w.len() {
        assert(next =~= w);
    } else {
        lemma_above_is_inner(v, w, next);
        assert(j < comps.len() - 1);
        lemma_walk_ignores(v, next, comps, j + 1, leaf_ino, inner_ino, w);
    }
}

/// A path that a leaf already covers changes nothing: the walk reaches the
/// covering leaf through inner nodes and stops there.
pub proof fn law_covered_path_ignored(
    v: TreeView,
    comps: Seq<Seq<char>>,
    leaf_ino: u64,
    inner_ino: u64,
)
    requires
        view_shaped(v),
        covered(v, comps),
    ensures
        add_walk(v, Seq::<Seq<char>>::empty(), comps, 0, leaf_ino, inner_ino) == v,
{
    let w = choose|q: Path| 0 < q.len() && #[trigger] is_leaf_at(v, q) && q.is_prefix_of(comps);
    assert(comps.subrange(0, 0) =~= Seq::<Seq<char>>::empty());
    lemma_walk_ignores(v, Seq::<Seq<char>>::empty(), comps, 0, leaf_ino, inner_ino, w);
}

proof fn lemma_walk_trims(
    v: TreeView,
    cur: Path,
    comps: Seq<Seq<char>>,
    j: int,
    leaf_ino: u64,
    inner_ino: u64,
)
    requires
        view_shaped(v),
        0 <= j < comps.len(),
        cur == comps.subrange(0, j),
        v.dom().contains(comps),
        v[comps].kids.len() > 0,
    ensures
        add_walk(v, cur, comps, j, leaf_ino, inner_ino) == trim_view(v, comps),
    decreases comps.len() - j,
{
    let e = comps[j];
    let next = cur.push(e);
    lemma_take_push(comps, j);
    if j + 1 == comps.len() {
        assert(next =~= comps);
        let t = trim_view(v, comps);
        assert(add_walk(t, next, comps, j + 1, leaf_ino, inner_ino) == t);
    } else {
        lemma_above_is_inner(v, comps, next);
        lemma_walk_trims(v, next, comps, j + 1, leaf_ino, inner_ino);
    }
}

/// A path added above existing nodes becomes a leaf: when the added
/// position is already in the tree and has children, the walk goes down to
/// it and everything below it is trimmed, and nothing else changes.
pub proof fn law_add_above_trims(
    v: TreeView,
    comps: Seq<Seq<char>>,
    leaf_ino: u64,
    inner_ino: u64,
)
    requires
        view_shaped(v),
        comps.len() >= 1,
        v.dom().contains(comps),
        v[comps].kids.len() > 0,
    ensures
        add_walk(v, Seq::<Seq<char>>::empty(), comps, 0, leaf_ino, inner_ino) == trim_view(v, comps),
        is_leaf_at(trim_view(v, comps), comps),
{
    assert(comps.subrange(0, 0) =~= Seq::<Seq<char>>::empty());
    lemma_walk_trims(v, Seq::<Seq<char>>::empty(), comps, 0, leaf_ino, inner_ino);
    assert(!strictly_below(comps, comps));
}

/// No position of the view has more than `MAX_CHILD_COUNT` children.
pub open spec fn fanout_bounded(v: TreeView) -> bool {
    forall|q: Path| #[trigger] v.dom().contains(q) ==> v[q].kids.len() <= MAX_CHILD_COUNT
}

proof fn lemma_walk_keeps_bound(
    v: TreeView,
    cur: Path,
    comps: Seq<Seq<char>>,
    j: int,
    leaf_ino: u64,
    inner_ino: u64,
)
    requires
        fanout_bounded(v),
        v.dom().contains(cur),
    ensures
        fanout_bounded(add_walk(v, cur, comps, j, leaf_ino, inner_ino)),
    decreases comps.len() - j,
{
    if 0 <= j < comps.len() {
        let e = comps[j];
        let next = cur.push(e);
        if v.dom().contains(next) {
            if v[next].kids.len() == 0 {
            } else if j == comps.len() - 1 {
                let t = trim_view(v, next);
                assert(!strictly_below(next, next));
                lemma_walk_keeps_bound(t, next, comps, j + 1, leaf_ino, inner_ino);
            } else {
                lemma_walk_keeps_bound(v, next, comps, j + 1, leaf_ino, inner_ino);
            }
        } else {
            let ino = if j == comps.len() - 1 {
                leaf_ino
            } else {
                inner_ino
            };
            let grown = add_child_view(v, cur, e, ino);
            assert(next != cur);
            if grown[cur].kids.len() > MAX_CHILD_COUNT {
                let t = trim_view(grown, cur);
                assert forall|q: Path| #[trigger] t.dom().contains(q) implies t[q].kids.len()
                    <= MAX_CHILD_COUNT by {
                    if q != cur {
                        assert(q != next) by {
                            if q == next {
                                assert(cur.is_prefix_of(next));
                            }
                        }
                        assert(v.dom().contains(q));
                    }
                }
            } else {
                lemma_walk_keeps_bound(grown, next, comps, j + 1, leaf_ino, inner_ino);
            }
        }
    }
}

/// Adding a path never leaves a node with more than `MAX_CHILD_COUNT`
/// children: the node that would get one more is trimmed instead, which keeps
/// the tree small.
pub proof fn law_fanout_bounded(v: TreeView, comps: Seq<Seq<char>>, leaf_ino: u64, inner_ino: u64)
    requires
        fanout_bounded(v),
        v.dom().contains(Seq::<Seq<char>>::empty()),
    ensures
        fanout_bounded(add_walk(v, Seq::<Seq<char>>::empty(), comps, 0, leaf_ino, inner_ino)),
{
    lemma_walk_keeps_bound(v, Seq::<Seq<char>>::empty(), comps, 0, leaf_ino, inner_ino);
}

pub proof fn lemma_trim_keeps_shape(v: TreeView, p: Path)
    requires
        view_shaped(v),
    ensures
        view_shaped(trim_view(v, p)),
{
    let t = trim_view(v, p);
    assert forall|q: Path, k: Seq<char>| #[trigger] t.dom().contains(q.push(k)) implies t.dom().contains(q)
        && t[q].kids.contains(k) by {
        assert(v.dom().contains(q.push(k)));
        assert(q.push(k).subrange(0, q.len() as int) =~= q);
        if strictly_below(q, p) {
            lemma_prefix_trans(p, q, q.push(k));
        }
        if q == p {
            assert(strictly_below(q.push(k), p));
        }
    }
}

pub proof fn lemma_grow_keeps_shape(v: TreeView, cur: Path, e: Seq<char>, ino: u64)
    requires
        view_shaped(v),
        v.dom().contains(cur),
        !v.dom().contains(cur.push(e)),
    ensures
        view_shaped(add_child_view(v, cur, e, ino)),
{
    let g = add_child_view(v, cur, e, ino);
    let next = cur.push(e);
    assert forall|q: Path, k: Seq<char>| #[trigger] g.dom().contains(q.push(k)) implies g.dom().contains(q)
        && g[q].kids.contains(k) by {
        if q.push(k) == next {
            assert(q =~= cur) by {
                assert(q.push(k).drop_last() =~= q);
                assert(next.drop_last() =~= cur);
            }
            assert(k == e) by {
                assert(q.push(k).last() == k);
            }
            assert(g[cur].kids.last() == e);
        } else {
            assert(v.dom().contains(q.push(k)));
            assert(q != next);
            if q == cur {
                assert(g[cur].kids == v[cur].kids.push(e));
                let i = choose|i: int| 0 <= i < v[cur].kids.len() && v[cur].kids[i] == k;
                assert(g[cur].kids[i] == k);
            }
        }
    }
}

pub proof fn lemma_walk_keeps_shape(
    v: TreeView,
    cur: Path,
    comps: Seq<Seq<char>>,
    j: int,
    leaf_ino: u64,
    inner_ino: u64,
)
    requires
        view_shaped(v),
        v.dom().contains(cur),
    ensures
        view_shaped(add_walk(v, cur, comps, j, leaf_ino, inner_ino)),
    decreases comps.len() - j,
{
    if 0 <= j < comps.len() {
        let e = comps[j];
        let next = cur.push(e);
        if v.dom().contains(next) {
            if v[next].kids.len() == 0 {
            } else if j == comps.len() - 1 {
                let t = trim_view(v, next);
                lemma_trim_keeps_shape(v, next);
                assert(!strictly_below(next, next));
                lemma_walk_keeps_shape(t, next, comps, j + 1, leaf_ino, inner_ino);
            } else {
                lemma_walk_keeps_shape(v, next, comps, j + 1, leaf_ino, inner_ino);
            }
        } else {
            let ino = if j == comps.len() - 1 {
                leaf_ino
            } else {
                inner_ino
            };
            let grown = add_child_view(v, cur, e, ino);
            lemma_grow_keeps_shape(v, cur, e, ino);
            if grown[cur].kids.len() > MAX_CHILD_COUNT {
                lemma_trim_keeps_shape(grown, cur);
            } else {
                lemma_walk_keeps_shape(grown, next, comps, j + 1, leaf_ino, inner_ino);
            }
        }
    }
}

/// Adding the same path twice is adding it once: the first add leaves a leaf
/// over the path, and the second walk stops there. The changelog walk can
/// hand a change over twice without harm. This needs room at the root, as
/// for the laws above.
pub proof fn law_add_idempotent(v: TreeView, comps: Seq<Seq<char>>, leaf_ino: u64, inner_ino: u64)
    requires
        view_shaped(v),
        v.dom().contains(Seq::<Seq<char>>::empty()),
        comps.len() >= 1,
        root_has_room(v, comps),
    ensures
        add_walk(
            add_walk(v, Seq::<Seq<char>>::empty(), comps, 0, leaf_ino, inner_ino),
            Seq::<Seq<char>>::empty(),
            comps,
            0,
            leaf_ino,
            inner_ino,
        ) == add_walk(v, Seq::<Seq<char>>::empty(), comps, 0, leaf_ino, inner_ino),
{
    let w = add_walk(v, Seq::<Seq<char>>::empty(), comps, 0, leaf_ino, inner_ino);
    law_added_path_is_covered(v, comps, leaf_ino, inner_ino);
    lemma_walk_keeps_shape(v, Seq::<Seq<char>>::empty(), comps, 0, leaf_ino, inner_ino);
    law_covered_path_ignored(w, comps, leaf_ino, inner_ino);
}

/// Two views with the same positions, each listing the same children: they
/// differ at most in the inodes they record.
pub open spec fn same_shape(v1: TreeView, v2: TreeView) -> bool {
    &&& v1.dom() == v2.dom()
    &&& forall|q: Path| #[trigger] v1.dom().contains(q) ==> v1[q].kids == v2[q].kids
}

proof fn lemma_walk_same_shape(
    v1: TreeView,
    v2: TreeView,
    cur: Path,
    comps: Seq<Seq<char>>,
    j: int,
    l1: u64,
    i1: u64,
    l2: u64,
    i2: u64,
)
    requires
        same_shape(v1, v2),
        v1.dom().contains(cur),
    ensures
        same_shape(add_walk(v1, cur, comps, j, l1, i1), add_walk(v2, cur, comps, j, l2, i2)),
    decreases comps.len() - j,
{
    if 0 <= j < comps.len() {
        let e = comps[j];
        let next = cur.push(e);
        if v1.dom().contains(next) {
            assert(v2.dom().contains(next));
            if v1[next].kids.len() == 0 {
            } else if j == comps.len() - 1 {
                let t1 = trim_view(v1, next);
                let t2 = trim_view(v2, next);
                assert(t1.dom() =~= t2.dom());
                assert(same_shape(t1, t2));
                assert(!strictly_below(next, next));
                lemma_walk_same_shape(t1, t2, next, comps, j + 1, l1, i1, l2, i2);
            } else {
                lemma_walk_same_shape(v1, v2, next, comps, j + 1, l1, i1, l2, i2);
            }
        } else {
            let g1 = add_child_view(v1, cur, e, if j == comps.len() - 1 { l1 } else { i1 });
            let g2 = add_child_view(v2, cur, e, if j == comps.len() - 1 { l2 } else { i2 });
            assert(g1.dom() =~= g2.dom());
            assert(v2.dom().contains(cur));
            assert(same_shape(g1, g2)) by {
                assert forall|q: Path| #[trigger] g1.dom().contains(q) implies g1[q].kids == g2[q].kids by {
                    if q != next && q != cur {
                        assert(v1.dom().contains(q));
                    }
                }
            }
            if g1[cur].kids.len() > MAX_CHILD_COUNT {
                assert(trim_view(g1, cur).dom() =~= trim_view(g2, cur).dom());
                assert(same_shape(trim_view(g1, cur), trim_view(g2, cur)));
            } else {
                lemma_walk_same_shape(g1, g2, next, comps, j + 1, l1, i1, l2, i2);
            }
        }
    }
}

/// What inodes an add records changes nothing of the shape: from views of
/// the same shape, adding a path with any inodes gives views of the same
/// shape. So `ChangeTree::add_path` (every new node holding the entry's
/// inode) and `highest_change_tree_add_path` (inner nodes holding 0) build
/// the same tree.
pub proof fn law_inodes_do_not_shape(
    v1: TreeView,
    v2: TreeView,
    comps: Seq<Seq<char>>,
    l1: u64,
    i1: u64,
    l2: u64,
    i2: u64,
)
    requires
        same_shape(v1, v2),
        v1.dom().contains(Seq::<Seq<char>>::empty()),
    ensures
        same_shape(
            add_walk(v1, Seq::<Seq<char>>::empty(), comps, 0, l1, i1),
            add_walk(v2, Seq::<Seq<char>>::empty(), comps, 0, l2, i2),
        ),
{
    lemma_walk_same_shape(v1, v2, Seq::<Seq<char>>::empty(), comps, 0, l1, i1, l2, i2);
}

/// In a shaped view no leaf lies below another one. (That the leaves are
/// exactly the highest changed paths is `law_leaves_are_highest_changes`.)
pub proof fn law_leaves_not_nested(v: TreeView, q1: Path, q2: Path)
    requires
        view_shaped(v),
        is_leaf_at(v, q1),
        is_leaf_at(v, q2),
        q1 != q2,
    ensures
        !q1.is_prefix_of(q2),
{
    if q1.is_prefix_of(q2) {
        if q1.len() == q2.len() {
            assert(q1 =~= q2);
        } else {
            lemma_above_is_inner(v, q2, q1);
        }
    }
}

/// Trimming below the root leaves the root alone, with the inode it had:
/// `trim_below_root` turns any tree into the tree that `new` makes.
pub proof fn law_trim_root_leaves_root(v: TreeView)
    requires
        v.dom().contains(Seq::<Seq<char>>::empty()),
    ensures
        trim_view(v, Seq::<Seq<char>>::empty()) == root_view(v[Seq::<Seq<char>>::empty()].ino),
{
    let t = trim_view(v, Seq::<Seq<char>>::empty());
    let r = root_view(v[Seq::<Seq<char>>::empty()].ino);
    assert forall|q: Path| t.dom().contains(q) <==> r.dom().contains(q) by {
        if q.len() > 0 {
            assert(Seq::<Seq<char>>::empty().is_prefix_of(q));
            assert(strictly_below(q, Seq::<Seq<char>>::empty()));
        } else {
            assert(q =~= Seq::<Seq<char>>::empty());
        }
    }
    assert(t =~= r);
}

/// The view of a well-formed change tree is shaped.
pub proof fn lemma_tree_view_shaped(m: Nodes, root: NodeId)
    requires
        change_tree_wf(m, root),
    ensures
        view_shaped(tree_view(m, root)),
{
    let (pm, bound) = choose|pm: Map<NodeId, Path>, bound: nat| shaped(m, root, pm, bound);
    let v = tree_view(m, root);
    assert forall|q: Path, k: Seq<char>| #[trigger] v.dom().contains(q.push(k)) implies v.dom().contains(q)
        && v[q].kids.contains(k) by {
        let p = q.push(k);
        assert(p.drop_last() =~= q);
        let n = node_at(m, root, q)->0;
        lemma_find_child_some(m, m[n].children, k);
        let c = node_at(m, root, p)->0;
        let i = choose|i: int| 0 <= i < m[n].children.len() && m[n].children[i] == c;
        assert(v[q].kids[i] == k);
    }
}

} // verus!
