//! Which leaves a run of adds leaves behind: exactly the added paths that
//! have no other added path above them, the highest directories in which
//! something changed (as long as no node overflows).
use vstd::prelude::*;

use crate::laws::{
    lemma_above_is_inner, is_leaf_at, law_inodes_do_not_shape, same_shape, lemma_grow_keeps_shape, lemma_prefix_trans, lemma_take_push,
    lemma_trim_keeps_shape, lemma_walk_keeps_shape, view_shaped,
};
use crate::listing::{
    depth_below, kids_distinct, kids_in_view, leaf_positions, lemma_positions_props,
};
use crate::tree_model::{
    add_child_view, add_walk, root_view, strictly_below, trim_view, Path, TreeView,
    MAX_CHILD_COUNT,
};

verus! {

/// `p` is one of the paths `s` and no path of `s` lies strictly above it.
pub open spec fn minimal_in(s: Seq<Path>, p: Path) -> bool {
    &&& s.contains(p)
    &&& forall|q: Path| #[trigger] s.contains(q) ==> !strictly_below(p, q)
}

/// `r` is the root position or lies on the way down to a path of `s` that
/// no other path of `s` lies above.
pub open spec fn under_minimal(s: Seq<Path>, r: Path) -> bool {
    r.len() == 0 || exists|p: Path| #[trigger] minimal_in(s, p) && r.is_prefix_of(p)
}

/// The view is what the added paths `s` make of a tree: its positions are the
/// root and the positions on the way down to the highest added paths.
pub open spec fn tracks(v: TreeView, s: Seq<Path>) -> bool {
    &&& view_shaped(v)
    &&& kids_in_view(v)
    &&& forall|p: Path| #[trigger] s.contains(p) ==> p.len() > 0
    &&& forall|r: Path|
        #![trigger v.dom().contains(r)]
        #![trigger under_minimal(s, r)]
        v.dom().contains(r) == under_minimal(s, r)
}

/// The walk that `add_walk` describes never gives a node more than
/// `MAX_CHILD_COUNT` children.
pub open spec fn walk_fits(
    v: TreeView,
    cur: Path,
    comps: Seq<Seq<char>>,
    j: int,
    leaf_ino: u64,
    inner_ino: u64,
) -> bool
    decreases comps.len() - j,
{
    if j < 0 || j >= comps.len() {
        true
    } else {
        let next = cur.push(comps[j]);
        if v.dom().contains(next) {
            if v[next].kids.len() == 0 || j == comps.len() - 1 {
                true
            } else {
                walk_fits(v, next, comps, j + 1, leaf_ino, inner_ino)
            }
        } else {
            let grown = add_child_view(
                v,
                cur,
                comps[j],
                if j == comps.len() - 1 {
                    leaf_ino
                } else {
                    inner_ino
                },
            );
            grown[cur].kids.len() <= MAX_CHILD_COUNT && walk_fits(
                grown,
                next,
                comps,
                j + 1,
                leaf_ino,
                inner_ino,
            )
        }
    }
}

/// Position `q` is in the view and has children.
pub open spec fn is_inner_at(v: TreeView, q: Path) -> bool {
    v.dom().contains(q) && v[q].kids.len() > 0
}

/// Every path of `s` has a highest path of `s` at or above it.
proof fn lemma_minimal_above(s: Seq<Path>, q: Path)
    requires
        s.contains(q),
    ensures
        exists|m: Path| #[trigger] minimal_in(s, m) && m.is_prefix_of(q),
    decreases q.len(),
{
    if minimal_in(s, q) {
        assert(q.is_prefix_of(q)) by {
            assert(q =~= q.subrange(0, q.len() as int));
        }
    } else {
        let q2 = choose|q2: Path| #[trigger] s.contains(q2) && strictly_below(q, q2);
        lemma_minimal_above(s, q2);
        let m = choose|m: Path| #[trigger] minimal_in(s, m) && m.is_prefix_of(q2);
        lemma_prefix_trans(m, q2, q);
    }
}

/// Positions of a tracking view are closed under going up.
proof fn lemma_up_closed(v: TreeView, s: Seq<Path>, r: Path, r2: Path)
    requires
        tracks(v, s),
        v.dom().contains(r),
        r2.is_prefix_of(r),
    ensures
        v.dom().contains(r2),
{
    assert(under_minimal(s, r));
    if r2.len() > 0 {
        assert(r.len() > 0);
        let p = choose|p: Path| #[trigger] minimal_in(s, p) && r.is_prefix_of(p);
        lemma_prefix_trans(r2, r, p);
        assert(under_minimal(s, r2));
    }
}

/// In a tracking view, the leaves below the root are exactly the highest
/// added paths.
pub proof fn lemma_leaf_iff_minimal(v: TreeView, s: Seq<Path>, q: Path)
    requires
        tracks(v, s),
        q.len() > 0,
    ensures
        is_leaf_at(v, q) <==> minimal_in(s, q),
{
    if minimal_in(s, q) {
        assert(q.is_prefix_of(q)) by {
            assert(q =~= q.subrange(0, q.len() as int));
        }
        assert(under_minimal(s, q));
        assert(v.dom().contains(q));
        if v[q].kids.len() > 0 {
            let k = v[q].kids[0];
            assert(v.dom().contains(q.push(k)));
            assert(under_minimal(s, q.push(k)));
            let p = choose|p: Path| #[trigger] minimal_in(s, p) && q.push(k).is_prefix_of(p);
            assert(q.is_prefix_of(q.push(k))) by {
                assert(q =~= q.push(k).subrange(0, q.len() as int));
            }
            lemma_prefix_trans(q, q.push(k), p);
            assert(strictly_below(p, q));
        }
    }
    if is_leaf_at(v, q) {
        assert(under_minimal(s, q));
        let p = choose|p: Path| #[trigger] minimal_in(s, p) && q.is_prefix_of(p);
        if q.len() < p.len() {
            let c = p.subrange(0, q.len() as int + 1);
            assert(c.is_prefix_of(p)) by {
                assert(c =~= p.subrange(0, c.len() as int));
            }
            assert(under_minimal(s, c));
            assert(v.dom().contains(c));
            assert(c =~= q.push(p[q.len() as int]));
            assert(v[q].kids.contains(p[q.len() as int]));
        } else {
            assert(q =~= p);
        }
    }
}

/// When no leaf lies strictly above `c`, no added path does either.
proof fn lemma_nothing_above(v: TreeView, s: Seq<Path>, c: Path)
    requires
        tracks(v, s),
        forall|i: int|
            0 < i < c.len() && #[trigger] v.dom().contains(c.subrange(0, i)) ==> v[c.subrange(
                0,
                i,
            )].kids.len() > 0,
    ensures
        forall|q: Path| #[trigger] s.contains(q) ==> !strictly_below(c, q),
{
    assert forall|q: Path| #[trigger] s.contains(q) implies !strictly_below(c, q) by {
        if strictly_below(c, q) {
            lemma_minimal_above(s, q);
            let m = choose|m: Path| #[trigger] minimal_in(s, m) && m.is_prefix_of(q);
            lemma_prefix_trans(m, q, c);
            assert(m =~= c.subrange(0, m.len() as int));
            lemma_leaf_iff_minimal(v, s, m);
            assert(v.dom().contains(c.subrange(0, m.len() as int)));
        }
    }
}

/// A walk down positions that are not yet there adds exactly the positions
/// on the way down to the path.
proof fn lemma_fresh_chain(v: TreeView, c: Seq<Seq<char>>, j: int, leaf_ino: u64, inner_ino: u64)
    requires
        view_shaped(v),
        0 <= j < c.len(),
        v.dom().contains(c.subrange(0, j)),
        !v.dom().contains(c.subrange(0, j + 1)),
        walk_fits(v, c.subrange(0, j), c, j, leaf_ino, inner_ino),
    ensures
        forall|r: Path|
            #[trigger] add_walk(v, c.subrange(0, j), c, j, leaf_ino, inner_ino).dom().contains(r)
                == (v.dom().contains(r) || (j < r.len() <= c.len() && r == c.subrange(
                0,
                r.len() as int,
            ))),
    decreases c.len() - j,
{
    let cur = c.subrange(0, j);
    let e = c[j];
    let next = cur.push(e);
    lemma_take_push(c, j);
    let ino = if j == c.len() - 1 {
        leaf_ino
    } else {
        inner_ino
    };
    let grown = add_child_view(v, cur, e, ino);
    assert(grown[cur].kids.len() <= MAX_CHILD_COUNT);
    let w = add_walk(v, cur, c, j, leaf_ino, inner_ino);
    if j + 1 == c.len() {
        assert(add_walk(grown, next, c, j + 1, leaf_ino, inner_ino) == grown);
        assert(w == grown);
        assert forall|r: Path| #[trigger] w.dom().contains(r) == (v.dom().contains(r) || (j
            < r.len() <= c.len() && r == c.subrange(0, r.len() as int))) by {
            if j < r.len() <= c.len() && r == c.subrange(0, r.len() as int) {
                assert(r.len() == c.len());
            }
        }
    } else {
        lemma_grow_keeps_shape(v, cur, e, ino);
        let after = c.subrange(0, j + 2);
        lemma_take_push(c, j + 1);
        assert(!grown.dom().contains(after)) by {
            if v.dom().contains(after) {
                assert(after =~= next.push(c[j + 1]));
                assert(v.dom().contains(next.push(c[j + 1])));
            }
        }
        lemma_fresh_chain(grown, c, j + 1, leaf_ino, inner_ino);
        assert(w == add_walk(grown, next, c, j + 1, leaf_ino, inner_ino));
        assert forall|r: Path| #[trigger] w.dom().contains(r) == (v.dom().contains(r) || (j
            < r.len() <= c.len() && r == c.subrange(0, r.len() as int))) by {
            assert(grown.dom().contains(r) == (v.dom().contains(r) || r == next));
            if r == next {
                assert(r.len() == j + 1);
            }
            if r.len() == j + 1 && r == c.subrange(0, r.len() as int) {
                assert(r == next);
            }
        }
    }
}

/// The walk of one add, from position `c[..j]` down, turns a view that
/// tracks `s` into one whose positions are those that `s` with `c` added
/// gives.
proof fn lemma_walk_tracks(
    v: TreeView,
    s: Seq<Path>,
    c: Seq<Seq<char>>,
    j: int,
    leaf_ino: u64,
    inner_ino: u64,
)
    requires
        tracks(v, s),
        0 <= j < c.len(),
        forall|i: int| 0 < i <= j ==> #[trigger] is_inner_at(v, c.subrange(0, i)),
        walk_fits(v, c.subrange(0, j), c, j, leaf_ino, inner_ino),
    ensures
        forall|r: Path|
            #[trigger] add_walk(v, c.subrange(0, j), c, j, leaf_ino, inner_ino).dom().contains(r)
                == under_minimal(s.push(c), r),
    decreases c.len() - j,
{
    let s2 = s.push(c);
    let cur = c.subrange(0, j);
    let e = c[j];
    let next = cur.push(e);
    lemma_take_push(c, j);
    let w = add_walk(v, cur, c, j, leaf_ino, inner_ino);
    assert forall|p: Path| #[trigger] s2.contains(p) == (s.contains(p) || p == c) by {
        if s2.contains(p) {
            let i = choose|i: int| 0 <= i < s2.len() && s2[i] == p;
            if i < s.len() {
                assert(s[i] == p);
            }
        }
        if s.contains(p) {
            let i = choose|i: int| 0 <= i < s.len() && s[i] == p;
            assert(s2[i] == p);
        }
        if p == c {
            assert(s2[s.len() as int] == c);
        }
    }
    assert(v.dom().contains(cur)) by {
        if j > 0 {
            assert(is_inner_at(v, c.subrange(0, j)));
        }
        if j == 0 {
            assert(cur.len() == 0);
            assert(under_minimal(s, cur));
        }
    }
    if v.dom().contains(next) {
        if v[next].kids.len() == 0 {
            // the walk stops at a leaf above or at `c`: nothing changes
            assert(w == v);
            lemma_leaf_iff_minimal(v, s, next);
            assert(minimal_in(s, next));
            assert forall|p: Path| #[trigger] minimal_in(s2, p) == minimal_in(s, p) by {
                if minimal_in(s, p) {
                    assert forall|q: Path| #[trigger] s2.contains(q) implies !strictly_below(p, q) by {
                        if q == c && strictly_below(p, c) {
                            lemma_prefix_trans(next, c, p);
                            assert(s.contains(next));
                            assert(strictly_below(p, next));
                        }
                    }
                }
                if minimal_in(s2, p) {
                    if p == c {
                        assert(s2.contains(next));
                        if j + 1 < c.len() {
                            assert(strictly_below(c, next));
                        }
                        assert(next =~= c);
                    }
                    assert forall|q: Path| #[trigger] s.contains(q) implies !strictly_below(p, q) by {
                        assert(s2.contains(q));
                    }
                }
            }
            assert forall|r: Path| #[trigger] w.dom().contains(r) == under_minimal(s2, r) by {
                assert(v.dom().contains(r) == under_minimal(s, r));
                if under_minimal(s, r) && r.len() > 0 {
                    let p = choose|p: Path| #[trigger] minimal_in(s, p) && r.is_prefix_of(p);
                    assert(minimal_in(s2, p));
                }
                if under_minimal(s2, r) && r.len() > 0 {
                    let p = choose|p: Path| #[trigger] minimal_in(s2, p) && r.is_prefix_of(p);
                    assert(minimal_in(s, p));
                }
            }
        } else if j == c.len() - 1 {
            // `c` is an inner node: everything below it goes
            assert(next =~= c);
            let t = trim_view(v, c);
            assert(add_walk(t, next, c, j + 1, leaf_ino, inner_ino) == t);
            assert(w == t);
            assert forall|i: int|
                0 < i < c.len() && #[trigger] v.dom().contains(c.subrange(0, i)) implies v[c.subrange(
                0,
                i,
            )].kids.len() > 0 by {
                assert(is_inner_at(v, c.subrange(0, i)));
            }
            lemma_nothing_above(v, s, c);
            assert(minimal_in(s2, c));
            assert forall|p: Path|
                p != c implies #[trigger] minimal_in(s2, p) == (minimal_in(s, p) && !strictly_below(
                p,
                c,
            )) by {
                if minimal_in(s2, p) {
                    assert forall|q: Path| #[trigger] s.contains(q) implies !strictly_below(p, q) by {
                        assert(s2.contains(q));
                    }
                }
            }
            assert forall|r: Path| #[trigger] w.dom().contains(r) == under_minimal(s2, r) by {
                if under_minimal(s2, r) {
                    if r.len() == 0 {
                        assert(under_minimal(s, r));
                    } else {
                        let p = choose|p: Path| #[trigger] minimal_in(s2, p) && r.is_prefix_of(p);
                        if p == c {
                            lemma_up_closed(v, s, c, r);
                        } else {
                            assert(under_minimal(s, r));
                            if strictly_below(r, c) {
                                lemma_prefix_trans(c, r, p);
                            }
                        }
                    }
                }
                if w.dom().contains(r) && r.len() > 0 {
                    assert(under_minimal(s, r));
                    let m = choose|m: Path| #[trigger] minimal_in(s, m) && r.is_prefix_of(m);
                    if !strictly_below(m, c) {
                        assert(minimal_in(s2, m));
                    } else {
                        assert(r.len() <= c.len());
                        assert(r =~= c.subrange(0, r.len() as int)) by {
                            assert forall|i: int| 0 <= i < r.len() implies r[i] == c[i] by {
                                assert(r[i] == m[i]);
                                assert(c[i] == m[i]);
                            }
                        }
                        assert(r.is_prefix_of(c));
                        assert(c.is_prefix_of(c)) by {
                            assert(c =~= c.subrange(0, c.len() as int));
                        }
                    }
                }
            }
        } else {
            assert forall|i: int| 0 < i <= j + 1 implies #[trigger] is_inner_at(v, c.subrange(0, i)) by {
                if i == j + 1 {
                    assert(c.subrange(0, i) == next);
                }
            }
            lemma_walk_tracks(v, s, c, j + 1, leaf_ino, inner_ino);
            assert(w == add_walk(v, next, c, j + 1, leaf_ino, inner_ino));
        }
    } else {
        // the rest of `c` is new: the positions on the way down to it are added
        lemma_fresh_chain(v, c, j, leaf_ino, inner_ino);
        assert forall|i: int|
            0 < i < c.len() && #[trigger] v.dom().contains(c.subrange(0, i)) implies v[c.subrange(
            0,
            i,
        )].kids.len() > 0 by {
            if i <= j {
                assert(is_inner_at(v, c.subrange(0, i)));
            }
            if i > j {
                let up = c.subrange(0, i);
                assert(next.is_prefix_of(up)) by {
                    assert(next =~= up.subrange(0, j + 1));
                }
                lemma_up_closed(v, s, up, next);
            }
        }
        lemma_nothing_above(v, s, c);
        assert(c.is_prefix_of(c)) by {
            assert(c =~= c.subrange(0, c.len() as int));
        }
        assert(minimal_in(s2, c));
        assert forall|p: Path| #[trigger] minimal_in(s2, p) == (minimal_in(s, p) || p == c) by {
            if minimal_in(s, p) {
                if strictly_below(p, c) {
                    assert(next.is_prefix_of(p)) by {
                        lemma_prefix_trans(next, c, p);
                    }
                    assert(under_minimal(s, p)) by {
                        assert(p.is_prefix_of(p)) by {
                            assert(p =~= p.subrange(0, p.len() as int));
                        }
                    }
                    lemma_up_closed(v, s, p, next);
                }
                assert forall|q: Path| #[trigger] s2.contains(q) implies !strictly_below(p, q) by {}
            }
            if minimal_in(s2, p) && p != c {
                assert forall|q: Path| #[trigger] s.contains(q) implies !strictly_below(p, q) by {
                    assert(s2.contains(q));
                }
            }
        }
        assert forall|r: Path| #[trigger] w.dom().contains(r) == under_minimal(s2, r) by {
            if under_minimal(s2, r) && r.len() > 0 {
                let p = choose|p: Path| #[trigger] minimal_in(s2, p) && r.is_prefix_of(p);
                if p == c {
                    if r.len() <= j {
                        assert(r =~= cur.subrange(0, r.len() as int));
                        assert(r.is_prefix_of(cur));
                        lemma_up_closed(v, s, cur, r);
                    } else {
                        assert(r =~= c.subrange(0, r.len() as int));
                    }
                } else {
                    assert(minimal_in(s, p));
                    assert(under_minimal(s, r));
                }
            }
            if w.dom().contains(r) {
                if v.dom().contains(r) {
                    assert(under_minimal(s, r));
                    if r.len() > 0 {
                        let p = choose|p: Path| #[trigger] minimal_in(s, p) && r.is_prefix_of(p);
                        assert(minimal_in(s2, p));
                    }
                } else {
                    assert(r.is_prefix_of(c));
                }
            }
        }
    }
}

proof fn lemma_kids_trim(v: TreeView, p: Path)
    requires
        kids_in_view(v),
    ensures
        kids_in_view(trim_view(v, p)),
{
    let t = trim_view(v, p);
    assert forall|q: Path, i: int| t.dom().contains(q) && 0 <= i < t[q].kids.len() implies t.dom().contains(
        #[trigger] q.push(t[q].kids[i]),
    ) by {
        assert(q != p);
        let r = q.push(v[q].kids[i]);
        assert(v.dom().contains(r));
        if strictly_below(r, p) {
            assert(p.len() <= q.len());
            assert(p =~= q.subrange(0, p.len() as int)) by {
                assert forall|k: int| 0 <= k < p.len() implies p[k] == q[k] by {
                    assert(p[k] == r[k]);
                }
            }
            assert(p.is_prefix_of(q));
            if p.len() == q.len() {
                assert(p =~= q);
            }
        }
    }
}

proof fn lemma_kids_grow(v: TreeView, cur: Path, e: Seq<char>, ino: u64)
    requires
        kids_in_view(v),
        v.dom().contains(cur),
        !v.dom().contains(cur.push(e)),
    ensures
        kids_in_view(add_child_view(v, cur, e, ino)),
{
    let g = add_child_view(v, cur, e, ino);
    assert forall|q: Path, i: int| g.dom().contains(q) && 0 <= i < g[q].kids.len() implies g.dom().contains(
        #[trigger] q.push(g[q].kids[i]),
    ) by {
        if q != cur.push(e) && q == cur {
            if i < v[cur].kids.len() {
                assert(g[q].kids[i] == v[cur].kids[i]);
            }
        }
    }
}

proof fn lemma_kids_walk(v: TreeView, cur: Path, comps: Seq<Seq<char>>, j: int, leaf_ino: u64, inner_ino: u64)
    requires
        kids_in_view(v),
        v.dom().contains(cur),
    ensures
        kids_in_view(add_walk(v, cur, comps, j, leaf_ino, inner_ino)),
    decreases comps.len() - j,
{
    if 0 <= j < comps.len() {
        let e = comps[j];
        let next = cur.push(e);
        if v.dom().contains(next) {
            if v[next].kids.len() == 0 {
            } else if j == comps.len() - 1 {
                lemma_kids_trim(v, next);
                assert(!strictly_below(next, next));
                lemma_kids_walk(trim_view(v, next), next, comps, j + 1, leaf_ino, inner_ino);
            } else {
                lemma_kids_walk(v, next, comps, j + 1, leaf_ino, inner_ino);
            }
        } else {
            let ino = if j == comps.len() - 1 {
                leaf_ino
            } else {
                inner_ino
            };
            let grown = add_child_view(v, cur, e, ino);
            lemma_kids_grow(v, cur, e, ino);
            if grown[cur].kids.len() > MAX_CHILD_COUNT {
                lemma_kids_trim(grown, cur);
            } else {
                lemma_kids_walk(grown, next, comps, j + 1, leaf_ino, inner_ino);
            }
        }
    }
}

/// A tree that is the root alone tracks no added path.
pub proof fn law_root_tracks_nothing(ino: u64)
    ensures
        tracks(root_view(ino), Seq::<Path>::empty()),
{
    let v = root_view(ino);
    assert forall|r: Path| #![trigger v.dom().contains(r)] #![trigger under_minimal(Seq::<Path>::empty(), r)]
        v.dom().contains(r) == under_minimal(Seq::<Path>::empty(), r) by {
        if r.len() == 0 {
            assert(r =~= Seq::<Seq<char>>::empty());
        }
        if under_minimal(Seq::<Path>::empty(), r) && r.len() > 0 {
            let p = choose|p: Path| #[trigger] minimal_in(Seq::<Path>::empty(), p) && r.is_prefix_of(p);
            assert(Seq::<Path>::empty().contains(p));
        }
    }
    assert forall|q: Path, k: Seq<char>| #[trigger] v.dom().contains(q.push(k)) implies v.dom().contains(q)
        && v[q].kids.contains(k) by {
        assert(q.push(k).len() > 0);
    }
}

/// Adding a path keeps the view tracking the added paths, with the new one
/// added, as long as no node overflows on the way: the leaves stay exactly
/// the highest added paths.
pub proof fn law_add_tracks(
    v: TreeView,
    s: Seq<Path>,
    c: Seq<Seq<char>>,
    leaf_ino: u64,
    inner_ino: u64,
)
    requires
        tracks(v, s),
        c.len() >= 1,
        walk_fits(v, Seq::<Seq<char>>::empty(), c, 0, leaf_ino, inner_ino),
    ensures
        tracks(add_walk(v, Seq::<Seq<char>>::empty(), c, 0, leaf_ino, inner_ino), s.push(c)),
{
    let top = Seq::<Seq<char>>::empty();
    assert(c.subrange(0, 0) =~= top);
    lemma_walk_tracks(v, s, c, 0, leaf_ino, inner_ino);
    assert(under_minimal(s, top));
    lemma_walk_keeps_shape(v, top, c, 0, leaf_ino, inner_ino);
    lemma_kids_walk(v, top, c, 0, leaf_ino, inner_ino);
    let s2 = s.push(c);
    assert forall|p: Path| #[trigger] s2.contains(p) implies p.len() > 0 by {
        let i = choose|i: int| 0 <= i < s2.len() && s2[i] == p;
        if i < s.len() {
            assert(s.contains(s[i]));
        }
    }
}

/// The view that a run of adds makes of a tree that was `v0`: the paths
/// `paths`, added one after another, the k-th with the inodes `inos[k]`
/// (for its last node and for the others).
pub open spec fn view_after(v0: TreeView, paths: Seq<Path>, inos: Seq<(u64, u64)>) -> TreeView
    decreases paths.len(),
{
    if paths.len() == 0 || inos.len() == 0 {
        v0
    } else {
        add_walk(
            view_after(v0, paths.drop_last(), inos.drop_last()),
            Seq::<Seq<char>>::empty(),
            paths.last(),
            0,
            inos.last().0,
            inos.last().1,
        )
    }
}

/// No add of the run gives a node more than `MAX_CHILD_COUNT` children.
pub open spec fn run_fits(v0: TreeView, paths: Seq<Path>, inos: Seq<(u64, u64)>) -> bool
    decreases paths.len(),
{
    if paths.len() == 0 || inos.len() == 0 {
        true
    } else {
        run_fits(v0, paths.drop_last(), inos.drop_last()) && walk_fits(
            view_after(v0, paths.drop_last(), inos.drop_last()),
            Seq::<Seq<char>>::empty(),
            paths.last(),
            0,
            inos.last().0,
            inos.last().1,
        )
    }
}

proof fn lemma_run_tracks(ino: u64, paths: Seq<Path>, inos: Seq<(u64, u64)>)
    requires
        paths.len() == inos.len(),
        forall|k: int| 0 <= k < paths.len() ==> (#[trigger] paths[k]).len() >= 1,
        run_fits(root_view(ino), paths, inos),
    ensures
        tracks(view_after(root_view(ino), paths, inos), paths),
    decreases paths.len(),
{
    if paths.len() == 0 {
        law_root_tracks_nothing(ino);
        assert(paths =~= Seq::<Path>::empty());
    } else {
        let up = paths.drop_last();
        assert forall|k: int| 0 <= k < up.len() implies (#[trigger] up[k]).len() >= 1 by {
            assert(up[k] == paths[k]);
        }
        lemma_run_tracks(ino, up, inos.drop_last());
        assert(paths.last() == paths[paths.len() - 1]);
        law_add_tracks(
            view_after(root_view(ino), up, inos.drop_last()),
            up,
            paths.last(),
            inos.last().0,
            inos.last().1,
        );
        assert(up.push(paths.last()) =~= paths);
    }
}

/// The leaves are the highest directories with a change: after a run of
/// adds to a tree that was the root alone, where no node overflows, the
/// positions without children (the root aside) are exactly the added paths
/// that no other added path lies above.
pub proof fn law_leaves_are_highest_changes(ino: u64, paths: Seq<Path>, inos: Seq<(u64, u64)>, q: Path)
    requires
        paths.len() == inos.len(),
        forall|k: int| 0 <= k < paths.len() ==> (#[trigger] paths[k]).len() >= 1,
        run_fits(root_view(ino), paths, inos),
        q.len() > 0,
    ensures
        is_leaf_at(view_after(root_view(ino), paths, inos), q) <==> minimal_in(paths, q),
{
    lemma_run_tracks(ino, paths, inos);
    lemma_leaf_iff_minimal(view_after(root_view(ino), paths, inos), paths, q);
}

/// Two adds in either order give the same positions, and so the same
/// leaves, when neither order overflows a node.
pub proof fn law_adds_commute(
    v: TreeView,
    s: Seq<Path>,
    p: Seq<Seq<char>>,
    q: Seq<Seq<char>>,
    ip: (u64, u64),
    iq: (u64, u64),
)
    requires
        tracks(v, s),
        p.len() >= 1,
        q.len() >= 1,
        walk_fits(v, Seq::<Seq<char>>::empty(), p, 0, ip.0, ip.1),
        walk_fits(
            add_walk(v, Seq::<Seq<char>>::empty(), p, 0, ip.0, ip.1),
            Seq::<Seq<char>>::empty(),
            q,
            0,
            iq.0,
            iq.1,
        ),
        walk_fits(v, Seq::<Seq<char>>::empty(), q, 0, iq.0, iq.1),
        walk_fits(
            add_walk(v, Seq::<Seq<char>>::empty(), q, 0, iq.0, iq.1),
            Seq::<Seq<char>>::empty(),
            p,
            0,
            ip.0,
            ip.1,
        ),
    ensures
        add_walk(
            add_walk(v, Seq::<Seq<char>>::empty(), p, 0, ip.0, ip.1),
            Seq::<Seq<char>>::empty(),
            q,
            0,
            iq.0,
            iq.1,
        ).dom() == add_walk(
            add_walk(v, Seq::<Seq<char>>::empty(), q, 0, iq.0, iq.1),
            Seq::<Seq<char>>::empty(),
            p,
            0,
            ip.0,
            ip.1,
        ).dom(),
{
    let top = Seq::<Seq<char>>::empty();
    let vp = add_walk(v, top, p, 0, ip.0, ip.1);
    let vq = add_walk(v, top, q, 0, iq.0, iq.1);
    law_add_tracks(v, s, p, ip.0, ip.1);
    law_add_tracks(vp, s.push(p), q, iq.0, iq.1);
    law_add_tracks(v, s, q, iq.0, iq.1);
    law_add_tracks(vq, s.push(q), p, ip.0, ip.1);
    let a = s.push(p).push(q);
    let b = s.push(q).push(p);
    assert forall|x: Path| #[trigger] a.contains(x) == b.contains(x) by {
        if a.contains(x) {
            let i = choose|i: int| 0 <= i < a.len() && a[i] == x;
            if i < s.len() {
                assert(b[i] == x);
            } else if i == s.len() {
                assert(b[s.len() as int + 1] == x);
            } else {
                assert(b[s.len() as int] == x);
            }
        }
        if b.contains(x) {
            let i = choose|i: int| 0 <= i < b.len() && b[i] == x;
            if i < s.len() {
                assert(a[i] == x);
            } else if i == s.len() {
                assert(a[s.len() as int + 1] == x);
            } else {
                assert(a[s.len() as int] == x);
            }
        }
    }
    assert forall|x: Path| #[trigger] minimal_in(a, x) == minimal_in(b, x) by {
        if minimal_in(a, x) {
            assert forall|y: Path| #[trigger] b.contains(y) implies !strictly_below(x, y) by {
                assert(a.contains(y));
            }
        }
        if minimal_in(b, x) {
            assert forall|y: Path| #[trigger] a.contains(y) implies !strictly_below(x, y) by {
                assert(b.contains(y));
            }
        }
    }
    let wa = add_walk(vp, top, q, 0, iq.0, iq.1);
    let wb = add_walk(vq, top, p, 0, ip.0, ip.1);
    assert forall|r: Path| #[trigger] wa.dom().contains(r) == wb.dom().contains(r) by {
        assert(wa.dom().contains(r) == under_minimal(a, r));
        assert(wb.dom().contains(r) == under_minimal(b, r));
        if under_minimal(a, r) && r.len() > 0 {
            let m = choose|m: Path| #[trigger] minimal_in(a, m) && r.is_prefix_of(m);
            assert(minimal_in(b, m));
        }
        if under_minimal(b, r) && r.len() > 0 {
            let m = choose|m: Path| #[trigger] minimal_in(b, m) && r.is_prefix_of(m);
            assert(minimal_in(a, m));
        }
    }
    assert(wa.dom() =~= wb.dom());
}

proof fn lemma_walk_keeps_root(
    v: TreeView,
    cur: Path,
    comps: Seq<Seq<char>>,
    j: int,
    leaf_ino: u64,
    inner_ino: u64,
)
    requires
        v.dom().contains(Seq::<Seq<char>>::empty()),
    ensures
        add_walk(v, cur, comps, j, leaf_ino, inner_ino).dom().contains(Seq::<Seq<char>>::empty()),
    decreases comps.len() - j,
{
    let top = Seq::<Seq<char>>::empty();
    if 0 <= j < comps.len() {
        let e = comps[j];
        let next = cur.push(e);
        if v.dom().contains(next) {
            if v[next].kids.len() == 0 {
            } else if j == comps.len() - 1 {
                assert(!strictly_below(top, next));
                lemma_walk_keeps_root(trim_view(v, next), next, comps, j + 1, leaf_ino, inner_ino);
            } else {
                lemma_walk_keeps_root(v, next, comps, j + 1, leaf_ino, inner_ino);
            }
        } else {
            let ino = if j == comps.len() - 1 {
                leaf_ino
            } else {
                inner_ino
            };
            let grown = add_child_view(v, cur, e, ino);
            if grown[cur].kids.len() > MAX_CHILD_COUNT {
                assert(!strictly_below(top, cur));
            } else {
                lemma_walk_keeps_root(grown, next, comps, j + 1, leaf_ino, inner_ino);
            }
        }
    }
}

/// Runs of the same adds with different inodes build trees of the same
/// shape: the same positions, each listing the same children in the same
/// order. So a `ChangeTree` (every new node holding the entry's inode) and
/// the tree that `highest_change_tree_add_path` builds (inner nodes holding
/// 0), fed the same paths from the same root, have the same shape.
pub proof fn law_runs_same_shape(
    v1: TreeView,
    v2: TreeView,
    paths: Seq<Path>,
    inos1: Seq<(u64, u64)>,
    inos2: Seq<(u64, u64)>,
)
    requires
        same_shape(v1, v2),
        v1.dom().contains(Seq::<Seq<char>>::empty()),
        inos1.len() == paths.len(),
        inos2.len() == paths.len(),
    ensures
        same_shape(view_after(v1, paths, inos1), view_after(v2, paths, inos2)),
        view_after(v1, paths, inos1).dom().contains(Seq::<Seq<char>>::empty()),
    decreases paths.len(),
{
    if paths.len() > 0 {
        law_runs_same_shape(v1, v2, paths.drop_last(), inos1.drop_last(), inos2.drop_last());
        let w1 = view_after(v1, paths.drop_last(), inos1.drop_last());
        let w2 = view_after(v2, paths.drop_last(), inos2.drop_last());
        law_inodes_do_not_shape(
            w1,
            w2,
            paths.last(),
            inos1.last().0,
            inos1.last().1,
            inos2.last().0,
            inos2.last().1,
        );
        lemma_walk_keeps_root(w1, Seq::<Seq<char>>::empty(), paths.last(), 0, inos1.last().0, inos1.last().1);
    }
}

proof fn lemma_leaf_below(v: TreeView, r: Path, b: nat)
    requires
        kids_in_view(v),
        depth_below(v, b),
        v.dom().contains(r),
    ensures
        exists|l: Path| #[trigger] is_leaf_at(v, l) && r.is_prefix_of(l),
    decreases b - r.len(),
{
    assert(r.len() < b);
    if v[r].kids.len() == 0 {
        assert(r.is_prefix_of(r)) by {
            assert(r =~= r.subrange(0, r.len() as int));
        }
        assert(is_leaf_at(v, r));
    } else {
        let x = r.push(v[r].kids[0]);
        assert(v.dom().contains(x));
        lemma_leaf_below(v, x, b);
        let l = choose|l: Path| #[trigger] is_leaf_at(v, l) && x.is_prefix_of(l);
        assert(r.is_prefix_of(x)) by {
            assert(r =~= x.subrange(0, r.len() as int));
        }
        lemma_prefix_trans(r, x, l);
    }
}

proof fn lemma_positions_complete(v: TreeView, p: Path, names: Seq<Seq<char>>, fuel: nat, b: nat, q: Path)
    requires
        view_shaped(v),
        depth_below(v, b),
        fuel + p.len() + 1 >= b,
        is_leaf_at(v, q),
        p.len() < q.len(),
        p.is_prefix_of(q),
        names.contains(q[p.len() as int]),
    ensures
        leaf_positions(v, p, names, fuel).contains(q),
    decreases fuel, names.len(),
{
    let x = p.push(names[0]);
    let here = if v[x].kids.len() == 0 {
        seq![x]
    } else if fuel == 0 {
        Seq::<Path>::empty()
    } else {
        leaf_positions(v, x, v[x].kids, (fuel - 1) as nat)
    };
    let rest = leaf_positions(v, p, names.drop_first(), fuel);
    assert(leaf_positions(v, p, names, fuel) == here + rest);
    if q[p.len() as int] == names[0] {
        assert(x =~= q.subrange(0, p.len() as int + 1)) by {
            assert forall|i: int| 0 <= i < p.len() implies x[i] == q[i] by {
                assert(p[i] == q[i]);
            }
        }
        assert(x.is_prefix_of(q));
        if x.len() == q.len() {
            assert(x =~= q);
            assert(here[0] == q);
        } else {
            lemma_above_is_inner(v, q, x);
            assert(q.len() < b);
            let y = q.subrange(0, x.len() as int + 1);
            assert(y =~= x.push(q[x.len() as int]));
            if y.len() < q.len() {
                assert(y.is_prefix_of(q)) by {
                    assert(y =~= q.subrange(0, y.len() as int));
                }
                lemma_above_is_inner(v, q, y);
            } else {
                assert(y =~= q);
            }
            assert(v.dom().contains(x.push(q[x.len() as int])));
            assert(v[x].kids.contains(q[x.len() as int]));
            lemma_positions_complete(v, x, v[x].kids, (fuel - 1) as nat, b, q);
        }
        let k = choose|k: int| 0 <= k < here.len() && here[k] == q;
        assert((here + rest)[k] == q);
    } else {
        let i = choose|i: int| 0 <= i < names.len() && names[i] == q[p.len() as int];
        assert(i > 0);
        assert(names.drop_first()[i - 1] == q[p.len() as int]);
        lemma_positions_complete(v, p, names.drop_first(), fuel, b, q);
        let k = choose|k: int| 0 <= k < rest.len() && rest[k] == q;
        assert((here + rest)[here.len() + k] == q);
    }
}

/// Any shaped tree of bounded depth, listing no name twice among a node's
/// children, is what its own leaves make of a tree: it tracks its leaves.
pub proof fn lemma_tracks_own_leaves(v: TreeView, b: nat)
    requires
        view_shaped(v),
        kids_in_view(v),
        kids_distinct(v),
        depth_below(v, b),
        v.dom().contains(Seq::<Seq<char>>::empty()),
    ensures
        tracks(
            v,
            leaf_positions(
                v,
                Seq::<Seq<char>>::empty(),
                v[Seq::<Seq<char>>::empty()].kids,
                b,
            ),
        ),
{
    let top = Seq::<Seq<char>>::empty();
    let names = v[top].kids;
    let ls = leaf_positions(v, top, names, b);
    assert forall|i: int| 0 <= i < names.len() implies v.dom().contains(#[trigger] top.push(names[i])) by {}
    assert(names.no_duplicates());
    lemma_positions_props(v, top, names, b);
    assert forall|l: Path| #[trigger] ls.contains(l) implies l.len() > 0 && is_leaf_at(v, l) by {
        let k = choose|k: int| 0 <= k < ls.len() && ls[k] == l;
        assert(ls[k] == l);
    }
    // every leaf is a highest one
    assert forall|l: Path| #[trigger] ls.contains(l) implies minimal_in(ls, l) by {
        assert forall|x: Path| #[trigger] ls.contains(x) implies !strictly_below(l, x) by {
            if strictly_below(l, x) {
                lemma_above_is_inner(v, l, x);
            }
        }
    }
    // the leaves below the root are listed
    assert forall|l: Path| #[trigger] is_leaf_at(v, l) && l.len() > 0 implies ls.contains(l) by {
        let y = l.subrange(0, 1);
        assert(y =~= top.push(l[0]));
        if y.len() < l.len() {
            assert(y.is_prefix_of(l)) by {
                assert(y =~= l.subrange(0, 1));
            }
            lemma_above_is_inner(v, l, y);
        } else {
            assert(y =~= l);
        }
        assert(v.dom().contains(top.push(l[0])));
        assert(names.contains(l[0]));
        assert(top.is_prefix_of(l));
        lemma_positions_complete(v, top, names, b, b, l);
    }
    assert forall|r: Path|
        #![trigger v.dom().contains(r)]
        #![trigger under_minimal(ls, r)]
        v.dom().contains(r) == under_minimal(ls, r) by {
        if v.dom().contains(r) && r.len() > 0 {
            lemma_leaf_below(v, r, b);
            let l = choose|l: Path| #[trigger] is_leaf_at(v, l) && r.is_prefix_of(l);
            assert(l.len() >= r.len());
            assert(ls.contains(l));
            assert(minimal_in(ls, l));
        }
        if under_minimal(ls, r) {
            if r.len() == 0 {
                assert(r =~= top);
            } else {
                let l = choose|l: Path| #[trigger] minimal_in(ls, l) && r.is_prefix_of(l);
                assert(is_leaf_at(v, l));
                if r.len() < l.len() {
                    lemma_above_is_inner(v, l, r);
                } else {
                    assert(r =~= l);
                }
            }
        }
    }
}

/// Two adds commute on any tree that lists no name twice among a node's
/// children: in either order they give the same positions, and so the same
/// leaves, when neither order overflows a node.
pub proof fn law_adds_commute_any(
    v: TreeView,
    b: nat,
    p: Seq<Seq<char>>,
    q: Seq<Seq<char>>,
    ip: (u64, u64),
    iq: (u64, u64),
)
    requires
        view_shaped(v),
        kids_in_view(v),
        kids_distinct(v),
        depth_below(v, b),
        v.dom().contains(Seq::<Seq<char>>::empty()),
        p.len() >= 1,
        q.len() >= 1,
        walk_fits(v, Seq::<Seq<char>>::empty(), p, 0, ip.0, ip.1),
        walk_fits(
            add_walk(v, Seq::<Seq<char>>::empty(), p, 0, ip.0, ip.1),
            Seq::<Seq<char>>::empty(),
            q,
            0,
            iq.0,
            iq.1,
        ),
        walk_fits(v, Seq::<Seq<char>>::empty(), q, 0, iq.0, iq.1),
        walk_fits(
            add_walk(v, Seq::<Seq<char>>::empty(), q, 0, iq.0, iq.1),
            Seq::<Seq<char>>::empty(),
            p,
            0,
            ip.0,
            ip.1,
        ),
    ensures
        add_walk(
            add_walk(v, Seq::<Seq<char>>::empty(), p, 0, ip.0, ip.1),
            Seq::<Seq<char>>::empty(),
            q,
            0,
            iq.0,
            iq.1,
        ).dom() == add_walk(
            add_walk(v, Seq::<Seq<char>>::empty(), q, 0, iq.0, iq.1),
            Seq::<Seq<char>>::empty(),
            p,
            0,
            ip.0,
            ip.1,
        ).dom(),
{
    lemma_tracks_own_leaves(v, b);
    let top = Seq::<Seq<char>>::empty();
    law_adds_commute(v, leaf_positions(v, top, v[top].kids, b), p, q, ip, iq);
}

} // verus!
