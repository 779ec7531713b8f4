//! The leaf listing stated over the view of the tree: the listing that the
//! arena walk produces is the depth-first list of the positions of the view
//! that have no children, each with its full path; and those full paths are
//! all different.
use indextree::NodeId;
use vstd::prelude::*;

use crate::laws::{lemma_above_is_inner, view_shaped};
use crate::text::{lemma_split_concat, lemma_split_free, split_on};
use crate::tree_model::{
    add_child_view, add_walk, child_names, leaf_entries, lemma_child_path,
    lemma_node_at_complete, lemma_node_at_sound, node_at, shaped, strictly_below, trim_view,
    tree_view, LeafEntry, Nodes, Path, TreeView, MAX_CHILD_COUNT,
};

verus! {

/// The leaves below the children named `names` of position `p`, depth
/// first, children in their order; a child's full path is the parent's path
/// `prefix`, `/`, and the child's name. `fuel` bounds the depth of the walk.
pub open spec fn view_leaves(
    v: TreeView,
    p: Path,
    names: Seq<Seq<char>>,
    prefix: Seq<char>,
    fuel: nat,
) -> Seq<LeafEntry>
    decreases fuel, names.len(),
{
    if names.len() == 0 {
        Seq::<LeafEntry>::empty()
    } else {
        let q = p.push(names[0]);
        let path = prefix + seq!['/'] + names[0];
        let here = if v[q].kids.len() == 0 {
            seq![LeafEntry { path, parent: prefix, ino: v[q].ino }]
        } else if fuel == 0 {
            Seq::<LeafEntry>::empty()
        } else {
            view_leaves(v, q, v[q].kids, path, (fuel - 1) as nat)
        };
        here + view_leaves(v, p, names.drop_first(), prefix, fuel)
    }
}

/// Every position of the view is fewer than `b` names deep.
pub open spec fn depth_below(v: TreeView, b: nat) -> bool {
    forall|q: Path| #[trigger] v.dom().contains(q) ==> q.len() < b
}

/// Each name that a position lists among its children leads to a position.
pub open spec fn kids_in_view(v: TreeView) -> bool {
    forall|q: Path, i: int|
        v.dom().contains(q) && 0 <= i < v[q].kids.len() ==> v.dom().contains(
            #[trigger] q.push(v[q].kids[i]),
        )
}

/// The listing of the arena walk is the listing of the view, for any fuel.
pub proof fn lemma_entries_match(
    m: Nodes,
    root: NodeId,
    pm: Map<NodeId, Path>,
    bound: nat,
    n: NodeId,
    kids: Seq<NodeId>,
    prefix: Seq<char>,
    fuel: nat,
)
    requires
        shaped(m, root, pm, bound),
        m.dom().contains(n),
        forall|i: int| 0 <= i < kids.len() ==> m[n].children.contains(#[trigger] kids[i]),
    ensures
        leaf_entries(m, kids, prefix, fuel) == view_leaves(
            tree_view(m, root),
            pm[n],
            child_names(m, kids),
            prefix,
            fuel,
        ),
    decreases fuel, kids.len(),
{
    let v = tree_view(m, root);
    let names = child_names(m, kids);
    if kids.len() > 0 {
        let c = kids[0];
        assert(m[n].children.contains(kids[0]));
        lemma_child_path(m, root, pm, bound, n, c);
        lemma_node_at_complete(m, root, pm, bound, c);
        let q = pm[n].push(names[0]);
        assert(q == pm[c]);
        assert(v.dom().contains(q));
        assert(v[q].kids == child_names(m, m[c].children));
        assert(v[q].ino == m[c].ino);
        let rest = kids.drop_first();
        assert(child_names(m, rest) =~= names.drop_first());
        assert forall|i: int| 0 <= i < rest.len() implies m[n].children.contains(#[trigger] rest[i]) by {
            assert(rest[i] == kids[i + 1]);
        }
        lemma_entries_match(m, root, pm, bound, n, rest, prefix, fuel);
        if m[c].children.len() > 0 && fuel > 0 {
            let path = prefix + seq!['/'] + m[c].name;
            assert forall|i: int| 0 <= i < m[c].children.len() implies m[c].children.contains(#[trigger] m[c].children[i]) by {}
            lemma_entries_match(m, root, pm, bound, c, m[c].children, path, (fuel - 1) as nat);
        }
    }
}

/// The view of a well-formed tree lists only names that lead to positions,
/// and its positions are shorter than the tree's bound.
pub proof fn lemma_view_facts(m: Nodes, root: NodeId, pm: Map<NodeId, Path>, bound: nat)
    requires
        shaped(m, root, pm, bound),
    ensures
        kids_in_view(tree_view(m, root)),
        depth_below(tree_view(m, root), bound),
{
    let v = tree_view(m, root);
    assert forall|q: Path, i: int| v.dom().contains(q) && 0 <= i < v[q].kids.len() implies v.dom().contains(
        #[trigger] q.push(v[q].kids[i]),
    ) by {
        lemma_node_at_sound(m, root, pm, bound, q);
        let n = node_at(m, root, q)->0;
        let c = m[n].children[i];
        assert(m[n].children.contains(c));
        lemma_child_path(m, root, pm, bound, n, c);
        lemma_node_at_complete(m, root, pm, bound, c);
    }
    assert forall|q: Path| #[trigger] v.dom().contains(q) implies q.len() < bound by {
        lemma_node_at_sound(m, root, pm, bound, q);
    }
}

/// Enough fuel lists the whole view: any two fuels that reach below every
/// position give the same listing.
pub proof fn lemma_view_leaves_fuel(
    v: TreeView,
    p: Path,
    names: Seq<Seq<char>>,
    prefix: Seq<char>,
    f1: nat,
    f2: nat,
    b: nat,
)
    requires
        kids_in_view(v),
        depth_below(v, b),
        forall|i: int| 0 <= i < names.len() ==> v.dom().contains(#[trigger] p.push(names[i])),
        f1 + p.len() + 1 >= b,
        f2 + p.len() + 1 >= b,
    ensures
        view_leaves(v, p, names, prefix, f1) == view_leaves(v, p, names, prefix, f2),
    decreases f1 + f2, names.len(),
{
    if names.len() > 0 {
        let q = p.push(names[0]);
        assert(v.dom().contains(q));
        let rest = names.drop_first();
        assert forall|i: int| 0 <= i < rest.len() implies v.dom().contains(#[trigger] p.push(rest[i])) by {
            assert(rest[i] == names[i + 1]);
        }
        lemma_view_leaves_fuel(v, p, rest, prefix, f1, f2, b);
        if v[q].kids.len() > 0 {
            assert(v.dom().contains(q.push(v[q].kids[0])));
            assert(q.push(v[q].kids[0]).len() == p.len() + 2);
            let path = prefix + seq!['/'] + names[0];
            assert forall|i: int| 0 <= i < v[q].kids.len() implies v.dom().contains(#[trigger] q.push(v[q].kids[i])) by {}
            lemma_view_leaves_fuel(v, q, v[q].kids, path, (f1 - 1) as nat, (f2 - 1) as nat, b);
        }
    }
}

/// The full path of position `q` below a root whose path is `prefix`: the
/// prefix, then `/` and a name for each level.
pub open spec fn full_path(prefix: Seq<char>, q: Path) -> Seq<char>
    decreases q.len(),
{
    if q.len() == 0 {
        prefix
    } else {
        full_path(prefix, q.drop_last()) + seq!['/'] + q.last()
    }
}

/// No name in any position of the view holds a `/`.
pub open spec fn names_free(v: TreeView) -> bool {
    forall|q: Path, i: int|
        #![trigger v.dom().contains(q), q[i]]
        v.dom().contains(q) && 0 <= i < q.len() ==> !q[i].contains('/')
}

/// No position lists a name twice among its children.
pub open spec fn kids_distinct(v: TreeView) -> bool {
    forall|q: Path| #[trigger] v.dom().contains(q) ==> v[q].kids.no_duplicates()
}

/// The positions that `view_leaves` lists, in its order.
pub open spec fn leaf_positions(v: TreeView, p: Path, names: Seq<Seq<char>>, fuel: nat) -> Seq<Path>
    decreases fuel, names.len(),
{
    if names.len() == 0 {
        Seq::<Path>::empty()
    } else {
        let q = p.push(names[0]);
        let here = if v[q].kids.len() == 0 {
            seq![q]
        } else if fuel == 0 {
            Seq::<Path>::empty()
        } else {
            leaf_positions(v, q, v[q].kids, (fuel - 1) as nat)
        };
        here + leaf_positions(v, p, names.drop_first(), fuel)
    }
}

/// What the listing records for the leaf at position `q`.
pub open spec fn entry_of(v: TreeView, prefix: Seq<char>, q: Path) -> LeafEntry {
    LeafEntry { path: full_path(prefix, q), parent: full_path(prefix, q.drop_last()), ino: v[q].ino }
}

/// The listing is made of the entries of the leaf positions.
pub proof fn lemma_leaves_as_positions(
    v: TreeView,
    p: Path,
    names: Seq<Seq<char>>,
    prefix: Seq<char>,
    fuel: nat,
)
    ensures
        view_leaves(v, p, names, full_path(prefix, p), fuel) == leaf_positions(
            v,
            p,
            names,
            fuel,
        ).map_values(|q: Path| entry_of(v, prefix, q)),
    decreases fuel, names.len(),
{
    let pos = leaf_positions(v, p, names, fuel);
    if names.len() > 0 {
        let q = p.push(names[0]);
        assert(q.drop_last() =~= p);
        assert(full_path(prefix, q) == full_path(prefix, p) + seq!['/'] + names[0]);
        lemma_leaves_as_positions(v, p, names.drop_first(), prefix, fuel);
        let rest = leaf_positions(v, p, names.drop_first(), fuel);
        if v[q].kids.len() == 0 {
            let here = seq![q];
            assert(pos == here + rest);
            assert(pos.map_values(|x: Path| entry_of(v, prefix, x)) =~= here.map_values(
                |x: Path| entry_of(v, prefix, x),
            ) + rest.map_values(|x: Path| entry_of(v, prefix, x)));
            assert(here.map_values(|x: Path| entry_of(v, prefix, x)) =~= seq![
                LeafEntry { path: full_path(prefix, q), parent: full_path(prefix, p), ino: v[q].ino },
            ]);
        } else if fuel == 0 {
            assert(pos =~= rest);
        } else {
            lemma_leaves_as_positions(v, q, v[q].kids, prefix, (fuel - 1) as nat);
            let here = leaf_positions(v, q, v[q].kids, (fuel - 1) as nat);
            assert(pos == here + rest);
            assert(pos.map_values(|x: Path| entry_of(v, prefix, x)) =~= here.map_values(
                |x: Path| entry_of(v, prefix, x),
            ) + rest.map_values(|x: Path| entry_of(v, prefix, x)));
        }
    } else {
        assert(pos.map_values(|x: Path| entry_of(v, prefix, x)) =~= Seq::<LeafEntry>::empty());
    }
}

/// The leaf positions below `p` are leaves of the view, lie below `p` under
/// one of `names`, and none is listed twice.
pub proof fn lemma_positions_props(v: TreeView, p: Path, names: Seq<Seq<char>>, fuel: nat)
    requires
        kids_in_view(v),
        kids_distinct(v),
        names.no_duplicates(),
        forall|i: int| 0 <= i < names.len() ==> v.dom().contains(#[trigger] p.push(names[i])),
    ensures
        forall|k: int|
            #![trigger leaf_positions(v, p, names, fuel)[k]]
            0 <= k < leaf_positions(v, p, names, fuel).len() ==> {
                let q = leaf_positions(v, p, names, fuel)[k];
                &&& v.dom().contains(q)
                &&& v[q].kids.len() == 0
                &&& p.len() < q.len()
                &&& p.is_prefix_of(q)
                &&& names.contains(q[p.len() as int])
            },
        leaf_positions(v, p, names, fuel).no_duplicates(),
    decreases fuel, names.len(),
{
    let pos = leaf_positions(v, p, names, fuel);
    if names.len() > 0 {
        let q = p.push(names[0]);
        assert(v.dom().contains(q));
        let rest_names = names.drop_first();
        assert forall|i: int| 0 <= i < rest_names.len() implies v.dom().contains(#[trigger] p.push(rest_names[i])) by {
            assert(rest_names[i] == names[i + 1]);
        }
        assert(rest_names.no_duplicates()) by {
            assert forall|i: int, j: int| 0 <= i < rest_names.len() && 0 <= j < rest_names.len() && i != j implies rest_names[i] != rest_names[j] by {
                assert(rest_names[i] == names[i + 1]);
                assert(rest_names[j] == names[j + 1]);
            }
        }
        lemma_positions_props(v, p, rest_names, fuel);
        let rest = leaf_positions(v, p, rest_names, fuel);
        let here = if v[q].kids.len() == 0 {
            seq![q]
        } else if fuel == 0 {
            Seq::<Path>::empty()
        } else {
            leaf_positions(v, q, v[q].kids, (fuel - 1) as nat)
        };
        assert(pos == here + rest);
        // every position listed `here` lies under `names[0]`
        assert forall|k: int| 0 <= k < here.len() implies {
            let x = #[trigger] here[k];
            &&& v.dom().contains(x)
            &&& v[x].kids.len() == 0
            &&& p.len() < x.len()
            &&& p.is_prefix_of(x)
            &&& x[p.len() as int] == names[0]
        } by {
            if v[q].kids.len() == 0 {
                assert(here[k] == q);
                assert(p.is_prefix_of(q)) by {
                    assert(q.subrange(0, p.len() as int) =~= p);
                }
            } else {
                assert forall|i: int| 0 <= i < v[q].kids.len() implies v.dom().contains(#[trigger] q.push(v[q].kids[i])) by {}
                lemma_positions_props(v, q, v[q].kids, (fuel - 1) as nat);
                let x = here[k];
                assert(x == leaf_positions(v, q, v[q].kids, (fuel - 1) as nat)[k]);
                assert(q.is_prefix_of(x));
                assert(x[p.len() as int] == q[p.len() as int]);
                assert(p.is_prefix_of(x)) by {
                    assert forall|i: int| 0 <= i < p.len() implies x[i] == p[i] by {
                        assert(x[i] == q[i]);
                    }
                    assert(x.subrange(0, p.len() as int) =~= p);
                }
            }
        }
        assert(here.no_duplicates()) by {
            if v[q].kids.len() > 0 && fuel > 0 {
                assert forall|i: int| 0 <= i < v[q].kids.len() implies v.dom().contains(#[trigger] q.push(v[q].kids[i])) by {}
                lemma_positions_props(v, q, v[q].kids, (fuel - 1) as nat);
            }
        }
        assert forall|k: int|
            #![trigger pos[k]]
            0 <= k < pos.len() implies {
                let x = pos[k];
                &&& v.dom().contains(x)
                &&& v[x].kids.len() == 0
                &&& p.len() < x.len()
                &&& p.is_prefix_of(x)
                &&& names.contains(x[p.len() as int])
            } by {
            if k < here.len() {
                assert(pos[k] == here[k]);
                assert(names[0] == here[k][p.len() as int]);
            } else {
                assert(pos[k] == rest[k - here.len()]);
                let x = rest[k - here.len()];
                let i = choose|i: int| 0 <= i < rest_names.len() && rest_names[i] == x[p.len() as int];
                assert(names[i + 1] == x[p.len() as int]);
            }
        }
        assert(pos.no_duplicates()) by {
            assert forall|a: int, b: int| 0 <= a < pos.len() && 0 <= b < pos.len() && a != b implies pos[a] != pos[b] by {
                if a < here.len() && b < here.len() {
                    assert(pos[a] == here[a]);
                    assert(pos[b] == here[b]);
                } else if a >= here.len() && b >= here.len() {
                    assert(pos[a] == rest[a - here.len()]);
                    assert(pos[b] == rest[b - here.len()]);
                } else {
                    let (h, r) = if a < here.len() {
                        (a, b - here.len())
                    } else {
                        (b, a - here.len())
                    };
                    let x = here[h];
                    let y = rest[r];
                    let i = choose|i: int| 0 <= i < rest_names.len() && rest_names[i] == y[p.len() as int];
                    assert(names[i + 1] == y[p.len() as int]);
                    assert(x[p.len() as int] == names[0]);
                    if x == y {
                        assert(names[0] == names[i + 1]);
                    }
                    assert(pos[a] == if a < here.len() { here[a] } else { rest[a - here.len()] });
                    assert(pos[b] == if b < here.len() { here[b] } else { rest[b - here.len()] });
                }
            }
        }
    }
}

proof fn lemma_full_path_split(prefix: Seq<char>, q: Path)
    requires
        forall|i: int| 0 <= i < q.len() ==> !(#[trigger] q[i]).contains('/'),
    ensures
        full_path(prefix, q) == prefix + full_path(Seq::<char>::empty(), q),
        split_on(full_path(Seq::<char>::empty(), q), '/') == seq![Seq::<char>::empty()] + q,
    decreases q.len(),
{
    if q.len() == 0 {
        assert(prefix + Seq::<char>::empty() =~= prefix);
        assert(seq![Seq::<char>::empty()] + q =~= seq![Seq::<char>::empty()]);
    } else {
        let up = q.drop_last();
        assert forall|i: int| 0 <= i < up.len() implies !(#[trigger] up[i]).contains('/') by {
            assert(up[i] == q[i]);
        }
        lemma_full_path_split(prefix, up);
        let t = full_path(Seq::<char>::empty(), up);
        assert(full_path(prefix, q) =~= prefix + full_path(Seq::<char>::empty(), q));
        lemma_split_concat(t, q.last(), '/');
        lemma_split_free(q.last(), '/');
        assert(seq![Seq::<char>::empty()] + up + seq![q.last()] =~= seq![Seq::<char>::empty()] + q);
    }
}

/// Full paths tell positions apart when no name holds a `/`.
pub proof fn lemma_full_path_injective(prefix: Seq<char>, q1: Path, q2: Path)
    requires
        forall|i: int| 0 <= i < q1.len() ==> !(#[trigger] q1[i]).contains('/'),
        forall|i: int| 0 <= i < q2.len() ==> !(#[trigger] q2[i]).contains('/'),
        full_path(prefix, q1) == full_path(prefix, q2),
    ensures
        q1 == q2,
{
    lemma_full_path_split(prefix, q1);
    lemma_full_path_split(prefix, q2);
    let t1 = full_path(Seq::<char>::empty(), q1);
    let t2 = full_path(Seq::<char>::empty(), q2);
    assert(t1 =~= (prefix + t1).skip(prefix.len() as int));
    assert(t2 =~= (prefix + t2).skip(prefix.len() as int));
    assert((seq![Seq::<char>::empty()] + q1).drop_first() =~= q1);
    assert((seq![Seq::<char>::empty()] + q2).drop_first() =~= q2);
}

/// In the listing, no entry's path is the path or the parent of a later
/// entry, and no entry's parent is the path of a later one.
pub open spec fn reports_apart(entries: Seq<LeafEntry>) -> bool {
    forall|a: int, b: int|
        #![trigger entries[a], entries[b]]
        0 <= a < b < entries.len() ==> {
            &&& entries[a].path != entries[b].path
            &&& entries[a].path != entries[b].parent
            &&& entries[a].parent != entries[b].path
        }
}

/// The leaves of a shaped view whose names hold no `/` are listed apart.
pub proof fn lemma_listing_apart(v: TreeView, prefix: Seq<char>, fuel: nat)
    requires
        view_shaped(v),
        names_free(v),
        kids_in_view(v),
        kids_distinct(v),
        v.dom().contains(Seq::<Seq<char>>::empty()),
    ensures
        reports_apart(
            view_leaves(
                v,
                Seq::<Seq<char>>::empty(),
                v[Seq::<Seq<char>>::empty()].kids,
                prefix,
                fuel,
            ),
        ),
{
    let top = Seq::<Seq<char>>::empty();
    let names = v[top].kids;
    assert forall|i: int| 0 <= i < names.len() implies v.dom().contains(#[trigger] top.push(names[i])) by {}
    lemma_positions_props(v, top, names, fuel);
    lemma_leaves_as_positions(v, top, names, prefix, fuel);
    let pos = leaf_positions(v, top, names, fuel);
    let entries = view_leaves(v, top, names, prefix, fuel);
    assert(entries == pos.map_values(|q: Path| entry_of(v, prefix, q)));
    assert forall|a: int, b: int|
        #![trigger entries[a], entries[b]]
        0 <= a < b < entries.len() implies {
            &&& entries[a].path != entries[b].path
            &&& entries[a].path != entries[b].parent
            &&& entries[a].parent != entries[b].path
        } by {
        let qa = pos[a];
        let qb = pos[b];
        assert(entries[a] == entry_of(v, prefix, qa));
        assert(entries[b] == entry_of(v, prefix, qb));
        assert(qa != qb);
        assert(v.dom().contains(qa) && v.dom().contains(qb));
        assert forall|i: int| 0 <= i < qa.len() implies !(#[trigger] qa[i]).contains('/') by {
            assert(v.dom().contains(qa));
        }
        assert forall|i: int| 0 <= i < qb.len() implies !(#[trigger] qb[i]).contains('/') by {
            assert(v.dom().contains(qb));
        }
        let pa = qa.drop_last();
        let pb = qb.drop_last();
        assert forall|i: int| 0 <= i < pa.len() implies !(#[trigger] pa[i]).contains('/') by {
            assert(pa[i] == qa[i]);
        }
        assert forall|i: int| 0 <= i < pb.len() implies !(#[trigger] pb[i]).contains('/') by {
            assert(pb[i] == qb[i]);
        }
        if full_path(prefix, qa) == full_path(prefix, qb) {
            lemma_full_path_injective(prefix, qa, qb);
        }
        if full_path(prefix, qa) == full_path(prefix, pb) {
            lemma_full_path_injective(prefix, qa, pb);
            assert(pb.is_prefix_of(qb)) by {
                assert(pb =~= qb.subrange(0, pb.len() as int));
            }
            lemma_above_is_inner(v, qb, pb);
        }
        if full_path(prefix, pa) == full_path(prefix, qb) {
            lemma_full_path_injective(prefix, pa, qb);
            assert(pa.is_prefix_of(qa)) by {
                assert(pa =~= qa.subrange(0, pa.len() as int));
            }
            lemma_above_is_inner(v, qa, pa);
        }
    }
}

/// The view of a well-formed tree lists no name twice among the children
/// of a position.
pub proof fn lemma_kids_distinct(m: Nodes, root: NodeId, pm: Map<NodeId, Path>, bound: nat)
    requires
        shaped(m, root, pm, bound),
    ensures
        kids_distinct(tree_view(m, root)),
{
    let v = tree_view(m, root);
    assert forall|q: Path| #[trigger] v.dom().contains(q) implies v[q].kids.no_duplicates() by {
        lemma_node_at_sound(m, root, pm, bound, q);
        let n = node_at(m, root, q)->0;
        let kids = m[n].children;
        assert(v[q].kids == child_names(m, kids));
        assert forall|i: int, j: int| 0 <= i < kids.len() && 0 <= j < kids.len() && i != j implies child_names(m, kids)[i] != child_names(m, kids)[j] by {
            let a = kids[i];
            let b = kids[j];
            assert(m[n].children.no_duplicates());
            assert(a != b);
            assert(pm[a] == pm[n].push(m[a].name));
            assert(pm[b] == pm[n].push(m[b].name));
            if m[a].name == m[b].name {
                assert(pm[a] == pm[b]);
            }
        }
    }
}

/// A walk that adds components without `/` keeps the names of the view
/// free of `/`.
pub proof fn lemma_walk_keeps_names(
    v: TreeView,
    cur: Path,
    comps: Seq<Seq<char>>,
    j: int,
    leaf_ino: u64,
    inner_ino: u64,
)
    requires
        names_free(v),
        v.dom().contains(cur),
        forall|i: int| 0 <= i < comps.len() ==> !(#[trigger] comps[i]).contains('/'),
    ensures
        names_free(add_walk(v, cur, comps, j, leaf_ino, inner_ino)),
    decreases comps.len() - j,
{
    if 0 <= j < comps.len() {
        let e = comps[j];
        let next = cur.push(e);
        if v.dom().contains(next) {
            if v[next].kids.len() == 0 {
            } else if j == comps.len() - 1 {
                let t = trim_view(v, next);
                assert(!strictly_below(next, next));
                lemma_walk_keeps_names(t, next, comps, j + 1, leaf_ino, inner_ino);
            } else {
                lemma_walk_keeps_names(v, next, comps, j + 1, leaf_ino, inner_ino);
            }
        } else {
            let ino = if j == comps.len() - 1 {
                leaf_ino
            } else {
                inner_ino
            };
            let grown = add_child_view(v, cur, e, ino);
            assert forall|q: Path, i: int|
                #![trigger grown.dom().contains(q), q[i]]
                grown.dom().contains(q) && 0 <= i < q.len() implies !q[i].contains('/') by {
                if q == next {
                    if i < cur.len() {
                        assert(q[i] == cur[i]);
                        assert(v.dom().contains(cur));
                    }
                } else {
                    assert(v.dom().contains(q));
                }
            }
            if grown[cur].kids.len() <= MAX_CHILD_COUNT {
                lemma_walk_keeps_names(grown, next, comps, j + 1, leaf_ino, inner_ino);
            }
        }
    }
}

} // verus!
