use indextree::NodeId;
use vstd::prelude::*;

use crate::arena::{is_chain, reachable, ArenaNode};

verus! {

/// The live nodes of an arena, as `arena_nodes` gives them.
pub type Nodes = Map<NodeId, ArenaNode>;

/// A position in the tree: the names of the nodes met on the way down from
/// the root, the root itself excluded.
pub type Path = Seq<Seq<char>>;

/// The first of `kids` whose name is `name` (the child that a search of the
/// children in order finds).
pub open spec fn find_child(m: Nodes, kids: Seq<NodeId>, name: Seq<char>) -> Option<NodeId>
    decreases kids.len(),
{
    if kids.len() == 0 {
        None
    } else if m[kids[0]].name == name {
        Some(kids[0])
    } else {
        find_child(m, kids.drop_first(), name)
    }
}

/// The node reached from `root` by following, name by name, the children
/// named in `path`.
pub open spec fn node_at(m: Nodes, root: NodeId, path: Path) -> Option<NodeId>
    decreases path.len(),
{
    if path.len() == 0 {
        Some(root)
    } else {
        match node_at(m, root, path.drop_last()) {
            Some(n) => find_child(m, m[n].children, path.last()),
            None => None,
        }
    }
}

/// What the tree records at one position: the inode, and the names of the
/// children in the order in which they were added.
pub ghost struct NodeInfo {
    pub ino: u64,
    pub kids: Seq<Seq<char>>,
}

/// The names of a list of nodes.
pub open spec fn child_names(m: Nodes, kids: Seq<NodeId>) -> Seq<Seq<char>> {
    kids.map_values(|c: NodeId| m[c].name)
}

pub open spec fn info_of(m: Nodes, n: NodeId) -> NodeInfo {
    NodeInfo { ino: m[n].ino, kids: child_names(m, m[n].children) }
}

/// The tree below `root` seen as positions: each path that leads to a node,
/// with what that node records.
pub type TreeView = Map<Path, NodeInfo>;

pub open spec fn tree_view(m: Nodes, root: NodeId) -> TreeView {
    Map::new(|p: Path| node_at(m, root, p) is Some, |p: Path| info_of(m, node_at(m, root, p)->0))
}

/// `n` is listed as a child by some live node.
pub open spec fn has_parent(m: Nodes, n: NodeId) -> bool {
    exists|p: NodeId| m.dom().contains(p) && #[trigger] m[p].children.contains(n)
}

/// The arena `m` holds exactly one tree, rooted at `root`, and `pm` gives the
/// position of each of its nodes: every child sits one name below its parent,
/// no two nodes share a position, every node but the root has a parent,
/// children lists repeat no node, and no position is `bound` names deep.
pub open spec fn shaped(m: Nodes, root: NodeId, pm: Map<NodeId, Path>, bound: nat) -> bool {
    &&& pm.dom() == m.dom()
    &&& m.dom().contains(root)
    &&& pm[root] == Seq::<Seq<char>>::empty()
    &&& forall|n: NodeId, i: int|
        m.dom().contains(n) && 0 <= i < m[n].children.len() ==> m.dom().contains(
            #[trigger] m[n].children[i],
        ) && pm[m[n].children[i]] == pm[n].push(m[m[n].children[i]].name)
    &&& forall|n: NodeId| m.dom().contains(n) ==> (#[trigger] m[n].children).no_duplicates()
    &&& forall|n: NodeId| m.dom().contains(n) && n != root ==> #[trigger] has_parent(m, n)
    &&& forall|a: NodeId, b: NodeId|
        m.dom().contains(a) && m.dom().contains(b) && #[trigger] pm[a] == #[trigger] pm[b] ==> a
            == b
    &&& forall|n: NodeId| m.dom().contains(n) ==> (#[trigger] pm[n]).len() < bound
}

/// The arena holds exactly one well-formed change tree, rooted at `root`.
pub open spec fn change_tree_wf(m: Nodes, root: NodeId) -> bool {
    exists|pm: Map<NodeId, Path>, bound: nat| shaped(m, root, pm, bound)
}

pub proof fn lemma_find_child_some(m: Nodes, kids: Seq<NodeId>, name: Seq<char>)
    ensures
        find_child(m, kids, name) matches Some(c) ==> kids.contains(c) && m[c].name == name,
    decreases kids.len(),
{
    if kids.len() > 0 && m[kids[0]].name != name {
        lemma_find_child_some(m, kids.drop_first(), name);
        if let Some(c) = find_child(m, kids, name) {
            let k = choose|k: int| 0 <= k < kids.drop_first().len() && kids.drop_first()[k] == c;
            assert(kids[k + 1] == c);
        }
    }
}

pub proof fn lemma_find_child_none(m: Nodes, kids: Seq<NodeId>, name: Seq<char>)
    ensures
        find_child(m, kids, name) is None <==> forall|i: int|
            0 <= i < kids.len() ==> m[#[trigger] kids[i]].name != name,
    decreases kids.len(),
{
    if kids.len() > 0 {
        lemma_find_child_none(m, kids.drop_first(), name);
        if m[kids[0]].name != name {
            assert forall|i: int| 0 <= i < kids.len() && m[kids[i]].name == name implies i > 0 by {}
            if find_child(m, kids, name) is None {
                assert forall|i: int| 0 <= i < kids.len() implies m[#[trigger] kids[i]].name
                    != name by {
                    if i > 0 {
                        assert(kids[i] == kids.drop_first()[i - 1]);
                    }
                }
            } else {
                assert(!forall|i: int| 0 <= i < kids.drop_first().len() ==> m[#[trigger] kids.drop_first()[i]].name != name);
                let j = choose|j: int| 0 <= j < kids.drop_first().len() && m[kids.drop_first()[j]].name == name;
                assert(m[kids[j + 1]].name == name);
            }
        }
    }
}

/// When `c` is the only one of `kids` named as it is, a search for its name
/// finds it.
pub proof fn lemma_find_child_unique(m: Nodes, kids: Seq<NodeId>, c: NodeId)
    requires
        kids.contains(c),
        forall|i: int| 0 <= i < kids.len() && m[#[trigger] kids[i]].name == m[c].name ==> kids[i] == c,
    ensures
        find_child(m, kids, m[c].name) == Some(c),
    decreases kids.len(),
{
    if kids[0] != c {
        let k = choose|k: int| 0 <= k < kids.len() && kids[k] == c;
        assert(kids.drop_first()[k - 1] == c);
        assert forall|i: int|
            0 <= i < kids.drop_first().len() && m[#[trigger] kids.drop_first()[i]].name
                == m[c].name implies kids.drop_first()[i] == c by {
            assert(kids.drop_first()[i] == kids[i + 1]);
        }
        lemma_find_child_unique(m, kids.drop_first(), c);
    }
}

/// A node listed by two parents is listed by one only, and sits one name below it.
pub proof fn lemma_parent_unique(
    m: Nodes,
    root: NodeId,
    pm: Map<NodeId, Path>,
    bound: nat,
    x: NodeId,
    p1: NodeId,
    p2: NodeId,
)
    requires
        shaped(m, root, pm, bound),
        m.dom().contains(p1),
        m.dom().contains(p2),
        m[p1].children.contains(x),
        m[p2].children.contains(x),
    ensures
        p1 == p2,
        m.dom().contains(x),
        pm[x] == pm[p1].push(m[x].name),
{
    let i1 = choose|i: int| 0 <= i < m[p1].children.len() && m[p1].children[i] == x;
    let i2 = choose|i: int| 0 <= i < m[p2].children.len() && m[p2].children[i] == x;
    assert(m[p1].children[i1] == x);
    assert(m[p2].children[i2] == x);
    assert(pm[p1] =~= pm[x].drop_last());
    assert(pm[p2] =~= pm[x].drop_last());
}

/// A child sits one name below its parent.
pub proof fn lemma_child_path(
    m: Nodes,
    root: NodeId,
    pm: Map<NodeId, Path>,
    bound: nat,
    n: NodeId,
    k: NodeId,
)
    requires
        shaped(m, root, pm, bound),
        m.dom().contains(n),
        m[n].children.contains(k),
    ensures
        m.dom().contains(k),
        pm[k] == pm[n].push(m[k].name),
{
    let i = choose|i: int| 0 <= i < m[n].children.len() && m[n].children[i] == k;
    assert(m[n].children[i] == k);
}

/// The parent of a node other than the root: the node that lists it.
pub proof fn lemma_parent_of(m: Nodes, root: NodeId, pm: Map<NodeId, Path>, bound: nat, x: NodeId)
    -> (p: NodeId)
    requires
        shaped(m, root, pm, bound),
        m.dom().contains(x),
        x != root,
    ensures
        m.dom().contains(p),
        m[p].children.contains(x),
        pm[x] == pm[p].push(m[x].name),
        pm[p] == pm[x].drop_last(),
        pm[x].len() == pm[p].len() + 1,
{
    assert(has_parent(m, x));
    let p = choose|p: NodeId| m.dom().contains(p) && #[trigger] m[p].children.contains(x);
    lemma_parent_unique(m, root, pm, bound, x, p, p);
    assert(pm[p] =~= pm[x].drop_last());
    p
}

/// Following a path from the root lands on the node at that position.
pub proof fn lemma_node_at_sound(
    m: Nodes,
    root: NodeId,
    pm: Map<NodeId, Path>,
    bound: nat,
    p: Path,
)
    requires
        shaped(m, root, pm, bound),
    ensures
        node_at(m, root, p) matches Some(n) ==> m.dom().contains(n) && pm[n] == p,
    decreases p.len(),
{
    if p.len() > 0 {
        lemma_node_at_sound(m, root, pm, bound, p.drop_last());
        if let Some(q) = node_at(m, root, p.drop_last()) {
            lemma_find_child_some(m, m[q].children, p.last());
            if let Some(n) = node_at(m, root, p) {
                let i = choose|i: int| 0 <= i < m[q].children.len() && m[q].children[i] == n;
                assert(m[q].children[i] == n);
                assert(p.drop_last().push(p.last()) =~= p);
            }
        }
    }
}

/// Every node of the tree is reached by following its position from the root.
pub proof fn lemma_node_at_complete(
    m: Nodes,
    root: NodeId,
    pm: Map<NodeId, Path>,
    bound: nat,
    n: NodeId,
)
    requires
        shaped(m, root, pm, bound),
        m.dom().contains(n),
    ensures
        node_at(m, root, pm[n]) == Some(n),
    decreases pm[n].len(),
{
    if n == root {
    } else {
        let p = lemma_parent_of(m, root, pm, bound, n);
        lemma_node_at_complete(m, root, pm, bound, p);
        let kids = m[p].children;
        assert forall|i: int| 0 <= i < kids.len() && m[#[trigger] kids[i]].name == m[n].name implies kids[i] == n by {
            assert(pm[kids[i]] == pm[p].push(m[kids[i]].name));
        }
        lemma_find_child_unique(m, kids, n);
    }
}


/// `m` with a new node `id` holding `name` and `ino`, without children.
pub open spec fn with_new_leaf(m: Nodes, id: NodeId, name: Seq<char>, ino: u64) -> Nodes {
    m.insert(id, ArenaNode { name, ino, children: Seq::<NodeId>::empty() })
}

/// `m` with `child` added at the end of the children of `parent`.
pub open spec fn with_child_appended(m: Nodes, parent: NodeId, child: NodeId) -> Nodes {
    m.insert(
        parent,
        ArenaNode {
            name: m[parent].name,
            ino: m[parent].ino,
            children: m[parent].children.push(child),
        },
    )
}

/// The view after adding, below position `cur`, a new last child `name`
/// holding `ino` and no children.
pub open spec fn add_child_view(v: TreeView, cur: Path, name: Seq<char>, ino: u64) -> TreeView {
    v.insert(cur, NodeInfo { ino: v[cur].ino, kids: v[cur].kids.push(name) }).insert(
        cur.push(name),
        NodeInfo { ino, kids: Seq::<Seq<char>>::empty() },
    )
}

/// Adding a fresh node as the last child of `cur`, under a name that no child
/// of `cur` has, keeps the tree well formed and adds one position to its view.
pub proof fn lemma_add_child(
    m: Nodes,
    root: NodeId,
    pm: Map<NodeId, Path>,
    bound: nat,
    cur: NodeId,
    new: NodeId,
    name: Seq<char>,
    ino: u64,
)
    requires
        shaped(m, root, pm, bound),
        m.dom().contains(cur),
        !m.dom().contains(new),
        find_child(m, m[cur].children, name) is None,
    ensures
        shaped(
            with_child_appended(with_new_leaf(m, new, name, ino), cur, new),
            root,
            pm.insert(new, pm[cur].push(name)),
            bound + 1,
        ),
        tree_view(with_child_appended(with_new_leaf(m, new, name, ino), cur, new), root)
            == add_child_view(tree_view(m, root), pm[cur], name, ino),
{
    let m1 = with_new_leaf(m, new, name, ino);
    let m2 = with_child_appended(m1, cur, new);
    let pm2 = pm.insert(new, pm[cur].push(name));
    let pc = pm[cur];
    lemma_find_child_none(m, m[cur].children, name);
    assert(m2.dom() =~= m.dom().insert(new));
    assert(pm2.dom() =~= m2.dom());
    assert forall|n: NodeId, i: int|
        m2.dom().contains(n) && 0 <= i < m2[n].children.len() implies m2.dom().contains(
        #[trigger] m2[n].children[i],
    ) && pm2[m2[n].children[i]] == pm2[n].push(m2[m2[n].children[i]].name) by {
        if n == cur {
            if i < m[cur].children.len() {
                let c = m[cur].children[i];
                assert(m2[n].children[i] == c);
                assert(m.dom().contains(c));
                assert(pm[c] == pm[cur].push(m[c].name));
            }
        } else if n != new {
            let c = m[n].children[i];
            assert(m2[n].children[i] == c);
            assert(m.dom().contains(c));
            assert(pm[c] == pm[n].push(m[c].name));
        }
    }
    assert forall|n: NodeId| m2.dom().contains(n) implies (#[trigger] m2[n].children).no_duplicates() by {
        if n == cur {
            assert(m[cur].children.no_duplicates());
            assert forall|i: int| 0 <= i < m[cur].children.len() implies m[cur].children[i] != new by {
                assert(m.dom().contains(m[cur].children[i]));
            }
        }
    }
    assert forall|n: NodeId| m2.dom().contains(n) && n != root implies #[trigger] has_parent(m2, n) by {
        if n == new {
            assert(m2[cur].children[m[cur].children.len() as int] == new);
            assert(m2[cur].children.contains(new));
        } else {
            assert(has_parent(m, n));
            let p = choose|p: NodeId| m.dom().contains(p) && #[trigger] m[p].children.contains(n);
            let k = choose|k: int| 0 <= k < m[p].children.len() && m[p].children[k] == n;
            assert(m2[p].children[k] == n);
            assert(m2[p].children.contains(n));
        }
    }
    assert forall|a: NodeId, b: NodeId|
        m2.dom().contains(a) && m2.dom().contains(b) && #[trigger] pm2[a] == #[trigger] pm2[b] implies a == b by {
        if a == new && b != new {
            assert(b != root);
            let p = lemma_parent_of(m, root, pm, bound, b);
            assert(pm[p] =~= pc);
            assert(p == cur);
            let k = choose|k: int| 0 <= k < m[p].children.len() && m[p].children[k] == b;
            assert(pm[b] == pm[p].push(m[b].name));
            assert(pm[b].last() == m[b].name);
            assert(m[m[cur].children[k]].name != name);
        } else if b == new && a != new {
            assert(a != root);
            let p = lemma_parent_of(m, root, pm, bound, a);
            assert(pm[p] =~= pc);
            assert(p == cur);
            let k = choose|k: int| 0 <= k < m[p].children.len() && m[p].children[k] == a;
            assert(pm[a].last() == m[a].name);
            assert(m[m[cur].children[k]].name != name);
        }
    }
    assert(shaped(m2, root, pm2, bound + 1));

    // The view, position by position.
    let v = tree_view(m, root);
    let v2 = tree_view(m2, root);
    let expect = add_child_view(v, pc, name, ino);
    lemma_node_at_complete(m, root, pm, bound, cur);
    assert forall|c: NodeId| m[cur].children.contains(c) implies m2[c].name == m[c].name by {
        let k = choose|k: int| 0 <= k < m[cur].children.len() && m[cur].children[k] == c;
        assert(m.dom().contains(m[cur].children[k]));
    }
    assert forall|p: Path| #[trigger] v2.dom().contains(p) == expect.dom().contains(p) && (v2.dom().contains(p) ==> v2[p] == expect[p]) by {
        lemma_node_at_sound(m2, root, pm2, bound + 1, p);
        lemma_node_at_sound(m, root, pm, bound, p);
        match node_at(m2, root, p) {
            Some(n) => {
                if n == new {
                    assert(p == pc.push(name));
                    assert(child_names(m2, m2[new].children) =~= Seq::<Seq<char>>::empty());
                } else {
                    lemma_node_at_complete(m, root, pm, bound, n);
                    assert(v.dom().contains(p));
                    assert(node_at(m, root, p) == Some(n));
                    if n == cur {
                        assert(p == pc);
                        assert forall|k: int| 0 <= k < m[cur].children.len() implies m2[#[trigger] m[cur].children[k]].name == m[m[cur].children[k]].name by {
                            assert(m.dom().contains(m[cur].children[k]));
                        }
                        assert(child_names(m2, m2[cur].children) =~= child_names(m, m[cur].children).push(name));
                    } else {
                        assert(p != pc) by {
                            if p == pc { lemma_node_at_complete(m, root, pm, bound, cur); }
                        }
                        assert(p != pc.push(name)) by {
                            if p == pc.push(name) { lemma_node_at_complete(m2, root, pm2, bound + 1, new); }
                        }
                        assert forall|k: int| 0 <= k < m[n].children.len() implies m2[#[trigger] m[n].children[k]].name == m[m[n].children[k]].name by {
                            assert(m.dom().contains(m[n].children[k]));
                        }
                        assert(child_names(m2, m2[n].children) =~= child_names(m, m[n].children));
                    }
                }
            },
            None => {
                if v.dom().contains(p) {
                    let n = node_at(m, root, p)->0;
                    lemma_node_at_complete(m2, root, pm2, bound + 1, n);
                }
                if p == pc.push(name) {
                    lemma_node_at_complete(m2, root, pm2, bound + 1, new);
                }
            },
        }
    }
    assert(v2 =~= expect);
}


/// Position `q` lies strictly below position `p`.
pub open spec fn strictly_below(q: Path, p: Path) -> bool {
    p.len() < q.len() && p.is_prefix_of(q)
}

/// What a chain from `c` reaches lies at or below the position of `c`.
pub proof fn lemma_reach_below(
    m: Nodes,
    root: NodeId,
    pm: Map<NodeId, Path>,
    bound: nat,
    c: NodeId,
    x: NodeId,
)
    requires
        shaped(m, root, pm, bound),
        m.dom().contains(c),
        reachable(m, c, x),
    ensures
        m.dom().contains(x),
        pm[c].is_prefix_of(pm[x]),
{
    let s = choose|s: Seq<NodeId>| is_chain(m, s, c, x);
    lemma_chain_below(m, root, pm, bound, c, x, s, s.len() - 1);
}

proof fn lemma_chain_below(
    m: Nodes,
    root: NodeId,
    pm: Map<NodeId, Path>,
    bound: nat,
    c: NodeId,
    x: NodeId,
    s: Seq<NodeId>,
    i: int,
)
    requires
        shaped(m, root, pm, bound),
        m.dom().contains(c),
        is_chain(m, s, c, x),
        0 <= i < s.len(),
    ensures
        m.dom().contains(s[i]),
        pm[c].is_prefix_of(pm[s[i]]),
    decreases i,
{
    if i > 0 {
        lemma_chain_below(m, root, pm, bound, c, x, s, i - 1);
        let j = i - 1;
        assert(m.dom().contains(s[j]) && m[s[j]].children.contains(s[j + 1]));
        lemma_child_path(m, root, pm, bound, s[j], s[j + 1]);
    }
}

/// Every node at or below the position of `c` is reached by a chain from `c`.
pub proof fn lemma_below_reach(
    m: Nodes,
    root: NodeId,
    pm: Map<NodeId, Path>,
    bound: nat,
    c: NodeId,
    x: NodeId,
)
    requires
        shaped(m, root, pm, bound),
        m.dom().contains(c),
        m.dom().contains(x),
        pm[c].is_prefix_of(pm[x]),
    ensures
        reachable(m, c, x),
    decreases pm[x].len(),
{
    if pm[x].len() == pm[c].len() {
        assert(pm[x] =~= pm[c]);
        assert(x == c);
        assert(is_chain(m, seq![c], c, x));
    } else {
        let p = lemma_parent_of(m, root, pm, bound, x);
        assert(pm[c].is_prefix_of(pm[p]));
        lemma_below_reach(m, root, pm, bound, c, p);
        let s = choose|s: Seq<NodeId>| is_chain(m, s, c, p);
        let s2 = s.push(x);
        assert forall|i: int| 0 <= i < s2.len() - 1 implies m.dom().contains(#[trigger] s2[i])
            && m[s2[i]].children.contains(s2[i + 1]) by {
            if i < s.len() - 1 {
                assert(s2[i] == s[i] && s2[i + 1] == s[i + 1]);
            } else {
                assert(s2[i] == p && s2[i + 1] == x);
            }
        }
        assert(is_chain(m, s2, c, x));
    }
}

pub proof fn lemma_remove_first(s: Seq<NodeId>, v: NodeId)
    requires
        s.len() > 0,
        s[0] == v,
    ensures
        s.remove_value(v) == s.drop_first(),
{
    s.index_of_first_ensures(v);
    assert(s.remove_value(v) =~= s.drop_first());
}

pub proof fn lemma_remove_value_keeps(s: Seq<NodeId>, v: NodeId)
    requires
        s.no_duplicates(),
    ensures
        s.remove_value(v).no_duplicates(),
        !s.remove_value(v).contains(v),
        forall|x: NodeId| x != v ==> (s.remove_value(v).contains(x) == s.contains(x)),
        forall|i: int| 0 <= i < s.remove_value(v).len() ==> s.contains(#[trigger] s.remove_value(v)[i]),
{
    s.index_of_first_ensures(v);
    match s.index_of_first(v) {
        Some(k) => {
            let r = s.remove_value(v);
            assert(r == s.remove(k));
            s.remove_ensures(k);
            assert forall|x: NodeId| x != v implies (r.contains(x) == s.contains(x)) by {
                if s.contains(x) {
                    let j = choose|j: int| 0 <= j < s.len() && s[j] == x;
                    if j < k {
                        assert(r[j] == x);
                    } else {
                        assert(j != k);
                        assert(r[j - 1] == x);
                    }
                }
                if r.contains(x) {
                    let j = choose|j: int| 0 <= j < r.len() && r[j] == x;
                    if j < k {
                        assert(s[j] == x);
                    } else {
                        assert(s[j + 1] == x);
                    }
                }
            }
            assert forall|i: int| 0 <= i < r.len() implies s.contains(#[trigger] r[i]) by {
                if i < k {
                    assert(s[i] == r[i]);
                } else {
                    assert(s[i + 1] == r[i]);
                }
            }
            assert(!r.contains(v)) by {
                if r.contains(v) {
                    let j = choose|j: int| 0 <= j < r.len() && r[j] == v;
                    if j < k {
                        assert(s[j] == v);
                    } else {
                        assert(s[j + 1] == v);
                        assert(j + 1 != k);
                    }
                }
            }
            assert forall|i: int, j: int| 0 <= i < r.len() && 0 <= j < r.len() && i != j implies r[i] != r[j] by {
                let si = if i < k { i } else { i + 1 };
                let sj = if j < k { j } else { j + 1 };
                assert(s[si] == r[i]);
                assert(s[sj] == r[j]);
            }
        },
        None => {},
    }
}

/// Removing the subtree of a child `c` of `n` (as `remove_subtree` does) keeps
/// the tree well formed: exactly the nodes at or below the position of `c` go,
/// `n` loses `c` from its children, and every other node stays as it was.
pub proof fn lemma_remove_child(
    m: Nodes,
    root: NodeId,
    pm: Map<NodeId, Path>,
    bound: nat,
    n: NodeId,
    c: NodeId,
    m2: Nodes,
)
    requires
        shaped(m, root, pm, bound),
        m.dom().contains(n),
        m[n].children.contains(c),
        m2.dom() == m.dom().filter(|x: NodeId| !reachable(m, c, x)),
        forall|x: NodeId| #[trigger]
            m2.dom().contains(x) ==> m2[x] == (ArenaNode {
                name: m[x].name,
                ino: m[x].ino,
                children: m[x].children.remove_value(c),
            }),
    ensures
        shaped(m2, root, pm.restrict(m2.dom()), bound),
        forall|x: NodeId| #[trigger]
            m2.dom().contains(x) == (m.dom().contains(x) && !pm[c].is_prefix_of(pm[x])),
        forall|x: NodeId| m2.dom().contains(x) && x != n ==> #[trigger] m2[x] == m[x],
        m2.dom().contains(n),
        m2[n].children == m[n].children.remove_value(c),
        m2[n].name == m[n].name,
        m2[n].ino == m[n].ino,
{
    let kc = choose|k: int| 0 <= k < m[n].children.len() && m[n].children[k] == c;
    assert(m[n].children[kc] == c);
    assert(m.dom().contains(c));
    assert(pm[c] == pm[n].push(m[c].name));
    let pm2 = pm.restrict(m2.dom());
    assert forall|x: NodeId| #[trigger]
        m2.dom().contains(x) == (m.dom().contains(x) && !pm[c].is_prefix_of(pm[x])) by {
        if m.dom().contains(x) {
            if reachable(m, c, x) {
                lemma_reach_below(m, root, pm, bound, c, x);
            }
            if pm[c].is_prefix_of(pm[x]) {
                lemma_below_reach(m, root, pm, bound, c, x);
            }
        }
    }
    // only `n` lists `c`
    assert forall|x: NodeId| m.dom().contains(x) && x != n implies !#[trigger] m[x].children.contains(c) by {
        if m[x].children.contains(c) {
            lemma_parent_unique(m, root, pm, bound, c, x, n);
        }
    }
    assert forall|x: NodeId| m2.dom().contains(x) && x != n implies #[trigger] m2[x] == m[x] by {
        assert(!m[x].children.contains(c));
        m[x].children.index_of_first_ensures(c);
        assert(m[x].children.remove_value(c) == m[x].children);
    }
    // n stays: it lies above c
    assert(!pm[c].is_prefix_of(pm[n])) by {
        if pm[c].is_prefix_of(pm[n]) {
            assert(pm[c].len() <= pm[n].len());
        }
    }
    assert(m2.dom().contains(n));
    assert(!pm[c].is_prefix_of(pm[root]));
    assert(m2.dom().contains(root));
    assert(m[n].children.no_duplicates());
    lemma_remove_value_keeps(m[n].children, c);
    assert forall|x: NodeId, i: int|
        m2.dom().contains(x) && 0 <= i < m2[x].children.len() implies m2.dom().contains(
        #[trigger] m2[x].children[i],
    ) && pm2[m2[x].children[i]] == pm2[x].push(m2[m2[x].children[i]].name) by {
        let k = m2[x].children[i];
        assert(m[x].children.contains(k)) by {
            if x == n {
            } else {
                assert(m2[x] == m[x]);
                assert(m[x].children[i] == k);
            }
        }
        assert(k != c) by {
            if x == n {
            } else {
                assert(!m[x].children.contains(c));
            }
        }
        let j = choose|j: int| 0 <= j < m[x].children.len() && m[x].children[j] == k;
        assert(m[x].children[j] == k);
        assert(m.dom().contains(k));
        assert(pm[k] == pm[x].push(m[k].name));
        assert(!pm[c].is_prefix_of(pm[k])) by {
            if pm[c].is_prefix_of(pm[k]) {
                if pm[c].len() == pm[k].len() {
                    assert(pm[c] =~= pm[k]);
                } else {
                    assert(pm[c].is_prefix_of(pm[x])) by {
                        assert(pm[x] =~= pm[k].drop_last());
                    }
                }
            }
        }
        assert(m2.dom().contains(k));
        assert(m2[k].name == m[k].name);
    }
    assert forall|x: NodeId| m2.dom().contains(x) implies (#[trigger] m2[x].children).no_duplicates() by {
        lemma_remove_value_keeps(m[x].children, c);
    }
    assert forall|x: NodeId| m2.dom().contains(x) && x != root implies #[trigger] has_parent(m2, x) by {
        let p = lemma_parent_of(m, root, pm, bound, x);
        assert(m2.dom().contains(p)) by {
            if pm[c].is_prefix_of(pm[p]) {
                assert(pm[c].is_prefix_of(pm[x]));
            }
        }
        assert(x != c);
        lemma_remove_value_keeps(m[p].children, c);
        assert(m2[p].children.contains(x));
    }
    assert(pm2.dom() =~= m2.dom());
    assert(shaped(m2, root, pm2, bound));
}


/// `m` after the subtrees of all children of `n` are removed: the nodes below
/// `n` are gone and `n` has no children; every other node is unchanged.
pub open spec fn trim_nodes(m: Nodes, n: NodeId) -> Nodes {
    Map::new(
        |x: NodeId| m.dom().contains(x) && (x == n || !reachable(m, n, x)),
        |x: NodeId|
            if x == n {
                ArenaNode { name: m[n].name, ino: m[n].ino, children: Seq::<NodeId>::empty() }
            } else {
                m[x]
            },
    )
}

/// The view with every position strictly below `p` gone; `p` keeps its inode
/// and has no children any more.
pub open spec fn trim_view(v: TreeView, p: Path) -> TreeView {
    Map::new(
        |q: Path| v.dom().contains(q) && !strictly_below(q, p),
        |q: Path|
            if q == p {
                NodeInfo { ino: v[p].ino, kids: Seq::<Seq<char>>::empty() }
            } else {
                v[q]
            },
    )
}

/// Trimming below a node keeps the tree well formed and trims its view below
/// the node's position.
pub proof fn lemma_trim(m: Nodes, root: NodeId, pm: Map<NodeId, Path>, bound: nat, n: NodeId)
    requires
        shaped(m, root, pm, bound),
        m.dom().contains(n),
    ensures
        shaped(trim_nodes(m, n), root, pm.restrict(trim_nodes(m, n).dom()), bound),
        forall|x: NodeId| #[trigger]
            trim_nodes(m, n).dom().contains(x) == (m.dom().contains(x) && !strictly_below(
                pm[x],
                pm[n],
            )),
        tree_view(trim_nodes(m, n), root) == trim_view(tree_view(m, root), pm[n]),
{
    let m2 = trim_nodes(m, n);
    let pm2 = pm.restrict(m2.dom());
    let pn = pm[n];
    assert forall|x: NodeId| #[trigger]
        m2.dom().contains(x) == (m.dom().contains(x) && !strictly_below(pm[x], pn)) by {
        if m.dom().contains(x) {
            if x == n {
            } else {
                if reachable(m, n, x) {
                    lemma_reach_below(m, root, pm, bound, n, x);
                    if pm[x].len() == pn.len() {
                        assert(pm[x] =~= pn);
                    }
                }
                if strictly_below(pm[x], pn) {
                    lemma_below_reach(m, root, pm, bound, n, x);
                }
            }
        }
    }
    assert(m2.dom().contains(root)) by {
        assert(!strictly_below(pm[root], pn));
    }
    assert forall|x: NodeId, i: int|
        m2.dom().contains(x) && 0 <= i < m2[x].children.len() implies m2.dom().contains(
        #[trigger] m2[x].children[i],
    ) && pm2[m2[x].children[i]] == pm2[x].push(m2[m2[x].children[i]].name) by {
        assert(x != n);
        let k = m[x].children[i];
        assert(m2[x].children[i] == k);
        assert(m.dom().contains(k));
        assert(pm[k] == pm[x].push(m[k].name));
        assert(!strictly_below(pm[k], pn)) by {
            if strictly_below(pm[k], pn) {
                assert(pn.is_prefix_of(pm[x])) by {
                    assert(pm[x] =~= pm[k].drop_last());
                }
                if pm[x].len() == pn.len() {
                    assert(pm[x] =~= pn);
                }
            }
        }
        assert(m2.dom().contains(k));
        assert(m2[k].name == m[k].name);
    }
    assert forall|x: NodeId| m2.dom().contains(x) implies (#[trigger] m2[x].children).no_duplicates() by {
        if x == n {
        }
    }
    assert forall|x: NodeId| m2.dom().contains(x) && x != root implies #[trigger] has_parent(m2, x) by {
        let p = lemma_parent_of(m, root, pm, bound, x);
        let k = choose|k: int| 0 <= k < m[p].children.len() && m[p].children[k] == x;
        assert(m[p].children[k] == x);
        assert(pm[x] == pm[p].push(m[x].name));
        assert(p != n) by {
            if p == n {
                assert(pn.is_prefix_of(pm[x]));
            }
        }
        assert(m2.dom().contains(p)) by {
            if strictly_below(pm[p], pn) {
                assert(pn.is_prefix_of(pm[x]));
            }
        }
        assert(m2[p].children.contains(x));
    }
    assert(pm2.dom() =~= m2.dom());
    assert(shaped(m2, root, pm2, bound));

    let v = tree_view(m, root);
    let v2 = tree_view(m2, root);
    let expect = trim_view(v, pn);
    lemma_node_at_complete(m, root, pm, bound, n);
    assert forall|q: Path| #[trigger] v2.dom().contains(q) == expect.dom().contains(q) && (
    v2.dom().contains(q) ==> v2[q] == expect[q]) by {
        lemma_node_at_sound(m2, root, pm2, bound, q);
        lemma_node_at_sound(m, root, pm, bound, q);
        match node_at(m2, root, q) {
            Some(x) => {
                lemma_node_at_complete(m, root, pm, bound, x);
                assert(v.dom().contains(q));
                if x == n {
                    assert(child_names(m2, m2[n].children) =~= Seq::<Seq<char>>::empty());
                } else {
                    assert(q != pn) by {
                        if q == pn {
                            lemma_node_at_complete(m2, root, pm2, bound, n);
                        }
                    }
                    assert forall|i: int| 0 <= i < m[x].children.len() implies m2[#[trigger] m[x].children[i]].name == m[m[x].children[i]].name by {
                        assert(m.dom().contains(m[x].children[i]));
                        assert(m2.dom().contains(m2[x].children[i]));
                    }
                    assert(child_names(m2, m2[x].children) =~= child_names(m, m[x].children));
                }
            },
            None => {
                if expect.dom().contains(q) {
                    let x = node_at(m, root, q)->0;
                    lemma_node_at_complete(m2, root, pm2, bound, x);
                }
            },
        }
    }
    assert(v2 =~= expect);
}


/// The node at depth `k` on the way down to `x`.
pub proof fn lemma_ancestor(
    m: Nodes,
    root: NodeId,
    pm: Map<NodeId, Path>,
    bound: nat,
    x: NodeId,
    k: int,
) -> (y: NodeId)
    requires
        shaped(m, root, pm, bound),
        m.dom().contains(x),
        0 <= k <= pm[x].len(),
    ensures
        m.dom().contains(y),
        pm[y] == pm[x].subrange(0, k),
    decreases pm[x].len() - k,
{
    if k == pm[x].len() {
        assert(pm[x].subrange(0, k) =~= pm[x]);
        x
    } else {
        assert(x != root);
        let p = lemma_parent_of(m, root, pm, bound, x);
        let y = lemma_ancestor(m, root, pm, bound, p, k);
        assert(pm[p].subrange(0, k) =~= pm[x].subrange(0, k));
        y
    }
}

/// A tree has one root only.
pub proof fn lemma_root_unique(
    m: Nodes,
    r1: NodeId,
    pm1: Map<NodeId, Path>,
    b1: nat,
    r2: NodeId,
    pm2: Map<NodeId, Path>,
    b2: nat,
)
    requires
        shaped(m, r1, pm1, b1),
        shaped(m, r2, pm2, b2),
    ensures
        r1 == r2,
{
    if r1 != r2 {
        assert(has_parent(m, r2));
        let p = choose|p: NodeId| m.dom().contains(p) && #[trigger] m[p].children.contains(r2);
        let k = choose|k: int| 0 <= k < m[p].children.len() && m[p].children[k] == r2;
        assert(m[p].children[k] == r2);
        assert(pm2[r2] == pm2[p].push(m[r2].name));
    }
}


/// A node that gets more children than this is trimmed, becomes a leaf, and
/// its whole directory is rescanned.
pub const MAX_CHILD_COUNT: usize = 1024;

/// The view after the walk that adds the components `comps` to the tree, from
/// component `j` on, standing at position `cur`. At each step the walk looks
/// for a child of `cur` with the component's name:
/// - it finds a leaf: the change is already covered, and the walk stops;
/// - it finds an inner node: if the component is the last one of the path,
///   everything below that node is trimmed; the walk goes down;
/// - it finds none: a child is added, holding `leaf_ino` if the component is
///   the last one and `inner_ino` otherwise; if `cur` now has more than
///   `MAX_CHILD_COUNT` children, everything below `cur` is trimmed and the
///   walk stops; otherwise it goes down into the new child.
pub open spec fn add_walk(
    v: TreeView,
    cur: Path,
    comps: Seq<Seq<char>>,
    j: int,
    leaf_ino: u64,
    inner_ino: u64,
) -> TreeView
    decreases comps.len() - j,
{
    if j < 0 || j >= comps.len() {
        v
    } else {
        let e = comps[j];
        let next = cur.push(e);
        if v.dom().contains(next) {
            if v[next].kids.len() == 0 {
                v
            } else if j == comps.len() - 1 {
                add_walk(trim_view(v, next), next, comps, j + 1, leaf_ino, inner_ino)
            } else {
                add_walk(v, next, comps, j + 1, leaf_ino, inner_ino)
            }
        } else {
            let grown = add_child_view(
                v,
                cur,
                e,
                if j == comps.len() - 1 {
                    leaf_ino
                } else {
                    inner_ino
                },
            );
            if grown[cur].kids.len() > MAX_CHILD_COUNT {
                trim_view(grown, cur)
            } else {
                add_walk(grown, next, comps, j + 1, leaf_ino, inner_ino)
            }
        }
    }
}


/// A leaf met in a depth-first walk: its full path, the path of its parent,
/// and its inode.
pub ghost struct LeafEntry {
    pub path: Seq<char>,
    pub parent: Seq<char>,
    pub ino: u64,
}

/// The leaves below the nodes `kids` (whose parent has the full path
/// `prefix`), in depth-first order, children in their order; a full path is
/// the parent's path, `/`, and the node's name. `fuel` bounds the depth of the
/// walk.
pub open spec fn leaf_entries(m: Nodes, kids: Seq<NodeId>, prefix: Seq<char>, fuel: nat) -> Seq<
    LeafEntry,
>
    decreases fuel, kids.len(),
{
    if kids.len() == 0 {
        Seq::<LeafEntry>::empty()
    } else {
        let c = kids[0];
        let p = prefix + seq!['/'] + m[c].name;
        let here = if m[c].children.len() == 0 {
            seq![LeafEntry { path: p, parent: prefix, ino: m[c].ino }]
        } else if fuel == 0 {
            Seq::<LeafEntry>::empty()
        } else {
            leaf_entries(m, m[c].children, p, (fuel - 1) as nat)
        };
        here + leaf_entries(m, kids.drop_first(), prefix, fuel)
    }
}

/// No position of the tree that the arena holds is `b` names deep.
pub open spec fn bounds_depth(m: Nodes, b: nat) -> bool {
    exists|r: NodeId, pm: Map<NodeId, Path>| #[trigger] shaped(m, r, pm, b)
}

/// A depth bound of the tree that the arena holds.
pub open spec fn depth_bound(m: Nodes) -> nat {
    choose|b: nat| #[trigger] bounds_depth(m, b)
}


/// The view of a tree that is a root alone, holding `ino`.
pub open spec fn root_view(ino: u64) -> TreeView {
    Map::<Path, NodeInfo>::empty().insert(
        Seq::<Seq<char>>::empty(),
        NodeInfo { ino, kids: Seq::<Seq<char>>::empty() },
    )
}

/// An arena holding one node without children holds a tree rooted at it.
pub proof fn lemma_single_node(m: Nodes, id: NodeId)
    requires
        m.dom() == Set::<NodeId>::empty().insert(id),
        m[id].children.len() == 0,
    ensures
        shaped(m, id, Map::<NodeId, Path>::empty().insert(id, Seq::<Seq<char>>::empty()), 1),
        change_tree_wf(m, id),
        tree_view(m, id) == root_view(m[id].ino),
{
    let pm = Map::<NodeId, Path>::empty().insert(id, Seq::<Seq<char>>::empty());
    assert(pm.dom() =~= m.dom());
    assert(shaped(m, id, pm, 1));
    let v = tree_view(m, id);
    assert forall|p: Path| #[trigger] v.dom().contains(p) == root_view(m[id].ino).dom().contains(p) && (v.dom().contains(p) ==> v[p] == root_view(m[id].ino)[p]) by {
        lemma_node_at_sound(m, id, pm, 1, p);
        if p == Seq::<Seq<char>>::empty() {
            assert(child_names(m, m[id].children) =~= Seq::<Seq<char>>::empty());
        }
    }
    assert(v =~= root_view(m[id].ino));
}

} // verus!
