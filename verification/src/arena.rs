use indextree::{Arena, NodeId};
use vstd::prelude::*;

use crate::highest_change_tree::TreeData;

verus! {

#[verifier::external_type_specification]
#[verifier::external_body]
#[verifier::reject_recursive_types(T)]
pub struct ExArena<T>(Arena<T>);

#[verifier::external_type_specification]
#[verifier::external_body]
pub struct ExNodeId(NodeId);

/// What one live node of an arena holds: the name and inode of its data and
/// the ordered list of its children.
pub ghost struct ArenaNode {
    pub name: Seq<char>,
    pub ino: u64,
    pub children: Seq<NodeId>,
}

/// The live (not removed) nodes of an arena, by identifier.
pub uninterp spec fn arena_nodes(arena: Arena<TreeData>) -> Map<NodeId, ArenaNode>;

/// `s` is a chain of parent-to-child steps through live nodes of `m`, from
/// `from` to `to`.
pub open spec fn is_chain(m: Map<NodeId, ArenaNode>, s: Seq<NodeId>, from: NodeId, to: NodeId) -> bool {
    &&& s.len() > 0
    &&& s[0] == from
    &&& s.last() == to
    &&& forall|i: int|
        0 <= i < s.len() - 1 ==> m.dom().contains(#[trigger] s[i]) && m[s[i]].children.contains(
            s[i + 1],
        )
}

/// `to` is `from` or one of its descendants in `m`.
pub open spec fn reachable(m: Map<NodeId, ArenaNode>, from: NodeId, to: NodeId) -> bool {
    exists|s: Seq<NodeId>| is_chain(m, s, from, to)
}

/// `Arena::new`: an arena with no nodes.
#[verifier::external_body]
pub(crate) fn arena_new() -> (fresh: Arena<TreeData>)
    ensures
        arena_nodes(fresh).dom() == Set::<NodeId>::empty(),
{
    Arena::new()
}

/// `Arena::new_node`: adds a node holding `data`, without parent or children.
/// The identifier it returns names no node that was live before (a reused
/// slot gets a new stamp), and so no live node lists it as a child (the
/// children of a live node are live nodes). The only way it can fail is
/// running out of slots or memory, which this contract, like `Vec::push`'s,
/// leaves aside.
#[verifier::external_body]
pub(crate) fn arena_new_node(arena: &mut Arena<TreeData>, data: TreeData) -> (id: NodeId)
    ensures
        !arena_nodes(*old(arena)).dom().contains(id),
        forall|n: NodeId|
            #[trigger] arena_nodes(*old(arena)).dom().contains(n) ==> !arena_nodes(
                *old(arena),
            )[n].children.contains(id),
        arena_nodes(*final(arena)) == arena_nodes(*old(arena)).insert(
            id,
            (ArenaNode { name: data.name@, ino: data.ino, children: Seq::<NodeId>::empty() }),
        ),
{
    arena.new_node(data)
}

/// `NodeId::children`, collected: the children of a live node, in order.
#[verifier::external_body]
pub(crate) fn node_children(node: NodeId, arena: &Arena<TreeData>) -> (kids: Vec<NodeId>)
    requires
        arena_nodes(*arena).dom().contains(node),
    ensures
        kids@ == arena_nodes(*arena)[node].children,
{
    node.children(arena).collect()
}

/// `Node::get` on `arena[node]`: the data that a live node holds.
#[verifier::external_body]
pub(crate) fn node_data(arena: &Arena<TreeData>, node: NodeId) -> (data: &TreeData)
    requires
        arena_nodes(*arena).dom().contains(node),
    ensures
        data.name@ == arena_nodes(*arena)[node].name,
        data.ino == arena_nodes(*arena)[node].ino,
{
    arena[node].get()
}

/// `Node::first_child` on `arena[node]`: the first child of a live node, if any.
#[verifier::external_body]
pub(crate) fn node_first_child(arena: &Arena<TreeData>, node: NodeId) -> (first: Option<NodeId>)
    requires
        arena_nodes(*arena).dom().contains(node),
    ensures
        first is None <==> arena_nodes(*arena)[node].children.len() == 0,
        first matches Some(c) ==> c == arena_nodes(*arena)[node].children[0],
{
    arena[node].first_child()
}

/// `NodeId::append`: `child` becomes the last child of `parent`. Both are live
/// and distinct, and `child` has no children and is listed as a child by no
/// live node (so it is detached and cannot be an ancestor of `parent`): the
/// cases in which `append` panics are left out.
#[verifier::external_body]
pub(crate) fn node_append(parent: NodeId, child: NodeId, arena: &mut Arena<TreeData>)
    requires
        arena_nodes(*old(arena)).dom().contains(parent),
        arena_nodes(*old(arena)).dom().contains(child),
        parent != child,
        arena_nodes(*old(arena))[child].children.len() == 0,
        forall|n: NodeId|
            arena_nodes(*old(arena)).dom().contains(n) ==> !(#[trigger] arena_nodes(
                *old(arena),
            )[n].children.contains(child)),
    ensures
        arena_nodes(*final(arena)) == arena_nodes(*old(arena)).insert(
            parent,
            (ArenaNode {
                name: arena_nodes(*old(arena))[parent].name,
                ino: arena_nodes(*old(arena))[parent].ino,
                children: arena_nodes(*old(arena))[parent].children.push(child),
            }),
        ),
{
    parent.append(child, arena)
}

/// `NodeId::remove_subtree`: removes a live node and all its descendants, and
/// takes the node out of its parent's list of children. Every other node keeps
/// its data and children.
#[verifier::external_body]
pub(crate) fn node_remove_subtree(node: NodeId, arena: &mut Arena<TreeData>)
    requires
        arena_nodes(*old(arena)).dom().contains(node),
    ensures
        arena_nodes(*final(arena)).dom() == arena_nodes(*old(arena)).dom().filter(
            |n: NodeId| !reachable(arena_nodes(*old(arena)), node, n),
        ),
        forall|n: NodeId| #[trigger]
            arena_nodes(*final(arena)).dom().contains(n) ==> arena_nodes(*final(arena))[n] == (
            ArenaNode {
                name: arena_nodes(*old(arena))[n].name,
                ino: arena_nodes(*old(arena))[n].ino,
                children: arena_nodes(*old(arena))[n].children.remove_value(node),
            }),
{
    node.remove_subtree(arena)
}

} // verus!
