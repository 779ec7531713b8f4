use gufi_change_finder::highest_change_tree::{
    highest_change_tree_add_path, highest_change_tree_create, highest_change_tree_new_node,
    highest_change_tree_parse_leaves, highest_change_tree_trim_below, TreeData,
};
use indextree::{Arena, NodeId};

fn node(name: &str, ino: u64) -> TreeData {
    TreeData { name: name.to_string(), ino }
}

fn setup() -> (Arena<TreeData>, NodeId) {
    let mut arena = highest_change_tree_create();
    let root = highest_change_tree_new_node(&mut arena, node("/fs", 1));
    (arena, root)
}

fn listed(arena: &Arena<TreeData>, root: NodeId) -> Vec<(String, u64)> {
    let mut out = Vec::new();
    highest_change_tree_parse_leaves(root, &mut out, "/fs".to_string(), arena);
    out.into_iter().map(|d| (d.name, d.ino)).collect()
}

fn pairs(items: &[(&str, u64)]) -> Vec<(String, u64)> {
    items.iter().map(|(p, i)| (p.to_string(), *i)).collect()
}

#[test]
fn create_gives_empty_arena() {
    let arena = highest_change_tree_create();
    assert_eq!(arena.count(), 0);
}

#[test]
fn new_node_is_detached_root() {
    let (arena, root) = setup();
    assert_eq!(arena.count(), 1);
    assert_eq!(arena[root].get().name, "/fs");
    assert_eq!(arena[root].get().ino, 1);
    assert!(arena[root].first_child().is_none());
    assert!(arena[root].parent().is_none());
}

#[test]
fn leaf_gets_inode_and_inner_nodes_get_zero() {
    let (mut arena, root) = setup();
    highest_change_tree_add_path(&mut arena, root, "a/b".to_string(), 9);
    assert_eq!(listed(&arena, root), pairs(&[("/fs/a/b", 9)]));
    let a = root.children(&arena).next().unwrap();
    assert_eq!(arena[a].get().name, "a");
    assert_eq!(arena[a].get().ino, 0);
}

#[test]
fn adding_an_inner_node_trims_it() {
    let (mut arena, root) = setup();
    highest_change_tree_add_path(&mut arena, root, "a/b".to_string(), 9);
    highest_change_tree_add_path(&mut arena, root, "a/c".to_string(), 10);
    highest_change_tree_add_path(&mut arena, root, "a".to_string(), 11);
    assert_eq!(listed(&arena, root), pairs(&[("/fs/a", 0)]));
    assert_eq!(arena.iter().filter(|n| !n.is_removed()).count(), 2);
}

#[test]
fn path_under_leaf_changes_nothing() {
    let (mut arena, root) = setup();
    highest_change_tree_add_path(&mut arena, root, "a".to_string(), 3);
    highest_change_tree_add_path(&mut arena, root, "a/b/c".to_string(), 4);
    assert_eq!(listed(&arena, root), pairs(&[("/fs/a", 3)]));
}

#[test]
fn overflowing_parent_becomes_leaf() {
    let (mut arena, root) = setup();
    for i in 0..1025u64 {
        highest_change_tree_add_path(&mut arena, root, format!("d/e{}", i), 50 + i);
    }
    assert_eq!(listed(&arena, root), pairs(&[("/fs/d", 0)]));
}

#[test]
fn root_overflow_makes_root_a_leaf() {
    let (mut arena, root) = setup();
    for i in 0..1025u64 {
        highest_change_tree_add_path(&mut arena, root, format!("e{}", i), i);
    }
    assert_eq!(listed(&arena, root), pairs(&[]));
    assert!(arena[root].first_child().is_none());
}

#[test]
fn trim_below_removes_descendants() {
    let (mut arena, root) = setup();
    highest_change_tree_add_path(&mut arena, root, "a/b".to_string(), 9);
    highest_change_tree_add_path(&mut arena, root, "c".to_string(), 5);
    highest_change_tree_trim_below(&mut arena, root);
    assert_eq!(listed(&arena, root), pairs(&[]));
    assert_eq!(arena.iter().filter(|n| !n.is_removed()).count(), 1);
}

#[test]
fn parse_leaves_appends_below_a_subtree() {
    let (mut arena, root) = setup();
    highest_change_tree_add_path(&mut arena, root, "a/b".to_string(), 9);
    highest_change_tree_add_path(&mut arena, root, "a/c/d".to_string(), 8);
    let a = root.children(&arena).next().unwrap();
    let mut out = vec![node("first", 2)];
    highest_change_tree_parse_leaves(a, &mut out, "/fs/a".to_string(), &arena);
    let got: Vec<(String, u64)> = out.into_iter().map(|d| (d.name, d.ino)).collect();
    assert_eq!(got, pairs(&[("first", 2), ("/fs/a/b", 9), ("/fs/a/c/d", 8)]));
}

#[test]
fn earlier_change_stays_when_a_name_recurs_below() {
    let (mut arena, root) = setup();
    highest_change_tree_add_path(&mut arena, root, "x/z".to_string(), 1);
    highest_change_tree_add_path(&mut arena, root, "x/y/x".to_string(), 2);
    assert_eq!(listed(&arena, root), pairs(&[("/fs/x/z", 1), ("/fs/x/y/x", 2)]));
}
