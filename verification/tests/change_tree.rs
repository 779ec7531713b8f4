use gufi_change_finder::change_tree::{ChangeTree, TreeData};

fn data(path: &str, ino: u64) -> TreeData {
    TreeData { path: path.to_string(), ino }
}

fn leaves(tree: &ChangeTree) -> Vec<(String, u64)> {
    tree.leaf_paths("/root".to_string())
        .into_iter()
        .map(|d| (d.path, d.ino))
        .collect()
}

fn pairs(items: &[(&str, u64)]) -> Vec<(String, u64)> {
    items.iter().map(|(p, i)| (p.to_string(), *i)).collect()
}

#[test]
fn new_tree_has_no_leaves() {
    let tree = ChangeTree::new(data("/root", 1));
    assert_eq!(leaves(&tree), pairs(&[]));
}

#[test]
fn added_path_becomes_leaf() {
    let mut tree = ChangeTree::new(data("/root", 1));
    ChangeTree::add_path(&mut tree, data("a/b/c", 5));
    assert_eq!(leaves(&tree), pairs(&[("/root/a/b/c", 5)]));
}

#[test]
fn path_above_leaves_trims_them() {
    let mut tree = ChangeTree::new(data("/root", 1));
    ChangeTree::add_path(&mut tree, data("a/b/c", 5));
    ChangeTree::add_path(&mut tree, data("a/b/d", 6));
    ChangeTree::add_path(&mut tree, data("a/b", 7));
    // the node keeps the inode it was created with
    assert_eq!(leaves(&tree), pairs(&[("/root/a/b", 5)]));
}

#[test]
fn path_below_leaf_is_ignored() {
    let mut tree = ChangeTree::new(data("/root", 1));
    ChangeTree::add_path(&mut tree, data("a/b", 7));
    ChangeTree::add_path(&mut tree, data("a/b/c/d", 8));
    assert_eq!(leaves(&tree), pairs(&[("/root/a/b", 7)]));
}

#[test]
fn coverage_is_kept_by_unrelated_adds() {
    let mut tree = ChangeTree::new(data("/root", 1));
    ChangeTree::add_path(&mut tree, data("x/y", 2));
    ChangeTree::add_path(&mut tree, data("z", 3));
    ChangeTree::add_path(&mut tree, data("x/w", 4));
    assert_eq!(
        leaves(&tree),
        pairs(&[("/root/x/y", 2), ("/root/x/w", 4), ("/root/z", 3)])
    );
}

#[test]
fn siblings_are_listed_in_insertion_order() {
    let mut tree = ChangeTree::new(data("/root", 1));
    ChangeTree::add_path(&mut tree, data("a/y", 2));
    ChangeTree::add_path(&mut tree, data("a/x", 3));
    ChangeTree::add_path(&mut tree, data("b", 4));
    assert_eq!(
        leaves(&tree),
        pairs(&[("/root/a/y", 2), ("/root/a/x", 3), ("/root/b", 4)])
    );
}

#[test]
fn too_many_children_trims_the_parent() {
    let mut tree = ChangeTree::new(data("/root", 1));
    for i in 0..1024u64 {
        ChangeTree::add_path(&mut tree, data(&format!("d/f{}", i), 100 + i));
    }
    assert_eq!(leaves(&tree).len(), 1024);
    ChangeTree::add_path(&mut tree, data("d/f1024", 9));
    assert_eq!(leaves(&tree), pairs(&[("/root/d", 100)]));
}

#[test]
fn name_repeated_earlier_in_the_path_is_not_the_end() {
    let mut tree = ChangeTree::new(data("/root", 1));
    ChangeTree::add_path(&mut tree, data("a/c/e", 2));
    // `a` is the first component, not the last: nothing below it is trimmed
    ChangeTree::add_path(&mut tree, data("a/b/a", 3));
    assert_eq!(leaves(&tree), pairs(&[("/root/a/c/e", 2), ("/root/a/b/a", 3)]));
    ChangeTree::add_path(&mut tree, data("a/b/a", 4));
    assert_eq!(leaves(&tree), pairs(&[("/root/a/c/e", 2), ("/root/a/b/a", 3)]));
}

#[test]
fn trim_below_root_leaves_root_alone() {
    let mut tree = ChangeTree::new(data("/root", 1));
    ChangeTree::add_path(&mut tree, data("a/b", 2));
    ChangeTree::add_path(&mut tree, data("c", 3));
    ChangeTree::trim_below_root(&mut tree);
    assert_eq!(leaves(&tree), pairs(&[]));
    ChangeTree::add_path(&mut tree, data("e", 5));
    assert_eq!(leaves(&tree), pairs(&[("/root/e", 5)]));
}

#[test]
fn parse_leaves_reports_parents_of_files_once() {
    let mut tree = ChangeTree::new(data("/root", 1));
    ChangeTree::add_path(&mut tree, data("a/f1", 11));
    ChangeTree::add_path(&mut tree, data("a/f2", 12));
    ChangeTree::add_path(&mut tree, data("b", 13));
    let mut out = vec![data("/earlier", 7)];
    ChangeTree::parse_leaves(&tree, &mut out, "/root".to_string(), &vec![true, true, false]);
    let got: Vec<(String, u64)> = out.into_iter().map(|d| (d.path, d.ino)).collect();
    assert_eq!(got, pairs(&[("/earlier", 7), ("/root/a", 11), ("/root/b", 13)]));
}

#[test]
fn parse_leaves_reports_directories_as_they_are() {
    let mut tree = ChangeTree::new(data("/root", 1));
    ChangeTree::add_path(&mut tree, data("a/d1", 11));
    ChangeTree::add_path(&mut tree, data("a/d2", 12));
    let mut out = Vec::new();
    ChangeTree::parse_leaves(&tree, &mut out, "/root".to_string(), &vec![false, false]);
    let got: Vec<(String, u64)> = out.into_iter().map(|d| (d.path, d.ino)).collect();
    assert_eq!(got, pairs(&[("/root/a/d1", 11), ("/root/a/d2", 12)]));
}

#[test]
fn adding_a_path_twice_changes_nothing_more() {
    let mut tree = ChangeTree::new(data("/root", 1));
    ChangeTree::add_path(&mut tree, data("a/b", 2));
    ChangeTree::add_path(&mut tree, data("a/c/d", 3));
    let once = leaves(&tree);
    ChangeTree::add_path(&mut tree, data("a/c/d", 3));
    assert_eq!(leaves(&tree), once);
    assert_eq!(once, pairs(&[("/root/a/b", 2), ("/root/a/c/d", 3)]));
}

#[test]
fn listed_leaves_are_never_nested() {
    let mut tree = ChangeTree::new(data("/root", 1));
    for p in ["a/b/c", "a/b", "a/d", "e/f", "a/b/c/g", "e"].iter() {
        ChangeTree::add_path(&mut tree, data(p, 1));
    }
    let got = leaves(&tree);
    assert_eq!(got, pairs(&[("/root/a/b", 1), ("/root/a/d", 1), ("/root/e", 1)]));
    for (x, _) in &got {
        for (y, _) in &got {
            if x != y {
                assert!(!y.starts_with(&format!("{}/", x)));
            }
        }
    }
}

#[test]
fn parse_leaves_never_repeats_a_path() {
    let mut tree = ChangeTree::new(data("/root", 1));
    for p in ["a/f1", "a/f2", "a/sub/g", "d/b", "c/h"].iter() {
        ChangeTree::add_path(&mut tree, data(p, 9));
    }
    let flags = [
        vec![true, true, true, true, true],
        vec![false, false, false, false, false],
        vec![true, false, true, false, true],
    ];
    for is_file in flags.iter() {
        let mut out = Vec::new();
        ChangeTree::parse_leaves(&tree, &mut out, "/root".to_string(), is_file);
        let paths: Vec<String> = out.into_iter().map(|d| d.path).collect();
        for i in 0..paths.len() {
            for j in (i + 1)..paths.len() {
                assert_ne!(paths[i], paths[j]);
            }
        }
    }
    let mut out = Vec::new();
    ChangeTree::parse_leaves(&tree, &mut out, "/root".to_string(), &flags[0]);
    let got: Vec<(String, u64)> = out.into_iter().map(|d| (d.path, d.ino)).collect();
    assert_eq!(
        got,
        pairs(&[("/root/a", 9), ("/root/a/sub", 9), ("/root/d", 9), ("/root/c", 9)])
    );
}

fn leaf_set(paths: &[&str]) -> Vec<String> {
    let mut tree = ChangeTree::new(data("/root", 1));
    for p in paths.iter() {
        ChangeTree::add_path(&mut tree, data(p, 1));
    }
    let mut got: Vec<String> = leaves(&tree).into_iter().map(|(p, _)| p).collect();
    got.sort();
    got
}

#[test]
fn leaves_are_the_highest_added_paths() {
    let paths = ["a/b/c", "a/d", "a/b", "e/f/g", "e/h", "a/b/c/i", "x/y/x", "x/z"];
    let got = leaf_set(&paths);
    let comps: Vec<Vec<&str>> = paths.iter().map(|p| p.split('/').collect()).collect();
    let mut expected: Vec<String> = Vec::new();
    for p in comps.iter() {
        let above = comps
            .iter()
            .any(|q| q.len() < p.len() && p[..q.len()] == q[..]);
        let name = format!("/root/{}", p.join("/"));
        if !above && !expected.contains(&name) {
            expected.push(name);
        }
    }
    expected.sort();
    assert_eq!(got, expected);
}

#[test]
fn order_of_adds_does_not_change_the_leaves() {
    assert_eq!(leaf_set(&["a/b", "a"]), leaf_set(&["a", "a/b"]));
    assert_eq!(leaf_set(&["a/b/c", "a/d", "x"]), leaf_set(&["x", "a/d", "a/b/c"]));
}

#[test]
fn reported_paths_must_lie_below_the_root() {
    let mut tree = ChangeTree::new(data("/root", 1));
    ChangeTree::add_path(&mut tree, data("a/f", 2));
    ChangeTree::add_path(&mut tree, data("b", 3));
    assert_eq!(tree.get_root_path(), "/root");
    let partial = "/root".to_string();
    assert!(tree.reports_under_root(&partial, &vec![true, false]));
    assert!(tree.reports_under_root(&partial, &vec![false, false]));
    // a file directly below the root would be reported as the root itself
    assert!(!tree.reports_under_root(&partial, &vec![false, true]));
    // a listing that starts elsewhere than the root's path
    assert!(!tree.reports_under_root(&"/other".to_string(), &vec![false, false]));
}
