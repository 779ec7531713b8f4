use gufi_change_finder::change_finder::ChangeFinder;
use gufi_change_finder::changelog::WalkInodesEntry;

fn e(major: u64, ino: u64, minor: u32) -> WalkInodesEntry {
    WalkInodesEntry { major, ino, minor }
}

fn list(f: &ChangeFinder) -> Option<Vec<(String, u64)>> {
    f.rescan_list()
        .map(|l| l.into_iter().map(|d| (d.name, d.ino)).collect())
}

fn pairs(items: &[(&str, u64)]) -> Vec<(String, u64)> {
    items.iter().map(|(p, i)| (p.to_string(), *i)).collect()
}

#[test]
fn nothing_recorded_gives_no_list() {
    let f = ChangeFinder::new("/fs".to_string());
    assert_eq!(list(&f), None);
}

#[test]
fn recorded_paths_are_listed_as_leaves() {
    let mut f = ChangeFinder::new("/fs".to_string());
    f.record_path(e(1, 5, 0), "a/b".to_string());
    f.record_path(e(1, 6, 0), "c".to_string());
    assert_eq!(list(&f), Some(pairs(&[("/fs/a/b", 5), ("/fs/c", 6)])));
}

#[test]
fn root_change_lists_the_root_alone() {
    let mut f = ChangeFinder::new("/fs".to_string());
    f.record_path(e(1, 5, 0), "a/b".to_string());
    f.record_path(e(2, 1, 0), "".to_string());
    f.record_path(e(3, 7, 0), "x".to_string());
    assert_eq!(list(&f), Some(pairs(&[("/fs", 1)])));
}
