use gufi_change_finder::marfs_pathman::{internal_to_user, is_internal};
use regex::Regex;

const PATTERN: &str =
    "^/var/marfs/mdal-root/sec-root/(MDAL_subspaces/[^/]+/)*MDAL_([^/]+|reference.*)$";

#[test]
fn empty_internal_path_is_user_root() {
    assert_eq!(internal_to_user("/mnt/user", ""), "/mnt/user");
}

#[test]
fn plain_path_is_appended_to_root() {
    assert_eq!(internal_to_user("/mnt/user", "a/b"), "/mnt/user/a/b");
}

#[test]
fn subspace_directories_are_dropped() {
    assert_eq!(
        internal_to_user("/mnt/user", "MDAL_subspaces/proj/MDAL_subspaces/sub/dir"),
        "/mnt/user/proj/sub/dir"
    );
}

#[test]
fn empty_pieces_are_kept() {
    assert_eq!(internal_to_user("/mnt/user", "a/"), "/mnt/user/a/");
    assert_eq!(internal_to_user("/mnt/user", "/a"), "/mnt/user//a");
}

#[test]
fn root_named_like_subspaces_is_dropped_too() {
    assert_eq!(internal_to_user("MDAL_subspaces", "x/y"), "x/y");
    assert_eq!(internal_to_user("/u", "MDAL_subspaces"), "/u");
}

#[test]
fn quota_file_reference_tree_and_subspaces_dir_are_internal() {
    assert!(is_internal("/var/marfs/mdal-root/sec-root/MDAL_datasize"));
    assert!(is_internal("/var/marfs/mdal-root/sec-root/MDAL_reference/00/11/file"));
    assert!(is_internal("/var/marfs/mdal-root/sec-root/MDAL_subspaces"));
    assert!(is_internal("/var/marfs/mdal-root/sec-root/MDAL_subspaces/proj/MDAL_datasize"));
    assert!(is_internal(
        "/var/marfs/mdal-root/sec-root/MDAL_subspaces/p/MDAL_subspaces/q/MDAL_reference"
    ));
}

#[test]
fn user_entries_are_not_internal() {
    assert!(!is_internal("/var/marfs/mdal-root/sec-root/MDAL_subspaces/proj/dir"));
    assert!(!is_internal("/var/marfs/mdal-root/sec-root/dir/MDAL_datasize"));
    assert!(!is_internal("/var/marfs/mdal-root/sec-root/MDAL_"));
    assert!(!is_internal("/var/marfs/mdal-root/sec-root/MDAL_a/b"));
    assert!(!is_internal("/var/marfs/mdal-root/sec-root/MDAL_reference/a\nb"));
    assert!(!is_internal("/var/marfs/mdal-root/sec-root/MDAL_subspaces//MDAL_x"));
    assert!(!is_internal("/other/MDAL_datasize"));
    assert!(!is_internal(""));
}

#[test]
fn recognizer_agrees_with_the_pattern() {
    let re = Regex::new(PATTERN).unwrap();
    let root = "/var/marfs/mdal-root/sec-root/";
    let tails = [
        "", "MDAL_", "MDAL_x", "MDAL_x/", "MDAL_x/y", "MDAL_reference", "MDAL_reference/",
        "MDAL_reference/a/b", "MDAL_reference\n", "MDAL_reference/a\nb", "MDAL_reference\n/a", "MDAL_referencex\ny", "MDAL_ref\n",
        "MDAL_subspaces", "MDAL_subspaces/", "MDAL_subspaces/p", "MDAL_subspaces/p/",
        "MDAL_subspaces/p/MDAL_q", "MDAL_subspaces/p/q", "MDAL_subspaces//MDAL_q",
        "MDAL_subspaces/p/MDAL_subspaces/r/MDAL_reference/z", "MDAL_subspaces/\n/MDAL_a",
        "MDAL_a\nb", "mdal_x", "x/MDAL_y", "MDAL_subspaces/p/MDAL_subspaces",
        "MDAL_subspaces/p/MDAL_subspaces/", "MDAL_é", "MDAL_reference/é\u{85}",
    ];
    for tail in tails.iter() {
        let path = format!("{}{}", root, tail);
        assert_eq!(is_internal(&path), re.is_match(&path), "{:?}", path);
    }
    for path in ["", "/", "/var/marfs/mdal-root/sec-root", "x/var/marfs/mdal-root/sec-root/MDAL_a"]
        .iter()
    {
        assert_eq!(is_internal(path), re.is_match(path), "{:?}", path);
    }
}

#[test]
fn extra_subspace_level_changes_nothing() {
    assert_eq!(
        internal_to_user("/u", "MDAL_subspaces/a/b"),
        internal_to_user("/u", "a/b")
    );
}

#[test]
fn translating_in_two_steps_is_translating_once() {
    let two = internal_to_user(&internal_to_user("/u", "MDAL_subspaces/p"), "MDAL_subspaces/q/d");
    assert_eq!(two, internal_to_user("/u", "MDAL_subspaces/p/MDAL_subspaces/q/d"));
    assert_eq!(two, "/u/p/q/d");
}
