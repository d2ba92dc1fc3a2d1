use scup::paths::{normalized_repo_path, parent_dirs, removal_goes_on, DirRemoval};

fn norm(s: &str) -> Option<String> {
    normalized_repo_path(s)
}

#[test]
fn paths_get_their_normal_form() {
    assert_eq!(norm("./note.txt"), Some("note.txt".to_string()));
    assert_eq!(norm("a//b/./c/../d"), Some("a/b/d".to_string()));
    assert_eq!(norm("/a/b/"), Some("a/b".to_string()));
    assert_eq!(norm("a/.scup/b"), Some("a/.scup/b".to_string()));
    assert_eq!(norm(".scupper"), Some(".scupper".to_string()));
    assert_eq!(norm("a\\b"), Some("a\\b".to_string()));
}

#[test]
fn paths_outside_the_working_tree_are_refused() {
    for p in ["", ".", "./", "a/..", "..", "../x", "a/../../x", "/..", ".scup", "./.scup",
        ".scup/repository", "x/../.scup/chunks/ab"] {
        assert_eq!(norm(p), None, "{p}");
    }
}

#[test]
fn a_normal_form_is_its_own() {
    for p in ["./a/b", "x/./y", "é/ü"] {
        let n = norm(p).unwrap();
        assert_eq!(norm(&n), Some(n.clone()));
    }
}

#[test]
fn directories_above_a_path() {
    assert_eq!(parent_dirs("a/b/c.txt"), vec!["a/b", "a"]);
    assert_eq!(parent_dirs("c.txt"), Vec::<String>::new());
    assert_eq!(parent_dirs(""), Vec::<String>::new());
}

#[test]
fn empty_directories_are_removed_up_to_one_that_stays() {
    assert!(removal_goes_on(DirRemoval::Removed));
    assert!(removal_goes_on(DirRemoval::NotFound));
    assert!(!removal_goes_on(DirRemoval::NotEmpty));
    assert!(!removal_goes_on(DirRemoval::Failed));
}
