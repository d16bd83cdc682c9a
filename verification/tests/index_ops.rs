use gcd::index::{leaf_name, Index};

fn b(s: &str) -> Vec<u8> {
    s.as_bytes().to_vec()
}

#[test]
fn new_index_is_empty() {
    let idx = Index::new();
    assert_eq!(idx.len(), 0);
}

#[test]
fn insert_and_get() {
    let mut idx = Index::new();
    idx.insert(b("repo"), b("/home/u/repo"));
    assert_eq!(idx.len(), 1);
    assert_eq!(idx.name_at(0), b("repo"));
    assert_eq!(idx.path_at(0), b("/home/u/repo"));
}

#[test]
fn insert_overwrites_in_place() {
    let mut idx = Index::new();
    idx.insert(b("x"), b("/old/x"));
    idx.insert(b("y"), b("/a/y"));
    idx.insert(b("x"), b("/new/x"));
    assert_eq!(idx.len(), 2);
    assert_eq!(idx.name_at(0), b("x"));
    assert_eq!(idx.path_at(0), b("/new/x"));
    assert_eq!(idx.name_at(1), b("y"));
    assert_eq!(idx.path_at(1), b("/a/y"));
}

#[test]
fn build_with_no_paths_is_noop() {
    let mut idx = Index::new();
    idx.insert(b("kept"), b("/k"));
    let discovered: Vec<Vec<u8>> = Vec::new();
    idx.build(&discovered);
    assert_eq!(idx.len(), 1);
    assert_eq!(idx.name_at(0), b("kept"));
    assert_eq!(idx.path_at(0), b("/k"));
}

#[test]
fn build_same_leaf_last_wins() {
    let mut idx = Index::new();
    let discovered = vec![b("/a/repo"), b("/b/repo")];
    idx.build(&discovered);
    assert_eq!(idx.len(), 1);
    assert_eq!(idx.name_at(0), b("repo"));
    assert_eq!(idx.path_at(0), b("/b/repo"));
}

#[test]
fn build_retains_unrelated_entries() {
    let mut idx = Index::new();
    idx.insert(b("other"), b("/elsewhere/other"));
    let discovered = vec![b("/scan/found")];
    idx.build(&discovered);
    assert_eq!(idx.len(), 2);
    assert_eq!(idx.name_at(0), b("other"));
    assert_eq!(idx.path_at(0), b("/elsewhere/other"));
    assert_eq!(idx.name_at(1), b("found"));
    assert_eq!(idx.path_at(1), b("/scan/found"));
}

#[test]
fn leaf_name_of_nested_path() {
    assert_eq!(leaf_name(&b("/home/u/src/repo")), b("repo"));
}

#[test]
fn leaf_name_without_separator() {
    assert_eq!(leaf_name(&b("repo")), b("repo"));
}

#[test]
fn leaf_name_of_root_is_empty() {
    assert_eq!(leaf_name(&b("/")), b(""));
}

#[test]
fn bytes_eq_decides_equality() {
    assert!(gcd::bytes::bytes_eq(&b("abc"), &b("abc")));
    assert!(!gcd::bytes::bytes_eq(&b("abc"), &b("abd")));
    assert!(!gcd::bytes::bytes_eq(&b("abc"), &b("ab")));
}
