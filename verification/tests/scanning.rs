use gcd::scan::{denylisted_name, scan, DirTree};

fn b(s: &str) -> Vec<u8> {
    s.as_bytes().to_vec()
}

fn dir(name: &str, children: Vec<DirTree>) -> DirTree {
    DirTree { name: b(name), children }
}

fn leaf(name: &str) -> DirTree {
    dir(name, Vec::new())
}

#[test]
fn scan_reports_root_when_it_is_a_repo() {
    let t = dir("proj", vec![leaf(".git"), leaf("src")]);
    let found = scan(&t, &b("/home/u/proj"));
    assert_eq!(found, vec![b("/home/u/proj")]);
}

#[test]
fn scan_finds_nested_repositories() {
    let t = dir(
        "work",
        vec![
            dir("one", vec![leaf(".git"), dir("vendor", vec![dir("inner", vec![leaf(".git")])])]),
            dir("two", vec![leaf("docs")]),
        ],
    );
    let found = scan(&t, &b("/w"));
    assert_eq!(found, vec![b("/w/one"), b("/w/one/vendor/inner")]);
}

#[test]
fn scan_never_descends_into_denylisted_directories() {
    let t = dir(
        "root",
        vec![
            leaf(".git"),
            dir("node_modules", vec![dir("dep", vec![leaf(".git")])]),
            dir("target", vec![leaf(".git")]),
            dir("src", vec![dir("deep", vec![dir("node_modules", vec![dir(
                "hidden",
                vec![leaf(".git")],
            )])])]),
        ],
    );
    let found = scan(&t, &b("/r"));
    assert_eq!(found, vec![b("/r")]);
}

#[test]
fn scan_detects_a_root_with_a_denylisted_name() {
    let t = dir(
        "target",
        vec![leaf(".git"), dir("sub", vec![leaf(".git")]), dir("node_modules", vec![dir(
            "dep",
            vec![leaf(".git")],
        )])],
    );
    let found = scan(&t, &b("/r/target"));
    assert_eq!(found, vec![b("/r/target"), b("/r/target/sub")]);
}

#[test]
fn scan_without_any_marker_reports_nothing() {
    let t = dir("plain", vec![dir("a", vec![leaf("b")])]);
    let found = scan(&t, &b("/p"));
    assert!(found.is_empty());
}

#[test]
fn denylist_names() {
    assert!(denylisted_name(&b(".git")));
    assert!(denylisted_name(&b("node_modules")));
    assert!(denylisted_name(&b("target")));
    assert!(!denylisted_name(&b("src")));
    assert!(!denylisted_name(&b("targets")));
}
