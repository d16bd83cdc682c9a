use gcd::install::{apply_integration, find_sub};

fn b(s: &str) -> Vec<u8> {
    s.as_bytes().to_vec()
}

#[test]
fn find_sub_finds_and_misses() {
    assert!(find_sub(&b("hello world"), &b("lo wo")));
    assert!(find_sub(&b("hello"), &b("hello")));
    assert!(find_sub(&b("hello"), &b("")));
    assert!(!find_sub(&b("hello"), &b("world")));
    assert!(!find_sub(&b("hi"), &b("hello")));
}

#[test]
fn integration_is_appended_once() {
    let marker = b("### GCD Integration");
    let block = b("gcd() { cd; }\n");
    let profile = b("export PATH=$PATH\n");
    let updated = apply_integration(&profile, &marker, &block)
        .expect("a profile without the marker must be extended");
    assert_eq!(
        updated,
        b("export PATH=$PATH\n\n### GCD Integration\ngcd() { cd; }\n"),
    );
    assert_eq!(apply_integration(&updated, &marker, &block), None);
}
