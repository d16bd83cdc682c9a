use gcd::index::Index;
use gcd::resolve::resolve;

fn b(s: &str) -> Vec<u8> {
    s.as_bytes().to_vec()
}

#[test]
fn resolve_on_empty_index_is_none() {
    let idx = Index::new();
    assert_eq!(resolve(&idx, &b("anything")), None);
}

#[test]
fn resolve_exact_name() {
    let mut idx = Index::new();
    idx.insert(b("frontend"), b("/a/frontend"));
    idx.insert(b("xyz"), b("/a/xyz"));
    assert_eq!(resolve(&idx, &b("frontend")), Some(b("/a/frontend")));
}

#[test]
fn resolve_without_any_match_is_none() {
    let mut idx = Index::new();
    idx.insert(b("frontend"), b("/a/frontend"));
    assert_eq!(resolve(&idx, &b("qqq")), None);
}

#[test]
fn resolve_short_pattern_is_deterministic() {
    let mut idx = Index::new();
    idx.insert(b("frontend"), b("/a/frontend"));
    idx.insert(b("fe-utils"), b("/a/fe-utils"));
    let first = resolve(&idx, &b("fe"));
    let second = resolve(&idx, &b("fe"));
    assert_eq!(first, second);
    let winner = first.expect("some entry must match the pattern");
    assert!(winner == b("/a/frontend") || winner == b("/a/fe-utils"));
}

#[test]
fn resolve_repeated_calls_agree_on_every_query() {
    let mut idx = Index::new();
    idx.insert(b("alpha"), b("/r/alpha"));
    idx.insert(b("beta"), b("/r/beta"));
    idx.insert(b("alphabet"), b("/r/alphabet"));
    for q in ["a", "al", "b", "bet", "alpha", ""] {
        assert_eq!(resolve(&idx, &b(q)), resolve(&idx, &b(q)));
    }
}

#[test]
fn resolve_picks_the_only_subsequence_match() {
    let mut idx = Index::new();
    idx.insert(b("documents"), b("/r/documents"));
    idx.insert(b("pictures"), b("/r/pictures"));
    assert_eq!(resolve(&idx, &b("doc")), Some(b("/r/documents")));
    assert_eq!(resolve(&idx, &b("pic")), Some(b("/r/pictures")));
}
