use gcd::codec::{load_index, parse_config, save_bytes};
use gcd::index::Index;

fn b(s: &str) -> Vec<u8> {
    s.as_bytes().to_vec()
}

#[test]
fn save_of_empty_index_is_exact() {
    let idx = Index::new();
    assert_eq!(save_bytes(&idx), b("{\"repos\":{}}"));
}

#[test]
fn save_of_one_entry_is_exact() {
    let mut idx = Index::new();
    idx.insert(b("a"), b("/x"));
    assert_eq!(save_bytes(&idx), b("{\"repos\":{\"a\":\"/x\"}}"));
}

#[test]
fn save_escapes_quotes_and_backslashes() {
    let mut idx = Index::new();
    idx.insert(b("we\"ird"), b("/p\\q"));
    assert_eq!(save_bytes(&idx), b("{\"repos\":{\"we\\\"ird\":\"/p\\\\q\"}}"));
}

#[test]
fn save_then_load_returns_the_same_mapping() {
    let mut idx = Index::new();
    idx.insert(b("alpha"), b("/r/alpha"));
    idx.insert(b("we\"ird\\"), b("/odd/we\"ird\\"));
    idx.insert(b("beta"), b("/r/beta"));
    let loaded = load_index(Some(&save_bytes(&idx)));
    assert_eq!(loaded.len(), idx.len());
    for i in 0..idx.len() {
        assert_eq!(loaded.name_at(i), idx.name_at(i));
        assert_eq!(loaded.path_at(i), idx.path_at(i));
    }
}

#[test]
fn load_of_missing_file_is_empty() {
    let idx = load_index(None);
    assert_eq!(idx.len(), 0);
}

#[test]
fn load_of_corrupt_contents_is_empty() {
    for garbage in [
        "not json at all",
        "{\"repos\": {\"a\": \"/x\"",
        "{\"repos\": [1, 2]}",
        "{}",
        "{\"repos\": {\"a\": 5}}",
        "",
        "{\"repos\": {\"a\": \"/x\"}} trailing",
    ] {
        let idx = load_index(Some(&b(garbage)));
        assert_eq!(idx.len(), 0, "contents {:?} must load as empty", garbage);
    }
}

#[test]
fn load_accepts_whitespace_between_tokens() {
    let doc = b(" {\n  \"repos\" : {\r\n    \"a\" : \"/x\" ,\n    \"b\" : \"/y\"\n  }\n}\n");
    let idx = load_index(Some(&doc));
    assert_eq!(idx.len(), 2);
    assert_eq!(idx.name_at(0), b("a"));
    assert_eq!(idx.path_at(0), b("/x"));
    assert_eq!(idx.name_at(1), b("b"));
    assert_eq!(idx.path_at(1), b("/y"));
}

#[test]
fn load_ignores_unknown_members() {
    let doc = b(
        "{\"version\": 3, \"repos\": {\"a\": \"/x\"}, \"extra\": {\"deep\": [1, \"s,}\"], \"flag\": true}}",
    );
    let idx = load_index(Some(&doc));
    assert_eq!(idx.len(), 1);
    assert_eq!(idx.name_at(0), b("a"));
    assert_eq!(idx.path_at(0), b("/x"));
}

#[test]
fn load_decodes_standard_escapes() {
    let doc = b("{\"repos\": {\"a\\\"b\": \"/x\\\\y\", \"nl\": \"/a\\nb\"}}");
    let idx = load_index(Some(&doc));
    assert_eq!(idx.len(), 2);
    assert_eq!(idx.name_at(0), b("a\"b"));
    assert_eq!(idx.path_at(0), b("/x\\y"));
    assert_eq!(idx.name_at(1), b("nl"));
    assert_eq!(idx.path_at(1), b("/a\nb"));
}

#[test]
fn load_decodes_unicode_escapes() {
    let doc = b("{\"repos\": {\"a\\u0041b\": \"/x\\u000ay\", \"eur\": \"/m\\u20acp\"}}");
    let idx = load_index(Some(&doc));
    assert_eq!(idx.len(), 2);
    assert_eq!(idx.name_at(0), b("aAb"));
    assert_eq!(idx.path_at(0), b("/x\ny"));
    assert_eq!(idx.name_at(1), b("eur"));
    assert_eq!(idx.path_at(1), "/m\u{20ac}p".as_bytes().to_vec());
}

#[test]
fn load_rejects_bad_unicode_escapes() {
    for garbage in [
        "{\"repos\": {\"a\": \"/x\\uZZZZ\"}}",
        "{\"repos\": {\"a\": \"/x\\ud800y\"}}",
        "{\"repos\": {\"a\": \"/x\\u00\"}}",
    ] {
        let idx = load_index(Some(&b(garbage)));
        assert_eq!(idx.len(), 0, "contents {:?} must load as empty", garbage);
    }
}

#[test]
fn load_with_duplicate_names_keeps_the_last() {
    let doc = b("{\"repos\": {\"a\": \"/1\", \"a\": \"/2\"}}");
    let idx = load_index(Some(&doc));
    assert_eq!(idx.len(), 1);
    assert_eq!(idx.path_at(0), b("/2"));
}

#[test]
fn parse_config_of_empty_repos_object() {
    let pairs = parse_config(&b("{\"repos\": {}}")).expect("an empty repos object is well-formed");
    assert!(pairs.is_empty());
}
