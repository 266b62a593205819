use rustpw::parse::{parse_entries, Entry, EntryVal};
use rustpw::search::search_pattern;

fn to_lines(text: &str) -> Vec<String> {
    text.lines().map(|line| line.to_string()).collect()
}

fn leaf(key: &str, value: &str) -> Entry {
    Entry { key: key.to_string(), val: EntryVal::Value(value.to_string()) }
}

fn node(key: &str, children: Vec<Entry>) -> Entry {
    Entry { key: key.to_string(), val: EntryVal::SubEntries(children) }
}

fn underscore_tree() -> Vec<Entry> {
    let lines = to_lines(
        "a: aval\nb:\n\tb0: b0val\n\tb1: b1val\n\tb_last:\n\t\tb20: b20val\n\t\tb21: b21val\n",
    );
    parse_entries(&lines, 0).unwrap()
}

fn spaced_tree() -> Vec<Entry> {
    let lines = to_lines(
        "a: aval\nb:\n\tb0: b0val\n\tb1: b1val\n\tb last:\n\t\tb20: b20val\n\t\tb21: b21val\nc: c value\n",
    );
    parse_entries(&lines, 0).unwrap()
}

#[test]
fn parse_test_search_leaf() {
    let parsed = underscore_tree();
    let res = search_pattern("b21", &parsed);
    assert!(res.len() == 1);
    let expected = leaf("b21", "b21val");
    assert_eq!(res[0], expected);
}

#[test]
fn parse_test_search_inner_node() {
    let parsed = underscore_tree();
    let res = search_pattern("b_last", &parsed);
    assert!(res.len() == 1);
    let expected = node("b_last", vec![leaf("b20", "b20val"), leaf("b21", "b21val")]);
    assert_eq!(res[0], expected);
}

#[test]
fn parse_test_search_multiple_matches() {
    let parsed = underscore_tree();
    let res = search_pattern("b2", &parsed);
    let expected = vec![leaf("b20", "b20val"), leaf("b21", "b21val")];
    assert_eq!(res, expected);
}

#[test]
fn main_test_search_leaf() {
    let parsed = spaced_tree();
    let res = search_pattern("b21", &parsed);
    assert!(res.len() == 1);
    let expected = leaf("b21", "b21val");
    assert_eq!(res[0], expected);
}

#[test]
fn main_test_search_inner_node() {
    let parsed = spaced_tree();
    let res = search_pattern("b last", &parsed);
    assert!(res.len() == 1);
    let expected = node("b last", vec![leaf("b20", "b20val"), leaf("b21", "b21val")]);
    assert_eq!(res[0], expected);
}

#[test]
fn main_test_search_multiple_matches() {
    let parsed = spaced_tree();
    let res = search_pattern("b2", &parsed);
    let expected = vec![leaf("b20", "b20val"), leaf("b21", "b21val")];
    assert_eq!(res, expected);
}

#[test]
fn empty_pattern_returns_top_level_only() {
    let parsed = underscore_tree();
    let res = search_pattern("", &parsed);
    assert_eq!(res, parsed);
}

#[test]
fn matching_node_short_circuits_its_subtree() {
    let parsed = underscore_tree();
    // Every key under "b" contains "b", yet only the node itself is
    // returned, whole.
    let res = search_pattern("b", &parsed);
    assert!(res.len() == 1);
    assert_eq!(res[0], parsed[1]);
}

#[test]
fn search_method_matches_own_key() {
    let entry = node("outer", vec![leaf("inner", "v")]);
    let res = entry.search_pattern("out");
    assert_eq!(res, vec![entry.clone()]);
    let res = entry.search_pattern("inner");
    assert_eq!(res, vec![leaf("inner", "v")]);
}

#[test]
fn search_without_match_is_empty() {
    let parsed = underscore_tree();
    let res = search_pattern("zzz", &parsed);
    assert!(res.is_empty());
}

#[test]
fn search_is_case_sensitive() {
    let parsed = underscore_tree();
    let res = search_pattern("B21", &parsed);
    assert!(res.is_empty());
}

#[test]
fn duplicate_keys_both_match() {
    let lines = to_lines("k: first\nk: second\n");
    let parsed = parse_entries(&lines, 0).unwrap();
    let res = search_pattern("k", &parsed);
    assert_eq!(res, vec![leaf("k", "first"), leaf("k", "second")]);
}
