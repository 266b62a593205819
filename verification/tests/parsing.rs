use rustpw::parse::{parse_entries, parse_entry, Entry, EntryVal, ParseError};

fn to_lines(text: &str) -> Vec<String> {
    text.lines().map(|line| line.to_string()).collect()
}

fn leaf(key: &str, value: &str) -> Entry {
    Entry { key: key.to_string(), val: EntryVal::Value(value.to_string()) }
}

fn node(key: &str, children: Vec<Entry>) -> Entry {
    Entry { key: key.to_string(), val: EntryVal::SubEntries(children) }
}

#[test]
fn parse_test_parse() {
    let lines = to_lines(
        "a: aval\nb:\n\tb0: b0val\n\tb1: b1val\n\tb_last:\n\t\tb20: b20val\n\t\tb21: b21val\n",
    );
    let res = parse_entries(&lines, 0);
    let expected = Ok(vec![
        leaf("a", "aval"),
        node(
            "b",
            vec![
                leaf("b0", "b0val"),
                leaf("b1", "b1val"),
                node("b_last", vec![leaf("b20", "b20val"), leaf("b21", "b21val")]),
            ],
        ),
    ]);
    assert_eq!(res, expected);
}

#[test]
fn main_test_parse() {
    let lines = to_lines(
        "a: aval\nb:\n\tb0: b0val\n\tb1: b1val\n\tb last:\n\t\tb20: b20val\n\t\tb21: b21val\nc: c value\n",
    );
    let res = parse_entries(&lines, 0);
    let expected = Ok(vec![
        leaf("a", "aval"),
        node(
            "b",
            vec![
                leaf("b0", "b0val"),
                leaf("b1", "b1val"),
                node("b last", vec![leaf("b20", "b20val"), leaf("b21", "b21val")]),
            ],
        ),
        leaf("c", "c value"),
    ]);
    assert_eq!(res, expected);
}

#[test]
fn indentation_jump_fails() {
    let lines = to_lines("a: aval\n\t\tdeep: x\n");
    let res = parse_entries(&lines, 0);
    assert_eq!(res, Err(ParseError::InvalidIndentation("\t\tdeep: x".to_string())));
}

#[test]
fn indentation_jump_under_node_fails() {
    let lines = to_lines("a:\n\t\t\tdeep: x\n");
    let res = parse_entries(&lines, 0);
    assert_eq!(res, Err(ParseError::InvalidIndentation("\t\t\tdeep: x".to_string())));
}

#[test]
fn missing_colon_fails() {
    let lines = to_lines("a: aval\nnocolon\nb: bval\n");
    let res = parse_entries(&lines, 0);
    assert_eq!(res, Err(ParseError::MalformedLine("nocolon".to_string())));
}

#[test]
fn empty_key_fails() {
    let lines = to_lines("  : orphaned value\n");
    let res = parse_entries(&lines, 0);
    assert_eq!(res, Err(ParseError::MalformedLine("  : orphaned value".to_string())));
}

#[test]
fn blank_lines_are_skipped() {
    let lines = to_lines("\na: 1\n\nb:\n\n\tc: 2\n\n");
    let res = parse_entries(&lines, 0);
    assert_eq!(res, Ok(vec![leaf("a", "1"), node("b", vec![leaf("c", "2")])]));
}

#[test]
fn value_keeps_later_colons() {
    let lines = to_lines("url: https://example.com:8080/x\n");
    let res = parse_entries(&lines, 0);
    assert_eq!(res, Ok(vec![leaf("url", "https://example.com:8080/x")]));
}

#[test]
fn key_and_value_are_trimmed() {
    let lines = to_lines("  spaced key  :   spaced value  \n");
    let res = parse_entries(&lines, 0);
    assert_eq!(res, Ok(vec![leaf("spaced key", "spaced value")]));
}

#[test]
fn node_at_end_of_input_has_no_children() {
    let lines = to_lines("a:\n");
    let res = parse_entries(&lines, 0);
    assert_eq!(res, Ok(vec![node("a", vec![])]));
}

#[test]
fn space_indentation_does_not_nest() {
    // Only tabs signal depth: a space-indented line still sits at depth 0,
    // so the node before it keeps an empty child list.
    let lines = to_lines("b:\n  c: 1\n");
    let res = parse_entries(&lines, 0);
    assert_eq!(res, Ok(vec![node("b", vec![]), leaf("c", "1")]));
}

#[test]
fn duplicate_sibling_keys_are_kept() {
    let lines = to_lines("k: first\nk: second\n");
    let res = parse_entries(&lines, 0);
    assert_eq!(res, Ok(vec![leaf("k", "first"), leaf("k", "second")]));
}

#[test]
fn parsing_twice_gives_equal_trees() {
    let lines = to_lines("a: aval\nb:\n\tb0: b0val\n");
    let first = parse_entries(&lines, 0);
    let second = parse_entries(&lines, 0);
    assert!(first.is_ok());
    assert_eq!(first, second);
}

#[test]
fn children_keep_source_order() {
    let lines = to_lines("p:\n\tx: 1\n\ty: 2\n\tz: 3\n");
    let res = parse_entries(&lines, 0).unwrap();
    assert_eq!(res, vec![node("p", vec![leaf("x", "1"), leaf("y", "2"), leaf("z", "3")])]);
    match &res[0].val {
        EntryVal::SubEntries(children) => {
            let keys: Vec<&str> = children.iter().map(|c| c.key.as_str()).collect();
            assert_eq!(keys, vec!["x", "y", "z"]);
        },
        EntryVal::Value(_) => panic!("expected children"),
    }
}

#[test]
fn parse_entry_splits_on_first_colon() {
    let pe = parse_entry("k: v:w").unwrap();
    assert_eq!(pe.key, "k");
    assert_eq!(pe.val, Some(EntryVal::Value("v:w".to_string())));
}

#[test]
fn parse_entry_empty_value_announces_children() {
    let pe = parse_entry("\tk:  ").unwrap();
    assert_eq!(pe.key, "k");
    assert_eq!(pe.val, None);
}

#[test]
fn parse_entry_rejects_missing_colon_and_empty_key() {
    assert!(parse_entry("no separator").is_none());
    assert!(parse_entry("   : value").is_none());
}
