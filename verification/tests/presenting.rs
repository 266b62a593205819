use rustpw::interaction::{present_entry, OutputMode, Presentation};
use rustpw::parse::{Entry, EntryVal};

fn leaf(key: &str, value: &str) -> Entry {
    Entry { key: key.to_string(), val: EntryVal::Value(value.to_string()) }
}

fn node(key: &str, children: Vec<Entry>) -> Entry {
    Entry { key: key.to_string(), val: EntryVal::SubEntries(children) }
}

#[test]
fn presenting_a_leaf_shows_its_value() {
    match present_entry(leaf("k", "secret"), "") {
        Presentation::ShowValue { value, path } => {
            assert_eq!(value, "secret");
            assert_eq!(path, "k");
        },
        Presentation::Choose { .. } => panic!("a leaf is shown, not chosen from"),
    }
}

#[test]
fn presenting_extends_the_key_path() {
    match present_entry(leaf("k", "secret"), "a->b") {
        Presentation::ShowValue { value, path } => {
            assert_eq!(value, "secret");
            assert_eq!(path, "a->b->k");
        },
        Presentation::Choose { .. } => panic!("a leaf is shown, not chosen from"),
    }
}

#[test]
fn presenting_a_node_offers_its_children_in_order() {
    let children = vec![leaf("x", "1"), leaf("y", "2")];
    match present_entry(node("n", children.clone()), "root") {
        Presentation::Choose { entries, path } => {
            assert_eq!(entries, children);
            assert_eq!(path, "root->n");
        },
        Presentation::ShowValue { .. } => panic!("a node offers its children"),
    }
}

#[test]
fn output_modes_are_distinct() {
    assert_eq!(OutputMode::Print, OutputMode::Print);
    assert_ne!(OutputMode::Print, OutputMode::Clipboard);
}
