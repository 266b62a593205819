//! Decisions behind presenting a retrieved entry to the user.
//!
//! Walking into a tree of entries alternates two steps: showing a leaf's
//! value, or letting the user pick one of an internal node's children. The
//! choice of step, and the `a->b->c` key path shown alongside, are decided
//! here; prompting, printing and the clipboard stay with the caller.

use crate::parse::{views_of, Entry, EntryVal, EntryValView};
use vstd::prelude::*;

verus! {

/// How the value of a leaf entry should reach the user.
#[derive(Debug, Clone, Copy, PartialEq, Eq, PartialOrd, Ord)]
pub enum OutputMode {
    /// Print the value to standard output.
    Print,
    /// Copy the value to the clipboard, to be cleared again shortly after.
    Clipboard,
}

/// The key path of an entry reached through `path`: the entry's own key,
/// behind an arrow when the path so far is not empty.
pub open spec fn spec_next_path(path: Seq<char>, key: Seq<char>) -> Seq<char> {
    if path.len() == 0 {
        key
    } else {
        path + "->"@ + key
    }
}

/// What the caller is to do next with one entry.
#[derive(Debug)]
pub enum Presentation {
    /// The entry is a leaf: hand its value to the user under the given key
    /// path, by whatever [`OutputMode`] the caller follows.
    ShowValue { value: String, path: String },
    /// The entry is an internal node: offer its children, in document
    /// order, for the user to choose from.
    Choose { entries: Vec<Entry>, path: String },
}

/// Decides how `entry`, reached through `path`, is presented: a leaf's
/// value is shown, an internal node's children are offered in order. The
/// key path grows by the entry's own key. No I/O happens here.
pub fn present_entry(entry: Entry, path: &str) -> (p: Presentation)
    ensures
        match p {
            Presentation::ShowValue { value, path: shown } => {
                &&& entry@.val matches EntryValView::Value(v) && value@ == v
                &&& shown@ == spec_next_path(path@, entry@.key)
            },
            Presentation::Choose { entries, path: shown } => {
                &&& entry@.val matches EntryValView::SubEntries(cs) && views_of(entries@) == cs
                &&& shown@ == spec_next_path(path@, entry@.key)
            },
        },
{
    let next_path = if path.is_empty() {
        entry.key
    } else {
        let mut joined = path.to_owned();
        joined.append("->");
        joined.append(entry.key.as_str());
        joined
    };
    match entry.val {
        EntryVal::Value(value) => Presentation::ShowValue { value, path: next_path },
        EntryVal::SubEntries(entries) => Presentation::Choose { entries, path: next_path },
    }
}

} // verus!
