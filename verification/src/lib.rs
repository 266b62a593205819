//! A minimalist hierarchical key/value store over tab-indented plain text.
//!
//! The library has two halves: a parser that turns a sequence of text lines
//! into an ordered tree of [`parse::Entry`] nodes, and a matcher that walks
//! such a tree collecting every subtree whose key contains a given pattern.
//! Both are pure transformations; reading files, prompting and the clipboard
//! are left to callers.

pub mod interaction;
pub mod parse;
pub mod search;
pub mod text;
