//! The pattern matcher over entry trees.
//!
//! A pattern is a plain substring: no wildcards, no case folding. The search
//! walks a tree depth-first in document order; a node whose key contains the
//! pattern is returned whole, subtree included, and its descendants are not
//! searched further.

use crate::parse::{
    lemma_views_of, lemma_views_of_concat, lemma_views_of_push, views_of, Entry, EntryVal,
    EntryValView, EntryView,
};
use vstd::prelude::*;

verus! {

/// Whether `pattern` occurs contiguously in `hay`. The empty pattern occurs
/// in every string, including the empty one.
pub open spec fn contains_substr(hay: Seq<char>, pattern: Seq<char>) -> bool {
    exists|k: int|
        0 <= k <= hay.len() - pattern.len() && #[trigger] hay.subrange(k, k + pattern.len())
            == pattern
}

/// Runtime test for [`contains_substr`].
pub fn str_contains(hay: &str, pattern: &str) -> (b: bool)
    ensures
        b == contains_substr(hay@, pattern@),
{
    let n = hay.unicode_len();
    let m = pattern.unicode_len();
    if m > n {
        return false;
    }
    let mut k: usize = 0;
    while k <= n - m
        invariant
            0 <= k <= n - m + 1,
            m <= n,
            n == hay@.len(),
            m == pattern@.len(),
            forall|k2: int|
                0 <= k2 < k ==> #[trigger] hay@.subrange(k2, k2 + pattern@.len()) != pattern@,
        decreases n - m + 1 - k,
    {
        let mut j: usize = 0;
        while j < m && hay.get_char(k + j) == pattern.get_char(j)
            invariant
                0 <= j <= m,
                k + m <= n,
                n == hay@.len(),
                m == pattern@.len(),
                forall|j2: int| 0 <= j2 < j ==> hay@[k + j2] == pattern@[j2],
            decreases m - j,
        {
            j = j + 1;
        }
        if j == m {
            proof {
                assert(hay@.subrange(k as int, k + pattern@.len()) =~= pattern@);
            }
            return true;
        }
        proof {
            assert(hay@.subrange(k as int, k + pattern@.len())[j as int] != pattern@[j as int]);
        }
        k = k + 1;
    }
    false
}

/// The nodes the matcher finds in one tree: the root itself if its key
/// contains the pattern, else whatever its children yield, in order.
pub open spec fn spec_search_entry(entry: EntryView, pattern: Seq<char>) -> Seq<EntryView>
    decreases entry,
{
    if contains_substr(entry.key, pattern) {
        seq![entry]
    } else {
        match entry.val {
            EntryValView::Value(_) => Seq::empty(),
            EntryValView::SubEntries(children) => spec_search_entries(children, pattern),
        }
    }
}

/// The matcher over a sibling list: each tree's findings, concatenated in
/// document order.
pub open spec fn spec_search_entries(entries: Seq<EntryView>, pattern: Seq<char>) -> Seq<EntryView>
    decreases entries,
{
    if entries.len() == 0 {
        Seq::empty()
    } else {
        spec_search_entry(entries[0], pattern) + spec_search_entries(
            entries.subrange(1, entries.len() as int),
            pattern,
        )
    }
}

proof fn lemma_search_entries_push(entries: Seq<EntryView>, entry: EntryView, pattern: Seq<char>)
    ensures
        spec_search_entries(entries.push(entry), pattern) == spec_search_entries(entries, pattern)
            + spec_search_entry(entry, pattern),
    decreases entries.len(),
{
    let pushed = entries.push(entry);
    if entries.len() == 0 {
        assert(pushed.len() == 1 && pushed[0] == entry);
        assert(pushed.subrange(1, pushed.len() as int) =~= Seq::<EntryView>::empty());
        assert(spec_search_entries(pushed, pattern) == spec_search_entry(entry, pattern)
            + spec_search_entries(Seq::<EntryView>::empty(), pattern));
        assert(spec_search_entries(pushed, pattern) =~= spec_search_entries(entries, pattern)
            + spec_search_entry(entry, pattern));
    } else {
        let rest = entries.subrange(1, entries.len() as int);
        lemma_search_entries_push(rest, entry, pattern);
        assert(pushed.subrange(1, pushed.len() as int) =~= rest.push(entry));
        assert(pushed[0] == entries[0]);
        let head_found = spec_search_entry(entries[0], pattern);
        assert(spec_search_entries(pushed, pattern) == head_found + (spec_search_entries(
            rest,
            pattern,
        ) + spec_search_entry(entry, pattern)));
        assert(head_found + (spec_search_entries(rest, pattern) + spec_search_entry(
            entry,
            pattern,
        )) =~= (head_found + spec_search_entries(rest, pattern)) + spec_search_entry(
            entry,
            pattern,
        ));
    }
}

impl Entry {
    /// Collects, in document order, every node of this tree whose key
    /// contains `pattern`. A matching node is returned whole, children and
    /// all, and nothing beneath it is searched further; the children of a
    /// node that does not match are searched in order.
    pub fn search_pattern(&self, pattern: &str) -> (r: Vec<Entry>)
        ensures
            views_of(r@) == spec_search_entry(self@, pattern@),
        decreases *self,
    {
        if str_contains(self.key.as_str(), pattern) {
            let copy = self.clone();
            let mut r: Vec<Entry> = Vec::new();
            proof {
                lemma_views_of_push(r@, copy);
            }
            r.push(copy);
            proof {
                assert(views_of(r@) =~= seq![self@]);
            }
            r
        } else {
            match &self.val {
                EntryVal::Value(_) => Vec::new(),
                EntryVal::SubEntries(children) => {
                    let cs: &[Entry] = children.as_slice();
                    search_pattern(pattern, cs)
                },
            }
        }
    }
}

/// Searches a forest of entries, concatenating each tree's findings in
/// document order.
pub fn search_pattern(pattern: &str, entries: &[Entry]) -> (r: Vec<Entry>)
    ensures
        views_of(r@) == spec_search_entries(views_of(entries@), pattern@),
    decreases entries@,
{
    let mut r: Vec<Entry> = Vec::new();
    let mut i: usize = 0;
    while i < entries.len()
        invariant
            0 <= i <= entries@.len(),
            views_of(r@) == spec_search_entries(views_of(entries@.subrange(0, i as int)), pattern@),
        decreases entries@.len() - i,
    {
        let mut found = entries[i].search_pattern(pattern);
        proof {
            let prefix = entries@.subrange(0, i as int);
            lemma_views_of_push(prefix, entries@[i as int]);
            assert(entries@.subrange(0, i + 1) =~= prefix.push(entries@[i as int]));
            lemma_search_entries_push(views_of(prefix), entries@[i as int]@, pattern@);
            lemma_views_of_concat(r@, found@);
        }
        r.append(&mut found);
        i = i + 1;
    }
    proof {
        assert(entries@.subrange(0, entries@.len() as int) =~= entries@);
    }
    r
}

/// With the empty pattern every key matches, so a search returns exactly
/// the entries it was given — each one immediately, none of its children
/// visited.
pub proof fn lemma_empty_pattern_search(entries: Seq<EntryView>)
    ensures
        spec_search_entries(entries, Seq::<char>::empty()) == entries,
    decreases entries.len(),
{
    let pattern = Seq::<char>::empty();
    if entries.len() == 0 {
        assert(spec_search_entries(entries, pattern) =~= entries);
    } else {
        let head = entries[0];
        assert(contains_substr(head.key, pattern)) by {
            assert(head.key.subrange(0, 0 + pattern.len() as int) =~= pattern);
        }
        let rest = entries.subrange(1, entries.len() as int);
        lemma_empty_pattern_search(rest);
        assert(spec_search_entry(head, pattern) == seq![head]);
        assert(spec_search_entries(entries, pattern) == seq![head] + rest);
        assert(seq![head] + rest =~= entries);
    }
}

} // verus!
