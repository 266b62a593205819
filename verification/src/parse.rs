//! The entry tree and the indentation-driven parser.

use crate::text::{count_tabs, find_colon, first_colon, tabs_of, trim_spec, trimmed_substring};
use vstd::prelude::*;

verus! {

/// The payload of an [`Entry`]: either a terminal string value or an ordered
/// list of child entries. A node is never both.
#[derive(Debug, PartialEq)]
pub enum EntryVal {
    Value(String),
    SubEntries(Vec<Entry>),
}

/// One node of the parsed tree: a key together with its value or children.
#[derive(Debug, PartialEq)]
pub struct Entry {
    pub key: String,
    pub val: EntryVal,
}

/// Mathematical image of an [`EntryVal`]: strings become character sequences.
pub enum EntryValView {
    Value(Seq<char>),
    SubEntries(Seq<EntryView>),
}

/// Mathematical image of an [`Entry`].
pub struct EntryView {
    pub key: Seq<char>,
    pub val: EntryValView,
}

impl View for EntryVal {
    type V = EntryValView;

    open spec fn view(&self) -> EntryValView
        decreases self,
    {
        match self {
            EntryVal::Value(s) => EntryValView::Value(s@),
            EntryVal::SubEntries(entries) => EntryValView::SubEntries(views_of(entries@)),
        }
    }
}

impl View for Entry {
    type V = EntryView;

    open spec fn view(&self) -> EntryView
        decreases self,
    {
        EntryView { key: self.key@, val: self.val@ }
    }
}

/// The views of a sequence of entries, in order.
pub open spec fn views_of(entries: Seq<Entry>) -> Seq<EntryView>
    decreases entries,
{
    if entries.len() == 0 {
        Seq::empty()
    } else {
        seq![entries[0]@] + views_of(entries.subrange(1, entries.len() as int))
    }
}

pub proof fn lemma_views_of(entries: Seq<Entry>)
    ensures
        views_of(entries).len() == entries.len(),
        forall|i: int| 0 <= i < entries.len() ==> views_of(entries)[i] == entries[i]@,
    decreases entries.len(),
{
    if entries.len() > 0 {
        let rest = entries.subrange(1, entries.len() as int);
        lemma_views_of(rest);
        assert(views_of(entries) == seq![entries[0]@] + views_of(rest));
        assert forall|i: int| 0 <= i < entries.len() implies views_of(entries)[i]
            == entries[i]@ by {
            if i > 0 {
                assert((seq![entries[0]@] + views_of(rest))[i] == views_of(rest)[i - 1]);
                assert(rest[i - 1] == entries[i]);
            }
        }
    }
}

pub proof fn lemma_views_of_push(entries: Seq<Entry>, entry: Entry)
    ensures
        views_of(entries.push(entry)) == views_of(entries).push(entry@),
{
    let pushed = entries.push(entry);
    lemma_views_of(entries);
    lemma_views_of(pushed);
    assert forall|i: int| 0 <= i < pushed.len() implies views_of(pushed)[i] == views_of(
        entries,
    ).push(entry@)[i] by {
        if i < entries.len() {
            assert(pushed[i] == entries[i]);
        } else {
            assert(pushed[i] == entry);
        }
    }
    assert(views_of(pushed) =~= views_of(entries).push(entry@));
}

pub proof fn lemma_views_of_concat(a: Seq<Entry>, b: Seq<Entry>)
    ensures
        views_of(a + b) == views_of(a) + views_of(b),
{
    lemma_views_of(a);
    lemma_views_of(b);
    lemma_views_of(a + b);
    assert forall|i: int| 0 <= i < a.len() + b.len() implies views_of(a + b)[i] == (views_of(a)
        + views_of(b))[i] by {
        if i < a.len() {
            assert((a + b)[i] == a[i]);
        } else {
            assert((a + b)[i] == b[i - a.len()]);
        }
    }
    assert(views_of(a + b) =~= views_of(a) + views_of(b));
}

impl Clone for Entry {
    /// A clone preserves the whole tree, key and value or children alike.
    fn clone(&self) -> (res: Self)
        ensures
            res@ == self@,
        decreases *self,
    {
        Entry { key: self.key.clone(), val: self.val.clone() }
    }
}

impl Clone for EntryVal {
    /// A clone preserves the value or the whole child list.
    fn clone(&self) -> (res: Self)
        ensures
            res@ == self@,
        decreases *self,
    {
        match self {
            EntryVal::Value(s) => EntryVal::Value(s.clone()),
            EntryVal::SubEntries(entries) => EntryVal::SubEntries(clone_entries(entries)),
        }
    }
}

/// Why a parse was rejected. Either error aborts the whole parse; no partial
/// tree is ever returned. Each variant carries the offending line verbatim.
#[derive(Debug, PartialEq)]
pub enum ParseError {
    /// A non-blank line with no colon, or with an empty key before the colon.
    MalformedLine(String),
    /// A line indented deeper than its context allows.
    InvalidIndentation(String),
}

/// Mathematical image of a [`ParseError`].
pub enum ParseErrorView {
    MalformedLine(Seq<char>),
    InvalidIndentation(Seq<char>),
}

impl View for ParseError {
    type V = ParseErrorView;

    open spec fn view(&self) -> ParseErrorView {
        match self {
            ParseError::MalformedLine(line) => ParseErrorView::MalformedLine(line@),
            ParseError::InvalidIndentation(line) => ParseErrorView::InvalidIndentation(line@),
        }
    }
}

/// One parsed line before its children are known: the key, and either a leaf
/// value or, when the value part was empty, `None`, announcing children.
#[derive(Debug)]
pub struct PartialEntry {
    pub key: String,
    pub val: Option<EntryVal>,
}

/// What a single non-blank line means: `None` if the line has no colon or an
/// empty key, otherwise the trimmed key and the trimmed value part. An empty
/// value part declares an internal node.
pub open spec fn spec_parse_line(line: Seq<char>) -> Option<(Seq<char>, Seq<char>)> {
    let j = first_colon(line);
    if j < 0 {
        None
    } else {
        let key = trim_spec(line.subrange(0, j));
        let rawval = trim_spec(line.subrange(j + 1, line.len() as int));
        if key.len() == 0 {
            None
        } else {
            Some((key, rawval))
        }
    }
}

/// Splits one line into `key : value` at its first colon, trimming both
/// sides. Returns `None` on a line without a colon or with an empty key.
pub fn parse_entry(line: &str) -> (r: Option<PartialEntry>)
    ensures
        ({
            let lp = spec_parse_line(line@);
            match r {
                None => lp is None,
                Some(pe) => lp matches Some(kv) && {
                    &&& pe.key@ == kv.0
                    &&& match pe.val {
                        None => kv.1.len() == 0,
                        Some(v) => v matches EntryVal::Value(s) && s@ == kv.1 && kv.1.len() > 0,
                    }
                },
            }
        }),
{
    let n = line.unicode_len();
    match find_colon(line) {
        None => None,
        Some(j) => {
            let key = trimmed_substring(line, 0, j);
            if key.as_str().is_empty() {
                return None;
            }
            let rawval = trimmed_substring(line, j + 1, n);
            let val = if rawval.as_str().is_empty() {
                None
            } else {
                Some(EntryVal::Value(rawval))
            };
            Some(PartialEntry { key, val })
        },
    }
}

/// The verdict of the parser on one stretch of lines: the entries it yields
/// or the error it stops on, and the position of the first line it leaves
/// for its caller.
pub struct SpecParseOutcome {
    pub res: Result<Seq<EntryView>, ParseErrorView>,
    pub next: int,
}

/// Where the sibling loop resumes after a child parse that reported `c` as
/// its next line. The two clamps only keep the recursion measure of
/// [`spec_parse_entries`] decreasing; they never apply to a cursor a parse
/// actually reports (see [`lemma_spec_parse_next_bounds`]).
pub open spec fn resume_at(c: int, i: int, n: int) -> int {
    if c < i + 1 {
        i + 1
    } else if c > n {
        n
    } else {
        c
    }
}

/// The parser itself, over the views of the lines: reads entries at
/// indentation `depth` from line `i` on, until a line indented shallower
/// than `depth` (left to the caller), the end of the lines, or an error.
///
/// Blank lines are skipped everywhere. A line indented deeper than `depth`
/// fails; a line at `depth` with no colon or an empty key fails; a line at
/// `depth` with an empty value part opens an internal node whose children
/// are the entries at `depth + 1` on the following lines.
pub open spec fn spec_parse_entries(lines: Seq<Seq<char>>, i: int, depth: nat) -> SpecParseOutcome
    decreases lines.len() - i,
{
    if !(0 <= i < lines.len()) {
        SpecParseOutcome { res: Ok(Seq::empty()), next: i }
    } else {
        let line = lines[i];
        if line.len() == 0 {
            spec_parse_entries(lines, i + 1, depth)
        } else {
            let ind = tabs_of(line);
            if ind < depth {
                SpecParseOutcome { res: Ok(Seq::empty()), next: i }
            } else if ind > depth {
                SpecParseOutcome { res: Err(ParseErrorView::InvalidIndentation(line)), next: i }
            } else {
                match spec_parse_line(line) {
                    None => SpecParseOutcome {
                        res: Err(ParseErrorView::MalformedLine(line)),
                        next: i,
                    },
                    Some(kv) => {
                        if kv.1.len() == 0 {
                            let child = spec_parse_entries(lines, i + 1, depth + 1);
                            match child.res {
                                Err(_) => child,
                                Ok(children) => {
                                    let rest = spec_parse_entries(
                                        lines,
                                        resume_at(child.next, i, lines.len() as int),
                                        depth,
                                    );
                                    match rest.res {
                                        Err(_) => rest,
                                        Ok(siblings) => SpecParseOutcome {
                                            res: Ok(
                                                seq![
                                                    EntryView {
                                                        key: kv.0,
                                                        val: EntryValView::SubEntries(children),
                                                    },
                                                ] + siblings,
                                            ),
                                            next: rest.next,
                                        },
                                    }
                                },
                            }
                        } else {
                            let rest = spec_parse_entries(lines, i + 1, depth);
                            match rest.res {
                                Err(_) => rest,
                                Ok(siblings) => SpecParseOutcome {
                                    res: Ok(
                                        seq![
                                            EntryView { key: kv.0, val: EntryValView::Value(kv.1) },
                                        ] + siblings,
                                    ),
                                    next: rest.next,
                                },
                            }
                        }
                    },
                }
            }
        }
    }
}

/// A parse never reports a next line before the one it started at, nor past
/// the end of the lines.
pub proof fn lemma_spec_parse_next_bounds(lines: Seq<Seq<char>>, i: int, depth: nat)
    requires
        0 <= i <= lines.len(),
    ensures
        i <= spec_parse_entries(lines, i, depth).next <= lines.len(),
    decreases lines.len() - i,
{
    if i < lines.len() {
        let line = lines[i];
        if line.len() == 0 {
            lemma_spec_parse_next_bounds(lines, i + 1, depth);
        } else {
            let ind = tabs_of(line);
            if ind == depth {
                match spec_parse_line(line) {
                    None => {},
                    Some(kv) => {
                        if kv.1.len() == 0 {
                            lemma_spec_parse_next_bounds(lines, i + 1, depth + 1);
                            let child = spec_parse_entries(lines, i + 1, depth + 1);
                            if child.res is Ok {
                                let at = resume_at(child.next, i, lines.len() as int);
                                lemma_spec_parse_next_bounds(lines, at, depth);
                            }
                        } else {
                            lemma_spec_parse_next_bounds(lines, i + 1, depth);
                        }
                    },
                }
            }
        }
    }
}

/// Parsing is a pure function of the text: two successful parses of equal
/// line sequences yield equal trees, however often and wherever they are
/// run. Equality is of values — every key, value and child list agrees.
pub proof fn lemma_parse_idempotent(
    lines1: Seq<Seq<char>>,
    lines2: Seq<Seq<char>>,
    depth: nat,
    trees1: Seq<EntryView>,
    trees2: Seq<EntryView>,
)
    requires
        lines1 == lines2,
        spec_parse_entries(lines1, 0, depth).res == Ok::<Seq<EntryView>, ParseErrorView>(trees1),
        spec_parse_entries(lines2, 0, depth).res == Ok::<Seq<EntryView>, ParseErrorView>(trees2),
    ensures
        trees1 == trees2,
{
}

/// The keys of the entries of a forest, in order.
pub open spec fn keys_of(entries: Seq<EntryView>) -> Seq<Seq<char>>
    decreases entries.len(),
{
    if entries.len() == 0 {
        Seq::empty()
    } else {
        seq![entries[0].key] + keys_of(entries.subrange(1, entries.len() as int))
    }
}

/// The keys declared by the lines at indentation `depth` among lines `a`
/// (inclusive) to `b` (exclusive), in the order the lines stand.
pub open spec fn keys_at_depth(lines: Seq<Seq<char>>, a: int, b: int, depth: nat) -> Seq<Seq<char>>
    decreases b - a,
{
    if a < 0 || a >= b || b > lines.len() {
        Seq::empty()
    } else {
        let line = lines[a];
        let rest = keys_at_depth(lines, a + 1, b, depth);
        if line.len() > 0 && tabs_of(line) == depth {
            match spec_parse_line(line) {
                Some(kv) => seq![kv.0] + rest,
                None => rest,
            }
        } else {
            rest
        }
    }
}

proof fn lemma_keys_of_cons(head: EntryView, tail: Seq<EntryView>)
    ensures
        keys_of(seq![head] + tail) == seq![head.key] + keys_of(tail),
{
    let all = seq![head] + tail;
    assert(all[0] == head);
    assert(all.subrange(1, all.len() as int) =~= tail);
}

proof fn lemma_keys_at_depth_skip(lines: Seq<Seq<char>>, a: int, c: int, b: int, depth: nat)
    requires
        0 <= a <= c <= b,
        forall|k: int| a <= k < c ==> lines[k].len() == 0 || tabs_of(lines[k]) != depth,
    ensures
        keys_at_depth(lines, a, b, depth) == keys_at_depth(lines, c, b, depth),
    decreases c - a,
{
    if a < c {
        lemma_keys_at_depth_skip(lines, a + 1, c, b, depth);
    }
}

/// Every line a parse at `depth` consumes is blank or indented at least
/// `depth` tabs: a parse never reaches past the first shallower line.
proof fn lemma_parse_consumed_depth(lines: Seq<Seq<char>>, i: int, depth: nat)
    requires
        0 <= i <= lines.len(),
    ensures
        forall|k: int|
            i <= k < spec_parse_entries(lines, i, depth).next ==> lines[k].len() == 0 || tabs_of(
                lines[k],
            ) >= depth,
    decreases lines.len() - i,
{
    if i < lines.len() {
        let line = lines[i];
        if line.len() == 0 {
            lemma_parse_consumed_depth(lines, i + 1, depth);
        } else {
            let ind = tabs_of(line);
            if ind == depth {
                match spec_parse_line(line) {
                    None => {},
                    Some(kv) => {
                        if kv.1.len() == 0 {
                            lemma_spec_parse_next_bounds(lines, i + 1, depth + 1);
                            lemma_parse_consumed_depth(lines, i + 1, depth + 1);
                            let child = spec_parse_entries(lines, i + 1, depth + 1);
                            if child.res is Ok {
                                let c = resume_at(child.next, i, lines.len() as int);
                                lemma_parse_consumed_depth(lines, c, depth);
                            }
                        } else {
                            lemma_parse_consumed_depth(lines, i + 1, depth);
                        }
                    },
                }
            }
        }
    }
}

/// Order preservation: a successful parse yields entries whose keys stand
/// in exactly the order their lines stand in the text. The claim holds of
/// any starting line and depth, so it holds of the children of every node.
pub proof fn lemma_parse_preserves_order(lines: Seq<Seq<char>>, i: int, depth: nat)
    requires
        0 <= i <= lines.len(),
        spec_parse_entries(lines, i, depth).res is Ok,
    ensures
        keys_of(spec_parse_entries(lines, i, depth).res->Ok_0) == keys_at_depth(
            lines,
            i,
            spec_parse_entries(lines, i, depth).next,
            depth,
        ),
    decreases lines.len() - i,
{
    let o = spec_parse_entries(lines, i, depth);
    lemma_spec_parse_next_bounds(lines, i, depth);
    if i < lines.len() {
        let line = lines[i];
        if line.len() == 0 {
            lemma_spec_parse_next_bounds(lines, i + 1, depth);
            lemma_parse_preserves_order(lines, i + 1, depth);
        } else {
            let ind = tabs_of(line);
            if ind < depth {
            } else if ind > depth {
                assert(false);
            } else {
                match spec_parse_line(line) {
                    None => {
                        assert(false);
                    },
                    Some(kv) => {
                        if kv.1.len() == 0 {
                            let child = spec_parse_entries(lines, i + 1, depth + 1);
                            lemma_spec_parse_next_bounds(lines, i + 1, depth + 1);
                            assert(child.res is Ok);
                            let c = resume_at(child.next, i, lines.len() as int);
                            assert(c == child.next);
                            let rest = spec_parse_entries(lines, c, depth);
                            assert(rest.res is Ok);
                            lemma_spec_parse_next_bounds(lines, c, depth);
                            lemma_parse_preserves_order(lines, c, depth);
                            lemma_parse_consumed_depth(lines, i + 1, depth + 1);
                            lemma_keys_at_depth_skip(lines, i + 1, c, o.next, depth);
                            let head = EntryView {
                                key: kv.0,
                                val: EntryValView::SubEntries(child.res->Ok_0),
                            };
                            lemma_keys_of_cons(head, rest.res->Ok_0);
                        } else {
                            let rest = spec_parse_entries(lines, i + 1, depth);
                            assert(rest.res is Ok);
                            lemma_spec_parse_next_bounds(lines, i + 1, depth);
                            lemma_parse_preserves_order(lines, i + 1, depth);
                            let head = EntryView { key: kv.0, val: EntryValView::Value(kv.1) };
                            lemma_keys_of_cons(head, rest.res->Ok_0);
                        }
                    },
                }
            }
        }
    }
}

/// How the outcome at the head of a sibling stretch relates to the outcome
/// further along it: the entries already taken, then whatever remains.
spec fn sibling_accum(whole: SpecParseOutcome, done: Seq<EntryView>, rest: SpecParseOutcome) -> bool {
    match rest.res {
        Ok(tail) => whole.res is Ok && whole.res->Ok_0 == done + tail && whole.next == rest.next,
        Err(_) => whole == rest,
    }
}

/// Reads entries at indentation `indent_lvl` from line `start` on, returning
/// them together with the position of the first line it did not consume.
fn parse_entries_at(lines: &Vec<String>, start: usize, indent_lvl: usize) -> (r: (
    Result<Vec<Entry>, ParseError>,
    usize,
))
    requires
        start <= lines@.len(),
    ensures
        ({
            let o = spec_parse_entries(lines.deep_view(), start as int, indent_lvl as nat);
            match r.0 {
                Ok(entries) => o.res is Ok && views_of(entries@) == o.res->Ok_0 && r.1 == o.next,
                Err(e) => o.res is Err && e@ == o.res->Err_0,
            }
        }),
    decreases lines@.len() - start,
{
    let ghost dv = lines.deep_view();
    let ghost d = indent_lvl as nat;
    let ghost o0 = spec_parse_entries(dv, start as int, d);
    let mut entries: Vec<Entry> = Vec::new();
    let mut cur: usize = start;
    proof {
        if o0.res is Ok {
            assert(Seq::<EntryView>::empty() + o0.res->Ok_0 =~= o0.res->Ok_0);
        }
    }
    while cur < lines.len()
        invariant_except_break
            start <= cur <= lines@.len(),
            dv == lines.deep_view(),
            d == indent_lvl as nat,
            o0 == spec_parse_entries(dv, start as int, d),
            sibling_accum(o0, views_of(entries@), spec_parse_entries(dv, cur as int, d)),
        ensures
            start <= cur <= lines@.len(),
            o0 == spec_parse_entries(dv, start as int, d),
            spec_parse_entries(dv, cur as int, d) == (SpecParseOutcome {
                res: Ok(Seq::<EntryView>::empty()),
                next: cur as int,
            }),
            sibling_accum(o0, views_of(entries@), spec_parse_entries(dv, cur as int, d)),
        decreases lines@.len() - cur,
    {
        proof {
            assert(dv[cur as int] == lines@[cur as int]@);
        }
        let line = &lines[cur];
        if line.as_str().is_empty() {
            cur = cur + 1;
            continue;
        }
        let ind = count_tabs(line.as_str());
        if ind < indent_lvl {
            proof {
                assert(spec_parse_entries(dv, cur as int, d) == (SpecParseOutcome {
                    res: Ok(Seq::<EntryView>::empty()),
                    next: cur as int,
                }));
            }
            break;
        }
        if ind > indent_lvl {
            return (Err(ParseError::InvalidIndentation(line.clone())), cur);
        }
        let ghost before = views_of(entries@);
        let ghost o_cur = spec_parse_entries(dv, cur as int, d);
        match parse_entry(line.as_str()) {
            None => {
                return (Err(ParseError::MalformedLine(line.clone())), cur);
            },
            Some(pe) => {
                let key = pe.key;
                match pe.val {
                    Some(v) => {
                        // A leaf: its value stood on the line itself.
                        cur = cur + 1;
                        let entry = Entry { key, val: v };
                        proof {
                            lemma_views_of_push(entries@, entry);
                            let o_next = spec_parse_entries(dv, cur as int, d);
                            if o_next.res is Ok {
                                assert(before.push(entry@) + o_next.res->Ok_0 =~= before + (seq![
                                    entry@,
                                ] + o_next.res->Ok_0));
                            }
                        }
                        entries.push(entry);
                    },
                    None => {
                        // An internal node: its children follow, one level deeper.
                        // Its line holds a colon past the tabs, so the next
                        // indentation level still fits in a usize.
                        let n_chars = line.as_str().unicode_len();
                        proof {
                            crate::text::lemma_first_colon_props(dv[cur as int]);
                            crate::text::lemma_tabs_of_props(dv[cur as int]);
                        }
                        let (children_res, child_next) = parse_entries_at(
                            lines,
                            cur + 1,
                            indent_lvl + 1,
                        );
                        proof {
                            lemma_spec_parse_next_bounds(dv, cur + 1, d + 1);
                        }
                        match children_res {
                            Err(e) => {
                                return (Err(e), cur);
                            },
                            Ok(children) => {
                                let entry = Entry { key, val: EntryVal::SubEntries(children) };
                                cur = child_next;
                                proof {
                                    lemma_views_of_push(entries@, entry);
                                    let o_next = spec_parse_entries(dv, cur as int, d);
                                    if o_next.res is Ok {
                                        assert(before.push(entry@) + o_next.res->Ok_0 =~= before
                                            + (seq![entry@] + o_next.res->Ok_0));
                                    }
                                }
                                entries.push(entry);
                            },
                        }
                    },
                }
            },
        }
    }
    (Ok(entries), cur)
}

/// Parses the given lines into the entries at indentation `indent_lvl`,
/// starting from the first line. This is the whole parse: it succeeds with
/// the ordered entry trees exactly when the spec-level parser does, and
/// fails with exactly the error the spec-level parser names.
pub fn parse_entries(lines: &Vec<String>, indent_lvl: usize) -> (r: Result<Vec<Entry>, ParseError>)
    ensures
        ({
            let o = spec_parse_entries(lines.deep_view(), 0, indent_lvl as nat);
            match r {
                Ok(entries) => o.res is Ok && views_of(entries@) == o.res->Ok_0,
                Err(e) => o.res is Err && e@ == o.res->Err_0,
            }
        }),
{
    let (res, _next) = parse_entries_at(lines, 0, indent_lvl);
    res
}

/// Clones a list of entries element by element.
fn clone_entries(entries: &Vec<Entry>) -> (res: Vec<Entry>)
    ensures
        views_of(res@) == views_of(entries@),
    decreases entries@,
{
    let mut res: Vec<Entry> = Vec::new();
    let mut i: usize = 0;
    while i < entries.len()
        invariant
            0 <= i <= entries@.len(),
            views_of(res@) == views_of(entries@.subrange(0, i as int)),
        decreases entries@.len() - i,
    {
        let ghost prefix = entries@.subrange(0, i as int);
        let cloned = entries[i].clone();
        proof {
            lemma_views_of_push(res@, cloned);
            lemma_views_of_push(prefix, entries@[i as int]);
            assert(entries@.subrange(0, i + 1) =~= prefix.push(entries@[i as int]));
        }
        res.push(cloned);
        i = i + 1;
    }
    proof {
        assert(entries@.subrange(0, entries@.len() as int) =~= entries@);
    }
    res
}

} // verus!
