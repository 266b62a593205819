//! Character-level helpers shared by the parser: leading tabs, whitespace
//! trimming and locating the key/value separator.

use vstd::prelude::*;

verus! {

/// Whether a character has the Unicode white-space property, the set that
/// surrounding whitespace is trimmed by.
pub open spec fn is_wspace(c: char) -> bool {
    ||| c == ' '
    ||| c == '\t'
    ||| c == '\n'
    ||| c == '\r'
    ||| c == '\u{0b}'
    ||| c == '\u{0c}'
    ||| c == '\u{85}'
    ||| c == '\u{a0}'
    ||| c == '\u{1680}'
    ||| c == '\u{2000}'
    ||| c == '\u{2001}'
    ||| c == '\u{2002}'
    ||| c == '\u{2003}'
    ||| c == '\u{2004}'
    ||| c == '\u{2005}'
    ||| c == '\u{2006}'
    ||| c == '\u{2007}'
    ||| c == '\u{2008}'
    ||| c == '\u{2009}'
    ||| c == '\u{200a}'
    ||| c == '\u{2028}'
    ||| c == '\u{2029}'
    ||| c == '\u{202f}'
    ||| c == '\u{205f}'
    ||| c == '\u{3000}'
}

/// Runtime test for [`is_wspace`].
pub fn is_wspace_char(c: char) -> (b: bool)
    ensures
        b == is_wspace(c),
{
    c == ' ' || c == '\t' || c == '\n' || c == '\r' || c == '\u{0b}' || c == '\u{0c}'
        || c == '\u{85}' || c == '\u{a0}' || c == '\u{1680}' || c == '\u{2000}' || c == '\u{2001}'
        || c == '\u{2002}' || c == '\u{2003}' || c == '\u{2004}' || c == '\u{2005}'
        || c == '\u{2006}' || c == '\u{2007}' || c == '\u{2008}' || c == '\u{2009}'
        || c == '\u{200a}' || c == '\u{2028}' || c == '\u{2029}' || c == '\u{202f}'
        || c == '\u{205f}' || c == '\u{3000}'
}

/// How many tab characters the line starts with; its indentation depth.
pub open spec fn tabs_of(line: Seq<char>) -> nat
    decreases line.len(),
{
    if line.len() > 0 && line[0] == '\t' {
        (1 + tabs_of(line.subrange(1, line.len() as int))) as nat
    } else {
        0
    }
}

proof fn lemma_tabs_of_scan(line: Seq<char>, t: int)
    requires
        0 <= t <= line.len(),
        forall|k: int| 0 <= k < t ==> line[k] == '\t',
        t < line.len() ==> line[t] != '\t',
    ensures
        tabs_of(line) == t,
    decreases t,
{
    if t == 0 {
    } else {
        let rest = line.subrange(1, line.len() as int);
        assert(forall|k: int| 0 <= k < t - 1 ==> rest[k] == '\t');
        lemma_tabs_of_scan(rest, t - 1);
    }
}

/// Counts the leading tabs of `line`.
pub fn count_tabs(line: &str) -> (t: usize)
    ensures
        t == tabs_of(line@),
{
    let n = line.unicode_len();
    let mut t: usize = 0;
    while t < n && line.get_char(t) == '\t'
        invariant
            0 <= t <= n,
            n == line@.len(),
            forall|k: int| 0 <= k < t ==> line@[k] == '\t',
        decreases n - t,
    {
        t = t + 1;
    }
    proof {
        lemma_tabs_of_scan(line@, t as int);
    }
    t
}

pub proof fn lemma_tabs_of_props(s: Seq<char>)
    ensures
        tabs_of(s) <= s.len(),
        forall|k: int| 0 <= k < tabs_of(s) ==> s[k] == '\t',
    decreases s.len(),
{
    if s.len() > 0 && s[0] == '\t' {
        let rest = s.subrange(1, s.len() as int);
        lemma_tabs_of_props(rest);
        assert forall|k: int| 0 <= k < tabs_of(s) implies s[k] == '\t' by {
            if k > 0 {
                assert(rest[k - 1] == s[k]);
            }
        }
    }
}

/// `s` with its leading white space removed.
pub open spec fn trim_start_spec(s: Seq<char>) -> Seq<char>
    decreases s.len(),
{
    if s.len() > 0 && is_wspace(s[0]) {
        trim_start_spec(s.subrange(1, s.len() as int))
    } else {
        s
    }
}

/// `s` with its trailing white space removed.
pub open spec fn trim_end_spec(s: Seq<char>) -> Seq<char>
    decreases s.len(),
{
    if s.len() > 0 && is_wspace(s[s.len() - 1]) {
        trim_end_spec(s.subrange(0, s.len() - 1))
    } else {
        s
    }
}

/// `s` with surrounding white space removed, as `str::trim` leaves it.
pub open spec fn trim_spec(s: Seq<char>) -> Seq<char> {
    trim_end_spec(trim_start_spec(s))
}

proof fn lemma_trim_start_scan(s: Seq<char>, a: int)
    requires
        0 <= a <= s.len(),
        forall|k: int| 0 <= k < a ==> is_wspace(s[k]),
        a < s.len() ==> !is_wspace(s[a]),
    ensures
        trim_start_spec(s) == s.subrange(a, s.len() as int),
    decreases a,
{
    if a == 0 {
        assert(s.subrange(0, s.len() as int) =~= s);
    } else {
        let rest = s.subrange(1, s.len() as int);
        lemma_trim_start_scan(rest, a - 1);
        assert(rest.subrange(a - 1, rest.len() as int) =~= s.subrange(a, s.len() as int));
    }
}

proof fn lemma_trim_end_scan(s: Seq<char>, b: int)
    requires
        0 <= b <= s.len(),
        forall|k: int| b <= k < s.len() ==> is_wspace(s[k]),
        b > 0 ==> !is_wspace(s[b - 1]),
    ensures
        trim_end_spec(s) == s.subrange(0, b),
    decreases s.len() - b,
{
    if b == s.len() {
        assert(s.subrange(0, b) =~= s);
    } else {
        let shorter = s.subrange(0, s.len() - 1);
        lemma_trim_end_scan(shorter, b);
        assert(shorter.subrange(0, b) =~= s.subrange(0, b));
    }
}

/// The characters of `line` between `from` and `to`, trimmed of surrounding
/// white space, as a fresh string.
pub fn trimmed_substring(line: &str, from: usize, to: usize) -> (r: String)
    requires
        from <= to,
        to <= line@.len(),
    ensures
        r@ == trim_spec(line@.subrange(from as int, to as int)),
{
    let mut a = from;
    while a < to && is_wspace_char(line.get_char(a))
        invariant
            from <= a <= to,
            to <= line@.len(),
            forall|k: int| from <= k < a ==> is_wspace(line@[k]),
        decreases to - a,
    {
        a = a + 1;
    }
    let mut b = to;
    while b > a && is_wspace_char(line.get_char(b - 1))
        invariant
            a <= b <= to,
            to <= line@.len(),
            forall|k: int| b <= k < to ==> is_wspace(line@[k]),
        decreases b,
    {
        b = b - 1;
    }
    proof {
        let s = line@.subrange(from as int, to as int);
        lemma_trim_start_scan(s, a - from);
        let started = s.subrange(a - from, s.len() as int);
        lemma_trim_end_scan(started, b - a);
        assert(started.subrange(0, b - a) =~= line@.subrange(a as int, b as int));
    }
    let sub = line.substring_char(a, b);
    sub.to_owned()
}

/// The position of the first colon in `s`, or `-1` if there is none. The
/// parser splits a line into key and value at this character.
pub open spec fn first_colon(s: Seq<char>) -> int
    decreases s.len(),
{
    if s.len() == 0 {
        -1
    } else if s[0] == ':' {
        0
    } else if first_colon(s.subrange(1, s.len() as int)) < 0 {
        -1
    } else {
        1 + first_colon(s.subrange(1, s.len() as int))
    }
}

pub proof fn lemma_first_colon_props(s: Seq<char>)
    ensures
        -1 <= first_colon(s) < s.len(),
        first_colon(s) >= 0 ==> s[first_colon(s)] == ':',
    decreases s.len(),
{
    if s.len() > 0 && s[0] != ':' {
        lemma_first_colon_props(s.subrange(1, s.len() as int));
    }
}

proof fn lemma_first_colon_scan(s: Seq<char>, j: int)
    requires
        0 <= j <= s.len(),
        forall|k: int| 0 <= k < j ==> s[k] != ':',
        j < s.len() ==> s[j] == ':',
    ensures
        j < s.len() ==> first_colon(s) == j,
        j == s.len() ==> first_colon(s) == -1,
    decreases j,
{
    if j > 0 {
        let rest = s.subrange(1, s.len() as int);
        assert(forall|k: int| 0 <= k < j - 1 ==> rest[k] != ':');
        lemma_first_colon_scan(rest, j - 1);
    }
}

/// Finds the first colon of `line`, if any.
pub fn find_colon(line: &str) -> (r: Option<usize>)
    ensures
        match r {
            Some(j) => first_colon(line@) == j && j < line@.len() && line@[j as int] == ':',
            None => first_colon(line@) == -1,
        },
{
    let n = line.unicode_len();
    let mut j: usize = 0;
    while j < n && line.get_char(j) != ':'
        invariant
            0 <= j <= n,
            n == line@.len(),
            forall|k: int| 0 <= k < j ==> line@[k] != ':',
        decreases n - j,
    {
        j = j + 1;
    }
    proof {
        lemma_first_colon_scan(line@, j as int);
    }
    if j < n {
        Some(j)
    } else {
        None
    }
}

} // verus!
