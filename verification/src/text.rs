//! Character-level helpers: conversion between strings and character vectors,
//! line splitting, prefix tests and simple scans.

use vstd::prelude::*;

verus! {

/// `String::push` appends one character at the end of the string and leaves the
/// rest of it untouched.
pub assume_specification[ String::push ](s: &mut String, c: char)
    ensures
        final(s)@ == old(s)@.push(c),
;

/// The characters of `s`, in order.
pub fn chars_of(s: &str) -> (v: Vec<char>)
    ensures
        v@ == s@,
{
    let mut v: Vec<char> = Vec::new();
    for c in it: s.chars()
        invariant
            v@ == it.seq().take(it.index() as int),
            it.seq() == s@,
    {
        v.push(c);
        proof {
            assert(v@ =~= it.seq().take(it.index() + 1));
        }
    }
    proof {
        assert(v@ =~= s@);
    }
    v
}

/// A string made of the characters of `v`, in order.
pub fn string_of(v: &Vec<char>) -> (s: String)
    ensures
        s@ == v@,
{
    let mut s = String::new();
    let mut i: usize = 0;
    while i < v.len()
        invariant
            i <= v.len(),
            s@ == v@.take(i as int),
        decreases v.len() - i,
    {
        s.push(v[i]);
        proof {
            assert(s@ =~= v@.take(i + 1));
        }
        i += 1;
    }
    proof {
        assert(s@ =~= v@);
    }
    s
}

/// Whether two character vectors hold the same text.
pub fn same_text(a: &Vec<char>, b: &Vec<char>) -> (r: bool)
    ensures
        r == (a@ == b@),
{
    if a.len() != b.len() {
        return false;
    }
    let mut i: usize = 0;
    while i < a.len()
        invariant
            i <= a.len(),
            a.len() == b.len(),
            a@.take(i as int) == b@.take(i as int),
        decreases a.len() - i,
    {
        if a[i] != b[i] {
            return false;
        }
        proof {
            assert(a@.take(i + 1) =~= a@.take(i as int).push(a@[i as int]));
            assert(b@.take(i + 1) =~= b@.take(i as int).push(b@[i as int]));
        }
        i += 1;
    }
    proof {
        assert(a@ =~= a@.take(a.len() as int));
        assert(b@ =~= b@.take(b.len() as int));
    }
    true
}

/// The characters of `v` from position `from` up to, not including, `to`.
pub fn piece(v: &Vec<char>, from: usize, to: usize) -> (r: Vec<char>)
    requires
        from <= to <= v.len(),
    ensures
        r@ == v@.subrange(from as int, to as int),
{
    let mut r: Vec<char> = Vec::new();
    let mut i: usize = from;
    while i < to
        invariant
            from <= i <= to <= v.len(),
            r@ == v@.subrange(from as int, i as int),
        decreases to - i,
    {
        r.push(v[i]);
        proof {
            assert(r@ =~= v@.subrange(from as int, i + 1));
        }
        i += 1;
    }
    r
}

/// Whether `pat` stands in `v` at position `at`.
pub fn has_prefix_at(v: &Vec<char>, at: usize, pat: &Vec<char>) -> (r: bool)
    requires
        at <= v.len(),
    ensures
        r == pat@.is_prefix_of(v@.skip(at as int)),
{
    if pat.len() > v.len() - at {
        return false;
    }
    let ghost rest = v@.skip(at as int);
    let mut i: usize = 0;
    while i < pat.len()
        invariant
            i <= pat.len(),
            at + pat.len() <= v.len(),
            rest == v@.skip(at as int),
            rest.subrange(0, i as int) == pat@.take(i as int),
        decreases pat.len() - i,
    {
        if v[at + i] != pat[i] {
            proof {
                assert(rest.subrange(0, pat.len() as int)[i as int] != pat@[i as int]);
            }
            return false;
        }
        proof {
            assert(rest.subrange(0, i + 1) =~= rest.subrange(0, i as int).push(rest[i as int]));
            assert(pat@.take(i + 1) =~= pat@.take(i as int).push(pat@[i as int]));
        }
        i += 1;
    }
    proof {
        assert(pat@ =~= pat@.take(pat.len() as int));
    }
    true
}

/// The classes of characters that a scan runs over.
#[derive(Clone, Copy)]
pub enum CharClass {
    /// The space character.
    Space,
    /// An ASCII decimal digit.
    Digit,
    /// Any character but the colon.
    NotColon,
}

impl CharClass {
    /// Whether `c` belongs to the class.
    pub open spec fn holds(self, c: char) -> bool {
        match self {
            CharClass::Space => c == ' ',
            CharClass::Digit => '0' <= c && c <= '9',
            CharClass::NotColon => c != ':',
        }
    }

    /// Whether `c` belongs to the class.
    pub fn test(self, c: char) -> (r: bool)
        ensures
            r == self.holds(c),
    {
        match self {
            CharClass::Space => c == ' ',
            CharClass::Digit => '0' <= c && c <= '9',
            CharClass::NotColon => c != ':',
        }
    }
}

/// The first position at or after `from` whose character is not of class `k`,
/// or the length of `s` when the run reaches the end.
pub open spec fn run_end(s: Seq<char>, from: int, k: CharClass) -> int
    decreases s.len() - from,
{
    if 0 <= from < s.len() && k.holds(s[from]) {
        run_end(s, from + 1, k)
    } else {
        from
    }
}

/// A run that starts inside the text ends inside it, at or after its start.
pub proof fn lemma_run_end_bounds(s: Seq<char>, from: int, k: CharClass)
    requires
        0 <= from <= s.len(),
    ensures
        from <= run_end(s, from, k) <= s.len(),
        run_end(s, from, k) < s.len() ==> !k.holds(s[run_end(s, from, k)]),
        forall|j: int| from <= j < run_end(s, from, k) ==> k.holds(#[trigger] s[j]),
    decreases s.len() - from,
{
    if from < s.len() && k.holds(s[from]) {
        lemma_run_end_bounds(s, from + 1, k);
    }
}

/// Runs over the characters of class `k` that start at `from`.
pub fn scan_run(v: &Vec<char>, from: usize, k: CharClass) -> (r: usize)
    requires
        from <= v.len(),
    ensures
        r == run_end(v@, from as int, k),
        from <= r <= v.len(),
{
    let mut i: usize = from;
    while i < v.len() && k.test(v[i])
        invariant
            from <= i <= v.len(),
            run_end(v@, from as int, k) == run_end(v@, i as int, k),
        decreases v.len() - i,
    {
        i += 1;
    }
    i
}

/// The first position at or after `from` where `pat` stands in `s`, or the
/// length of `s` when it stands nowhere from there on.
pub open spec fn find_from(s: Seq<char>, pat: Seq<char>, from: int) -> int
    decreases s.len() - from,
{
    if from < 0 || from >= s.len() {
        s.len() as int
    } else if pat.is_prefix_of(s.skip(from)) {
        from
    } else {
        find_from(s, pat, from + 1)
    }
}

/// A search that starts inside the text ends inside it, at or after its start.
pub proof fn lemma_find_from_bounds(s: Seq<char>, pat: Seq<char>, from: int)
    requires
        0 <= from <= s.len(),
    ensures
        from <= find_from(s, pat, from) <= s.len(),
        find_from(s, pat, from) < s.len() ==> pat.is_prefix_of(s.skip(find_from(s, pat, from))),
    decreases s.len() - from,
{
    if from < s.len() && !pat.is_prefix_of(s.skip(from)) {
        lemma_find_from_bounds(s, pat, from + 1);
    }
}

/// Searches `v` for `pat`, starting at `from`.
pub fn find_text(v: &Vec<char>, pat: &Vec<char>, from: usize) -> (r: usize)
    requires
        from <= v.len(),
    ensures
        r == find_from(v@, pat@, from as int),
        from <= r <= v.len(),
{
    let mut i: usize = from;
    while i < v.len()
        invariant
            from <= i <= v.len(),
            find_from(v@, pat@, from as int) == find_from(v@, pat@, i as int),
        decreases v.len() - i,
    {
        if has_prefix_at(v, i, pat) {
            return i;
        }
        i += 1;
    }
    i
}

/// `line` without the carriage return at its end, if it has one.
pub open spec fn strip_cr(line: Seq<char>) -> Seq<char> {
    if line.len() > 0 && line.last() == '\r' {
        line.drop_last()
    } else {
        line
    }
}

/// The characters of `s` that follow its last line feed.
pub open spec fn open_line(s: Seq<char>) -> Seq<char>
    decreases s.len(),
{
    if s.len() == 0 || s.last() == '\n' {
        Seq::empty()
    } else {
        open_line(s.drop_last()).push(s.last())
    }
}

/// The lines of `s` that a line feed ends, each without its line ending
/// (a line feed, or a carriage return and a line feed).
pub open spec fn closed_lines(s: Seq<char>) -> Seq<Seq<char>>
    decreases s.len(),
{
    if s.len() == 0 {
        Seq::empty()
    } else if s.last() == '\n' {
        closed_lines(s.drop_last()).push(strip_cr(open_line(s.drop_last())))
    } else {
        closed_lines(s.drop_last())
    }
}

/// The lines of `s`: those that a line feed ends, then what follows the last
/// line feed, unless nothing does.
pub open spec fn lines_of(s: Seq<char>) -> Seq<Seq<char>> {
    if open_line(s).len() == 0 {
        closed_lines(s)
    } else {
        closed_lines(s).push(open_line(s))
    }
}

/// Whether `s` holds no line feed.
pub open spec fn is_one_line(s: Seq<char>) -> bool {
    forall|j: int| 0 <= j < s.len() ==> s[j] != '\n'
}

/// A text without a line feed closes no line, and is its own open line.
pub proof fn lemma_one_line(s: Seq<char>)
    requires
        is_one_line(s),
    ensures
        open_line(s) == s,
        closed_lines(s).len() == 0,
        s.len() > 0 ==> lines_of(s) == seq![s],
        s.len() == 0 ==> lines_of(s).len() == 0,
    decreases s.len(),
{
    if s.len() > 0 {
        lemma_one_line(s.drop_last());
        assert(s.drop_last().push(s.last()) =~= s);
        assert(closed_lines(s).push(s) =~= seq![s]);
    } else {
        assert(open_line(s) =~= s);
    }
}

/// The first line of a text is what stands before its first line feed, less a
/// carriage return at its end; what follows the line feed does not change it.
pub proof fn lemma_first_line(first: Seq<char>, rest: Seq<char>)
    requires
        is_one_line(first),
    ensures
        closed_lines(first.push('\n') + rest).len() >= 1,
        closed_lines(first.push('\n') + rest)[0] == strip_cr(first),
        lines_of(first.push('\n') + rest).len() >= 1,
        lines_of(first.push('\n') + rest)[0] == strip_cr(first),
    decreases rest.len(),
{
    let s = first.push('\n') + rest;
    if rest.len() == 0 {
        assert(s.drop_last() =~= first);
        lemma_one_line(first);
    } else {
        assert(s.drop_last() =~= first.push('\n') + rest.drop_last());
        lemma_first_line(first, rest.drop_last());
    }
}

/// The texts of a vector of lines.
pub open spec fn line_views(lines: Seq<Vec<char>>) -> Seq<Seq<char>> {
    Seq::new(lines.len(), |i: int| lines[i]@)
}

/// Splits `s` into its lines.
pub fn split_lines(s: &Vec<char>) -> (lines: Vec<Vec<char>>)
    ensures
        line_views(lines@) == lines_of(s@),
{
    let mut lines: Vec<Vec<char>> = Vec::new();
    let mut cur: Vec<char> = Vec::new();
    let mut i: usize = 0;
    while i < s.len()
        invariant
            i <= s.len(),
            line_views(lines@) == closed_lines(s@.take(i as int)),
            cur@ == open_line(s@.take(i as int)),
        decreases s.len() - i,
    {
        let c = s[i];
        proof {
            assert(s@.take(i + 1).drop_last() =~= s@.take(i as int));
        }
        if c == '\n' {
            let n = cur.len();
            if n > 0 && cur[n - 1] == '\r' {
                cur.pop();
                proof {
                    assert(cur@ =~= strip_cr(open_line(s@.take(i as int))));
                }
            }
            let ghost before = line_views(lines@);
            lines.push(cur);
            proof {
                assert(line_views(lines@) =~= before.push(cur@));
            }
            cur = Vec::new();
        } else {
            cur.push(c);
        }
        i += 1;
    }
    proof {
        assert(s@.take(s.len() as int) =~= s@);
    }
    if cur.len() > 0 {
        let ghost before = line_views(lines@);
        lines.push(cur);
        proof {
            assert(line_views(lines@) =~= before.push(cur@));
        }
    }
    lines
}

} // verus!
