//! Text as sequences of characters: conversion between strings and
//! character vectors, whitespace, trimming, lines and searching.

use vstd::prelude::*;

verus! {

/// `String::push` appends one character to the end of the string.
pub assume_specification[ String::push ](s: &mut String, c: char)
    ensures
        final(s)@ == old(s)@.push(c),
;

/// The characters of a string.
pub fn chars_of(s: &str) -> (out: Vec<char>)
    ensures
        out@ == s@,
{
    let mut out: Vec<char> = Vec::new();
    for c in it: s.chars()
        invariant
            it.seq() == s@,
            out@ == s@.take(it.index() as int),
    {
        out.push(c);
    }
    assert(s@.take(s@.len() as int) == s@);
    out
}

/// The string made of the given characters.
pub fn string_of(chars: &[char]) -> (out: String)
    ensures
        out@ == chars@,
{
    let mut out = String::new();
    let mut i: usize = 0;
    while i < chars.len()
        invariant
            i <= chars@.len(),
            out@ == chars@.take(i as int),
        decreases chars@.len() - i,
    {
        out.push(chars[i]);
        i += 1;
    }
    assert(chars@.take(chars@.len() as int) == chars@);
    out
}

/// An owned copy of a run of characters.
pub fn owned(chars: &[char]) -> (out: Vec<char>)
    ensures
        out@ == chars@,
{
    vstd::slice::slice_to_vec(chars)
}

/// The views of a sequence of character vectors.
pub open spec fn rows(v: Seq<Vec<char>>) -> Seq<Seq<char>> {
    v.map_values(|r: Vec<char>| r@)
}

/// The views of a sequence of strings.
pub open spec fn texts(v: Seq<String>) -> Seq<Seq<char>> {
    v.map_values(|s: String| s@)
}

/// The view of an optional string.
pub open spec fn text_opt(s: Option<String>) -> Option<Seq<char>> {
    match s {
        Some(s) => Some(s@),
        None => None,
    }
}

/// The Unicode `White_Space` property.
pub open spec fn is_space(c: char) -> bool {
    ||| '\u{9}' <= c <= '\u{d}'
    ||| c == ' '
    ||| c == '\u{85}'
    ||| c == '\u{a0}'
    ||| c == '\u{1680}'
    ||| '\u{2000}' <= c <= '\u{200a}'
    ||| c == '\u{2028}'
    ||| c == '\u{2029}'
    ||| c == '\u{202f}'
    ||| c == '\u{205f}'
    ||| c == '\u{3000}'
}

pub fn space(c: char) -> (r: bool)
    ensures
        r == is_space(c),
{
    ('\u{9}' <= c && c <= '\u{d}') || c == ' ' || c == '\u{85}' || c == '\u{a0}' || c == '\u{1680}'
        || ('\u{2000}' <= c && c <= '\u{200a}') || c == '\u{2028}' || c == '\u{2029}'
        || c == '\u{202f}' || c == '\u{205f}' || c == '\u{3000}'
}

/// `s` without its leading whitespace.
pub open spec fn without_leading_space(s: Seq<char>) -> Seq<char>
    decreases s.len(),
{
    if s.len() > 0 && is_space(s[0]) {
        without_leading_space(s.skip(1))
    } else {
        s
    }
}

/// `s` without its trailing whitespace.
pub open spec fn without_trailing_space(s: Seq<char>) -> Seq<char>
    decreases s.len(),
{
    if s.len() > 0 && is_space(s.last()) {
        without_trailing_space(s.drop_last())
    } else {
        s
    }
}

/// `s` without the whitespace at its ends.
pub open spec fn trimmed(s: Seq<char>) -> Seq<char> {
    without_trailing_space(without_leading_space(s))
}

pub fn trim_start(chars: &[char]) -> (out: &[char])
    ensures
        out@ == without_leading_space(chars@),
{
    let mut i: usize = 0;
    assert(chars@.skip(0) == chars@);
    while i < chars.len() && space(chars[i])
        invariant
            i <= chars@.len(),
            without_leading_space(chars@.skip(i as int)) == without_leading_space(chars@),
        decreases chars@.len() - i,
    {
        assert(chars@.skip(i as int).skip(1) == chars@.skip(i + 1));
        i += 1;
    }
    assert(chars@.subrange(i as int, chars@.len() as int) == chars@.skip(i as int));
    vstd::slice::slice_subrange(chars, i, chars.len())
}

pub fn trim_end(chars: &[char]) -> (out: &[char])
    ensures
        out@ == without_trailing_space(chars@),
{
    let mut n: usize = chars.len();
    assert(chars@.take(n as int) == chars@);
    while n > 0 && space(chars[n - 1])
        invariant
            n <= chars@.len(),
            without_trailing_space(chars@.take(n as int)) == without_trailing_space(chars@),
        decreases n,
    {
        assert(chars@.take(n as int).drop_last() == chars@.take(n - 1));
        n -= 1;
    }
    assert(chars@.subrange(0, n as int) == chars@.take(n as int));
    vstd::slice::slice_subrange(chars, 0, n)
}

pub fn trim(chars: &[char]) -> (out: &[char])
    ensures
        out@ == trimmed(chars@),
{
    trim_end(trim_start(chars))
}

pub fn same(a: &[char], b: &[char]) -> (r: bool)
    ensures
        r == (a@ == b@),
{
    if a.len() != b.len() {
        return false;
    }
    let mut i: usize = 0;
    while i < a.len()
        invariant
            i <= a@.len(),
            a@.len() == b@.len(),
            forall|k: int| 0 <= k < i ==> a@[k] == b@[k],
        decreases a@.len() - i,
    {
        if a[i] != b[i] {
            return false;
        }
        i += 1;
    }
    assert(a@ =~= b@);
    true
}

/// Whether two strings hold the same characters.
pub fn same_text(a: &str, b: &str) -> (r: bool)
    ensures
        r == (a@ == b@),
{
    let a = chars_of(a);
    let b = chars_of(b);
    same(a.as_slice(), b.as_slice())
}

pub fn starts_with(chars: &[char], prefix: &str) -> (r: bool)
    ensures
        r == prefix@.is_prefix_of(chars@),
{
    let prefix = chars_of(prefix);
    if chars.len() < prefix.len() {
        return false;
    }
    let head = vstd::slice::slice_subrange(chars, 0, prefix.len());
    same(prefix.as_slice(), head)
}

/// `chars` from position `from` on.
pub fn rest(chars: &[char], from: usize) -> (out: &[char])
    requires
        from <= chars@.len(),
    ensures
        out@ == chars@.skip(from as int),
{
    assert(chars@.subrange(from as int, chars@.len() as int) == chars@.skip(from as int));
    vstd::slice::slice_subrange(chars, from, chars.len())
}

/// The first `to` of `chars`.
pub fn head(chars: &[char], to: usize) -> (out: &[char])
    requires
        to <= chars@.len(),
    ensures
        out@ == chars@.take(to as int),
{
    assert(chars@.subrange(0, to as int) == chars@.take(to as int));
    vstd::slice::slice_subrange(chars, 0, to)
}

/// `chars` without `prefix`, when they start with it.
pub fn strip<'a>(chars: &'a [char], prefix: &str) -> (out: Option<&'a [char]>)
    ensures
        out is Some == prefix@.is_prefix_of(chars@),
        out is Some ==> out->0@ == chars@.skip(prefix@.len() as int),
{
    if starts_with(chars, prefix) {
        let n = chars_of(prefix).len();
        Some(rest(chars, n))
    } else {
        None
    }
}

/// Position of the first `c` in `s`; the length of `s` when there is none.
pub open spec fn first_of(s: Seq<char>, c: char) -> nat
    decreases s.len(),
{
    if s.len() == 0 || s[0] == c {
        0
    } else {
        1 + first_of(s.skip(1), c)
    }
}

pub(crate) proof fn lemma_first_of(s: Seq<char>, c: char)
    ensures
        first_of(s, c) <= s.len(),
        first_of(s, c) < s.len() ==> s[first_of(s, c) as int] == c,
        forall|i: int| 0 <= i < first_of(s, c) ==> #[trigger] s[i] != c,
    decreases s.len(),
{
    if s.len() > 0 && s[0] != c {
        let tail = s.skip(1);
        lemma_first_of(tail, c);
        assert forall|i: int| 0 <= i < first_of(s, c) implies #[trigger] s[i] != c by {
            if i > 0 {
                assert(s[i] == tail[i - 1]);
            }
        }
    }
}

pub(crate) proof fn lemma_first_is(s: Seq<char>, c: char, n: int)
    requires
        0 <= n < s.len(),
        s[n] == c,
        forall|i: int| 0 <= i < n ==> #[trigger] s[i] != c,
    ensures
        first_of(s, c) == n,
    decreases s.len(),
{
    if n > 0 {
        let tail = s.skip(1);
        assert forall|i: int| 0 <= i < n - 1 implies #[trigger] tail[i] != c by {
            assert(tail[i] == s[i + 1]);
        }
        lemma_first_is(tail, c, n - 1);
    }
}

/// Position of the first `c` at or after `from`.
pub fn find_from(chars: &[char], c: char, from: usize) -> (r: usize)
    requires
        from <= chars@.len(),
    ensures
        from <= r <= chars@.len(),
        r == from + first_of(chars@.skip(from as int), c),
        r < chars@.len() ==> chars@[r as int] == c,
{
    let mut i: usize = from;
    while i < chars.len() && chars[i] != c
        invariant
            from <= i <= chars@.len(),
            from + first_of(chars@.skip(from as int), c) == i + first_of(chars@.skip(i as int), c),
        decreases chars@.len() - i,
    {
        assert(chars@.skip(i as int).skip(1) == chars@.skip(i + 1));
        i += 1;
    }
    i
}

/// A line without the carriage return that may precede its line feed.
pub open spec fn without_return(line: Seq<char>) -> Seq<char> {
    if line.len() > 0 && line.last() == '\r' {
        line.drop_last()
    } else {
        line
    }
}

/// The lines of `s`: each ends at a line feed, alone or after a carriage
/// return, or at the end of the text.
pub open spec fn lines_of(s: Seq<char>) -> Seq<Seq<char>>
    decreases s.len(),
{
    let n = first_of(s, '\n') as int;
    if s.len() == 0 {
        Seq::empty()
    } else if n >= s.len() {
        seq![s]
    } else {
        seq![without_return(s.take(n))] + lines_of(s.skip(n + 1))
    }
}

/// The lines of a text.
pub fn lines(chars: &[char]) -> (out: Vec<Vec<char>>)
    ensures
        rows(out@) == lines_of(chars@),
{
    let mut out: Vec<Vec<char>> = Vec::new();
    let mut start: usize = 0;
    assert(chars@.skip(0) == chars@);
    assert(rows(out@) + lines_of(chars@) == lines_of(chars@));
    while start < chars.len()
        invariant
            start <= chars@.len(),
            rows(out@) + lines_of(chars@.skip(start as int)) == lines_of(chars@),
        decreases chars@.len() - start,
    {
        let end = find_from(chars, '\n', start);
        let ghost tail = chars@.skip(start as int);
        let ghost before = rows(out@);
        let mut stop = end;
        if end < chars.len() && start < end && chars[end - 1] == '\r' {
            stop = end - 1;
        }
        let line = owned(vstd::slice::slice_subrange(chars, start, stop));
        out.push(line);
        proof {
            assert(rows(out@) == before.push(line@));
            if end < chars@.len() {
                let n = (end - start) as int;
                assert(tail.take(n) == chars@.subrange(start as int, end as int));
                assert(tail.skip(n + 1) == chars@.skip(end + 1));
                assert(line@ == without_return(tail.take(n)));
                assert(before.push(line@) + lines_of(chars@.skip(end + 1)) == before + (seq![line@]
                    + lines_of(chars@.skip(end + 1))));
            } else {
                assert(line@ == tail);
                assert(before.push(line@) + Seq::<Seq<char>>::empty() == before + seq![line@]);
            }
        }
        if end < chars.len() {
            start = end + 1;
        } else {
            start = end;
        }
    }
    assert(rows(out@) + Seq::<Seq<char>>::empty() == rows(out@));
    out
}

/// The first line that holds more than whitespace, trimmed.
pub open spec fn first_filled(lines: Seq<Seq<char>>) -> Option<Seq<char>>
    decreases lines.len(),
{
    if lines.len() == 0 {
        None
    } else if trimmed(lines[0]).len() > 0 {
        Some(trimmed(lines[0]))
    } else {
        first_filled(lines.skip(1))
    }
}

/// The first line of a text that holds more than whitespace, trimmed.
pub fn first_filled_line(chars: &[char]) -> (out: Option<Vec<char>>)
    ensures
        out is Some == first_filled(lines_of(chars@)) is Some,
        out is Some ==> out->0@ == first_filled(lines_of(chars@))->0 && out->0@.len() > 0,
{
    let all = lines(chars);
    let ghost ls = lines_of(chars@);
    let mut i: usize = 0;
    assert(ls.skip(0) == ls);
    while i < all.len()
        invariant
            i <= all@.len(),
            ls == lines_of(chars@),
            rows(all@) == ls,
            first_filled(ls.skip(i as int)) == first_filled(ls),
        decreases all@.len() - i,
    {
        let line = trim(all[i].as_slice());
        assert(ls.skip(i as int)[0] == all@[i as int]@);
        if line.len() > 0 {
            return Some(owned(line));
        }
        assert(ls.skip(i as int).skip(1) == ls.skip(i + 1));
        i += 1;
    }
    None
}

/// Whether `needle` stands in `hay` at position `i`.
pub open spec fn occurs_at(hay: Seq<char>, needle: Seq<char>, i: int) -> bool {
    0 <= i && i + needle.len() <= hay.len() && hay.subrange(i, i + needle.len()) == needle
}

/// Whether `needle` stands somewhere in `hay`.
pub open spec fn has(hay: Seq<char>, needle: Seq<char>) -> bool {
    exists|i: int| #[trigger] occurs_at(hay, needle, i)
}

pub fn occurs(hay: &[char], needle: &[char], i: usize) -> (r: bool)
    requires
        i <= hay@.len(),
    ensures
        r == occurs_at(hay@, needle@, i as int),
{
    if needle.len() > hay.len() - i {
        return false;
    }
    same(vstd::slice::slice_subrange(hay, i, i + needle.len()), needle)
}

pub fn contains(hay: &[char], needle: &[char]) -> (r: bool)
    ensures
        r == has(hay@, needle@),
{
    let mut i: usize = 0;
    while i <= hay.len()
        invariant
            i <= hay@.len() + 1,
            forall|k: int| 0 <= k < i ==> !#[trigger] occurs_at(hay@, needle@, k),
        decreases hay@.len() + 1 - i,
    {
        if occurs(hay, needle, i) {
            return true;
        }
        if i == hay.len() {
            return false;
        }
        i += 1;
    }
    false
}

/// The lower-case form of an ASCII letter; other characters as they are.
pub open spec fn lower(c: char) -> char {
    if 'A' <= c <= 'Z' {
        ((c as u8) + 32) as char
    } else {
        c
    }
}

/// `s` with its ASCII letters in lower case.
pub open spec fn lowered(s: Seq<char>) -> Seq<char> {
    s.map_values(|c: char| lower(c))
}

/// The upper-case form of an ASCII letter; other characters as they are.
pub open spec fn upper(c: char) -> char {
    if 'a' <= c <= 'z' {
        ((c as u8) - 32) as char
    } else {
        c
    }
}

/// `s` with its ASCII letters in upper case.
pub open spec fn uppered(s: Seq<char>) -> Seq<char> {
    s.map_values(|c: char| upper(c))
}

pub fn lower_char(c: char) -> (r: char)
    ensures
        r == lower(c),
{
    if 'A' <= c && c <= 'Z' {
        ((c as u8) + 32) as char
    } else {
        c
    }
}

pub fn to_lower(chars: &[char]) -> (out: Vec<char>)
    ensures
        out@ == lowered(chars@),
{
    let mut out: Vec<char> = Vec::new();
    let mut i: usize = 0;
    while i < chars.len()
        invariant
            i <= chars@.len(),
            out@ == lowered(chars@.take(i as int)),
        decreases chars@.len() - i,
    {
        out.push(lower_char(chars[i]));
        assert(chars@.take(i + 1) == chars@.take(i as int).push(chars@[i as int]));
        i += 1;
    }
    assert(chars@.take(chars@.len() as int) == chars@);
    out
}

/// Whether two texts agree up to the case of ASCII letters.
pub fn same_ignoring_case(a: &str, b: &str) -> (r: bool)
    ensures
        r == (lowered(a@) == lowered(b@)),
{
    let a = to_lower(chars_of(a).as_slice());
    let b = to_lower(chars_of(b).as_slice());
    same(a.as_slice(), b.as_slice())
}

/// The decimal digit `d`.
pub open spec fn digit(d: nat) -> char {
    (48 + d) as char
}

/// `n` in decimal.
pub open spec fn decimal(n: nat) -> Seq<char>
    decreases n,
{
    if n < 10 {
        seq![digit(n)]
    } else {
        decimal(n / 10).push(digit(n % 10))
    }
}

pub fn to_decimal(n: u64) -> (out: String)
    ensures
        out@ == decimal(n as nat),
    decreases n,
{
    let mut out = if n < 10 {
        String::new()
    } else {
        to_decimal(n / 10)
    };
    out.push((48u8 + (n % 10) as u8) as char);
    assert(out@ == decimal(n as nat));
    out
}

/// `prefix` followed by `suffix`.
pub fn join(prefix: &str, suffix: &str) -> (out: String)
    ensures
        out@ == prefix@ + suffix@,
{
    let mut out = prefix.to_owned();
    out.append(suffix);
    out
}

} // verus!
