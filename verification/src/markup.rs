//! Markdown emphasis and code: which marks come in pairs, and the text
//! without those pairs.
//!
//! A mark that has no partner stays: the asterisk of `src/*.rs` is part of
//! the text.

use crate::text::{find_from, first_of, is_space, lemma_first_is, lemma_first_of, space};
use vstd::prelude::*;

verus! {

/// A character whose runs mark emphasis or code.
pub open spec fn is_mark(c: char) -> bool {
    c == '*' || c == '`'
}

fn mark(c: char) -> (r: bool)
    ensures
        r == is_mark(c),
{
    c == '*' || c == '`'
}

/// A character after which emphasis may open.
pub open spec fn opens_after(c: char) -> bool {
    ||| is_space(c)
    ||| is_mark(c)
    ||| c == '('
    ||| c == '['
    ||| c == '{'
    ||| c == '"'
    ||| c == '\''
    ||| c == ':'
    ||| c == ';'
    ||| c == ','
    ||| c == '-'
    ||| c == '—'
}

fn may_open_after(c: char) -> (r: bool)
    ensures
        r == opens_after(c),
{
    space(c) || mark(c) || c == '(' || c == '[' || c == '{' || c == '"' || c == '\'' || c == ':'
        || c == ';' || c == ',' || c == '-' || c == '—'
}

/// A character before which emphasis may close.
pub open spec fn closes_before(c: char) -> bool {
    ||| is_space(c)
    ||| is_mark(c)
    ||| c == ')'
    ||| c == ']'
    ||| c == '}'
    ||| c == '"'
    ||| c == '\''
    ||| c == ':'
    ||| c == ';'
    ||| c == ','
    ||| c == '-'
    ||| c == '—'
    ||| c == '.'
    ||| c == '!'
    ||| c == '?'
    ||| c == '…'
}

fn may_close_before(c: char) -> (r: bool)
    ensures
        r == closes_before(c),
{
    space(c) || mark(c) || c == ')' || c == ']' || c == '}' || c == '"' || c == '\'' || c == ':'
        || c == ';' || c == ',' || c == '-' || c == '—' || c == '.' || c == '!' || c == '?' || c
        == '…'
}

/// How often `c` stands in a row in `s`, from `i` on and before `e`.
pub open spec fn run_len(s: Seq<char>, c: char, i: int, e: int) -> int
    decreases e - i,
{
    if i < e && s[i] == c {
        1 + run_len(s, c, i + 1, e)
    } else {
        0
    }
}

pub(crate) proof fn lemma_run(s: Seq<char>, c: char, i: int, e: int)
    requires
        i <= e,
    ensures
        0 <= run_len(s, c, i, e) <= e - i,
        i < e && s[i] == c ==> run_len(s, c, i, e) > 0,
        forall|k: int| i <= k < i + run_len(s, c, i, e) ==> #[trigger] s[k] == c,
    decreases e - i,
{
    if i < e && s[i] == c {
        lemma_run(s, c, i + 1, e);
    }
}

fn count_run(s: &[char], c: char, i: usize, e: usize) -> (r: usize)
    requires
        i <= e <= s@.len(),
    ensures
        r == run_len(s@, c, i as int, e as int),
        r <= e - i,
{
    let mut n: usize = i;
    while n < e && s[n] == c
        invariant
            i <= n <= e <= s@.len(),
            run_len(s@, c, i as int, e as int) == n - i + run_len(s@, c, n as int, e as int),
        decreases e - n,
    {
        n += 1;
    }
    n - i
}

/// Whether a run of `w` asterisks at `i` can open emphasis: it stands at the
/// start of a word, not in the middle of a name, a path or a pattern.
pub open spec fn can_open(s: Seq<char>, i: int, w: int, e: int) -> bool {
    &&& i == 0 || opens_after(s[i - 1])
    &&& i + w < e
    &&& !is_space(s[i + w])
    &&& s[i + w] != '.'
    &&& s[i + w] != '/'
}

/// Whether a run of `w` asterisks at `j` can close emphasis: it stands at the
/// end of a word.
pub open spec fn can_close(s: Seq<char>, j: int, w: int) -> bool {
    &&& j > 0
    &&& !is_space(s[j - 1])
    &&& s[j - 1] != '/'
    &&& j + w >= s.len() || closes_before(s[j + w])
}

/// The first place from `j` on and before `e` where a run of exactly `w` of
/// the mark `c` stands that can close what such a run opened.
pub open spec fn closing(s: Seq<char>, c: char, w: int, j: int, e: int) -> Option<int>
    decreases e - j,
    via closing_decreases
{
    if j >= e {
        None
    } else if s[j] != c {
        closing(s, c, w, j + 1, e)
    } else {
        let run = run_len(s, c, j, e);
        if run == w && (c == '`' || can_close(s, j, w)) {
            Some(j)
        } else {
            closing(s, c, w, j + run, e)
        }
    }
}

#[via_fn]
proof fn closing_decreases(s: Seq<char>, c: char, w: int, j: int, e: int) {
    if j < e {
        lemma_run(s, c, j, e);
    }
}

proof fn lemma_closing(s: Seq<char>, c: char, w: int, j: int, e: int)
    ensures
        closing(s, c, w, j, e) matches Some(k) ==> j <= k < e && run_len(s, c, k, e) == w,
    decreases e - j,
{
    if j < e {
        lemma_run(s, c, j, e);
        if s[j] != c {
            lemma_closing(s, c, w, j + 1, e);
        } else {
            lemma_closing(s, c, w, j + run_len(s, c, j, e), e);
        }
    }
}

fn find_closing(s: &[char], c: char, w: usize, from: usize, e: usize) -> (r: Option<usize>)
    requires
        from <= e <= s@.len(),
    ensures
        r is Some == closing(s@, c, w as int, from as int, e as int) is Some,
        r is Some ==> r->0 == closing(s@, c, w as int, from as int, e as int)->0,
{
    let mut j: usize = from;
    while j < e
        invariant
            from <= j <= e <= s@.len(),
            closing(s@, c, w as int, from as int, e as int) == closing(
                s@,
                c,
                w as int,
                j as int,
                e as int,
            ),
        decreases e - j,
    {
        if s[j] != c {
            j += 1;
        } else {
            let run = count_run(s, c, j, e);
            proof {
                lemma_run(s@, c, j as int, e as int);
            }
            if run == w {
                let closes = j > 0 && !space(s[j - 1]) && s[j - 1] != '/' && (j + w >= s.len()
                    || may_close_before(s[j + w]));
                if c == '`' || closes {
                    return Some(j);
                }
            }
            j += run;
        }
    }
    None
}

/// Where the span that a run of `w` marks opens at `i` is closed, before `e`.
/// Code needs no more than its two runs; emphasis opens and closes at words.
pub open spec fn span_end(s: Seq<char>, i: int, w: int, e: int) -> Option<int> {
    if s[i] == '`' || can_open(s, i, w, e) {
        closing(s, s[i], w, i + w, e)
    } else {
        None
    }
}

/// What stands in the line `s` from `i` on and before `e`, without the marks
/// that come in pairs. Code stays as it is between its marks.
pub open spec fn unmarked(s: Seq<char>, i: int, e: int) -> Seq<char>
    decreases e - i,
    via unmarked_decreases
{
    if i >= e {
        Seq::empty()
    } else if !is_mark(s[i]) {
        seq![s[i]] + unmarked(s, i + 1, e)
    } else {
        let w = run_len(s, s[i], i, e);
        match span_end(s, i, w, e) {
            Some(k) => {
                let inside = if s[i] == '`' {
                    s.subrange(i + w, k)
                } else {
                    unmarked(s, i + w, k)
                };
                inside + unmarked(s, k + w, e)
            },
            None => s.subrange(i, i + w) + unmarked(s, i + w, e),
        }
    }
}

pub(crate) proof fn lemma_span(s: Seq<char>, i: int, e: int)
    requires
        i < e,
        is_mark(s[i]),
    ensures
        0 < run_len(s, s[i], i, e) <= e - i,
        span_end(s, i, run_len(s, s[i], i, e), e) matches Some(k) ==> i + run_len(s, s[i], i, e)
            <= k && k + run_len(s, s[i], i, e) <= e && run_len(s, s[i], k, e) == run_len(
            s,
            s[i],
            i,
            e,
        ),
{
    let w = run_len(s, s[i], i, e);
    lemma_run(s, s[i], i, e);
    lemma_closing(s, s[i], w, i + w, e);
    if let Some(k) = closing(s, s[i], w, i + w, e) {
        lemma_run(s, s[i], k, e);
    }
}

#[via_fn]
proof fn unmarked_decreases(s: Seq<char>, i: int, e: int) {
    if i < e && is_mark(s[i]) {
        lemma_span(s, i, e);
    }
}

fn push_range(out: &mut Vec<char>, s: &[char], from: usize, to: usize)
    requires
        from <= to <= s@.len(),
    ensures
        final(out)@ == old(out)@ + s@.subrange(from as int, to as int),
{
    let mut i: usize = from;
    assert(out@ == old(out)@ + s@.subrange(from as int, from as int));
    while i < to
        invariant
            from <= i <= to <= s@.len(),
            out@ == old(out)@ + s@.subrange(from as int, i as int),
        decreases to - i,
    {
        out.push(s[i]);
        i += 1;
    }
}

fn push_unmarked(out: &mut Vec<char>, s: &[char], from: usize, e: usize)
    requires
        from <= e <= s@.len(),
    ensures
        final(out)@ == old(out)@ + unmarked(s@, from as int, e as int),
    decreases e - from,
{
    let mut i: usize = from;
    while i < e
        invariant
            from <= i <= e <= s@.len(),
            out@ + unmarked(s@, i as int, e as int) == old(out)@ + unmarked(
                s@,
                from as int,
                e as int,
            ),
        decreases e - i,
    {
        let c = s[i];
        let ghost before = out@;
        let ghost at = i as int;
        if !mark(c) {
            out.push(c);
            i += 1;
            assert(out@ + unmarked(s@, at + 1, e as int) == before + (seq![c] + unmarked(
                s@,
                at + 1,
                e as int,
            )));
        } else {
            let w = count_run(s, c, i, e);
            let opens = c == '`' || ((i == 0 || may_open_after(s[i - 1])) && w < e - i && !space(
                s[i + w],
            ) && s[i + w] != '.' && s[i + w] != '/');
            let close = if opens {
                find_closing(s, c, w, i + w, e)
            } else {
                None
            };
            proof {
                lemma_span(s@, at, e as int);
            }
            match close {
                Some(k) => {
                    if c == '`' {
                        push_range(out, s, i + w, k);
                    } else {
                        push_unmarked(out, s, i + w, k);
                    }
                    let ghost inside = if c == '`' {
                        s@.subrange(at + w, k as int)
                    } else {
                        unmarked(s@, at + w, k as int)
                    };
                    i = k + w;
                    assert(out@ + unmarked(s@, i as int, e as int) == before + (inside + unmarked(
                        s@,
                        i as int,
                        e as int,
                    )));
                },
                None => {
                    push_range(out, s, i, i + w);
                    i += w;
                    assert(out@ + unmarked(s@, i as int, e as int) == before + (s@.subrange(
                        at,
                        at + w,
                    ) + unmarked(s@, i as int, e as int)));
                },
            }
        }
    }
    assert(out@ + Seq::<char>::empty() == out@);
}

/// The line `s` without the marks that come in pairs.
pub open spec fn plain_line(s: Seq<char>) -> Seq<char> {
    unmarked(s, 0, s.len() as int)
}

/// The text `s` without the marks that come in pairs. A pair stands within a
/// line.
pub open spec fn plain_text(s: Seq<char>) -> Seq<char>
    decreases s.len(),
{
    let n = first_of(s, '\n') as int;
    if n >= s.len() {
        plain_line(s)
    } else {
        plain_line(s.take(n)).push('\n') + plain_text(s.skip(n + 1))
    }
}

/// The text without the Markdown marks that come in pairs.
pub fn strip_markup(chars: &[char]) -> (out: Vec<char>)
    ensures
        out@ == plain_text(chars@),
{
    let mut out: Vec<char> = Vec::new();
    let mut start: usize = 0;
    assert(chars@.skip(0) == chars@);
    assert(out@ + plain_text(chars@) == plain_text(chars@));
    loop
        invariant
            start <= chars@.len(),
            out@ + plain_text(chars@.skip(start as int)) == plain_text(chars@),
        decreases chars@.len() - start,
    {
        let end = find_from(chars, '\n', start);
        let ghost before = out@;
        let ghost tail = chars@.skip(start as int);
        let line = vstd::slice::slice_subrange(chars, start, end);
        push_unmarked(&mut out, line, 0, line.len());
        if end == chars.len() {
            assert(line@ == tail);
            assert(out@ == before + plain_line(tail));
            return out;
        }
        out.push('\n');
        proof {
            let n = (end - start) as int;
            assert(line@ == tail.take(n));
            assert(tail.skip(n + 1) == chars@.skip(end + 1));
            assert(out@ + plain_text(chars@.skip(end + 1)) == before + (plain_line(
                tail.take(n),
            ).push('\n') + plain_text(chars@.skip(end + 1))));
        }
        start = end + 1;
    }
}

// ---------------------------------------------------------------------
// Laws
// ---------------------------------------------------------------------

/// `s` without any mark.
pub open spec fn bare(s: Seq<char>) -> Seq<char> {
    s.filter(|c: char| !is_mark(c))
}

proof fn lemma_bare_sum(a: Seq<char>, b: Seq<char>)
    ensures
        bare(a + b) == bare(a) + bare(b),
{
    Seq::filter_distributes_over_add(a, b, |c: char| !is_mark(c));
}

proof fn lemma_bare_marks(s: Seq<char>)
    requires
        forall|i: int| 0 <= i < s.len() ==> is_mark(#[trigger] s[i]),
    ensures
        bare(s) == Seq::<char>::empty(),
    decreases s.len(),
{
    reveal(Seq::filter);
    if s.len() > 0 {
        lemma_bare_marks(s.drop_last());
    }
}

proof fn lemma_bare_unmarked(s: Seq<char>, i: int, e: int)
    requires
        0 <= i <= e <= s.len(),
    ensures
        bare(unmarked(s, i, e)) == bare(s.subrange(i, e)),
    decreases e - i,
{
    if i < e {
        if !is_mark(s[i]) {
            lemma_bare_unmarked(s, i + 1, e);
            lemma_bare_sum(seq![s[i]], unmarked(s, i + 1, e));
            lemma_bare_sum(seq![s[i]], s.subrange(i + 1, e));
            assert(s.subrange(i, e) == seq![s[i]] + s.subrange(i + 1, e));
        } else {
            let w = run_len(s, s[i], i, e);
            lemma_span(s, i, e);
            lemma_run(s, s[i], i, e);
            let opening = s.subrange(i, i + w);
            lemma_bare_marks(opening);
            match span_end(s, i, w, e) {
                Some(k) => {
                    lemma_run(s, s[i], k, e);
                    let shut = s.subrange(k, k + w);
                    lemma_bare_marks(shut);
                    let held = s.subrange(i + w, k);
                    let inside = if s[i] == '`' {
                        held
                    } else {
                        unmarked(s, i + w, k)
                    };
                    lemma_bare_unmarked(s, i + w, k);
                    lemma_bare_unmarked(s, k + w, e);
                    let tail = s.subrange(k + w, e);
                    lemma_bare_sum(inside, unmarked(s, k + w, e));
                    assert(s.subrange(i, e) == opening + (held + (shut + tail)));
                    lemma_bare_sum(opening, held + (shut + tail));
                    lemma_bare_sum(held, shut + tail);
                    lemma_bare_sum(shut, tail);
                    assert(bare(s.subrange(i, e)) == bare(held) + bare(tail));
                },
                None => {
                    lemma_bare_unmarked(s, i + w, e);
                    lemma_bare_sum(opening, unmarked(s, i + w, e));
                    lemma_bare_sum(opening, s.subrange(i + w, e));
                    assert(s.subrange(i, e) == opening + s.subrange(i + w, e));
                },
            }
        }
    } else {
        assert(s.subrange(i, e) == Seq::<char>::empty());
    }
}

/// Nothing but marks is ever dropped from a text, and no order is changed.
pub proof fn law_only_marks_are_dropped(s: Seq<char>)
    ensures
        bare(plain_text(s)) == bare(s),
    decreases s.len(),
{
    let n = first_of(s, '\n') as int;
    if n >= s.len() {
        lemma_bare_unmarked(s, 0, s.len() as int);
        assert(s.subrange(0, s.len() as int) == s);
    } else {
        let line = s.take(n);
        let tail = s.skip(n + 1);
        lemma_first_of(s, '\n');
        lemma_bare_unmarked(line, 0, n);
        assert(line.subrange(0, n) == line);
        law_only_marks_are_dropped(tail);
        let feed = seq!['\n'];
        assert(plain_text(s) == plain_line(line) + (feed + plain_text(tail)));
        assert(s == line + (feed + tail));
        lemma_bare_sum(plain_line(line), feed + plain_text(tail));
        lemma_bare_sum(feed, plain_text(tail));
        lemma_bare_sum(line, feed + tail);
        lemma_bare_sum(feed, tail);
    }
}

/// Whether no mark of the line `s` has a partner.
pub open spec fn unpaired(s: Seq<char>) -> bool {
    forall|i: int|
        0 <= i < s.len() && is_mark(#[trigger] s[i]) ==> span_end(
            s,
            i,
            run_len(s, s[i], i, s.len() as int),
            s.len() as int,
        ) is None
}

proof fn lemma_unpaired(s: Seq<char>, i: int)
    requires
        unpaired(s),
        0 <= i <= s.len(),
    ensures
        unmarked(s, i, s.len() as int) == s.skip(i),
    decreases s.len() - i,
{
    let e = s.len() as int;
    if i < e {
        if !is_mark(s[i]) {
            lemma_unpaired(s, i + 1);
        } else {
            lemma_run(s, s[i], i, e);
            lemma_unpaired(s, i + run_len(s, s[i], i, e));
        }
    }
}

/// A line in which no mark has a partner stays as it is.
pub proof fn law_unpaired_marks_stay(line: Seq<char>)
    requires
        unpaired(line),
    ensures
        plain_line(line) == line,
{
    lemma_unpaired(line, 0);
}

/// A text without marks stays as it is.
pub proof fn law_no_marks_no_change(s: Seq<char>)
    requires
        forall|i: int| 0 <= i < s.len() ==> !is_mark(#[trigger] s[i]),
    ensures
        plain_text(s) == s,
    decreases s.len(),
{
    let n = first_of(s, '\n') as int;
    if n >= s.len() {
        law_unpaired_marks_stay(s);
    } else {
        lemma_first_of(s, '\n');
        law_unpaired_marks_stay(s.take(n));
        law_no_marks_no_change(s.skip(n + 1));
        assert(s == s.take(n).push('\n') + s.skip(n + 1));
    }
}

pub(crate) proof fn lemma_run_is(s: Seq<char>, c: char, i: int, w: int, e: int)
    requires
        0 <= w,
        i + w <= e,
        forall|k: int| i <= k < i + w ==> #[trigger] s[k] == c,
        i + w < e ==> s[i + w] != c,
    ensures
        run_len(s, c, i, e) == w,
    decreases w,
{
    if w > 0 {
        assert(s[i] == c);
        lemma_run_is(s, c, i + 1, w - 1, e);
    }
}

pub(crate) proof fn lemma_closing_after(s: Seq<char>, c: char, w: int, j: int, k: int, e: int)
    requires
        j <= k <= e,
        forall|m: int| j <= m < k ==> #[trigger] s[m] != c,
    ensures
        closing(s, c, w, j, e) == closing(s, c, w, k, e),
    decreases k - j,
{
    if j < k {
        assert(s[j] != c);
        lemma_closing_after(s, c, w, j + 1, k, e);
    }
}

pub(crate) proof fn lemma_unmarked_plain(s: Seq<char>, i: int, e: int)
    requires
        0 <= i <= e <= s.len(),
        forall|m: int| i <= m < e ==> !is_mark(#[trigger] s[m]),
    ensures
        unmarked(s, i, e) == s.subrange(i, e),
    decreases e - i,
{
    if i < e {
        assert(!is_mark(s[i]));
        lemma_unmarked_plain(s, i + 1, e);
    }
}

/// A run of `w` marks `c`.
pub open spec fn run_of(c: char, w: nat) -> Seq<char> {
    Seq::new(w, |i: int| c)
}

/// A pair is dropped: of words between two equal runs of marks, the words
/// stay. Emphasised words neither begin nor end with whitespace or a slash,
/// nor begin with a full stop.
pub proof fn law_pairs_are_dropped(c: char, w: nat, words: Seq<char>)
    requires
        is_mark(c),
        w > 0,
        words.len() > 0,
        forall|i: int| 0 <= i < words.len() ==> !is_mark(#[trigger] words[i]),
        c == '*' ==> !is_space(words[0]) && words[0] != '.' && words[0] != '/' && !is_space(
            words.last(),
        ) && words.last() != '/',
    ensures
        plain_line(run_of(c, w) + words + run_of(c, w)) == words,
{
    let s = run_of(c, w) + words + run_of(c, w);
    let e = s.len() as int;
    let k = w + words.len();
    assert forall|m: int| w <= m < k implies !is_mark(#[trigger] s[m]) by {
        assert(s[m] == words[m - w]);
    }
    assert(s[w as int] == words[0]);
    assert(s[k - 1] == words.last());
    lemma_run_is(s, c, 0, w as int, e);
    lemma_run_is(s, c, k as int, w as int, e);
    lemma_closing_after(s, c, w as int, w as int, k as int, e);
    assert(s[k as int] == c);
    assert(s[0] == c);
    assert(closing(s, c, w as int, w as int, e) == Some(k as int));
    lemma_unmarked_plain(s, w as int, k as int);
    assert(s.subrange(w as int, k as int) == words);
    assert(unmarked(s, e, e) == Seq::<char>::empty());
    assert(words + Seq::<char>::empty() == words);
}

/// Marks pair up within lines: what stands before a line feed and what stands
/// after it lose their marks apart from each other.
pub proof fn law_lines_are_apart(before: Seq<char>, after: Seq<char>)
    ensures
        plain_text(before.push('\n') + after) == plain_text(before).push('\n') + plain_text(after),
    decreases before.len(),
{
    let s = before.push('\n') + after;
    let n = first_of(before, '\n') as int;
    lemma_first_of(before, '\n');
    lemma_first_is(s, '\n', n);
    if n >= before.len() {
        assert(s.take(n) == before);
        assert(s.skip(n + 1) == after);
    } else {
        let rest = before.skip(n + 1);
        law_lines_are_apart(rest, after);
        assert(s.take(n) == before.take(n));
        assert(s.skip(n + 1) == rest.push('\n') + after);
    }
}

} // verus!
