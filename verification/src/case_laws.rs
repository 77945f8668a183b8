//! Asks and the case of letters: markers are found whatever their case, and
//! an ask keeps the case of the text.

use crate::markup::{
    can_close, can_open, closes_before, closing, is_mark, lemma_run, lemma_span, opens_after,
    plain_line, plain_text, run_len, span_end, unmarked,
};
use crate::text::{
    first_filled, first_of, is_space, lemma_first_of, lines_of, lower, lowered, trimmed, upper,
    uppered, without_leading_space, without_return, without_trailing_space,
};
use crate::triage::{
    ask_at, ask_in, ask_in_line, ask_of, begins, captured, declines, ends_question,
    first_question, hard_ask, is_bullet, is_lead, is_word, last_ask, marker, marker_standing,
    question_end, soft_offer, truncated, without_lead, without_marks, HARD_MARKERS, MARKERS,
    MAX_ASK_LEN,
};
use crate::triage_laws::lemma_standing;
use vstd::prelude::*;

verus! {

/// An optional text with its ASCII letters in upper case.
pub open spec fn uppered_opt(s: Option<Seq<char>>) -> Option<Seq<char>> {
    match s {
        Some(s) => Some(uppered(s)),
        None => None,
    }
}

/// Lines with their ASCII letters in upper case.
spec fn uppered_lines(lines: Seq<Seq<char>>) -> Seq<Seq<char>> {
    lines.map_values(|line: Seq<char>| uppered(line))
}

/// What the case of a letter does not change.
proof fn lemma_upper(c: char)
    ensures
        lower(upper(c)) == lower(c),
        is_space(upper(c)) == is_space(c),
        is_mark(upper(c)) == is_mark(c),
        is_word(upper(c)) == is_word(c),
        is_lead(upper(c)) == is_lead(c),
        opens_after(upper(c)) == opens_after(c),
        closes_before(upper(c)) == closes_before(c),
        !('a' <= c <= 'z') ==> upper(c) == c,
        'a' <= c <= 'z' ==> 'A' <= upper(c) <= 'Z',
{
}

proof fn lemma_pieces(s: Seq<char>)
    ensures
        uppered(s).len() == s.len(),
        forall|i: int|
            0 <= i < s.len() ==> #[trigger] uppered(s)[i] == upper(s[i]),
        forall|i: int|
            0 <= i <= s.len() ==> #[trigger] uppered(s).skip(i) == uppered(s.skip(i)),
        forall|i: int|
            0 <= i <= s.len() ==> #[trigger] uppered(s).take(i) == uppered(s.take(i)),
        forall|i: int, j: int|
            0 <= i <= j <= s.len() ==> #[trigger] uppered(s).subrange(i, j) == uppered(
                s.subrange(i, j),
            ),
{
    assert forall|i: int| 0 <= i <= s.len() implies #[trigger] uppered(s).skip(i) == uppered(
        s.skip(i),
    ) by {
        assert(uppered(s).skip(i) =~= uppered(s.skip(i)));
    }
    assert forall|i: int| 0 <= i <= s.len() implies #[trigger] uppered(s).take(i) == uppered(
        s.take(i),
    ) by {
        assert(uppered(s).take(i) =~= uppered(s.take(i)));
    }
    assert forall|i: int, j: int| 0 <= i <= j <= s.len() implies #[trigger] uppered(s).subrange(
        i,
        j,
    ) == uppered(s.subrange(i, j)) by {
        assert(uppered(s).subrange(i, j) =~= uppered(s.subrange(i, j)));
    }
}

proof fn lemma_sum(a: Seq<char>, b: Seq<char>)
    ensures
        uppered(a + b) == uppered(a) + uppered(b),
{
    assert(uppered(a + b) =~= uppered(a) + uppered(b));
}

proof fn lemma_lowered(s: Seq<char>)
    ensures
        lowered(uppered(s)) == lowered(s),
{
    assert forall|i: int| 0 <= i < s.len() implies lowered(uppered(s))[i] == lowered(s)[i] by {
        lemma_upper(s[i]);
    }
    assert(lowered(uppered(s)) =~= lowered(s));
}

// ---------------------------------------------------------------------
// Markdown
// ---------------------------------------------------------------------

proof fn lemma_first(s: Seq<char>)
    ensures
        first_of(uppered(s), '\n') == first_of(s, '\n'),
    decreases s.len(),
{
    if s.len() > 0 {
        lemma_pieces(s);
        lemma_upper(s[0]);
        assert(uppered(s)[0] == upper(s[0]));
        lemma_first(s.skip(1));
        assert(uppered(s).skip(1) == uppered(s.skip(1)));
    }
}

proof fn lemma_runs(s: Seq<char>, c: char, i: int, e: int)
    requires
        is_mark(c),
        0 <= i,
        e <= s.len(),
    ensures
        run_len(uppered(s), c, i, e) == run_len(s, c, i, e),
    decreases e - i,
{
    if i < e {
        lemma_upper(s[i]);
        assert(uppered(s)[i] == upper(s[i]));
        lemma_runs(s, c, i + 1, e);
    }
}

proof fn lemma_closings(s: Seq<char>, c: char, w: int, j: int, e: int)
    requires
        is_mark(c),
        0 <= j,
        0 < w,
        e <= s.len(),
    ensures
        closing(uppered(s), c, w, j, e) == closing(s, c, w, j, e),
    decreases e - j,
{
    if j < e {
        let up = uppered(s);
        lemma_upper(s[j]);
        assert(up[j] == upper(s[j]));
        lemma_run(s, c, j, e);
        lemma_runs(s, c, j, e);
        if j > 0 {
            lemma_upper(s[j - 1]);
            assert(up[j - 1] == upper(s[j - 1]));
        }
        if j + w < s.len() {
            lemma_upper(s[j + w]);
            assert(up[j + w] == upper(s[j + w]));
        }
        assert(can_close(up, j, w) == can_close(s, j, w));
        if s[j] != c {
            lemma_closings(s, c, w, j + 1, e);
        } else {
            lemma_closings(s, c, w, j + run_len(s, c, j, e), e);
        }
    }
}

proof fn lemma_spans(s: Seq<char>, i: int, w: int, e: int)
    requires
        0 <= i < e <= s.len(),
        is_mark(s[i]),
        0 < w,
    ensures
        span_end(uppered(s), i, w, e) == span_end(s, i, w, e),
{
    let up = uppered(s);
    lemma_upper(s[i]);
    assert(up[i] == upper(s[i]));
    if i > 0 {
        lemma_upper(s[i - 1]);
        assert(up[i - 1] == upper(s[i - 1]));
    }
    if i + w < e {
        lemma_upper(s[i + w]);
        assert(up[i + w] == upper(s[i + w]));
    }
    assert(can_open(up, i, w, e) == can_open(s, i, w, e));
    lemma_closings(s, s[i], w, i + w, e);
}

proof fn lemma_unmarked(s: Seq<char>, i: int, e: int)
    requires
        0 <= i,
        e <= s.len(),
    ensures
        unmarked(uppered(s), i, e) == uppered(unmarked(s, i, e)),
    decreases e - i,
{
    let up = uppered(s);
    if i < e {
        lemma_upper(s[i]);
        assert(up[i] == upper(s[i]));
        lemma_pieces(s);
        if !is_mark(s[i]) {
            lemma_unmarked(s, i + 1, e);
            lemma_sum(seq![s[i]], unmarked(s, i + 1, e));
            assert(uppered(seq![s[i]]) =~= seq![up[i]]);
        } else {
            let w = run_len(s, s[i], i, e);
            lemma_span(s, i, e);
            lemma_runs(s, s[i], i, e);
            lemma_spans(s, i, w, e);
            match span_end(s, i, w, e) {
                Some(k) => {
                    let inside = if s[i] == '`' {
                        s.subrange(i + w, k)
                    } else {
                        unmarked(s, i + w, k)
                    };
                    lemma_unmarked(s, i + w, k);
                    lemma_unmarked(s, k + w, e);
                    lemma_sum(inside, unmarked(s, k + w, e));
                    assert(up.subrange(i + w, k) == uppered(s.subrange(i + w, k)));
                },
                None => {
                    lemma_unmarked(s, i + w, e);
                    lemma_sum(s.subrange(i, i + w), unmarked(s, i + w, e));
                    assert(up.subrange(i, i + w) == uppered(s.subrange(i, i + w)));
                },
            }
        }
    } else {
        assert(uppered(unmarked(s, i, e)) =~= unmarked(up, i, e));
    }
}

proof fn lemma_plain(s: Seq<char>)
    ensures
        plain_text(uppered(s)) == uppered(plain_text(s)),
    decreases s.len(),
{
    let n = first_of(s, '\n') as int;
    lemma_first(s);
    lemma_first_of(s, '\n');
    lemma_pieces(s);
    if n >= s.len() {
        lemma_unmarked(s, 0, s.len() as int);
    } else {
        let line = s.take(n);
        let tail = s.skip(n + 1);
        lemma_pieces(line);
        lemma_unmarked(line, 0, n);
        lemma_plain(tail);
        lemma_sum(plain_line(line).push('\n'), plain_text(tail));
        assert(uppered(plain_line(line).push('\n')) =~= uppered(plain_line(line)).push('\n'));
        assert(uppered(s).take(n) == uppered(line));
        assert(uppered(s).skip(n + 1) == uppered(tail));
    }
}

// ---------------------------------------------------------------------
// Lines
// ---------------------------------------------------------------------

proof fn lemma_leading(s: Seq<char>)
    ensures
        without_leading_space(uppered(s)) == uppered(without_leading_space(s)),
    decreases s.len(),
{
    if s.len() > 0 {
        lemma_pieces(s);
        lemma_upper(s[0]);
        assert(uppered(s)[0] == upper(s[0]));
        lemma_leading(s.skip(1));
        assert(uppered(s).skip(1) == uppered(s.skip(1)));
    }
}

proof fn lemma_trailing(s: Seq<char>)
    ensures
        without_trailing_space(uppered(s)) == uppered(without_trailing_space(s)),
    decreases s.len(),
{
    if s.len() > 0 {
        lemma_upper(s.last());
        assert(uppered(s).last() == upper(s.last()));
        lemma_trailing(s.drop_last());
        assert(uppered(s).drop_last() =~= uppered(s.drop_last()));
    }
}

proof fn lemma_trimmed(s: Seq<char>)
    ensures
        trimmed(uppered(s)) == uppered(trimmed(s)),
{
    lemma_leading(s);
    lemma_trailing(without_leading_space(s));
}

proof fn lemma_lines(s: Seq<char>)
    ensures
        lines_of(uppered(s)) == uppered_lines(lines_of(s)),
    decreases s.len(),
{
    let n = first_of(s, '\n') as int;
    lemma_first(s);
    lemma_first_of(s, '\n');
    lemma_pieces(s);
    if s.len() == 0 {
        assert(lines_of(uppered(s)) =~= uppered_lines(lines_of(s)));
    } else if n >= s.len() {
        assert(uppered_lines(seq![s]) =~= seq![uppered(s)]);
    } else {
        let head = s.take(n);
        let tail = s.skip(n + 1);
        lemma_lines(tail);
        if n > 0 {
            lemma_upper(head.last());
            assert(uppered(head).last() == upper(head.last()));
            assert(uppered(head).drop_last() =~= uppered(head.drop_last()));
        }
        assert(without_return(uppered(head)) == uppered(without_return(head)));
        assert(uppered(s).take(n) == uppered(head));
        assert(uppered(s).skip(n + 1) == uppered(tail));
        assert(uppered_lines(seq![without_return(head)] + lines_of(tail)) =~= seq![
            uppered(without_return(head)),
        ] + uppered_lines(lines_of(tail)));
    }
}

proof fn lemma_first_filled(lines: Seq<Seq<char>>)
    ensures
        first_filled(uppered_lines(lines)) == uppered_opt(first_filled(lines)),
    decreases lines.len(),
{
    if lines.len() > 0 {
        lemma_trimmed(lines[0]);
        assert(uppered_lines(lines)[0] == uppered(lines[0]));
        assert(uppered_lines(lines).skip(1) =~= uppered_lines(lines.skip(1)));
        lemma_first_filled(lines.skip(1));
    }
}

proof fn lemma_question_end(s: Seq<char>, i: nat)
    ensures
        question_end(uppered(s), i) == question_end(s, i),
        question_end(s, i) <= s.len(),
    decreases s.len() - i,
{
    if i < s.len() {
        let up = uppered(s);
        lemma_upper(s[i as int]);
        assert(up[i as int] == upper(s[i as int]));
        if i + 1 < s.len() {
            lemma_upper(s[i as int + 1]);
            assert(up[i as int + 1] == upper(s[i as int + 1]));
        }
        assert(ends_question(up, i as int) == ends_question(s, i as int));
        lemma_question_end(s, i + 1);
    }
}

proof fn lemma_begins(s: Seq<char>, phrase: Seq<char>)
    ensures
        begins(uppered(s), phrase) == begins(s, phrase),
{
    lemma_lowered(s);
    let n = phrase.len() as int;
    if n < s.len() {
        lemma_upper(s[n]);
        assert(uppered(s)[n] == upper(s[n]));
    }
}

proof fn lemma_line_ask(line: Seq<char>)
    ensures
        ask_in_line(uppered(line)) == uppered_opt(ask_in_line(line)),
{
    lemma_question_end(line, 0);
    lemma_pieces(line);
    let question = first_question(line);
    assert(first_question(uppered(line)) == uppered(question));
    lemma_trimmed(question);
    let ask = trimmed(question);
    lemma_begins(ask, "nothing"@);
    lemma_begins(ask, "none"@);
    lemma_begins(ask, "no action"@);
    assert(declines(uppered(ask)) == declines(ask));
    lemma_pieces(ask);
    if ask.len() > MAX_ASK_LEN {
        let kept = ask.take(MAX_ASK_LEN - 1);
        assert(uppered(ask).take(MAX_ASK_LEN - 1) == uppered(kept));
        lemma_upper('…');
        assert(uppered(kept.push('…')) =~= uppered(kept).push('…'));
    }
    assert(truncated(uppered(ask), MAX_ASK_LEN as nat) == uppered(
        truncated(ask, MAX_ASK_LEN as nat),
    ));
}

proof fn lemma_ask_in(s: Seq<char>)
    ensures
        ask_in(uppered(s)) == uppered_opt(ask_in(s)),
{
    lemma_lines(s);
    lemma_first_filled(lines_of(s));
    if let Some(line) = first_filled(lines_of(s)) {
        lemma_line_ask(line);
    }
}

// ---------------------------------------------------------------------
// Asks
// ---------------------------------------------------------------------

proof fn lemma_lead(s: Seq<char>)
    ensures
        without_lead(uppered(s)) == uppered(without_lead(s)),
    decreases s.len(),
{
    if s.len() > 0 {
        lemma_pieces(s);
        lemma_upper(s[0]);
        assert(uppered(s)[0] == upper(s[0]));
        if s.len() > 1 {
            lemma_upper(s[1]);
            assert(uppered(s)[1] == upper(s[1]));
        }
        assert(is_bullet(uppered(s)) == is_bullet(s));
        lemma_lead(s.skip(1));
        assert(uppered(s).skip(1) == uppered(s.skip(1)));
    }
}

proof fn lemma_marks(s: Seq<char>)
    ensures
        without_marks(uppered(s)) == uppered(without_marks(s)),
    decreases s.len(),
{
    if s.len() > 0 {
        lemma_pieces(s);
        lemma_upper(s[0]);
        assert(uppered(s)[0] == upper(s[0]));
        lemma_marks(s.skip(1));
        assert(uppered(s).skip(1) == uppered(s.skip(1)));
    }
}

proof fn lemma_ask_at(text: Seq<char>, i: int, hard: bool)
    requires
        0 <= i < text.len(),
    ensures
        ask_at(uppered(text), i, hard) == uppered_opt(ask_at(text, i, hard)),
{
    let low = lowered(text);
    lemma_lowered(text);
    lemma_pieces(text);
    let (from, to) = if hard {
        (0, HARD_MARKERS as int)
    } else {
        (HARD_MARKERS as int, MARKERS as int)
    };
    lemma_standing(low, i, from, to);
    assert(uppered(text).skip(i) == uppered(text.skip(i)));
    match marker_standing(low, i, from, to) {
        Some(k) => {
            if marker(k).1 {
                let end = i + marker(k).0.len();
                assert(uppered(text).skip(end) == uppered(text.skip(end)));
                lemma_marks(text.skip(end));
                lemma_lead(without_marks(text.skip(end)));
            }
            assert(captured(uppered(text), k, i) == uppered(captured(text, k, i)));
            lemma_ask_in(captured(text, k, i));
        },
        None => {
            lemma_lead(text.skip(i));
            lemma_ask_in(without_lead(text.skip(i)));
        },
    }
}

proof fn lemma_last_ask(text: Seq<char>, n: nat, hard: bool)
    requires
        n <= text.len(),
    ensures
        last_ask(uppered(text), n, hard) == uppered_opt(last_ask(text, n, hard)),
    decreases n,
{
    if n > 0 {
        lemma_ask_at(text, n - 1, hard);
        lemma_last_ask(text, (n - 1) as nat, hard);
    }
}

/// Case does not matter for what is asked: a message in upper case leaves the
/// same ask, in upper case. So it is with hard asks and soft offers.
pub proof fn law_case_is_kept(text: Seq<char>)
    ensures
        ask_of(uppered(text)) == uppered_opt(ask_of(text)),
        hard_ask(uppered(text)) == uppered_opt(hard_ask(text)),
        soft_offer(uppered(text)) == uppered_opt(soft_offer(text)),
{
    let plain = plain_text(text);
    lemma_plain(text);
    lemma_pieces(plain);
    lemma_last_ask(plain, plain.len(), true);
    lemma_last_ask(plain, plain.len(), false);
}

} // verus!
