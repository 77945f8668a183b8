//! What triage promises of every thread: what an extracted ask looks like,
//! which ask is extracted, and how the bucket of a thread relates to it.

use crate::markup::{is_mark, law_lines_are_apart, law_no_marks_no_change, plain_text};
use crate::text::{
    first_filled, first_of, has, is_space, lemma_first_of, lines_of, lower, lowered, occurs_at,
    trimmed, without_leading_space, without_return, without_trailing_space,
};
use crate::triage::{
    ask_at, ask_in, ask_in_line, ask_of, asks_yes_no, begins, captured, declines, first_question,
    hard_ask, is_word, last_ask, line_end, marker, marker_standing, merge_language, overlapped,
    question_end, reaches, soft_offer, stands_at, triage_of, truncated, without_lead,
    without_marks, Role, TriageState, HARD_MARKERS, MARKERS, MAX_ASK_LEN, STUB_LEN,
};
use vstd::prelude::*;

verus! {

// ---------------------------------------------------------------------
// What an ask looks like
// ---------------------------------------------------------------------

/// Whether `s` stands on one line.
pub open spec fn one_line(s: Seq<char>) -> bool {
    forall|i: int| 0 <= i < s.len() ==> #[trigger] s[i] != '\n'
}

/// Whether `ask` is a piece of `text`, or the head of one with an ellipsis
/// where it was cut to length.
pub open spec fn verbatim(ask: Seq<char>, text: Seq<char>) -> bool {
    ||| has(text, ask)
    ||| ask.len() == MAX_ASK_LEN && ask.last() == '…' && has(text, ask.drop_last())
}

/// What holds of an ask taken from `text`.
spec fn proper(ask: Seq<char>, text: Seq<char>) -> bool {
    &&& 1 <= ask.len() <= MAX_ASK_LEN
    &&& !is_space(ask[0])
    &&& !is_space(ask.last())
    &&& one_line(ask)
    &&& !declines(ask)
    &&& verbatim(ask, text)
}

pub(crate) proof fn lemma_sub(s: Seq<char>, i: int, j: int)
    requires
        0 <= i <= j <= s.len(),
    ensures
        has(s, s.subrange(i, j)),
{
    assert(occurs_at(s, s.subrange(i, j), i));
}

pub(crate) proof fn lemma_within(a: Seq<char>, b: Seq<char>, c: Seq<char>)
    requires
        has(b, a),
        has(c, b),
    ensures
        has(c, a),
        one_line(b) ==> one_line(a),
{
    let i = choose|i: int| #[trigger] occurs_at(b, a, i);
    let j = choose|j: int| #[trigger] occurs_at(c, b, j);
    assert forall|m: int| 0 <= m < a.len() implies #[trigger] a[m] == b[i + m] by {
        assert(a[m] == b.subrange(i, i + a.len())[m]);
    }
    assert forall|m: int| 0 <= m < b.len() implies #[trigger] b[m] == c[j + m] by {
        assert(b[m] == c.subrange(j, j + b.len())[m]);
    }
    assert(c.subrange(j + i, j + i + a.len()) =~= a);
    assert(occurs_at(c, a, j + i));
}

pub(crate) proof fn lemma_trimmed_start(s: Seq<char>)
    ensures
        without_leading_space(s).len() > 0 ==> !is_space(without_leading_space(s)[0]),
        s.len() > 0 && !is_space(s[0]) ==> without_leading_space(s) == s,
        has(s, without_leading_space(s)),
    decreases s.len(),
{
    if s.len() > 0 && is_space(s[0]) {
        lemma_trimmed_start(s.skip(1));
        lemma_sub(s, 1, s.len() as int);
        lemma_within(without_leading_space(s), s.skip(1), s);
    } else {
        lemma_sub(s, 0, s.len() as int);
        assert(s.subrange(0, s.len() as int) == s);
    }
}

pub(crate) proof fn lemma_trimmed_end(s: Seq<char>)
    ensures
        without_trailing_space(s).len() > 0 ==> !is_space(without_trailing_space(s).last())
            && without_trailing_space(s)[0] == s[0],
        s.len() > 0 && !is_space(s[0]) ==> without_trailing_space(s).len() > 0,
        has(s, without_trailing_space(s)),
    decreases s.len(),
{
    if s.len() > 0 && is_space(s.last()) {
        lemma_trimmed_end(s.drop_last());
        lemma_sub(s, 0, s.len() - 1);
        assert(s.subrange(0, s.len() - 1) == s.drop_last());
        lemma_within(without_trailing_space(s), s.drop_last(), s);
    } else {
        lemma_sub(s, 0, s.len() as int);
        assert(s.subrange(0, s.len() as int) == s);
    }
}

pub(crate) proof fn lemma_trimmed(s: Seq<char>)
    ensures
        trimmed(s).len() > 0 ==> !is_space(trimmed(s)[0]) && !is_space(trimmed(s).last()),
        s.len() > 0 && !is_space(s[0]) ==> trimmed(s).len() > 0 && trimmed(s)[0] == s[0],
        has(s, trimmed(s)),
{
    lemma_trimmed_start(s);
    lemma_trimmed_end(without_leading_space(s));
    lemma_within(trimmed(s), without_leading_space(s), s);
}

pub(crate) proof fn lemma_question_end(s: Seq<char>, i: nat)
    ensures
        question_end(s, i) <= s.len(),
        i < s.len() ==> question_end(s, i) > i,
    decreases s.len() - i,
{
    if i < s.len() {
        lemma_question_end(s, i + 1);
    }
}

proof fn lemma_begins_in_head(s: Seq<char>, t: Seq<char>, phrase: Seq<char>)
    requires
        phrase.len() < t.len(),
        phrase.len() < s.len(),
        s.take(phrase.len() as int + 1) == t.take(phrase.len() as int + 1),
        begins(t, phrase),
    ensures
        begins(s, phrase),
{
    let n = phrase.len() as int;
    assert forall|i: int| 0 <= i <= n implies s[i] == t[i] by {
        assert(s.take(n + 1)[i] == t.take(n + 1)[i]);
    }
    assert(phrase =~= lowered(s).subrange(0, n)) by {
        assert forall|i: int| 0 <= i < n implies phrase[i] == lowered(s)[i] by {
            assert(phrase[i] == lowered(t).subrange(0, n)[i]);
        }
    }
}

proof fn lemma_line_ask(line: Seq<char>)
    requires
        one_line(line),
    ensures
        ask_in_line(line) matches Some(ask) ==> proper(ask, line),
{
    lemma_question_end(line, 0);
    let question = first_question(line);
    lemma_sub(line, 0, question_end(line, 0) as int);
    assert(line.subrange(0, question_end(line, 0) as int) == question);
    lemma_trimmed(question);
    let full = trimmed(question);
    lemma_within(full, question, line);
    assert(one_line(question));
    let ask = truncated(full, MAX_ASK_LEN as nat);
    if full.len() > MAX_ASK_LEN && !declines(full) {
        let kept = full.take(MAX_ASK_LEN - 1);
        lemma_sub(full, 0, MAX_ASK_LEN - 1);
        assert(full.subrange(0, MAX_ASK_LEN - 1) == kept);
        lemma_within(kept, full, line);
        assert(ask.drop_last() == kept);
        assert forall|i: int| 0 <= i < ask.len() implies #[trigger] ask[i] != '\n' by {
            if i < ask.len() - 1 {
                assert(ask[i] == kept[i]);
            }
        }
        reveal_strlit("nothing");
        reveal_strlit("none");
        reveal_strlit("no action");
        assert(forall|i: int| 0 <= i < ask.len() - 1 ==> ask[i] == full[i]);
        if begins(ask, "nothing"@) {
            assert(full.take(8) == ask.take(8));
            lemma_begins_in_head(full, ask, "nothing"@);
        }
        if begins(ask, "none"@) {
            assert(full.take(5) == ask.take(5));
            lemma_begins_in_head(full, ask, "none"@);
        }
        if begins(ask, "no action"@) {
            assert(full.take(10) == ask.take(10));
            lemma_begins_in_head(full, ask, "no action"@);
        }
    }
}

proof fn lemma_lines(s: Seq<char>)
    ensures
        forall|i: int|
            0 <= i < lines_of(s).len() ==> one_line(#[trigger] lines_of(s)[i]) && has(
                s,
                lines_of(s)[i],
            ),
    decreases s.len(),
{
    let n = first_of(s, '\n') as int;
    lemma_first_of(s, '\n');
    if s.len() > 0 && n < s.len() {
        let tail = s.skip(n + 1);
        lemma_lines(tail);
        lemma_sub(s, n + 1, s.len() as int);
        let line = without_return(s.take(n));
        lemma_sub(s, 0, line.len() as int);
        assert(s.subrange(0, line.len() as int) == line);
        assert forall|i: int| 0 <= i < lines_of(s).len() implies one_line(
            #[trigger] lines_of(s)[i],
        ) && has(s, lines_of(s)[i]) by {
            if i > 0 {
                assert(lines_of(s)[i] == lines_of(tail)[i - 1]);
                lemma_within(lines_of(tail)[i - 1], tail, s);
            }
        }
    } else if s.len() > 0 {
        lemma_sub(s, 0, s.len() as int);
        assert(s.subrange(0, s.len() as int) == s);
    }
}

proof fn lemma_first_filled(lines: Seq<Seq<char>>, s: Seq<char>)
    requires
        forall|i: int| 0 <= i < lines.len() ==> one_line(#[trigger] lines[i]) && has(s, lines[i]),
    ensures
        first_filled(lines) matches Some(line) ==> one_line(line) && has(s, line),
    decreases lines.len(),
{
    if lines.len() > 0 {
        if trimmed(lines[0]).len() > 0 {
            lemma_trimmed(lines[0]);
            lemma_within(trimmed(lines[0]), lines[0], s);
        } else {
            assert forall|i: int| 0 <= i < lines.skip(1).len() implies one_line(
                #[trigger] lines.skip(1)[i],
            ) && has(s, lines.skip(1)[i]) by {
                assert(lines.skip(1)[i] == lines[i + 1]);
            }
            lemma_first_filled(lines.skip(1), s);
        }
    }
}

proof fn lemma_ask_in(s: Seq<char>, text: Seq<char>)
    requires
        has(text, s),
    ensures
        ask_in(s) matches Some(ask) ==> proper(ask, text),
{
    lemma_lines(s);
    lemma_first_filled(lines_of(s), s);
    match first_filled(lines_of(s)) {
        Some(line) => {
            lemma_line_ask(line);
            if let Some(ask) = ask_in_line(line) {
                lemma_within(line, s, text);
                if has(line, ask) {
                    lemma_within(ask, line, text);
                } else {
                    lemma_within(ask.drop_last(), line, text);
                }
            }
        },
        None => {},
    }
}

proof fn lemma_without_lead(s: Seq<char>)
    ensures
        has(s, without_lead(s)),
    decreases s.len(),
{
    if s.len() > 0 && without_lead(s) != s {
        lemma_without_lead(s.skip(1));
        lemma_sub(s, 1, s.len() as int);
        lemma_within(without_lead(s.skip(1)), s.skip(1), s);
    } else {
        lemma_sub(s, 0, s.len() as int);
        assert(s.subrange(0, s.len() as int) == s);
    }
}

proof fn lemma_without_marks(s: Seq<char>)
    ensures
        has(s, without_marks(s)),
    decreases s.len(),
{
    if s.len() > 0 && is_mark(s[0]) {
        lemma_without_marks(s.skip(1));
        lemma_sub(s, 1, s.len() as int);
        lemma_within(without_marks(s.skip(1)), s.skip(1), s);
    } else {
        lemma_sub(s, 0, s.len() as int);
        assert(s.subrange(0, s.len() as int) == s);
    }
}

pub(crate) proof fn lemma_standing(s: Seq<char>, i: int, k: int, to: int)
    ensures
        marker_standing(s, i, k, to) matches Some(m) ==> k <= m < to && stands_at(
            s,
            marker(m).0,
            i,
        ),
        marker_standing(s, i, k, to) is None ==> forall|m: int|
            k <= m < to ==> !stands_at(s, (#[trigger] marker(m)).0, i),
    decreases to - k,
{
    if k < to {
        lemma_standing(s, i, k + 1, to);
    }
}

proof fn lemma_ask_at(text: Seq<char>, i: int, hard: bool)
    requires
        0 <= i < text.len(),
    ensures
        ask_at(text, i, hard) matches Some(ask) ==> proper(ask, text),
{
    let low = lowered(text);
    lemma_standing(low, i, 0, HARD_MARKERS as int);
    lemma_standing(low, i, HARD_MARKERS as int, MARKERS as int);
    let (from, to) = if hard {
        (0, HARD_MARKERS as int)
    } else {
        (HARD_MARKERS as int, MARKERS as int)
    };
    lemma_sub(text, i, text.len() as int);
    match marker_standing(low, i, from, to) {
        Some(k) => {
            if marker(k).1 {
                let after = text.skip(i + marker(k).0.len());
                lemma_sub(text, i + marker(k).0.len(), text.len() as int);
                lemma_without_marks(after);
                lemma_without_lead(without_marks(after));
                lemma_within(without_marks(after), after, text);
                lemma_within(captured(text, k, i), without_marks(after), text);
            }
            lemma_ask_in(captured(text, k, i), text);
        },
        None => {
            lemma_without_lead(text.skip(i));
            lemma_within(without_lead(text.skip(i)), text.skip(i), text);
            lemma_ask_in(without_lead(text.skip(i)), text);
        },
    }
}

proof fn lemma_last_ask(text: Seq<char>, n: nat, hard: bool)
    requires
        n <= text.len(),
    ensures
        last_ask(text, n, hard) matches Some(ask) ==> proper(ask, text),
    decreases n,
{
    if n > 0 {
        lemma_ask_at(text, n - 1, hard);
        lemma_last_ask(text, (n - 1) as nat, hard);
    }
}

proof fn lemma_ask(text: Seq<char>)
    ensures
        ask_of(text) matches Some(ask) ==> proper(ask, plain_text(text)),
{
    let plain = plain_text(text);
    lemma_last_ask(plain, plain.len(), true);
    lemma_last_ask(plain, plain.len(), false);
}

/// An extracted ask is never empty and never longer than the limit.
pub proof fn law_ask_fits(text: Seq<char>)
    ensures
        ask_of(text) matches Some(ask) ==> 1 <= ask.len() <= MAX_ASK_LEN,
{
    lemma_ask(text);
}

/// An extracted ask stands on one line and has no whitespace at its ends.
pub proof fn law_ask_is_clean(text: Seq<char>)
    ensures
        ask_of(text) matches Some(ask) ==> one_line(ask) && !is_space(ask[0]) && !is_space(
            ask.last(),
        ),
{
    lemma_ask(text);
}

/// An extracted ask is verbatim: it is a piece of the text once the Markdown
/// marks that come in pairs are gone, or the head of such a piece where it
/// was cut to length.
pub proof fn law_ask_is_verbatim(text: Seq<char>)
    ensures
        ask_of(text) matches Some(ask) ==> verbatim(ask, plain_text(text)),
{
    lemma_ask(text);
}

/// In a text without Markdown marks, an extracted ask is a piece of the text
/// itself, or the head of one where it was cut to length.
pub proof fn law_ask_is_verbatim_without_marks(text: Seq<char>)
    requires
        forall|i: int| 0 <= i < text.len() ==> !is_mark(#[trigger] text[i]),
    ensures
        ask_of(text) matches Some(ask) ==> verbatim(ask, text),
{
    lemma_ask(text);
    law_no_marks_no_change(text);
}

/// An ask that begins with "Nothing", "None" or "No action" does not count.
pub proof fn law_declined_ask_does_not_count(text: Seq<char>)
    ensures
        ask_of(text) matches Some(ask) ==> !declines(ask),
{
    lemma_ask(text);
}

// ---------------------------------------------------------------------
// Which ask is extracted
// ---------------------------------------------------------------------

pub(crate) proof fn lemma_last_is(text: Seq<char>, n: nat, i: int, hard: bool)
    requires
        0 <= i < n,
        ask_at(text, i, hard) is Some,
        forall|j: int| i < j < n ==> #[trigger] ask_at(text, j, hard) is None,
    ensures
        last_ask(text, n, hard) == ask_at(text, i, hard),
    decreases n,
{
    if i < n - 1 {
        assert(ask_at(text, n - 1, hard) is None);
        lemma_last_is(text, (n - 1) as nat, i, hard);
    }
}

pub(crate) proof fn lemma_none(text: Seq<char>, n: nat, hard: bool)
    requires
        forall|j: int| 0 <= j < n ==> #[trigger] ask_at(text, j, hard) is None,
    ensures
        last_ask(text, n, hard) is None,
    decreases n,
{
    if n > 0 {
        assert(ask_at(text, n - 1, hard) is None);
        lemma_none(text, (n - 1) as nat, hard);
    }
}

pub(crate) proof fn lemma_some(text: Seq<char>, n: nat, i: int, hard: bool)
    requires
        0 <= i < n,
        ask_at(text, i, hard) is Some,
    ensures
        last_ask(text, n, hard) is Some,
    decreases n,
{
    if i < n - 1 {
        lemma_some(text, (n - 1) as nat, i, hard);
    }
}

/// The last ask wins: where no ask starts after the one at `i`, that one is
/// extracted. A marker that introduces nothing, or a declined ask, is passed
/// over for the one before it.
pub proof fn law_last_ask_wins(text: Seq<char>, i: int)
    requires
        0 <= i < plain_text(text).len(),
        ask_at(plain_text(text), i, true) is Some,
        forall|j: int|
            i < j < plain_text(text).len() ==> #[trigger] ask_at(plain_text(text), j, true) is None,
    ensures
        ask_of(text) == ask_at(plain_text(text), i, true),
{
    lemma_last_is(plain_text(text), plain_text(text).len(), i, true);
}

/// Hard before soft: an offer is extracted only from a message that asks
/// nothing, wherever in the message the offer stands.
pub proof fn law_hard_before_soft(text: Seq<char>)
    ensures
        hard_ask(text) is Some ==> ask_of(text) == hard_ask(text),
        hard_ask(text) is None ==> ask_of(text) == soft_offer(text),
{
}

pub(crate) proof fn lemma_marker(k: int)
    requires
        0 <= k < MARKERS,
    ensures
        marker(k).0.len() > 0,
        forall|m: int| 0 <= m < marker(k).0.len() ==> #[trigger] marker(k).0[m] != '\n',
        forall|m: int|
            0 < m < marker(k).0.len() && !is_word(marker(k).0[m - 1]) ==> (
            #[trigger] marker(k).0[m]) != 's' && marker(k).0[m] != 'd' && marker(k).0[m] != 'p'
                && marker(k).0[m] != 'l' && (marker(k).0[m] == 'w' && k != 4 ==> m + 1
                < marker(k).0.len() && marker(k).0[m + 1] == 'o'),
{
    reveal_strlit("what i need from you");
    reveal_strlit("i need from you");
    reveal_strlit("say the word");
    reveal_strlit("should i");
    reveal_strlit("do you want");
    reveal_strlit("please test");
    reveal_strlit("want me to");
    reveal_strlit("let me know");
}

proof fn lemma_shift_stands(p: Seq<char>, t: Seq<char>, phrase: Seq<char>, i: int)
    requires
        p.len() > 0,
        p.last() == '\n',
        0 <= i,
    ensures
        stands_at(p + t, phrase, p.len() + i) == stands_at(t, phrase, i),
{
    let s = p + t;
    let n = p.len() as int;
    if i + phrase.len() <= t.len() {
        assert(s.subrange(n + i, n + i + phrase.len()) =~= t.subrange(i, i + phrase.len()));
    }
}

proof fn lemma_shift_standing(p: Seq<char>, t: Seq<char>, i: int, k: int, to: int)
    requires
        p.len() > 0,
        p.last() == '\n',
        0 <= i,
    ensures
        marker_standing(p + t, p.len() + i, k, to) == marker_standing(t, i, k, to),
    decreases to - k,
{
    if k < to {
        lemma_shift_stands(p, t, marker(k).0, i);
        lemma_shift_standing(p, t, i, k + 1, to);
    }
}

proof fn lemma_shift_overlapped(p: Seq<char>, t: Seq<char>, i: int)
    requires
        p.len() > 0,
        p.last() == '\n',
        0 <= i,
    ensures
        overlapped(p + t, p.len() + i) == overlapped(t, i),
{
    let s = p + t;
    let n = p.len() as int;
    if overlapped(t, i) {
        let (k, j) = choose|k: int, j: int|
            0 <= k < MARKERS && 0 <= j < i && #[trigger] reaches(t, k, j, i);
        lemma_shift_stands(p, t, marker(k).0, j);
        assert(reaches(s, k, n + j, n + i));
    }
    if overlapped(s, n + i) {
        let (k, j) = choose|k: int, j: int|
            0 <= k < MARKERS && 0 <= j < n + i && #[trigger] reaches(s, k, j, n + i);
        let phrase = marker(k).0;
        if j < n {
            lemma_marker(k);
            assert(s.subrange(j, j + phrase.len())[n - 1 - j] == s[n - 1]);
            assert(phrase[n - 1 - j] == '\n');
        } else {
            lemma_shift_stands(p, t, phrase, j - n);
            assert(reaches(t, k, j - n, i));
        }
    }
}

proof fn lemma_shift_yes_no(p: Seq<char>, t: Seq<char>, i: int)
    requires
        p.len() > 0,
        p.last() == '\n',
        0 <= i < t.len(),
    ensures
        asks_yes_no(p + t, p.len() + i) == asks_yes_no(t, i),
{
    let s = p + t;
    let n = p.len() as int;
    let phrase = "yes/no"@;
    assert(s.skip(n + i) =~= t.skip(i));
    let end = line_end(t, i);
    assert(line_end(s, n + i) == n + end);
    assert forall|j: int| 0 <= j implies #[trigger] stands_at(t, phrase, j) == stands_at(
        s,
        phrase,
        n + j,
    ) by {
        lemma_shift_stands(p, t, phrase, j);
    }
    assert forall|j: int| 0 <= j implies #[trigger] marker_standing(t, j, 0, HARD_MARKERS as int)
        == marker_standing(s, n + j, 0, HARD_MARKERS as int) by {
        lemma_shift_standing(p, t, j, 0, HARD_MARKERS as int);
    }
    if asks_yes_no(t, i) {
        let j = choose|j: int| i <= j < end && #[trigger] stands_at(t, phrase, j);
        assert(stands_at(s, phrase, n + j));
        assert forall|m: int| n + i <= m < n + end implies #[trigger] marker_standing(
            s,
            m,
            0,
            HARD_MARKERS as int,
        ) is None by {
            assert(marker_standing(t, m - n, 0, HARD_MARKERS as int) is None);
        }
    }
    if asks_yes_no(s, n + i) {
        let j = choose|j: int| n + i <= j < n + end && #[trigger] stands_at(s, phrase, j);
        assert(stands_at(t, phrase, j - n));
        assert forall|m: int| i <= m < end implies #[trigger] marker_standing(
            t,
            m,
            0,
            HARD_MARKERS as int,
        ) is None by {
            assert(marker_standing(s, n + m, 0, HARD_MARKERS as int) is None);
        }
    }
}

proof fn lemma_shift_ask(p: Seq<char>, t: Seq<char>, i: int, hard: bool)
    requires
        p.len() > 0,
        p.last() == '\n',
        0 <= i < t.len(),
    ensures
        ask_at(p + t, p.len() + i, hard) == ask_at(t, i, hard),
{
    let s = p + t;
    let n = p.len() as int;
    let low = lowered(p);
    assert(lowered(s) =~= low + lowered(t));
    assert(low.last() == '\n');
    let (from, to) = if hard {
        (0, HARD_MARKERS as int)
    } else {
        (HARD_MARKERS as int, MARKERS as int)
    };
    lemma_shift_standing(low, lowered(t), i, from, to);
    lemma_shift_overlapped(low, lowered(t), i);
    lemma_shift_yes_no(low, lowered(t), i);
    assert(s.skip(n + i) =~= t.skip(i));
    lemma_standing(lowered(t), i, from, to);
    if let Some(k) = marker_standing(lowered(t), i, from, to) {
        let m = marker(k).0.len();
        assert(s.skip(n + i + m) =~= t.skip(i + m));
    }
}

proof fn lemma_shift_last(p: Seq<char>, t: Seq<char>, n: nat, hard: bool)
    requires
        p.len() > 0,
        p.last() == '\n',
        n <= t.len(),
        last_ask(t, n, hard) is Some,
    ensures
        last_ask(p + t, p.len() + n, hard) == last_ask(t, n, hard),
    decreases n,
{
    if n > 0 {
        lemma_shift_ask(p, t, n - 1, hard);
        if ask_at(t, n - 1, hard) is None {
            lemma_shift_last(p, t, (n - 1) as nat, hard);
        }
    }
}

/// The last lines decide: what stands on earlier lines does not change the
/// ask of a text that holds a hard ask. Nor does it change the offer of a
/// text, as long as the whole asks nothing.
pub proof fn law_earlier_lines_do_not_matter(earlier: Seq<char>, text: Seq<char>)
    requires
        ask_of(text) is Some,
        hard_ask(text) is Some || hard_ask(earlier.push('\n') + text) is None,
    ensures
        ask_of(earlier.push('\n') + text) == ask_of(text),
{
    law_lines_are_apart(earlier, text);
    let p = plain_text(earlier).push('\n');
    let t = plain_text(text);
    if hard_ask(text) is Some {
        lemma_shift_last(p, t, t.len(), true);
    } else {
        lemma_shift_last(p, t, t.len(), false);
    }
}

pub(crate) proof fn lemma_sentence_asks(s: Seq<char>)
    requires
        s.len() > 0,
        lower(s[0]) != 'n',
        !is_space(s[0]),
    ensures
        ask_in(s) is Some,
{
    let n = first_of(s, '\n') as int;
    lemma_first_of(s, '\n');
    assert(s[0] != '\n');
    let line = lines_of(s)[0];
    assert(line.len() > 0 && line[0] == s[0]);
    lemma_trimmed(line);
    let filled = trimmed(line);
    assert(first_filled(lines_of(s)) == Some(filled));
    lemma_question_end(filled, 0);
    let question = first_question(filled);
    assert(question[0] == s[0]);
    lemma_trimmed(question);
    let ask = trimmed(question);
    assert(ask[0] == s[0]);
    assert(lowered(ask)[0] == lower(s[0]));
    reveal_strlit("nothing");
    reveal_strlit("none");
    reveal_strlit("no action");
    assert(!declines(ask)) by {
        assert("nothing"@[0] == 'n' && "none"@[0] == 'n' && "no action"@[0] == 'n');
        if begins(ask, "nothing"@) {
            assert(lowered(ask).subrange(0, "nothing"@.len() as int)[0] == 'n');
        }
        if begins(ask, "none"@) {
            assert(lowered(ask).subrange(0, "none"@.len() as int)[0] == 'n');
        }
        if begins(ask, "no action"@) {
            assert(lowered(ask).subrange(0, "no action"@.len() as int)[0] == 'n');
        }
    }
}

pub(crate) proof fn lemma_question_asks(text: Seq<char>, k: int, i: int)
    requires
        0 <= k < HARD_MARKERS,
        !marker(k).1,
        stands_at(lowered(text), marker(k).0, i),
    ensures
        0 <= i < text.len(),
        ask_at(text, i, true) is Some,
{
    let low = lowered(text);
    let phrase = marker(k).0;
    reveal_strlit("what i need from you");
    reveal_strlit("i need from you");
    reveal_strlit("say the word");
    reveal_strlit("should i");
    reveal_strlit("do you want");
    reveal_strlit("please test");
    assert(phrase[0] == 's' || phrase[0] == 'd' || phrase[0] == 'p');
    assert(low.subrange(i, i + phrase.len())[0] == phrase[0]);
    assert(low[i] == phrase[0]);
    lemma_standing(low, i, 0, HARD_MARKERS as int);
    let m = marker_standing(low, i, 0, HARD_MARKERS as int);
    assert(m is Some);
    assert(low.subrange(i, i + marker(m->0).0.len())[0] == marker(m->0).0[0]);
    assert(!marker(m->0).1);
    if overlapped(low, i) {
        let (q, j) = choose|q: int, j: int|
            0 <= q < MARKERS && 0 <= j < i && #[trigger] reaches(low, q, j, i);
        lemma_marker(q);
        let outer = marker(q).0;
        let d = i - j;
        assert(low.subrange(j, j + outer.len())[d] == low[i]);
        assert(low.subrange(j, j + outer.len())[d - 1] == low[i - 1]);
        assert(outer[d] == phrase[0]);
        assert(!is_word(outer[d - 1]));
    }
    assert(low[i] == lower(text[i]));
    lemma_sentence_asks(text.skip(i));
}

/// A direct question, a review request or a "say the word" is always an ask:
/// a message in which such a marker stands as whole words has a hard ask.
pub proof fn law_question_is_asked(text: Seq<char>, k: int, i: int)
    requires
        0 <= k < HARD_MARKERS,
        !marker(k).1,
        stands_at(lowered(plain_text(text)), marker(k).0, i),
    ensures
        hard_ask(text) is Some,
{
    lemma_question_asks(plain_text(text), k, i);
    lemma_some(plain_text(text), plain_text(text).len(), i, true);
}

pub(crate) proof fn lemma_offer_asks(text: Seq<char>, k: int, i: int)
    requires
        HARD_MARKERS <= k < MARKERS,
        stands_at(lowered(text), marker(k).0, i),
    ensures
        0 <= i < text.len(),
        ask_at(text, i, false) is Some || exists|j: int|
            0 <= j && #[trigger] stands_at(lowered(text), marker(4).0, j),
{
    let low = lowered(text);
    let phrase = marker(k).0;
    reveal_strlit("want me to");
    reveal_strlit("let me know");
    assert(phrase[0] == 'w' && phrase[1] == 'a' || phrase[0] == 'l');
    assert(low.subrange(i, i + phrase.len())[0] == low[i]);
    assert(low.subrange(i, i + phrase.len())[1] == low[i + 1]);
    lemma_standing(low, i, HARD_MARKERS as int, MARKERS as int);
    if overlapped(low, i) {
        let (q, j) = choose|q: int, j: int|
            0 <= q < MARKERS && 0 <= j < i && #[trigger] reaches(low, q, j, i);
        lemma_marker(q);
        let outer = marker(q).0;
        let d = i - j;
        assert(low.subrange(j, j + outer.len())[d] == low[i]);
        assert(low.subrange(j, j + outer.len())[d - 1] == low[i - 1]);
        assert(outer[d] == phrase[0]);
        assert(!is_word(outer[d - 1]));
        if q != 4 {
            assert(low.subrange(j, j + outer.len())[d + 1] == low[i + 1]);
            assert(outer[d + 1] == 'o');
        }
    } else {
        assert(low[i] == lower(text[i]));
        lemma_sentence_asks(text.skip(i));
    }
}

/// No marker phrase is lost: a message in which a marker other than a label
/// stands as whole words always leaves an ask or an offer.
pub proof fn law_marker_leaves_something(text: Seq<char>, k: int, i: int)
    requires
        0 <= k < MARKERS,
        !marker(k).1,
        stands_at(lowered(plain_text(text)), marker(k).0, i),
    ensures
        ask_of(text) is Some,
{
    let plain = plain_text(text);
    if k < HARD_MARKERS {
        law_question_is_asked(text, k, i);
    } else {
        lemma_offer_asks(plain, k, i);
        if ask_at(plain, i, false) is Some {
            lemma_some(plain, plain.len(), i, false);
        } else {
            let j = choose|j: int| 0 <= j && #[trigger] stands_at(lowered(plain), marker(4).0, j);
            law_question_is_asked(text, 4, j);
        }
    }
}

/// The last question decides: where such a marker stands in the last lines
/// of a message, the lines before them do not change the ask.
pub proof fn law_last_question_decides(earlier: Seq<char>, text: Seq<char>, k: int, i: int)
    requires
        0 <= k < HARD_MARKERS,
        !marker(k).1,
        stands_at(lowered(plain_text(text)), marker(k).0, i),
    ensures
        ask_of(earlier.push('\n') + text) == ask_of(text),
        ask_of(text) is Some,
{
    law_question_is_asked(text, k, i);
    law_earlier_lines_do_not_matter(earlier, text);
}

/// A message without a marker phrase and without "yes/no" asks nothing.
pub proof fn law_no_marker_no_ask(text: Seq<char>)
    requires
        forall|k: int, i: int|
            0 <= k < MARKERS ==> !#[trigger] stands_at(
                lowered(plain_text(text)),
                marker(k).0,
                i,
            ),
        forall|i: int| !#[trigger] stands_at(lowered(plain_text(text)), "yes/no"@, i),
    ensures
        ask_of(text) is None,
{
    let plain = plain_text(text);
    let low = lowered(plain);
    assert forall|i: int| 0 <= i < plain.len() implies #[trigger] ask_at(plain, i, true) is None by {
        lemma_standing(low, i, 0, HARD_MARKERS as int);
    }
    assert forall|i: int| 0 <= i < plain.len() implies #[trigger] ask_at(
        plain,
        i,
        false,
    ) is None by {
        lemma_standing(low, i, HARD_MARKERS as int, MARKERS as int);
    }
    lemma_none(plain, plain.len(), true);
    lemma_none(plain, plain.len(), false);
}

// ---------------------------------------------------------------------
// Asks and buckets
// ---------------------------------------------------------------------

/// A thread is Running when the agent has not replied, or while its final
/// message still uses tools.
pub proof fn law_unanswered_is_running(
    last_role: Option<Role>,
    has_tool_use: bool,
    final_agent_text: Seq<char>,
)
    requires
        last_role != Some(Role::Agent) || has_tool_use,
    ensures
        triage_of(last_role, has_tool_use, final_agent_text) == (
            TriageState::Running,
            None::<Seq<char>>,
        ),
{
}

/// A thread that needs the user always shows a hard ask, and a Running
/// thread shows none. What a Done thread shows is an offer: its message has
/// no hard ask.
pub proof fn law_state_shows_ask(
    last_role: Option<Role>,
    has_tool_use: bool,
    final_agent_text: Seq<char>,
)
    ensures
        ({
            let text = trimmed(final_agent_text);
            let (state, ask) = triage_of(last_role, has_tool_use, final_agent_text);
            &&& state == TriageState::NeedsYou ==> ask is Some && ask == hard_ask(text)
            &&& state == TriageState::Running ==> ask is None
            &&& state == TriageState::Done ==> hard_ask(text) is None && ask == soft_offer(text)
        }),
{
}

/// A hard ask decides where a thread goes: when the agent is at rest and
/// asks for something, the thread awaits a merge if both the message and
/// the ask speak of merging, and needs the user otherwise.
pub proof fn law_ask_wins_unless_it_merges(final_agent_text: Seq<char>)
    requires
        hard_ask(trimmed(final_agent_text)) is Some,
    ensures
        ({
            let text = trimmed(final_agent_text);
            let ask = hard_ask(text)->0;
            let merges = merge_language(text) && merge_language(ask);
            triage_of(Some(Role::Agent), false, final_agent_text) == (
                if merges {
                    TriageState::AwaitingMerge
                } else {
                    TriageState::NeedsYou
                },
                Some(ask),
            )
        }),
{
}

/// A soft offer demands no attention: a thread that asks nothing and makes an
/// offer is Done and shows the offer, unless both the message and the offer
/// speak of merging.
pub proof fn law_offer_is_kept_under_done(final_agent_text: Seq<char>)
    requires
        hard_ask(trimmed(final_agent_text)) is None,
        soft_offer(trimmed(final_agent_text)) is Some,
    ensures
        ({
            let text = trimmed(final_agent_text);
            let offer = soft_offer(text)->0;
            let merges = merge_language(text) && merge_language(offer);
            triage_of(Some(Role::Agent), false, final_agent_text) == (
                if merges {
                    TriageState::AwaitingMerge
                } else {
                    TriageState::Done
                },
                Some(offer),
            )
        }),
{
}

/// A thread is Done just when the agent spoke last, uses no tool, has no hard
/// ask, and either makes an offer that is not about merging, or makes none,
/// says nothing of merging and wrote more than a stub.
pub proof fn law_done_is_complete(
    last_role: Option<Role>,
    has_tool_use: bool,
    final_agent_text: Seq<char>,
)
    ensures
        triage_of(last_role, has_tool_use, final_agent_text).0 == TriageState::Done <==> {
            let text = trimmed(final_agent_text);
            &&& last_role == Some(Role::Agent)
            &&& !has_tool_use
            &&& hard_ask(text) is None
            &&& match soft_offer(text) {
                Some(offer) => !(merge_language(text) && merge_language(offer)),
                None => !merge_language(text) && text.len() >= STUB_LEN,
            }
        },
{
}

} // verus!
