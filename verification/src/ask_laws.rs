//! What a message asks, told by the words that stand in it: which phrases
//! ask, where an ask begins and where it ends.

use crate::markup::plain_text;
use crate::text::{
    first_filled, first_of, is_space, lemma_first_is, lemma_first_of, lines_of, lower, lowered,
    trimmed, without_leading_space, without_return, without_trailing_space,
};
use crate::triage::{
    alphanumeric, ask_at, ask_in, ask_in_line, ask_of, asks_yes_no, begins, captured, declines,
    ends_question, first_question, hard_ask, is_word, line_end, marker, marker_standing,
    merge_language, overlapped, question_end, reaches, regex_verdict, soft_offer, stands_at,
    triage_of, truncated, without_lead, without_marks, Role, TriageState, HARD_MARKERS, MARKERS, MAX_ASK_LEN,
};
use crate::triage_laws::{
    lemma_last_is, lemma_marker, lemma_none, lemma_question_end, lemma_some, lemma_standing,
};
use vstd::prelude::*;

verus! {

// ---------------------------------------------------------------------
// Words
// ---------------------------------------------------------------------

/// A letter or digit of any script, or an underscore.
pub open spec fn in_word(c: char) -> bool {
    ||| 'a' <= c <= 'z'
    ||| 'A' <= c <= 'Z'
    ||| '0' <= c <= '9'
    ||| c == '_'
    ||| c > '\u{7f}' && alphanumeric(c)
}

/// Punctuation and whitespace that lead up to an ask.
pub open spec fn leads_up(c: char) -> bool {
    ||| c == ':'
    ||| c == '-'
    ||| c == '—'
    ||| c == '.'
    ||| c == ','
    ||| c == ';'
    ||| c == '!'
    ||| c == '?'
    ||| c == ')'
    ||| is_space(c)
}

/// Whether what stands in `s` from `b` up to `a` leads up to an ask:
/// punctuation, whitespace and the asterisks of list items.
pub open spec fn only_leads_up(s: Seq<char>, b: int, a: int) -> bool {
    forall|m: int|
        b <= m < a ==> leads_up(#[trigger] s[m]) || (s[m] == '*' && m + 1 < s.len() && is_space(
            s[m + 1],
        ))
}

/// Whether the character begins an ask.
pub open spec fn opens_ask(c: char) -> bool {
    !leads_up(c) && c != '*' && c != '`'
}

/// Whether `c` is the letter `small` in either case, or just that character
/// when it is no letter.
pub open spec fn is_letter(c: char, small: char) -> bool {
    c == small || ('A' <= c <= 'Z' && 'a' <= small <= 'z' && c as u32 + 32 == small as u32)
}

/// Whether `s` reads `phrase` at `i`, in whatever case.
pub open spec fn reads_at(s: Seq<char>, phrase: Seq<char>, i: int) -> bool {
    &&& 0 <= i
    &&& i + phrase.len() <= s.len()
    &&& forall|m: int| 0 <= m < phrase.len() ==> is_letter(s[i + m], #[trigger] phrase[m])
}

/// Whether the `n` characters of `s` at `i` are whole words: the character
/// before them and the one after them continue no word.
pub open spec fn stands_alone(s: Seq<char>, i: int, n: int) -> bool {
    &&& i == 0 || !in_word(s[i - 1])
    &&& i + n == s.len() || !in_word(s[i + n])
}

/// The phrases of a direct question, of a review request and of a standing
/// offer to go on.
pub open spec fn is_question(phrase: Seq<char>) -> bool {
    ||| phrase == "should i"@
    ||| phrase == "do you want"@
    ||| phrase == "please test"@
    ||| phrase == "say the word"@
}

/// The labels of a structured trailer.
pub open spec fn is_trailer(phrase: Seq<char>) -> bool {
    phrase == "what i need from you"@ || phrase == "i need from you"@
}

/// The phrases of a soft offer.
pub open spec fn is_offer(phrase: Seq<char>) -> bool {
    phrase == "want me to"@ || phrase == "let me know"@
}

/// Whether a phrase that asks is read at `i`.
pub open spec fn asks_at(s: Seq<char>, i: int) -> bool {
    exists|phrase: Seq<char>|
        (is_question(phrase) || is_trailer(phrase)) && #[trigger] reads_at(s, phrase, i)
}

/// Whether a phrase that offers is read at `i`.
pub open spec fn offers_at(s: Seq<char>, i: int) -> bool {
    exists|phrase: Seq<char>| is_offer(phrase) && #[trigger] reads_at(s, phrase, i)
}

proof fn lemma_phrases()
    ensures
        forall|k: int, m: int|
            0 <= k < MARKERS && 0 <= m < marker(k).0.len() ==> !('A' <= #[trigger] marker(
                k,
            ).0[m] <= 'Z'),
{
    reveal_strlit("what i need from you");
    reveal_strlit("i need from you");
    reveal_strlit("say the word");
    reveal_strlit("should i");
    reveal_strlit("do you want");
    reveal_strlit("please test");
    reveal_strlit("want me to");
    reveal_strlit("let me know");
}

proof fn lemma_reads(s: Seq<char>, phrase: Seq<char>, i: int)
    requires
        forall|m: int| 0 <= m < phrase.len() ==> !('A' <= #[trigger] phrase[m] <= 'Z'),
    ensures
        stands_at(lowered(s), phrase, i) == (reads_at(s, phrase, i) && stands_alone(
            s,
            i,
            phrase.len() as int,
        )),
{
    let low = lowered(s);
    let n = phrase.len() as int;
    if 0 <= i && i + n <= s.len() {
        if reads_at(s, phrase, i) {
            assert forall|m: int| 0 <= m < n implies low.subrange(i, i + n)[m] == phrase[m] by {
                assert(is_letter(s[i + m], phrase[m]));
            }
            assert(low.subrange(i, i + n) =~= phrase);
        }
        if low.subrange(i, i + n) == phrase {
            assert forall|m: int| 0 <= m < n implies is_letter(s[i + m], #[trigger] phrase[m]) by {
                assert(low.subrange(i, i + n)[m] == phrase[m]);
            }
        }
        if i > 0 {
            assert(low[i - 1] == lower(s[i - 1]));
        }
        if i + n < s.len() {
            assert(low[i + n] == lower(s[i + n]));
        }
    }
}

/// The place of a phrase among the markers.
spec fn place_of(phrase: Seq<char>) -> int {
    if phrase == "what i need from you"@ {
        0
    } else if phrase == "i need from you"@ {
        1
    } else if phrase == "say the word"@ {
        2
    } else if phrase == "should i"@ {
        3
    } else if phrase == "do you want"@ {
        4
    } else if phrase == "please test"@ {
        5
    } else if phrase == "want me to"@ {
        6
    } else {
        7
    }
}

proof fn lemma_place(phrase: Seq<char>)
    requires
        is_question(phrase) || is_trailer(phrase) || is_offer(phrase),
    ensures
        marker(place_of(phrase)).0 == phrase,
        is_question(phrase) ==> 2 <= place_of(phrase) < HARD_MARKERS,
        is_trailer(phrase) ==> 0 <= place_of(phrase) < 2,
        is_offer(phrase) ==> HARD_MARKERS <= place_of(phrase) < MARKERS,
{
    reveal_strlit("what i need from you");
    reveal_strlit("i need from you");
    reveal_strlit("say the word");
    reveal_strlit("should i");
    reveal_strlit("do you want");
    reveal_strlit("please test");
    reveal_strlit("want me to");
    reveal_strlit("let me know");
    assert("what i need from you"@[1] == 'h' && "want me to"@[1] == 'a');
    assert("say the word"@[1] == 'a' && "should i"@[1] == 'h');
    assert("i need from you"@[0] == 'i' && "do you want"@[0] == 'd');
    assert("please test"@[0] == 'p' && "let me know"@[0] == 'l');
    assert("what i need from you"@[0] == 'w' && "want me to"@[0] == 'w');
    assert("say the word"@[0] == 's' && "should i"@[0] == 's');
}

proof fn lemma_marker_kind(k: int)
    requires
        0 <= k < MARKERS,
    ensures
        k < HARD_MARKERS ==> is_question(marker(k).0) || is_trailer(marker(k).0),
        k >= HARD_MARKERS ==> is_offer(marker(k).0),
{
}

/// A question is found wherever it stands in its sentence: a message that
/// reads one of its phrases as whole words asks for something, whatever
/// stands before.
pub proof fn law_question_phrase_asks(text: Seq<char>, phrase: Seq<char>, i: int)
    requires
        is_question(phrase),
        reads_at(plain_text(text), phrase, i),
        stands_alone(plain_text(text), i, phrase.len() as int),
    ensures
        hard_ask(text) is Some,
        ask_of(text) == hard_ask(text),
{
    lemma_phrases();
    lemma_place(phrase);
    lemma_reads(plain_text(text), phrase, i);
    crate::triage_laws::law_question_is_asked(text, place_of(phrase), i);
}

/// So it is, word for word, in a message without Markdown: a question that
/// the message reads anywhere as whole words makes the thread one that needs
/// the user or awaits a merge.
pub proof fn law_question_needs_the_user(final_agent_text: Seq<char>, phrase: Seq<char>, i: int)
    requires
        is_question(phrase),
        trimmed(final_agent_text) == final_agent_text,
        forall|m: int|
            0 <= m < final_agent_text.len() ==> #[trigger] final_agent_text[m] != '*'
                && final_agent_text[m] != '`',
        reads_at(final_agent_text, phrase, i),
        stands_alone(final_agent_text, i, phrase.len() as int),
    ensures
        ({
            let (state, ask) = triage_of(Some(Role::Agent), false, final_agent_text);
            &&& state == TriageState::NeedsYou || state == TriageState::AwaitingMerge
            &&& ask is Some
        }),
{
    crate::markup::law_no_marks_no_change(final_agent_text);
    law_question_phrase_asks(final_agent_text, phrase, i);
}

// ---------------------------------------------------------------------
// Where an ask ends
// ---------------------------------------------------------------------

/// Whether a question of a line that ends at `e` ends with the character at
/// `m`.
pub open spec fn question_mark_at(s: Seq<char>, m: int, e: int) -> bool {
    s[m] == '?' && (m + 1 == e || is_space(s[m + 1]))
}

/// Whether the sentence of `s` that starts at `a` runs up to `t`: in a line
/// that ends at `e` it goes up to the end `q` of the first question, or to the
/// end of the line where none is asked, and has no whitespace at its end.
pub open spec fn sentence_runs(s: Seq<char>, a: int, t: int, q: int, e: int) -> bool {
    &&& 0 <= a < t <= q <= e <= s.len()
    &&& forall|m: int| a <= m < e ==> #[trigger] s[m] != '\n'
    &&& e == s.len() || s[e] == '\n'
    &&& q == e || question_mark_at(s, q - 1, e)
    &&& forall|m: int| a <= m < q - 1 ==> !(#[trigger] s[m] == '?' && (m + 1 == e || is_space(
        s[m + 1],
    )))
    &&& !is_space(s[t - 1])
    &&& forall|m: int| t <= m < q ==> is_space(#[trigger] s[m])
}

/// The sentence of `s` from `a` to `t` as it is shown: whole when it fits into
/// 140 characters, else its first 139 with an ellipsis.
pub open spec fn shown_sentence(s: Seq<char>, a: int, t: int) -> Seq<char> {
    if t - a <= 140 {
        s.subrange(a, t)
    } else {
        s.subrange(a, a + 139).push('…')
    }
}

pub(crate) proof fn lemma_trailing(y: Seq<char>, t: int)
    requires
        0 <= t <= y.len(),
        t == 0 || !is_space(y[t - 1]),
        forall|m: int| t <= m < y.len() ==> is_space(#[trigger] y[m]),
    ensures
        without_trailing_space(y) == y.take(t),
    decreases y.len(),
{
    if t < y.len() {
        lemma_trailing(y.drop_last(), t);
        assert(y.drop_last().take(t) =~= y.take(t));
        assert(is_space(y[y.len() - 1]));
    } else {
        assert(y.take(t) =~= y);
    }
}

proof fn lemma_last_filled(y: Seq<char>) -> (u: int)
    requires
        y.len() > 0,
        !is_space(y[0]),
    ensures
        0 < u <= y.len(),
        !is_space(y[u - 1]),
        forall|m: int| u <= m < y.len() ==> is_space(#[trigger] y[m]),
        trimmed(y) == y.take(u),
    decreases y.len(),
{
    assert(without_leading_space(y) == y);
    if is_space(y.last()) {
        assert(y.drop_last()[0] == y[0]);
        let u = lemma_last_filled(y.drop_last());
        assert forall|m: int| u <= m < y.len() implies is_space(#[trigger] y[m]) by {
            if m < y.len() - 1 {
                assert(y.drop_last()[m] == y[m]);
            }
        }
        assert(y[u - 1] == y.drop_last()[u - 1]);
        lemma_trailing(y, u);
        u
    } else {
        lemma_trailing(y, y.len() as int);
        y.len() as int
    }
}

proof fn lemma_question_at(y: Seq<char>, i: nat, q: int)
    requires
        i < q <= y.len(),
        forall|m: int| i <= m < q - 1 ==> !#[trigger] ends_question(y, m),
        ends_question(y, q - 1),
    ensures
        question_end(y, i) == q,
    decreases q - i,
{
    if i < q - 1 {
        assert(!ends_question(y, i as int));
        lemma_question_at(y, i + 1, q);
    }
}

proof fn lemma_no_question(y: Seq<char>, i: nat)
    requires
        forall|m: int| i <= m < y.len() ==> !#[trigger] ends_question(y, m),
    ensures
        question_end(y, i) == y.len(),
    decreases y.len() - i,
{
    if i < y.len() {
        assert(!ends_question(y, i as int));
        lemma_no_question(y, i + 1);
    }
}

proof fn lemma_first_line(x: Seq<char>, e: int)
    requires
        0 < e <= x.len(),
        forall|m: int| 0 <= m < e ==> #[trigger] x[m] != '\n',
        e == x.len() || x[e] == '\n',
        !is_space(x[0]),
    ensures
        first_filled(lines_of(x)) == Some(trimmed(x.take(e))),
{
    let y = x.take(e);
    assert(y[0] == x[0]);
    let u = lemma_last_filled(y);
    lemma_first_of(x, '\n');
    if e < x.len() {
        lemma_first_is(x, '\n', e);
        let line = without_return(y);
        assert(lines_of(x)[0] == line);
        if y.last() == '\r' {
            assert(line == y.drop_last());
            assert(e > 1) by {
                assert(y.last() == y[e - 1]);
            }
            assert(line[0] == y[0]);
            assert(without_leading_space(line) == line);
            assert(without_leading_space(y) == y);
            assert(without_trailing_space(y) == without_trailing_space(line));
        }
        assert(trimmed(line) == trimmed(y));
    } else {
        assert(first_of(x, '\n') == x.len()) by {
            if first_of(x, '\n') < x.len() {
                assert(x[first_of(x, '\n') as int] == '\n');
            }
        }
        assert(y =~= x);
        assert(lines_of(x)[0] == x);
    }
}

proof fn lemma_sentence(s: Seq<char>, a: int, t: int, q: int, e: int)
    requires
        sentence_runs(s, a, t, q, e),
        !is_space(s[a]),
    ensures
        first_filled(lines_of(s.skip(a))) is Some,
        trimmed(first_question(first_filled(lines_of(s.skip(a)))->0)) == s.subrange(a, t),
{
    let x = s.skip(a);
    let end = e - a;
    assert forall|m: int| 0 <= m < end implies #[trigger] x[m] != '\n' by {
        assert(x[m] == s[a + m]);
    }
    lemma_first_line(x, end);
    let y = x.take(end);
    assert(y[0] == s[a]);
    let u = lemma_last_filled(y);
    let filled = y.take(u);
    let qq = q - a;
    let tt = t - a;
    assert forall|m: int| 0 <= m < end implies #[trigger] y[m] == s[a + m] by {}
    if question_mark_at(s, q - 1, e) {
        assert(y[qq - 1] == '?');
        if qq > u {
            assert(is_space(y[qq - 1]));
        }
        assert(ends_question(filled, qq - 1)) by {
            if qq < u {
                assert(filled[qq] == s[q]);
            }
        }
        assert forall|m: int| 0 <= m < qq - 1 implies !#[trigger] ends_question(filled, m) by {
            assert(filled[m] == s[a + m]);
            assert(filled[m + 1] == s[a + m + 1]);
        }
        lemma_question_at(filled, 0, qq);
        assert(first_question(filled) =~= s.subrange(a, q));
    } else {
        assert forall|m: int| 0 <= m < filled.len() implies !#[trigger] ends_question(
            filled,
            m,
        ) by {
            assert(filled[m] == s[a + m]);
            if m + 1 < u {
                assert(filled[m + 1] == s[a + m + 1]);
            } else if u < end {
                assert(is_space(y[u]));
                assert(y[u] == s[a + m + 1]);
            }
        }
        lemma_no_question(filled, 0);
        assert(first_question(filled) =~= filled);
        if u < tt {
            assert(is_space(y[tt - 1]));
        }
        if u > tt {
            assert(is_space(s[a + u - 1]));
            assert(y[u - 1] == s[a + u - 1]);
        }
    }
    let question = first_question(filled);
    assert(question[0] == s[a]);
    assert(without_leading_space(question) == question);
    assert forall|m: int| tt <= m < question.len() implies is_space(#[trigger] question[m]) by {
        assert(question[m] == s[a + m]);
    }
    lemma_trailing(question, tt);
    assert(question.take(tt) =~= s.subrange(a, t));
}

proof fn lemma_shown(s: Seq<char>, a: int, t: int)
    requires
        0 <= a <= t <= s.len(),
    ensures
        truncated(s.subrange(a, t), MAX_ASK_LEN as nat) == shown_sentence(s, a, t),
{
    if t - a > 140 {
        assert(s.subrange(a, t).take(139) =~= s.subrange(a, a + 139));
    }
}

proof fn lemma_begins(s: Seq<char>, a: int, t: int, phrase: Seq<char>)
    requires
        0 <= a <= t <= s.len(),
        forall|m: int| 0 <= m < phrase.len() ==> !('A' <= #[trigger] phrase[m] <= 'Z'),
    ensures
        begins(s.subrange(a, t), phrase) == (reads_at(s, phrase, a) && a + phrase.len() <= t && (a
            + phrase.len() == t || !in_word(s[a + phrase.len()]))),
{
    let ask = s.subrange(a, t);
    let low = lowered(ask);
    let n = phrase.len() as int;
    if a + n <= t {
        if reads_at(s, phrase, a) {
            assert forall|m: int| 0 <= m < n implies low.subrange(0, n)[m] == phrase[m] by {
                assert(is_letter(s[a + m], phrase[m]));
                assert(low[m] == lower(s[a + m]));
            }
            assert(low.subrange(0, n) =~= phrase);
        }
        if phrase.is_prefix_of(low) {
            assert forall|m: int| 0 <= m < n implies is_letter(s[a + m], #[trigger] phrase[m]) by {
                assert(low.subrange(0, n)[m] == phrase[m]);
                assert(low[m] == lower(s[a + m]));
            }
        }
    }
}

// ---------------------------------------------------------------------
// Which ask
// ---------------------------------------------------------------------

proof fn lemma_silent(s: Seq<char>, j: int, from: int)
    requires
        0 <= j < s.len(),
        !asks_at(s, j),
        forall|m: int| m >= from ==> !#[trigger] reads_at(s, "yes/no"@, m),
        j >= from || j > 0 && s[j - 1] != '\n',
    ensures
        ask_at(s, j, true) is None,
{
    let low = lowered(s);
    lemma_phrases();
    lemma_standing(low, j, 0, HARD_MARKERS as int);
    if let Some(k) = marker_standing(low, j, 0, HARD_MARKERS as int) {
        lemma_reads(s, marker(k).0, j);
        lemma_marker_kind(k);
    }
    if asks_yes_no(low, j) {
        if j > 0 {
            assert(low[j - 1] == lower(s[j - 1]));
        }
        let m = choose|m: int| j <= m < line_end(low, j) && #[trigger] stands_at(low, "yes/no"@, m);
        reveal_strlit("yes/no");
        lemma_reads(s, "yes/no"@, m);
    }
}

proof fn lemma_unoffered(s: Seq<char>, j: int)
    requires
        0 <= j < s.len(),
        !offers_at(s, j),
    ensures
        ask_at(s, j, false) is None,
{
    let low = lowered(s);
    lemma_phrases();
    lemma_standing(low, j, HARD_MARKERS as int, MARKERS as int);
    if let Some(k) = marker_standing(low, j, HARD_MARKERS as int, MARKERS as int) {
        lemma_reads(s, marker(k).0, j);
        lemma_marker_kind(k);
    }
}

proof fn lemma_ask_in(s: Seq<char>, a: int, t: int, q: int, e: int)
    requires
        sentence_runs(s, a, t, q, e),
        !is_space(s[a]),
    ensures
        ask_in(s.skip(a)) == (if declines(s.subrange(a, t)) {
            None
        } else {
            Some(shown_sentence(s, a, t))
        }),
{
    lemma_sentence(s, a, t, q, e);
    lemma_shown(s, a, t);
}

proof fn lemma_not_declined(s: Seq<char>, a: int, t: int)
    requires
        0 <= a < t <= s.len(),
        !reads_at(s, "nothing"@, a),
        !reads_at(s, "none"@, a),
        !reads_at(s, "no action"@, a),
    ensures
        !declines(s.subrange(a, t)),
{
    reveal_strlit("nothing");
    reveal_strlit("none");
    reveal_strlit("no action");
    lemma_begins(s, a, t, "nothing"@);
    lemma_begins(s, a, t, "none"@);
    lemma_begins(s, a, t, "no action"@);
}

/// The question is quoted as it stands: where a message reads a question as
/// whole words at `i` and no phrase that asks is read after it, the ask is the
/// sentence that starts there.
pub proof fn law_question_is_quoted(
    text: Seq<char>,
    phrase: Seq<char>,
    i: int,
    t: int,
    q: int,
    e: int,
)
    requires
        is_question(phrase),
        reads_at(plain_text(text), phrase, i),
        stands_alone(plain_text(text), i, phrase.len() as int),
        forall|j: int| j > i ==> !#[trigger] asks_at(plain_text(text), j),
        forall|j: int| j >= e ==> !#[trigger] reads_at(plain_text(text), "yes/no"@, j),
        sentence_runs(plain_text(text), i, t, q, e),
    ensures
        hard_ask(text) == Some(shown_sentence(plain_text(text), i, t)),
        ask_of(text) == hard_ask(text),
{
    let s = plain_text(text);
    let low = lowered(s);
    let k = place_of(phrase);
    lemma_phrases();
    lemma_place(phrase);
    lemma_reads(s, phrase, i);
    crate::triage_laws::lemma_question_asks(s, k, i);
    lemma_marker(k);
    reveal_strlit("say the word");
    reveal_strlit("should i");
    reveal_strlit("do you want");
    reveal_strlit("please test");
    reveal_strlit("what i need from you");
    reveal_strlit("i need from you");
    assert(is_letter(s[i], phrase[0]));
    lemma_standing(low, i, 0, HARD_MARKERS as int);
    let m = marker_standing(low, i, 0, HARD_MARKERS as int)->0;
    lemma_reads(s, marker(m).0, i);
    assert(is_letter(s[i], marker(m).0[0]));
    assert(!marker(m).1);
    lemma_ask_in(s, i, t, q, e);
    assert(ask_at(s, i, true) == ask_in(s.skip(i)));
    assert forall|j: int| i < j < s.len() implies #[trigger] ask_at(s, j, true) is None by {
        if j < e {
            assert(s[j - 1] != '\n');
        }
        lemma_silent(s, j, e);
    }
    lemma_last_is(s, s.len(), i, true);
}

/// The trailer is quoted without its label: where a message reads a label as
/// whole words and no phrase that asks is read after it, the ask is what
/// follows the label, the marks that enclose it and the punctuation that leads
/// up to the ask, unless that says that nothing is needed.
pub proof fn law_trailer_is_quoted(
    text: Seq<char>,
    label: Seq<char>,
    i: int,
    b: int,
    a: int,
    t: int,
    q: int,
    e: int,
)
    requires
        is_trailer(label),
        reads_at(plain_text(text), label, i),
        stands_alone(plain_text(text), i, label.len() as int),
        label == "i need from you"@ ==> !reads_at(
            plain_text(text),
            "what i need from you"@,
            i - 5,
        ) && !reads_at(plain_text(text), "should i"@, i - 7),
        forall|j: int|
            j > i && !(label == "what i need from you"@ && j == i + 5) ==> !#[trigger] asks_at(
                plain_text(text),
                j,
            ),
        forall|j: int| j >= i ==> !#[trigger] reads_at(plain_text(text), "yes/no"@, j),
        i + label.len() <= b <= a,
        forall|m: int|
            i + label.len() <= m < b ==> #[trigger] plain_text(text)[m] == '*' || plain_text(
                text,
            )[m] == '`',
        plain_text(text)[b] != '*' && plain_text(text)[b] != '`',
        only_leads_up(plain_text(text), b, a),
        sentence_runs(plain_text(text), a, t, q, e),
        opens_ask(plain_text(text)[a]),
        !reads_at(plain_text(text), "nothing"@, a),
        !reads_at(plain_text(text), "none"@, a),
        !reads_at(plain_text(text), "no action"@, a),
    ensures
        hard_ask(text) == Some(shown_sentence(plain_text(text), a, t)),
        ask_of(text) == hard_ask(text),
{
    let s = plain_text(text);
    lemma_trailer_at(s, label, i, b, a, t, q, e);
    lemma_not_declined(s, a, t);
    lemma_after_trailer(s, label, i);
    lemma_last_is(s, s.len(), i, true);
}

proof fn lemma_after_trailer(s: Seq<char>, label: Seq<char>, i: int)
    requires
        is_trailer(label),
        reads_at(s, label, i),
        stands_alone(s, i, label.len() as int),
        forall|j: int|
            j > i && !(label == "what i need from you"@ && j == i + 5) ==> !#[trigger] asks_at(
                s,
                j,
            ),
        forall|j: int| j >= i ==> !#[trigger] reads_at(s, "yes/no"@, j),
    ensures
        0 <= i < s.len(),
        forall|j: int| i < j < s.len() ==> #[trigger] ask_at(s, j, true) is None,
{
    let low = lowered(s);
    lemma_phrases();
    lemma_place(label);
    reveal_strlit("what i need from you");
    reveal_strlit("i need from you");
    lemma_reads(s, label, i);
    assert forall|j: int| i < j < s.len() implies #[trigger] ask_at(s, j, true) is None by {
        if label == "what i need from you"@ && j == i + 5 {
            assert(reaches(low, 0, i, j));
            assert(overlapped(low, j));
            lemma_standing(low, j, 0, HARD_MARKERS as int);
            if marker_standing(low, j, 0, HARD_MARKERS as int) is None && asks_yes_no(low, j) {
                let m = choose|m: int|
                    j <= m < line_end(low, j) && #[trigger] stands_at(low, "yes/no"@, m);
                reveal_strlit("yes/no");
                lemma_reads(s, "yes/no"@, m);
            }
        } else {
            lemma_silent(s, j, i);
        }
    }
}

proof fn lemma_lead(x: Seq<char>, n: int)
    requires
        0 <= n < x.len(),
        only_leads_up(x, 0, n),
        opens_ask(x[n]),
    ensures
        without_lead(x) == x.skip(n),
    decreases n,
{
    if n > 0 {
        assert(leads_up(x[0]) || (x[0] == '*' && is_space(x[1])));
        let rest = x.skip(1);
        assert forall|m: int| 0 <= m < n - 1 implies leads_up(#[trigger] rest[m]) || (rest[m] == '*'
            && m + 1 < rest.len() && is_space(rest[m + 1])) by {
            assert(rest[m] == x[m + 1]);
            if m + 2 < x.len() {
                assert(rest[m + 1] == x[m + 2]);
            }
        }
        lemma_lead(rest, n - 1);
        assert(rest.skip(n - 1) =~= x.skip(n));
    } else {
        assert(x.skip(0) =~= x);
    }
}

proof fn lemma_marks(x: Seq<char>, n: int)
    requires
        0 <= n < x.len(),
        forall|m: int| 0 <= m < n ==> #[trigger] x[m] == '*' || x[m] == '`',
        x[n] != '*' && x[n] != '`',
    ensures
        without_marks(x) == x.skip(n),
    decreases n,
{
    if n > 0 {
        assert(x[0] == '*' || x[0] == '`');
        let rest = x.skip(1);
        assert forall|m: int| 0 <= m < n - 1 implies #[trigger] rest[m] == '*' || rest[m]
            == '`' by {
            assert(rest[m] == x[m + 1]);
        }
        lemma_marks(rest, n - 1);
        assert(rest.skip(n - 1) =~= x.skip(n));
    } else {
        assert(x.skip(0) =~= x);
    }
}

proof fn lemma_lead_from(s: Seq<char>, b: int, a: int)
    requires
        0 <= b <= a < s.len(),
        only_leads_up(s, b, a),
        opens_ask(s[a]),
    ensures
        without_lead(s.skip(b)) == s.skip(a),
{
    let x = s.skip(b);
    assert forall|m: int| 0 <= m < a - b implies leads_up(#[trigger] x[m]) || (x[m] == '*' && m + 1
        < x.len() && is_space(x[m + 1])) by {
        assert(x[m] == s[b + m]);
        if m + 1 < x.len() {
            assert(x[m + 1] == s[b + m + 1]);
        }
    }
    lemma_lead(x, a - b);
    assert(x.skip(a - b) =~= s.skip(a));
}

proof fn lemma_label_letters(q: int)
    requires
        0 <= q < MARKERS,
    ensures
        forall|m: int|
            0 < m < marker(q).0.len() && !is_word(marker(q).0[m - 1]) && #[trigger] marker(q).0[m]
                == 'i' ==> q == 0 && m == 5 || q == 3 && m == 7,
        forall|m: int|
            0 < m < marker(q).0.len() && !is_word(marker(q).0[m - 1]) && #[trigger] marker(q).0[m]
                == 'w' ==> m + 1 < marker(q).0.len() && marker(q).0[m + 1] != 'h',
{
    reveal_strlit("what i need from you");
    reveal_strlit("i need from you");
    reveal_strlit("say the word");
    reveal_strlit("should i");
    reveal_strlit("do you want");
    reveal_strlit("please test");
    reveal_strlit("want me to");
    reveal_strlit("let me know");
}

proof fn lemma_not_overlapped(s: Seq<char>, label: Seq<char>, i: int)
    requires
        is_trailer(label),
        reads_at(s, label, i),
        stands_alone(s, i, label.len() as int),
        label == "i need from you"@ ==> !reads_at(s, "what i need from you"@, i - 5) && !reads_at(
            s,
            "should i"@,
            i - 7,
        ),
    ensures
        !overlapped(lowered(s), i),
{
    let low = lowered(s);
    lemma_phrases();
    lemma_place(label);
    lemma_reads(s, label, i);
    reveal_strlit("what i need from you");
    reveal_strlit("i need from you");
    assert(is_letter(s[i], label[0]));
    assert(is_letter(s[i + 1], label[1]));
    assert(low[i] == label[0] && low[i + 1] == label[1]);
    if overlapped(low, i) {
        let (q, j) = choose|q: int, j: int|
            0 <= q < MARKERS && 0 <= j < i && #[trigger] reaches(low, q, j, i);
        lemma_label_letters(q);
        let outer = marker(q).0;
        let d = i - j;
        lemma_reads(s, outer, j);
        assert(low.subrange(j, j + outer.len())[d] == low[i]);
        assert(low.subrange(j, j + outer.len())[d - 1] == low[i - 1]);
        assert(outer[d] == label[0]);
        assert(low[i - 1] == lower(s[i - 1]));
        assert(!is_word(outer[d - 1]));
        if label == "what i need from you"@ {
            assert(low.subrange(j, j + outer.len())[d + 1] == low[i + 1]);
        }
    }
}

proof fn lemma_trailer_at(
    s: Seq<char>,
    label: Seq<char>,
    i: int,
    b: int,
    a: int,
    t: int,
    q: int,
    e: int,
)
    requires
        is_trailer(label),
        reads_at(s, label, i),
        stands_alone(s, i, label.len() as int),
        label == "i need from you"@ ==> !reads_at(s, "what i need from you"@, i - 5) && !reads_at(
            s,
            "should i"@,
            i - 7,
        ),
        i + label.len() <= b <= a,
        forall|m: int| i + label.len() <= m < b ==> #[trigger] s[m] == '*' || s[m] == '`',
        s[b] != '*' && s[b] != '`',
        only_leads_up(s, b, a),
        sentence_runs(s, a, t, q, e),
        opens_ask(s[a]),
    ensures
        ask_at(s, i, true) == (if declines(s.subrange(a, t)) {
            None
        } else {
            Some(shown_sentence(s, a, t))
        }),
{
    let low = lowered(s);
    let k = place_of(label);
    let n = label.len() as int;
    lemma_phrases();
    lemma_place(label);
    lemma_reads(s, label, i);
    reveal_strlit("what i need from you");
    reveal_strlit("i need from you");
    reveal_strlit("say the word");
    reveal_strlit("should i");
    reveal_strlit("do you want");
    reveal_strlit("please test");
    lemma_standing(low, i, 0, HARD_MARKERS as int);
    let m = marker_standing(low, i, 0, HARD_MARKERS as int)->0;
    assert(marker_standing(low, i, 0, HARD_MARKERS as int) is Some);
    lemma_reads(s, marker(m).0, i);
    assert(is_letter(s[i], marker(m).0[0]));
    assert(is_letter(s[i], label[0]));
    assert(is_letter(s[i + 1], label[1]));
    assert(is_letter(s[i + 1], marker(m).0[1]));
    assert(m == k);
    lemma_not_overlapped(s, label, i);
    let after = s.skip(i + n);
    assert forall|m: int| 0 <= m < b - i - n implies #[trigger] after[m] == '*' || after[m]
        == '`' by {
        assert(after[m] == s[i + n + m]);
    }
    lemma_marks(after, b - i - n);
    assert(after.skip(b - i - n) =~= s.skip(b));
    lemma_lead_from(s, b, a);
    lemma_ask_in(s, a, t, q, e);
}

/// A trailer that says that nothing is needed asks nothing: where a label is
/// followed by "nothing", "none" or "no action", and the message reads no
/// other phrase that asks, it has no hard ask.
pub proof fn law_declined_trailer_asks_nothing(
    text: Seq<char>,
    label: Seq<char>,
    refusal: Seq<char>,
    i: int,
    b: int,
    a: int,
    t: int,
    q: int,
    e: int,
)
    requires
        is_trailer(label),
        reads_at(plain_text(text), label, i),
        stands_alone(plain_text(text), i, label.len() as int),
        label == "i need from you"@ ==> !reads_at(
            plain_text(text),
            "what i need from you"@,
            i - 5,
        ) && !reads_at(plain_text(text), "should i"@, i - 7),
        forall|j: int|
            j != i && !(label == "what i need from you"@ && j == i + 5) ==> !#[trigger] asks_at(
                plain_text(text),
                j,
            ),
        forall|j: int| !#[trigger] reads_at(plain_text(text), "yes/no"@, j),
        i + label.len() <= b <= a,
        forall|m: int|
            i + label.len() <= m < b ==> #[trigger] plain_text(text)[m] == '*' || plain_text(
                text,
            )[m] == '`',
        plain_text(text)[b] != '*' && plain_text(text)[b] != '`',
        only_leads_up(plain_text(text), b, a),
        sentence_runs(plain_text(text), a, t, q, e),
        refusal == "nothing"@ || refusal == "none"@ || refusal == "no action"@,
        reads_at(plain_text(text), refusal, a),
        a + refusal.len() <= t,
        a + refusal.len() == t || !in_word(plain_text(text)[a + refusal.len()]),
    ensures
        hard_ask(text) is None,
        ask_of(text) == soft_offer(text),
{
    let s = plain_text(text);
    reveal_strlit("nothing");
    reveal_strlit("none");
    reveal_strlit("no action");
    assert(refusal[0] == 'n');
    assert(is_letter(s[a], refusal[0]));
    assert(s[a] == 'n' || 'A' <= s[a] <= 'Z');
    lemma_trailer_at(s, label, i, b, a, t, q, e);
    lemma_begins(s, a, t, refusal);
    assert(declines(s.subrange(a, t)));
    lemma_after_trailer(s, label, i);
    assert forall|j: int| 0 <= j < s.len() implies #[trigger] ask_at(s, j, true) is None by {
        if j < i {
            lemma_silent(s, j, j);
        }
    }
    lemma_none(s, s.len(), true);
}

/// An offer is kept, as it stands, where nothing is asked: where a message
/// reads no phrase that asks and reads an offer as whole words at `i`, the
/// last one, the offer is the sentence that starts there.
pub proof fn law_offer_is_quoted(
    text: Seq<char>,
    phrase: Seq<char>,
    i: int,
    t: int,
    q: int,
    e: int,
)
    requires
        is_offer(phrase),
        reads_at(plain_text(text), phrase, i),
        stands_alone(plain_text(text), i, phrase.len() as int),
        forall|j: int| !#[trigger] asks_at(plain_text(text), j),
        forall|j: int| !#[trigger] reads_at(plain_text(text), "yes/no"@, j),
        forall|j: int| j > i ==> !#[trigger] offers_at(plain_text(text), j),
        sentence_runs(plain_text(text), i, t, q, e),
    ensures
        hard_ask(text) is None,
        soft_offer(text) == Some(shown_sentence(plain_text(text), i, t)),
        ask_of(text) == soft_offer(text),
{
    let s = plain_text(text);
    let low = lowered(s);
    let k = place_of(phrase);
    lemma_phrases();
    lemma_place(phrase);
    lemma_reads(s, phrase, i);
    reveal_strlit("want me to");
    reveal_strlit("let me know");
    assert(is_letter(s[i], phrase[0]));
    crate::triage_laws::lemma_offer_asks(s, k, i);
    if ask_at(s, i, false) is None {
        let j = choose|j: int| 0 <= j && #[trigger] stands_at(low, marker(4).0, j);
        lemma_reads(s, marker(4).0, j);
        assert(is_question(marker(4).0));
        assert(asks_at(s, j));
    }
    lemma_standing(low, i, HARD_MARKERS as int, MARKERS as int);
    lemma_ask_in(s, i, t, q, e);
    assert(ask_at(s, i, false) == ask_in(s.skip(i)));
    assert forall|j: int| i < j < s.len() implies #[trigger] ask_at(s, j, false) is None by {
        lemma_unoffered(s, j);
    }
    lemma_last_is(s, s.len(), i, false);
    assert forall|j: int| 0 <= j < s.len() implies #[trigger] ask_at(s, j, true) is None by {
        lemma_silent(s, j, j);
    }
    lemma_none(s, s.len(), true);
}

/// A message that reads no phrase that asks or offers leaves nothing.
pub proof fn law_plain_summary_asks_nothing(text: Seq<char>)
    requires
        forall|j: int| !#[trigger] asks_at(plain_text(text), j),
        forall|j: int| !#[trigger] offers_at(plain_text(text), j),
        forall|j: int| !#[trigger] reads_at(plain_text(text), "yes/no"@, j),
    ensures
        ask_of(text) is None,
{
    let s = plain_text(text);
    assert forall|j: int| 0 <= j < s.len() implies #[trigger] ask_at(s, j, true) is None by {
        lemma_silent(s, j, j);
    }
    assert forall|j: int| 0 <= j < s.len() implies #[trigger] ask_at(s, j, false) is None by {
        lemma_unoffered(s, j);
    }
    lemma_none(s, s.len(), true);
    lemma_none(s, s.len(), false);
}

// ---------------------------------------------------------------------
// Buckets
// ---------------------------------------------------------------------

/// What counts as merge, commit or review language.
pub proof fn law_merge_language_is_this(text: Seq<char>)
    ensures
        merge_language(text) == (regex_verdict(
            "(?i)merge (PR|#)|PR #\\d+|open(ed)? a (PR|pull request)|did not commit|uncommitted|haven't committed|awaiting review"@,
            text,
        ) == Some(true)),
{
}

/// A message that reads no phrase that asks or offers shows nothing: its
/// thread awaits a merge where it speaks of one, else it is Running below 30
/// characters and Done from there on.
pub proof fn law_silent_thread_goes_by_length(final_agent_text: Seq<char>)
    requires
        forall|j: int| !#[trigger] asks_at(plain_text(trimmed(final_agent_text)), j),
        forall|j: int| !#[trigger] offers_at(plain_text(trimmed(final_agent_text)), j),
        forall|j: int|
            !#[trigger] reads_at(plain_text(trimmed(final_agent_text)), "yes/no"@, j),
    ensures
        triage_of(Some(Role::Agent), false, final_agent_text) == (
            if merge_language(trimmed(final_agent_text)) {
                TriageState::AwaitingMerge
            } else if trimmed(final_agent_text).len() < 30 {
                TriageState::Running
            } else {
                TriageState::Done
            },
            None::<Seq<char>>,
        ),
{
    law_plain_summary_asks_nothing(trimmed(final_agent_text));
}

/// A message that reads an offer and no phrase that asks leaves its thread
/// Done, with the offer, unless message and offer both speak of merging.
pub proof fn law_offering_thread_is_done(
    final_agent_text: Seq<char>,
    phrase: Seq<char>,
    i: int,
    t: int,
    q: int,
    e: int,
)
    requires
        is_offer(phrase),
        reads_at(plain_text(trimmed(final_agent_text)), phrase, i),
        stands_alone(plain_text(trimmed(final_agent_text)), i, phrase.len() as int),
        forall|j: int| !#[trigger] asks_at(plain_text(trimmed(final_agent_text)), j),
        forall|j: int|
            !#[trigger] reads_at(plain_text(trimmed(final_agent_text)), "yes/no"@, j),
        forall|j: int|
            j > i ==> !#[trigger] offers_at(plain_text(trimmed(final_agent_text)), j),
        sentence_runs(plain_text(trimmed(final_agent_text)), i, t, q, e),
    ensures
        ({
            let text = trimmed(final_agent_text);
            let offer = shown_sentence(plain_text(text), i, t);
            triage_of(Some(Role::Agent), false, final_agent_text) == (
                if merge_language(text) && merge_language(offer) {
                    TriageState::AwaitingMerge
                } else {
                    TriageState::Done
                },
                Some(offer),
            )
        }),
{
    law_offer_is_quoted(trimmed(final_agent_text), phrase, i, t, q, e);
}

/// A message whose last phrase that asks is a question leaves its thread in
/// need of the user, with the question, unless message and question both
/// speak of merging.
pub proof fn law_asking_thread_needs_the_user(
    final_agent_text: Seq<char>,
    phrase: Seq<char>,
    i: int,
    t: int,
    q: int,
    e: int,
)
    requires
        is_question(phrase),
        reads_at(plain_text(trimmed(final_agent_text)), phrase, i),
        stands_alone(plain_text(trimmed(final_agent_text)), i, phrase.len() as int),
        forall|j: int| j > i ==> !#[trigger] asks_at(plain_text(trimmed(final_agent_text)), j),
        forall|j: int|
            j >= e ==> !#[trigger] reads_at(plain_text(trimmed(final_agent_text)), "yes/no"@, j),
        sentence_runs(plain_text(trimmed(final_agent_text)), i, t, q, e),
    ensures
        ({
            let text = trimmed(final_agent_text);
            let ask = shown_sentence(plain_text(text), i, t);
            triage_of(Some(Role::Agent), false, final_agent_text) == (
                if merge_language(text) && merge_language(ask) {
                    TriageState::AwaitingMerge
                } else {
                    TriageState::NeedsYou
                },
                Some(ask),
            )
        }),
{
    law_question_is_quoted(trimmed(final_agent_text), phrase, i, t, q, e);
}

/// A line that says "yes/no" asks as a whole: where the line of a message from
/// `b` up to `e` says it as whole words, and no phrase that asks is read in it
/// or after it, the ask is the line from what first opens an ask on.
pub proof fn law_yes_no_line_is_quoted(
    text: Seq<char>,
    j: int,
    b: int,
    a: int,
    t: int,
    q: int,
    e: int,
)
    requires
        reads_at(plain_text(text), "yes/no"@, j),
        stands_alone(plain_text(text), j, 6),
        0 <= b <= j < e,
        b == 0 || plain_text(text)[b - 1] == '\n',
        b <= a,
        forall|m: int| b <= m < a ==> #[trigger] plain_text(text)[m] != '\n',
        only_leads_up(plain_text(text), b, a),
        opens_ask(plain_text(text)[a]),
        sentence_runs(plain_text(text), a, t, q, e),
        forall|m: int| m >= b ==> !#[trigger] asks_at(plain_text(text), m),
        forall|m: int| m >= e ==> !#[trigger] reads_at(plain_text(text), "yes/no"@, m),
        !reads_at(plain_text(text), "nothing"@, a),
        !reads_at(plain_text(text), "none"@, a),
        !reads_at(plain_text(text), "no action"@, a),
    ensures
        hard_ask(text) == Some(shown_sentence(plain_text(text), a, t)),
        ask_of(text) == hard_ask(text),
{
    let s = plain_text(text);
    let low = lowered(s);
    reveal_strlit("yes/no");
    lemma_phrases();
    lemma_reads(s, "yes/no"@, j);
    let x = low.skip(b);
    assert forall|m: int| 0 <= m < e - b implies #[trigger] x[m] != '\n' by {
        assert(s[b + m] != '\n');
        assert(low[b + m] == lower(s[b + m]));
    }
    lemma_first_of(x, '\n');
    if e < s.len() {
        assert(low[e] == lower(s[e]));
        assert(x[e - b] == '\n');
        lemma_first_is(x, '\n', e - b);
    }
    assert(line_end(low, b) == e);
    assert forall|m: int| b <= m < e implies #[trigger] marker_standing(
        low,
        m,
        0,
        HARD_MARKERS as int,
    ) is None by {
        lemma_standing(low, m, 0, HARD_MARKERS as int);
        if let Some(k) = marker_standing(low, m, 0, HARD_MARKERS as int) {
            lemma_reads(s, marker(k).0, m);
            lemma_marker_kind(k);
            assert(asks_at(s, m));
        }
    }
    if b > 0 {
        assert(low[b - 1] == lower(s[b - 1]));
    }
    assert(asks_yes_no(low, b));
    lemma_lead_from(s, b, a);
    lemma_ask_in(s, a, t, q, e);
    lemma_not_declined(s, a, t);
    assert(ask_at(s, b, true) == ask_in(s.skip(a)));
    assert forall|m: int| b < m < s.len() implies #[trigger] ask_at(s, m, true) is None by {
        if m <= e {
            assert(s[m - 1] != '\n');
        }
        lemma_silent(s, m, e);
    }
    lemma_last_is(s, s.len(), b, true);
}

} // verus!
