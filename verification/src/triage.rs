//! Triage rules for agent threads.
//!
//! Given a digest of the final state of a thread (who spoke last, what the
//! final agent message said), decide which attention bucket the thread
//! belongs in and extract the concrete "ask" the agent left for the user.

use crate::markup::{is_mark, plain_text, strip_markup};
use crate::text::{
    chars_of, find_from, first_filled, first_filled_line, first_of, head, is_space, lines_of,
    lowered, occurs, occurs_at, rest, space, starts_with, string_of, text_opt, to_lower, trim,
    trimmed,
};
use vstd::prelude::*;

verus! {

/// Who authored a message.
#[derive(Debug, Clone, Copy, PartialEq, Eq, Structural)]
pub enum Role {
    User,
    Agent,
}

/// The attention bucket a thread belongs in, in display order.
#[derive(Debug, Clone, Copy, PartialEq, Eq, PartialOrd, Ord, Structural)]
pub enum TriageState {
    /// The final agent message asks the user for something.
    NeedsYou,
    /// The agent finished work that is waiting on a merge/commit/review.
    AwaitingMerge,
    /// The agent has not replied yet, or its final message ends mid-work.
    Running,
    /// The final agent message reads as a completed summary that asks for
    /// nothing; it may make an offer.
    Done,
}

impl TriageState {
    /// All states in display order.
    pub const ALL: [TriageState; 4] = [
        TriageState::NeedsYou,
        TriageState::AwaitingMerge,
        TriageState::Running,
        TriageState::Done,
    ];

    pub open spec fn label_text(self) -> Seq<char> {
        match self {
            TriageState::NeedsYou => "Needs you"@,
            TriageState::AwaitingMerge => "Awaiting merge"@,
            TriageState::Running => "Running"@,
            TriageState::Done => "Done"@,
        }
    }

    pub fn label(&self) -> (r: &'static str)
        ensures
            r@ == self.label_text(),
    {
        match self {
            TriageState::NeedsYou => "Needs you",
            TriageState::AwaitingMerge => "Awaiting merge",
            TriageState::Running => "Running",
            TriageState::Done => "Done",
        }
    }
}

/// The result of triaging a thread.
#[derive(Debug, Clone, PartialEq, Eq)]
pub struct Triage {
    pub state: TriageState,
    /// The extracted ask or offer, verbatim but for Markdown and cut to 140
    /// characters, when present.
    pub ask: Option<String>,
}

/// Everything triage needs to know about the end of a thread.
#[derive(Debug, Clone, Copy)]
pub struct TriageInput<'a> {
    /// Role of the very last message in the thread, if any.
    pub last_role: Option<Role>,
    /// Concatenated text segments of the last agent message ("" if none).
    pub final_agent_text: &'a str,
    /// Whether the last agent message contains tool uses (ends mid-work).
    pub final_agent_has_tool_use: bool,
}

/// A final agent message shorter than this, with no ask and no merge
/// language, is considered a mid-work stub (the agent got cut off).
pub const STUB_LEN: usize = 30;

/// Maximum length (in characters) of an extracted ask.
pub const MAX_ASK_LEN: usize = 140;

/// How many marker phrases signal an ask or an offer.
pub const MARKERS: usize = 8;

/// How many of them, the first ones, signal an ask.
pub const HARD_MARKERS: usize = 6;

/// Merge, commit and review language.
pub const MERGE_PATTERN: &'static str =
    "(?i)merge (PR|#)|PR #\\d+|open(ed)? a (PR|pull request)|did not commit|uncommitted|haven't committed|awaiting review";

// ---------------------------------------------------------------------
// Markers
// ---------------------------------------------------------------------

/// The `k`-th marker phrase, in lower case, and whether it is a label.
/// Labels are stripped from the captured ask; the other markers are part
/// of the sentence itself and are kept. The markers after the first
/// `HARD_MARKERS` make offers, which ask nothing of the user.
pub open spec fn marker(k: int) -> (Seq<char>, bool) {
    if k == 0 {
        ("what i need from you"@, true)
    } else if k == 1 {
        ("i need from you"@, true)
    } else if k == 2 {
        ("say the word"@, false)
    } else if k == 3 {
        ("should i"@, false)
    } else if k == 4 {
        ("do you want"@, false)
    } else if k == 5 {
        ("please test"@, false)
    } else if k == 6 {
        ("want me to"@, false)
    } else {
        ("let me know"@, false)
    }
}

fn marker_at(k: usize) -> (r: (&'static str, bool))
    ensures
        r.0@ == marker(k as int).0,
        r.1 == marker(k as int).1,
{
    if k == 0 {
        ("what i need from you", true)
    } else if k == 1 {
        ("i need from you", true)
    } else if k == 2 {
        ("say the word", false)
    } else if k == 3 {
        ("should i", false)
    } else if k == 4 {
        ("do you want", false)
    } else if k == 5 {
        ("please test", false)
    } else if k == 6 {
        ("want me to", false)
    } else {
        ("let me know", false)
    }
}

/// Whether Unicode counts a character among letters and numbers.
pub uninterp spec fn alphanumeric(c: char) -> bool;

/// `char::is_alphanumeric` tells whether Unicode counts a character as
/// alphabetic or numeric. The contract names the verdict, which depends on the
/// character alone; it does not say which characters these are.
pub assume_specification[ char::is_alphanumeric ](c: char) -> (r: bool)
    ensures
        r == alphanumeric(c),
;

/// A character that continues a word: a letter or digit of any script, or an
/// underscore.
pub open spec fn is_word(c: char) -> bool {
    ||| 'a' <= c <= 'z'
    ||| 'A' <= c <= 'Z'
    ||| '0' <= c <= '9'
    ||| c == '_'
    ||| c > '\u{7f}' && alphanumeric(c)
}

fn word(c: char) -> (r: bool)
    ensures
        r == is_word(c),
{
    ('a' <= c && c <= 'z') || ('A' <= c && c <= 'Z') || ('0' <= c && c <= '9') || c == '_' || (c
        > '\u{7f}' && c.is_alphanumeric())
}

/// Whether `phrase` stands in `s` at `i` as whole words.
pub open spec fn stands_at(s: Seq<char>, phrase: Seq<char>, i: int) -> bool {
    &&& occurs_at(s, phrase, i)
    &&& i == 0 || !is_word(s[i - 1])
    &&& i + phrase.len() == s.len() || !is_word(s[i + phrase.len()])
}

fn stands(s: &[char], phrase: &[char], i: usize) -> (r: bool)
    requires
        i <= s@.len(),
    ensures
        r == stands_at(s@, phrase@, i as int),
{
    let total: usize = s.len();
    if !occurs(s, phrase, i) {
        return false;
    }
    let end = i + phrase.len();
    (i == 0 || !word(s[i - 1])) && (end == total || !word(s[end]))
}

/// The first of the markers from `k` on and before `to` that stands in `s`
/// at `i`.
pub open spec fn marker_standing(s: Seq<char>, i: int, k: int, to: int) -> Option<int>
    decreases to - k,
{
    if k >= to {
        None
    } else if stands_at(s, marker(k).0, i) {
        Some(k)
    } else {
        marker_standing(s, i, k + 1, to)
    }
}

fn find_marker(s: &[char], i: usize, from: usize, to: usize) -> (r: Option<usize>)
    requires
        i <= s@.len(),
    ensures
        r is Some == marker_standing(s@, i as int, from as int, to as int) is Some,
        r is Some ==> r->0 == marker_standing(s@, i as int, from as int, to as int)->0
            && stands_at(s@, marker(r->0 as int).0, i as int),
{
    let mut k: usize = from;
    while k < to
        invariant
            i <= s@.len(),
            marker_standing(s@, i as int, from as int, to as int) == marker_standing(
                s@,
                i as int,
                k as int,
                to as int,
            ),
        decreases to - k,
    {
        let phrase = chars_of(marker_at(k).0);
        if stands(s, phrase.as_slice(), i) {
            return Some(k);
        }
        k += 1;
    }
    None
}

/// Whether the `k`-th marker stands in `s` at `j` and reaches beyond `i`.
pub open spec fn reaches(s: Seq<char>, k: int, j: int, i: int) -> bool {
    stands_at(s, marker(k).0, j) && i < j + marker(k).0.len()
}

/// Whether a marker that starts before `i` reaches beyond it: "Do you want"
/// and "want me to" overlap, and the earlier one holds the whole phrase.
pub open spec fn overlapped(s: Seq<char>, i: int) -> bool {
    exists|k: int, j: int| 0 <= k < MARKERS && 0 <= j < i && #[trigger] reaches(s, k, j, i)
}

fn is_overlapped(s: &[char], i: usize) -> (r: bool)
    requires
        i <= s@.len(),
    ensures
        r == overlapped(s@, i as int),
{
    let mut k: usize = 0;
    while k < MARKERS
        invariant
            i <= s@.len(),
            k <= MARKERS,
            forall|m: int, j: int| 0 <= m < k && 0 <= j < i ==> !#[trigger] reaches(s@, m, j, i as int),
        decreases MARKERS - k,
    {
        let phrase = chars_of(marker_at(k).0);
        let mut d: usize = 1;
        while d < phrase.len() && d <= i
            invariant
                k < MARKERS,
                1 <= d,
                i <= s@.len(),
                phrase@ == marker(k as int).0,
                forall|j: int| i - d < j < i ==> !#[trigger] reaches(s@, k as int, j, i as int),
            decreases i + 1 - d,
        {
            if stands(s, phrase.as_slice(), i - d) {
                assert(reaches(s@, k as int, i - d, i as int));
                return true;
            }
            d += 1;
        }
        k += 1;
    }
    false
}

// ---------------------------------------------------------------------
// Asks
// ---------------------------------------------------------------------

/// Punctuation and whitespace that may stand before an ask.
pub open spec fn is_lead(c: char) -> bool {
    ||| c == ':'
    ||| c == '-'
    ||| c == '—'
    ||| c == '.'
    ||| c == ','
    ||| c == ';'
    ||| c == '!'
    ||| c == '?'
    ||| c == ')'
    ||| is_space(c)
}

fn lead(c: char) -> (r: bool)
    ensures
        r == is_lead(c),
{
    c == ':' || c == '-' || c == '—' || c == '.' || c == ',' || c == ';' || c == '!' || c == '?'
        || c == ')' || space(c)
}

/// Whether `s` begins with the asterisk of a list item.
pub open spec fn is_bullet(s: Seq<char>) -> bool {
    s.len() > 1 && s[0] == '*' && is_space(s[1])
}

/// `s` without the punctuation and the list mark that lead it.
pub open spec fn without_lead(s: Seq<char>) -> Seq<char>
    decreases s.len(),
{
    if s.len() > 0 && (is_lead(s[0]) || is_bullet(s)) {
        without_lead(s.skip(1))
    } else {
        s
    }
}

fn skip_lead(chars: &[char]) -> (out: &[char])
    ensures
        out@ == without_lead(chars@),
{
    let total: usize = chars.len();
    let mut i: usize = 0;
    assert(chars@.skip(0) == chars@);
    while i < total && (lead(chars[i]) || (total - i > 1 && chars[i] == '*' && space(chars[i + 1])))
        invariant
            total == chars@.len(),
            i <= total,
            without_lead(chars@.skip(i as int)) == without_lead(chars@),
        decreases total - i,
    {
        assert(chars@.skip(i as int).skip(1) == chars@.skip(i + 1));
        i += 1;
    }
    rest(chars, i)
}

/// `s` without the Markdown marks that lead it.
pub open spec fn without_marks(s: Seq<char>) -> Seq<char>
    decreases s.len(),
{
    if s.len() > 0 && is_mark(s[0]) {
        without_marks(s.skip(1))
    } else {
        s
    }
}

fn skip_marks(chars: &[char]) -> (out: &[char])
    ensures
        out@ == without_marks(chars@),
{
    let mut i: usize = 0;
    assert(chars@.skip(0) == chars@);
    while i < chars.len() && (chars[i] == '*' || chars[i] == '`')
        invariant
            i <= chars@.len(),
            without_marks(chars@.skip(i as int)) == without_marks(chars@),
        decreases chars@.len() - i,
    {
        assert(chars@.skip(i as int).skip(1) == chars@.skip(i + 1));
        i += 1;
    }
    rest(chars, i)
}

/// Whether a question ends at position `i` of `s`.
pub open spec fn ends_question(s: Seq<char>, i: int) -> bool {
    s[i] == '?' && (i + 1 == s.len() || is_space(s[i + 1]))
}

/// How much of `s`, from position `i` on, runs up to the end of the first
/// question; all of it when it asks none.
pub open spec fn question_end(s: Seq<char>, i: nat) -> nat
    decreases s.len() - i,
{
    if i >= s.len() {
        s.len()
    } else if ends_question(s, i as int) {
        i + 1
    } else {
        question_end(s, i + 1)
    }
}

/// `s` up to the end of its first question.
pub open spec fn first_question(s: Seq<char>) -> Seq<char> {
    s.take(question_end(s, 0) as int)
}

fn cut_question(chars: &[char]) -> (out: &[char])
    ensures
        out@ == first_question(chars@),
{
    let total: usize = chars.len();
    let mut i: usize = 0;
    while i < total
        invariant
            total == chars@.len(),
            i <= total,
            question_end(chars@, 0) == question_end(chars@, i as nat),
        decreases total - i,
    {
        if chars[i] == '?' && (i + 1 == total || space(chars[i + 1])) {
            return head(chars, i + 1);
        }
        i += 1;
    }
    head(chars, i)
}

/// Whether `s` begins with `phrase` as whole words, whatever its case.
pub open spec fn begins(s: Seq<char>, phrase: Seq<char>) -> bool {
    &&& phrase.is_prefix_of(lowered(s))
    &&& s.len() == phrase.len() || !is_word(s[phrase.len() as int])
}

fn begins_with(chars: &[char], phrase: &str) -> (r: bool)
    ensures
        r == begins(chars@, phrase@),
{
    let low = to_lower(chars);
    if !starts_with(low.as_slice(), phrase) {
        return false;
    }
    let n = chars_of(phrase).len();
    chars.len() == n || !word(chars[n])
}

/// Whether an ask says that nothing is needed.
pub open spec fn declines(ask: Seq<char>) -> bool {
    begins(ask, "nothing"@) || begins(ask, "none"@) || begins(ask, "no action"@)
}

/// `s`, cut to `max` characters with an ellipsis when it is longer.
pub open spec fn truncated(s: Seq<char>, max: nat) -> Seq<char> {
    if s.len() <= max {
        s
    } else {
        s.take(if max > 0 { max - 1 } else { 0 }).push('…')
    }
}

pub fn truncate_chars(text: &str, max: usize) -> (out: String)
    ensures
        out@ == truncated(text@, max as nat),
{
    let chars = chars_of(text);
    if chars.len() <= max {
        string_of(chars.as_slice())
    } else {
        let keep: usize = if max > 0 {
            max - 1
        } else {
            0
        };
        let mut out = string_of(head(chars.as_slice(), keep));
        out.push('…');
        out
    }
}

/// The ask that a line states: up to the end of its first question, cut to
/// length; none when nothing is left or nothing is asked.
pub open spec fn ask_in_line(line: Seq<char>) -> Option<Seq<char>> {
    let ask = trimmed(first_question(line));
    if ask.len() == 0 || declines(ask) {
        None
    } else {
        Some(truncated(ask, MAX_ASK_LEN as nat))
    }
}

/// The ask in the first line of `s` that holds more than whitespace.
pub open spec fn ask_in(s: Seq<char>) -> Option<Seq<char>> {
    match first_filled(lines_of(s)) {
        Some(line) => ask_in_line(line),
        None => None,
    }
}

fn find_ask_in(chars: &[char]) -> (r: Option<String>)
    ensures
        text_opt(r) == ask_in(chars@),
{
    match first_filled_line(chars) {
        Some(line) => {
            let ask = trim(cut_question(line.as_slice()));
            if ask.len() == 0 || begins_with(ask, "nothing") || begins_with(ask, "none")
                || begins_with(ask, "no action") {
                None
            } else {
                Some(truncate_chars(string_of(ask).as_str(), MAX_ASK_LEN))
            }
        },
        None => None,
    }
}

/// The text that the `k`-th marker introduces at `i`: after a label, the
/// marks that enclose it and the punctuation that follows it, or from the
/// marker on.
pub open spec fn captured(text: Seq<char>, k: int, i: int) -> Seq<char> {
    if marker(k).1 {
        without_lead(without_marks(text.skip(i + marker(k).0.len())))
    } else {
        text.skip(i)
    }
}

/// Where the line of `s` that starts at `i` ends.
pub open spec fn line_end(s: Seq<char>, i: int) -> int {
    i + first_of(s.skip(i), '\n')
}

/// Whether a line of `s` that starts at `i` asks as a whole: it says
/// "yes/no", and no marker of an ask tells where in the line the ask starts.
pub open spec fn asks_yes_no(s: Seq<char>, i: int) -> bool {
    &&& i == 0 || s[i - 1] == '\n'
    &&& exists|j: int| i <= j < line_end(s, i) && #[trigger] stands_at(s, "yes/no"@, j)
    &&& forall|j: int|
        i <= j < line_end(s, i) ==> #[trigger] marker_standing(s, j, 0, HARD_MARKERS as int) is None
}

fn line_asks_yes_no(s: &[char], i: usize) -> (r: bool)
    requires
        i < s@.len(),
    ensures
        r == asks_yes_no(s@, i as int),
{
    if i > 0 && s[i - 1] != '\n' {
        return false;
    }
    let wanted = chars_of("yes/no");
    let end = find_from(s, '\n', i);
    let mut said = false;
    let mut j: usize = i;
    while j < end
        invariant
            i <= j <= end,
            end <= s@.len(),
            end == line_end(s@, i as int),
            wanted@ == "yes/no"@,
            said == exists|m: int| i <= m < j && #[trigger] stands_at(s@, "yes/no"@, m),
            forall|m: int|
                i <= m < j ==> #[trigger] marker_standing(
                    s@,
                    m,
                    0,
                    HARD_MARKERS as int,
                ) is None,
        decreases end - j,
    {
        if find_marker(s, j, 0, HARD_MARKERS).is_some() {
            return false;
        }
        if stands(s, wanted.as_slice(), j) {
            said = true;
        }
        j += 1;
    }
    said
}

/// The ask (`hard`) or offer of `text` that starts at `i`: one that a marker
/// introduces which no earlier marker overlaps, or a line that asks for a yes
/// or no.
pub open spec fn ask_at(text: Seq<char>, i: int, hard: bool) -> Option<Seq<char>> {
    let low = lowered(text);
    let (from, to) = if hard {
        (0, HARD_MARKERS as int)
    } else {
        (HARD_MARKERS as int, MARKERS as int)
    };
    match marker_standing(low, i, from, to) {
        Some(k) => if overlapped(low, i) {
            None
        } else {
            ask_in(captured(text, k, i))
        },
        None => if hard && asks_yes_no(low, i) {
            ask_in(without_lead(text.skip(i)))
        } else {
            None
        },
    }
}

/// The last ask (`hard`) or offer of `text` that starts before `n`.
pub open spec fn last_ask(text: Seq<char>, n: nat, hard: bool) -> Option<Seq<char>>
    decreases n,
{
    if n == 0 {
        None
    } else {
        match ask_at(text, n - 1, hard) {
            Some(ask) => Some(ask),
            None => last_ask(text, (n - 1) as nat, hard),
        }
    }
}

fn find_last_ask(text: &[char], hard: bool) -> (r: Option<String>)
    ensures
        text_opt(r) == last_ask(text@, text@.len(), hard),
{
    let low = to_lower(text);
    let (from, to) = if hard {
        (0usize, HARD_MARKERS)
    } else {
        (HARD_MARKERS, MARKERS)
    };
    let mut n: usize = text.len();
    while n > 0
        invariant
            n <= text@.len(),
            low@ == lowered(text@),
            from == if hard { 0 } else { HARD_MARKERS },
            to == if hard { HARD_MARKERS } else { MARKERS },
            last_ask(text@, n as nat, hard) == last_ask(text@, text@.len(), hard),
        decreases n,
    {
        let i = n - 1;
        let found = match find_marker(low.as_slice(), i, from, to) {
            Some(k) => if is_overlapped(low.as_slice(), i) {
                None
            } else {
                let (phrase, is_label) = marker_at(k);
                if is_label {
                    let end = i + chars_of(phrase).len();
                    find_ask_in(skip_lead(skip_marks(rest(text, end))))
                } else {
                    find_ask_in(rest(text, i))
                }
            },
            None => if hard && line_asks_yes_no(low.as_slice(), i) {
                find_ask_in(skip_lead(rest(text, i)))
            } else {
                None
            },
        };
        assert(text_opt(found) == ask_at(text@, i as int, hard));
        if found.is_some() {
            return found;
        }
        n = i;
    }
    None
}

/// The hard ask of a message: what it wants of the user.
pub open spec fn hard_ask(text: Seq<char>) -> Option<Seq<char>> {
    last_ask(plain_text(text), plain_text(text).len(), true)
}

/// The soft offer of a message: what it would do if the user liked.
pub open spec fn soft_offer(text: Seq<char>) -> Option<Seq<char>> {
    last_ask(plain_text(text), plain_text(text).len(), false)
}

/// What a message leaves for the user: its last hard ask or, where it asks
/// nothing, its last offer.
pub open spec fn ask_of(text: Seq<char>) -> Option<Seq<char>> {
    match hard_ask(text) {
        Some(ask) => Some(ask),
        None => soft_offer(text),
    }
}

/// Extract the last hard ask of a final agent message.
pub fn extract_hard_ask(text: &str) -> (r: Option<String>)
    ensures
        text_opt(r) == hard_ask(text@),
{
    let chars = chars_of(text);
    let plain = strip_markup(chars.as_slice());
    find_last_ask(plain.as_slice(), true)
}

/// Extract the last soft offer of a final agent message.
pub fn extract_offer(text: &str) -> (r: Option<String>)
    ensures
        text_opt(r) == soft_offer(text@),
{
    let chars = chars_of(text);
    let plain = strip_markup(chars.as_slice());
    find_last_ask(plain.as_slice(), false)
}

/// Extract what a final agent message leaves for the user: its last hard
/// ask or, where it asks nothing, its last offer.
pub fn extract_ask(text: &str) -> (r: Option<String>)
    ensures
        text_opt(r) == ask_of(text@),
{
    match extract_hard_ask(text) {
        Some(ask) => Some(ask),
        None => extract_offer(text),
    }
}

// ---------------------------------------------------------------------
// Triage
// ---------------------------------------------------------------------

/// Whether a regular expression matches somewhere in a text; `None` when
/// the expression is not well-formed.
pub uninterp spec fn regex_verdict(pattern: Seq<char>, text: Seq<char>) -> Option<bool>;

/// `regex::Regex::new` compiles `pattern` and `Regex::is_match` searches
/// `text` with it. The contract names the verdict, which depends on the
/// pattern and the text alone; it does not say which texts match.
#[verifier::external_body]
fn regex_search(pattern: &str, text: &str) -> (r: Option<bool>)
    ensures
        r == regex_verdict(pattern@, text@),
{
    regex::Regex::new(pattern).ok().map(|re| re.is_match(text))
}

/// Whether a text speaks of merging, committing or reviewing.
pub open spec fn merge_language(text: Seq<char>) -> bool {
    regex_verdict(MERGE_PATTERN@, text) == Some(true)
}

pub fn has_merge_language(text: &str) -> (r: bool)
    ensures
        r == merge_language(text@),
{
    match regex_search(MERGE_PATTERN, text) {
        Some(found) => found,
        None => false,
    }
}

/// The bucket and ask of a thread whose last message is by `last_role` and
/// whose final agent message, trimmed, is `text`. `merge` tells whether the
/// text uses merge language, `ask_merges` whether its ask or offer does.
pub open spec fn triaged(
    last_role: Option<Role>,
    has_tool_use: bool,
    text: Seq<char>,
    merge: bool,
    ask_merges: bool,
) -> (TriageState, Option<Seq<char>>) {
    if last_role != Some(Role::Agent) || has_tool_use {
        (TriageState::Running, None)
    } else if ask_of(text) is Some && merge && ask_merges {
        (TriageState::AwaitingMerge, ask_of(text))
    } else if hard_ask(text) is Some {
        (TriageState::NeedsYou, hard_ask(text))
    } else if soft_offer(text) is Some {
        (TriageState::Done, soft_offer(text))
    } else if merge {
        (TriageState::AwaitingMerge, None)
    } else if text.len() < STUB_LEN {
        (TriageState::Running, None)
    } else {
        (TriageState::Done, None)
    }
}

/// Decide the bucket of a thread, given whether its final message uses
/// merge language and whether the ask or offer in it does.
pub fn classify(input: &TriageInput, merge: bool, ask_merges: bool) -> (r: Triage)
    ensures
        (r.state, text_opt(r.ask)) == triaged(
            input.last_role,
            input.final_agent_has_tool_use,
            trimmed(input.final_agent_text@),
            merge,
            ask_merges,
        ),
{
    match input.last_role {
        None | Some(Role::User) => {
            return Triage { state: TriageState::Running, ask: None };
        },
        Some(Role::Agent) => {},
    }
    if input.final_agent_has_tool_use {
        return Triage { state: TriageState::Running, ask: None };
    }
    let chars = chars_of(input.final_agent_text);
    let text = trim(chars.as_slice());
    let message = string_of(text);
    if let Some(ask) = extract_hard_ask(message.as_str()) {
        if merge && ask_merges {
            return Triage { state: TriageState::AwaitingMerge, ask: Some(ask) };
        }
        return Triage { state: TriageState::NeedsYou, ask: Some(ask) };
    }
    if let Some(offer) = extract_offer(message.as_str()) {
        if merge && ask_merges {
            return Triage { state: TriageState::AwaitingMerge, ask: Some(offer) };
        }
        return Triage { state: TriageState::Done, ask: Some(offer) };
    }
    if merge {
        Triage { state: TriageState::AwaitingMerge, ask: None }
    } else if text.len() < STUB_LEN {
        Triage { state: TriageState::Running, ask: None }
    } else {
        Triage { state: TriageState::Done, ask: None }
    }
}

/// The triage of a thread end.
pub open spec fn triage_of(
    last_role: Option<Role>,
    has_tool_use: bool,
    final_agent_text: Seq<char>,
) -> (TriageState, Option<Seq<char>>) {
    let text = trimmed(final_agent_text);
    let ask_merges = match ask_of(text) {
        Some(ask) => merge_language(ask),
        None => false,
    };
    triaged(last_role, has_tool_use, text, merge_language(text), ask_merges)
}

/// Decide which attention bucket a thread belongs in.
///
/// 1. Running: the user spoke last, or the agent's final message ends
///    mid-work (it uses tools, or is a short stub).
/// 2. NeedsYou: the final agent message carries a hard ask.
/// 3. AwaitingMerge: it uses merge, commit or review language. When it
///    carries an ask or an offer too, only one that is itself about merging
///    counts.
/// 4. Done: a completed summary with no hard ask. A soft offer is kept as
///    the ask, so that it can be shown.
pub fn triage(input: &TriageInput) -> (r: Triage)
    ensures
        (r.state, text_opt(r.ask)) == triage_of(
            input.last_role,
            input.final_agent_has_tool_use,
            input.final_agent_text@,
        ),
{
    let chars = chars_of(input.final_agent_text);
    let text = string_of(trim(chars.as_slice()));
    let merge = has_merge_language(text.as_str());
    let ask_merges = match extract_ask(text.as_str()) {
        Some(ask) => has_merge_language(ask.as_str()),
        None => false,
    };
    classify(input, merge, ask_merges)
}

} // verus!
