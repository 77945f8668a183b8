//! Which Markdown marks go and which stay, told by what stands around them.

use crate::markup::{
    can_close, can_open, closing, is_mark, law_unpaired_marks_stay, lemma_closing_after, lemma_run,
    lemma_run_is, lemma_span, opens_after, plain_line, run_len, run_of, span_end, unmarked,
    unpaired,
};
use crate::text::is_space;
use vstd::prelude::*;

verus! {

proof fn lemma_no_closing(s: Seq<char>, c: char, w: int, j: int, e: int)
    requires
        j <= e,
        forall|m: int| j <= m < e ==> #[trigger] s[m] != c,
    ensures
        closing(s, c, w, j, e) is None,
{
    lemma_closing_after(s, c, w, j, e, e);
}

/// A mark that is the only one of its line stays, wherever it stands.
pub proof fn law_lone_mark_stays(line: Seq<char>, i: int)
    requires
        0 <= i < line.len(),
        forall|m: int|
            0 <= m < line.len() && m != i ==> #[trigger] line[m] != '*' && line[m] != '`',
    ensures
        plain_line(line) == line,
{
    let e = line.len() as int;
    if is_mark(line[i]) {
        lemma_run_is(line, line[i], i, 1, e);
        lemma_no_closing(line, line[i], 1, i + 1, e);
    }
    assert(unpaired(line)) by {
        assert forall|m: int| 0 <= m < line.len() && is_mark(#[trigger] line[m]) implies span_end(
            line,
            m,
            run_len(line, line[m], m, e),
            e,
        ) is None by {
            assert(m == i);
        }
    }
    law_unpaired_marks_stay(line);
}

/// Asterisks of paths, patterns and products stay: a line in which each
/// follows a letter, a digit, a slash or a full stop is left as it is.
pub proof fn law_asterisks_within_names_stay(line: Seq<char>)
    requires
        forall|m: int| 0 <= m < line.len() ==> #[trigger] line[m] != '`',
        forall|m: int|
            0 <= m < line.len() && #[trigger] line[m] == '*' ==> m > 0 && ('a' <= line[m - 1] <= 'z'
                || 'A' <= line[m - 1] <= 'Z' || '0' <= line[m - 1] <= '9' || line[m - 1] == '/'
                || line[m - 1] == '.'),
    ensures
        plain_line(line) == line,
{
    law_unpaired_marks_stay(line);
}

/// Asterisks with whitespace after them stay: they are bullets and products.
pub proof fn law_asterisks_before_blanks_stay(line: Seq<char>)
    requires
        forall|m: int| 0 <= m < line.len() ==> #[trigger] line[m] != '`',
        forall|m: int|
            0 <= m < line.len() && #[trigger] line[m] == '*' ==> m + 1 == line.len() || is_space(
                line[m + 1],
            ),
    ensures
        plain_line(line) == line,
{
    let e = line.len() as int;
    assert forall|m: int| 0 <= m < line.len() && is_mark(#[trigger] line[m]) implies span_end(
        line,
        m,
        run_len(line, line[m], m, e),
        e,
    ) is None by {
        assert(line[m] == '*');
        lemma_run_is(line, '*', m, 1, e);
    }
    law_unpaired_marks_stay(line);
}

proof fn lemma_plain_prefix(s: Seq<char>, i: int, k: int, e: int)
    requires
        0 <= i <= k <= e <= s.len(),
        forall|m: int| i <= m < k ==> !is_mark(#[trigger] s[m]),
    ensures
        unmarked(s, i, e) == s.subrange(i, k) + unmarked(s, k, e),
    decreases k - i,
{
    if i < k {
        assert(!is_mark(s[i]));
        lemma_plain_prefix(s, i + 1, k, e);
        assert(seq![s[i]] + (s.subrange(i + 1, k) + unmarked(s, k, e)) =~= s.subrange(i, k)
            + unmarked(s, k, e));
    } else {
        assert(s.subrange(i, k) + unmarked(s, k, e) =~= unmarked(s, k, e));
    }
}

proof fn lemma_run_shift(s: Seq<char>, c: char, i: int, e: int, z: int)
    requires
        0 <= z <= i <= e <= s.len(),
    ensures
        run_len(s.skip(z), c, i - z, e - z) == run_len(s, c, i, e),
    decreases e - i,
{
    if i < e {
        assert(s.skip(z)[i - z] == s[i]);
        lemma_run_shift(s, c, i + 1, e, z);
    }
}

proof fn lemma_closing_shift(s: Seq<char>, c: char, w: int, j: int, e: int, z: int)
    requires
        0 <= z < j,
        e <= s.len(),
    ensures
        closing(s, c, w, j, e) is Some == closing(s.skip(z), c, w, j - z, e - z) is Some,
        closing(s, c, w, j, e) is Some ==> closing(s.skip(z), c, w, j - z, e - z)->0 == closing(
            s,
            c,
            w,
            j,
            e,
        )->0 - z,
    decreases e - j,
{
    if j < e {
        let x = s.skip(z);
        assert(x[j - z] == s[j]);
        if s[j] != c {
            lemma_closing_shift(s, c, w, j + 1, e, z);
        } else {
            let run = run_len(s, c, j, e);
            lemma_run(s, c, j, e);
            lemma_run_shift(s, c, j, e, z);
            assert(x[j - z - 1] == s[j - 1]);
            if run == w && j + w < s.len() {
                assert(x[j - z + w] == s[j + w]);
            }
            assert(run == w ==> can_close(x, j - z, w) == can_close(s, j, w));
            lemma_closing_shift(s, c, w, j + run, e, z);
        }
    }
}

/// What stands before `z` decides nothing from `i` on, but for the one
/// character before asterisks at `z`.
proof fn lemma_unmarked_shift(s: Seq<char>, i: int, e: int, z: int)
    requires
        0 <= z <= i <= e <= s.len(),
        i > z || z == 0 || i == e || s[i] != '*' || opens_after(s[z - 1]),
    ensures
        unmarked(s.skip(z), i - z, e - z) == unmarked(s, i, e),
    decreases e - i,
{
    if i < e {
        let x = s.skip(z);
        assert(x[i - z] == s[i]);
        if !is_mark(s[i]) {
            lemma_unmarked_shift(s, i + 1, e, z);
        } else {
            let w = run_len(s, s[i], i, e);
            lemma_span(s, i, e);
            lemma_span(x, i - z, e - z);
            lemma_run_shift(s, s[i], i, e, z);
            lemma_closing_shift(s, s[i], w, i + w, e, z);
            if i > z {
                assert(x[i - z - 1] == s[i - 1]);
            }
            if i + w < e {
                assert(x[i - z + w] == s[i + w]);
            }
            assert(s[i] == '*' ==> can_open(x, i - z, w, e - z) == can_open(s, i, w, e));
            match span_end(s, i, w, e) {
                Some(k) => {
                    assert(span_end(x, i - z, w, e - z) == Some(k - z));
                    lemma_unmarked_shift(s, i + w, k, z);
                    lemma_unmarked_shift(s, k + w, e, z);
                    assert(x.subrange(i - z + w, k - z) =~= s.subrange(i + w, k));
                },
                None => {
                    assert(span_end(x, i - z, w, e - z) is None);
                    lemma_unmarked_shift(s, i + w, e, z);
                    assert(x.subrange(i - z, i - z + w) =~= s.subrange(i, i + w));
                },
            }
        }
    }
}

proof fn lemma_rest(s: Seq<char>, z: int)
    requires
        0 <= z <= s.len(),
        z == 0 || z == s.len() || s[z] != '*' || opens_after(s[z - 1]),
    ensures
        unmarked(s, z, s.len() as int) == plain_line(s.skip(z)),
{
    lemma_unmarked_shift(s, z, s.len() as int, z);
}

proof fn lemma_run_take(s: Seq<char>, c: char, i: int, e: int)
    requires
        0 <= i <= e <= s.len(),
    ensures
        run_len(s.take(e), c, i, e) == run_len(s, c, i, e),
    decreases e - i,
{
    if i < e {
        assert(s.take(e)[i] == s[i]);
        lemma_run_take(s, c, i + 1, e);
    }
}

proof fn lemma_closing_take(s: Seq<char>, w: int, j: int, e: int)
    requires
        0 <= j,
        e <= s.len(),
        0 <= e,
    ensures
        closing(s.take(e), '`', w, j, e) == closing(s, '`', w, j, e),
    decreases e - j,
{
    if j < e {
        assert(s.take(e)[j] == s[j]);
        if s[j] != '`' {
            lemma_closing_take(s, w, j + 1, e);
        } else {
            lemma_run(s, '`', j, e);
            lemma_run_take(s, '`', j, e);
            lemma_closing_take(s, w, j + run_len(s, '`', j, e), e);
        }
    }
}

proof fn lemma_code_take(s: Seq<char>, i: int, e: int, n: int)
    requires
        0 <= i <= e <= n <= s.len(),
        forall|m: int| i <= m < e ==> #[trigger] s[m] != '*',
    ensures
        unmarked(s.take(n), i, e) == unmarked(s, i, e),
    decreases e - i,
{
    if i < e {
        let x = s.take(n);
        assert(x[i] == s[i]);
        assert(s[i] != '*');
        if s[i] != '`' {
            lemma_code_take(s, i + 1, e, n);
        } else {
            let w = run_len(s, '`', i, e);
            lemma_span(s, i, e);
            lemma_span(x, i, e);
            assert(x.take(e) =~= s.take(e));
            lemma_run_take(s, '`', i, e);
            lemma_run_take(x, '`', i, e);
            lemma_closing_take(s, w, i + w, e);
            lemma_closing_take(x, w, i + w, e);
            match span_end(s, i, w, e) {
                Some(k) => {
                    lemma_code_take(s, k + w, e, n);
                    assert(x.subrange(i + w, k) =~= s.subrange(i + w, k));
                },
                None => {
                    lemma_code_take(s, i + w, e, n);
                    assert(x.subrange(i, i + w) =~= s.subrange(i, i + w));
                },
            }
        }
    }
}

proof fn lemma_code_within(s: Seq<char>, i: int, k: int)
    requires
        0 <= i <= k <= s.len(),
        forall|m: int| i <= m < k ==> #[trigger] s[m] != '*',
    ensures
        unmarked(s, i, k) == plain_line(s.subrange(i, k)),
{
    let x = s.skip(i);
    assert forall|m: int| 0 <= m < k - i implies #[trigger] x[m] != '*' by {
        assert(x[m] == s[i + m]);
    }
    if i < k {
        assert(s[i] != '*');
    }
    lemma_unmarked_shift(s, i, k, i);
    lemma_code_take(x, 0, k - i, k - i);
    assert(x.take(k - i) =~= s.subrange(i, k));
}

/// Whether emphasis may open after the character: whitespace, an opening
/// bracket or quote, or punctuation that parts phrases.
pub open spec fn before_emphasis(c: char) -> bool {
    ||| is_space(c)
    ||| c == '('
    ||| c == '['
    ||| c == '{'
    ||| c == '"'
    ||| c == '\''
    ||| c == ':'
    ||| c == ';'
    ||| c == ','
    ||| c == '-'
    ||| c == '—'
}

/// Whether emphasis may close before the character: whitespace, a closing
/// bracket or quote, or punctuation.
pub open spec fn after_emphasis(c: char) -> bool {
    ||| is_space(c)
    ||| c == ')'
    ||| c == ']'
    ||| c == '}'
    ||| c == '"'
    ||| c == '\''
    ||| c == ':'
    ||| c == ';'
    ||| c == ','
    ||| c == '-'
    ||| c == '—'
    ||| c == '.'
    ||| c == '!'
    ||| c == '?'
    ||| c == '…'
}

/// Code loses its marks and stays as it is between them, asterisks and all;
/// what follows it is read on in the same way.
pub proof fn law_code_stays_as_it_is(
    before: Seq<char>,
    w: nat,
    code: Seq<char>,
    after: Seq<char>,
)
    requires
        w > 0,
        code.len() > 0,
        forall|m: int| 0 <= m < before.len() ==> #[trigger] before[m] != '*' && before[m] != '`',
        forall|m: int| 0 <= m < code.len() ==> #[trigger] code[m] != '`',
        after.len() == 0 || after[0] != '*' && after[0] != '`',
    ensures
        plain_line(before + run_of('`', w) + code + run_of('`', w) + after) == before + code
            + plain_line(after),
{
    let s = before + run_of('`', w) + code + run_of('`', w) + after;
    let e = s.len() as int;
    let a = before.len() as int;
    let i = a + w;
    let k = i + code.len();
    let z = k + w;
    lemma_pair(before, '`', w, code, after);
    assert(s[a] == '`');
    assert(s.subrange(i as int, k as int) =~= code);
    lemma_rest(s, z as int);
    assert(s.skip(z as int) =~= after);
    assert(unmarked(s, a, e) == code + plain_line(after));
    assert(before + (code + plain_line(after)) =~= before + code + plain_line(after));
}

proof fn lemma_pair(before: Seq<char>, c: char, w: nat, words: Seq<char>, after: Seq<char>)
    requires
        c == '*' || c == '`',
        w > 0,
        words.len() > 0,
        forall|m: int| 0 <= m < before.len() ==> #[trigger] before[m] != '*' && before[m] != '`',
        forall|m: int| 0 <= m < words.len() ==> #[trigger] words[m] != c,
        after.len() == 0 || after[0] != c,
        c == '*' ==> {
            &&& before.len() == 0 || before_emphasis(before.last())
            &&& after.len() == 0 || after_emphasis(after[0])
            &&& !is_space(words[0]) && words[0] != '.' && words[0] != '/'
            &&& !is_space(words.last()) && words.last() != '/'
        },
    ensures
        ({
            let s = before + run_of(c, w) + words + run_of(c, w) + after;
            let a = before.len() as int;
            let k = a + w + words.len();
            &&& run_len(s, c, a, s.len() as int) == w
            &&& span_end(s, a, w as int, s.len() as int) == Some(k as int)
            &&& plain_line(s) == before + unmarked(s, a, s.len() as int)
        }),
{
    let s = before + run_of(c, w) + words + run_of(c, w) + after;
    let e = s.len() as int;
    let a = before.len() as int;
    let i = a + w;
    let k = i + words.len();
    let z = k + w;
    assert forall|m: int| 0 <= m < a implies !is_mark(#[trigger] s[m]) by {
        assert(s[m] == before[m]);
    }
    assert forall|m: int| i <= m < k implies #[trigger] s[m] != c by {
        assert(s[m] == words[m - i]);
    }
    assert forall|m: int| a <= m < i implies #[trigger] s[m] == c by {}
    assert forall|m: int| k <= m < z implies #[trigger] s[m] == c by {}
    assert(s[i as int] == words[0]);
    assert(s[k - 1] == words.last());
    if a > 0 {
        assert(s[a - 1] == before.last());
    }
    if z < e {
        assert(s[z as int] == after[0]);
    }
    lemma_plain_prefix(s, 0, a, e);
    assert(s.subrange(0, a) =~= before);
    lemma_run_is(s, c, a, w as int, e);
    lemma_run_is(s, c, k as int, w as int, e);
    lemma_closing_after(s, c, w as int, i as int, k as int, e);
    assert(s[a] == c);
    assert(s[k as int] == c);
    assert(closing(s, c, w as int, i as int, e) == Some(k as int));
}

/// Emphasis loses its marks and keeps its words, wherever it stands apart; code
/// within it is read as code, and what follows it is read on in the same way.
pub proof fn law_emphasis_keeps_its_words(
    before: Seq<char>,
    w: nat,
    words: Seq<char>,
    after: Seq<char>,
)
    requires
        w > 0,
        words.len() > 0,
        forall|m: int| 0 <= m < before.len() ==> #[trigger] before[m] != '*' && before[m] != '`',
        forall|m: int| 0 <= m < words.len() ==> #[trigger] words[m] != '*',
        before.len() == 0 || before_emphasis(before.last()),
        after.len() == 0 || after_emphasis(after[0]),
        !is_space(words[0]) && words[0] != '.' && words[0] != '/',
        !is_space(words.last()) && words.last() != '/',
    ensures
        plain_line(before + run_of('*', w) + words + run_of('*', w) + after) == before + plain_line(
            words,
        ) + plain_line(after),
{
    let s = before + run_of('*', w) + words + run_of('*', w) + after;
    let e = s.len() as int;
    let a = before.len() as int;
    let i = a + w;
    let k = i + words.len();
    let z = k + w;
    lemma_pair(before, '*', w, words, after);
    assert(s[a] == '*');
    assert(s.subrange(i as int, k as int) =~= words);
    assert forall|m: int| i <= m < k implies #[trigger] s[m] != '*' by {
        assert(s[m] == words[m - i]);
    }
    lemma_code_within(s, i as int, k as int);
    if z < e {
        assert(s[z as int] == after[0]);
    }
    lemma_rest(s, z as int);
    assert(s.skip(z as int) =~= after);
    assert(unmarked(s, a, e) == plain_line(words) + plain_line(after));
    assert(before + (plain_line(words) + plain_line(after)) =~= before + plain_line(words)
        + plain_line(after));
}

proof fn lemma_kept(s: Seq<char>, i: int, k: int, w: int)
    requires
        0 <= i <= k <= s.len(),
        w >= 0,
        k + w <= s.len(),
        forall|m: int| i <= m < k ==> !is_mark(#[trigger] s[m]),
        w > 0 ==> is_mark(s[k]) && run_len(s, s[k], k, s.len() as int) == w && span_end(
            s,
            k,
            w,
            s.len() as int,
        ) is None,
        unmarked(s, k + w, s.len() as int) == s.skip(k + w),
    ensures
        unmarked(s, i, s.len() as int) == s.skip(i),
{
    let e = s.len() as int;
    lemma_plain_prefix(s, i, k, e);
    assert(w > 0 ==> unmarked(s, k, e) =~= s.skip(k));
    assert(unmarked(s, k, e) =~= s.skip(k));
    assert(s.subrange(i, k) + s.skip(k) =~= s.skip(i));
}

proof fn lemma_unfit(s: Seq<char>, c: char, a: int, i: int, k: int, z: int)
    requires
        c == '*' || c == '`',
        0 <= a < i < k < z <= s.len(),
        forall|m: int| 0 <= m < a ==> !is_mark(#[trigger] s[m]),
        forall|m: int| a <= m < i ==> #[trigger] s[m] == c,
        forall|m: int| i <= m < k ==> !is_mark(#[trigger] s[m]),
        forall|m: int| k <= m < z ==> #[trigger] s[m] == c,
        forall|m: int| z <= m < s.len() ==> !is_mark(#[trigger] s[m]),
        i - a != z - k || c == '*' && (!can_open(s, a, i - a, s.len() as int) || !can_close(
            s,
            k,
            z - k,
        )),
    ensures
        plain_line(s) == s,
{
    let e = s.len() as int;
    lemma_run_is(s, c, a, i - a, e);
    lemma_run_is(s, c, k, z - k, e);
    lemma_closing_after(s, c, i - a, i, k, e);
    assert(s[a] == c && s[k] == c);
    assert forall|m: int| z <= m < e implies #[trigger] s[m] != c by {
        assert(!is_mark(s[m]));
    }
    lemma_no_closing(s, c, i - a, z, e);
    lemma_no_closing(s, c, z - k, z, e);
    assert(span_end(s, a, i - a, e) is None);
    assert(span_end(s, k, z - k, e) is None);
    assert(unmarked(s, e, e) =~= s.skip(e));
    lemma_kept(s, z, e, 0);
    lemma_kept(s, i, k, z - k);
    lemma_kept(s, 0, a, i - a);
    assert(s.skip(0) =~= s);
}

/// Two runs of marks that do not fit each other stay, with all between and
/// around them: runs of different lengths, and asterisks of which the first
/// stand before whitespace, a full stop or a slash, or the second after
/// whitespace or a slash or before a letter or digit.
pub proof fn law_unfit_runs_stay(
    before: Seq<char>,
    c: char,
    w: nat,
    words: Seq<char>,
    v: nat,
    after: Seq<char>,
)
    requires
        c == '*' || c == '`',
        w > 0,
        v > 0,
        words.len() > 0,
        forall|m: int| 0 <= m < before.len() ==> #[trigger] before[m] != '*' && before[m] != '`',
        forall|m: int| 0 <= m < words.len() ==> #[trigger] words[m] != '*' && words[m] != '`',
        forall|m: int| 0 <= m < after.len() ==> #[trigger] after[m] != '*' && after[m] != '`',
        v != w || c == '*' && {
            ||| is_space(words[0]) || words[0] == '.' || words[0] == '/'
            ||| is_space(words.last()) || words.last() == '/'
            ||| after.len() > 0 && ('a' <= after[0] <= 'z' || 'A' <= after[0] <= 'Z' || '0'
                <= after[0] <= '9')
        },
    ensures
        ({
            let line = before + run_of(c, w) + words + run_of(c, v) + after;
            plain_line(line) == line
        }),
{
    let s = before + run_of(c, w) + words + run_of(c, v) + after;
    let e = s.len() as int;
    let a = before.len() as int;
    let i = a + w;
    let k = i + words.len();
    let z = k + v;
    assert forall|m: int| 0 <= m < a implies !is_mark(#[trigger] s[m]) by {
        assert(s[m] == before[m]);
    }
    assert forall|m: int| i <= m < k implies !is_mark(#[trigger] s[m]) by {
        assert(s[m] == words[m - i]);
    }
    assert forall|m: int| z <= m < e implies !is_mark(#[trigger] s[m]) by {
        assert(s[m] == after[m - z]);
    }
    assert forall|m: int| a <= m < i implies #[trigger] s[m] == c by {}
    assert forall|m: int| k <= m < z implies #[trigger] s[m] == c by {}
    assert(s[i as int] == words[0]);
    assert(s[k - 1] == words.last());
    if z < e {
        assert(s[z as int] == after[0]);
    }
    lemma_unfit(s, c, a, i as int, k as int, z as int);
}

/// The asterisk of a list item stays, and what follows it is read on.
pub proof fn law_bullet_keeps_its_asterisk(before: Seq<char>, blank: char, after: Seq<char>)
    requires
        forall|m: int| 0 <= m < before.len() ==> #[trigger] before[m] != '*' && before[m] != '`',
        is_space(blank),
    ensures
        plain_line(before + seq!['*', blank] + after) == before + seq!['*', blank] + plain_line(
            after,
        ),
{
    let s = before + seq!['*', blank] + after;
    let e = s.len() as int;
    let a = before.len() as int;
    assert forall|m: int| 0 <= m < a implies !is_mark(#[trigger] s[m]) by {
        assert(s[m] == before[m]);
    }
    assert(s[a] == '*' && s[a + 1] == blank);
    lemma_plain_prefix(s, 0, a, e);
    assert(s.subrange(0, a) =~= before);
    lemma_run_is(s, '*', a, 1, e);
    assert(!is_mark(blank));
    assert(unmarked(s, a + 1, e) == seq![blank] + unmarked(s, a + 2, e));
    lemma_rest(s, a + 2);
    assert(s.skip(a + 2) =~= after);
    assert(s.subrange(a, a + 1) =~= seq!['*']);
    assert(unmarked(s, a, e) == seq!['*'] + (seq![blank] + plain_line(after)));
    assert(before + (seq!['*'] + (seq![blank] + plain_line(after))) =~= before + seq!['*', blank]
        + plain_line(after));
}

/// Asterisks within a name, a path or a pattern stay, and what follows them is
/// read on.
pub proof fn law_asterisks_after_a_name_stay(before: Seq<char>, w: nat, after: Seq<char>)
    requires
        w > 0,
        before.len() > 0,
        forall|m: int| 0 <= m < before.len() ==> #[trigger] before[m] != '*' && before[m] != '`',
        ({
            let c = before.last();
            'a' <= c <= 'z' || 'A' <= c <= 'Z' || '0' <= c <= '9' || c == '/' || c == '.' || c
                == '_'
        }),
        after.len() == 0 || after[0] != '*',
    ensures
        plain_line(before + run_of('*', w) + after) == before + run_of('*', w) + plain_line(after),
{
    let s = before + run_of('*', w) + after;
    let e = s.len() as int;
    let a = before.len() as int;
    let z = a + w;
    assert forall|m: int| 0 <= m < a implies !is_mark(#[trigger] s[m]) by {
        assert(s[m] == before[m]);
    }
    assert forall|m: int| a <= m < z implies #[trigger] s[m] == '*' by {}
    assert(s[a - 1] == before.last());
    if z < e {
        assert(s[z as int] == after[0]);
    }
    lemma_plain_prefix(s, 0, a, e);
    assert(s.subrange(0, a) =~= before);
    lemma_run_is(s, '*', a, w as int, e);
    assert(s[a] == '*');
    lemma_rest(s, z as int);
    assert(s.skip(z as int) =~= after);
    assert(s.subrange(a, z as int) =~= run_of('*', w));
    assert(unmarked(s, a, e) == run_of('*', w) + plain_line(after));
    assert(before + (run_of('*', w) + plain_line(after)) =~= before + run_of('*', w) + plain_line(
        after,
    ));
}

/// A backtick without a partner stays, and what follows it is read on.
pub proof fn law_lone_backtick_stays(before: Seq<char>, w: nat, after: Seq<char>)
    requires
        w > 0,
        forall|m: int| 0 <= m < before.len() ==> #[trigger] before[m] != '*' && before[m] != '`',
        forall|m: int| 0 <= m < after.len() ==> #[trigger] after[m] != '`',
    ensures
        plain_line(before + run_of('`', w) + after) == before + run_of('`', w) + plain_line(after),
{
    let s = before + run_of('`', w) + after;
    let e = s.len() as int;
    let a = before.len() as int;
    let z = a + w;
    assert forall|m: int| 0 <= m < a implies !is_mark(#[trigger] s[m]) by {
        assert(s[m] == before[m]);
    }
    assert forall|m: int| a <= m < z implies #[trigger] s[m] == '`' by {}
    assert forall|m: int| z <= m < e implies #[trigger] s[m] != '`' by {
        assert(s[m] == after[m - z]);
    }
    lemma_plain_prefix(s, 0, a, e);
    assert(s.subrange(0, a) =~= before);
    lemma_run_is(s, '`', a, w as int, e);
    assert(s[a] == '`');
    lemma_no_closing(s, '`', w as int, z as int, e);
    assert(s[z - 1] == '`');
    lemma_rest(s, z as int);
    assert(s.skip(z as int) =~= after);
    assert(s.subrange(a, z as int) =~= run_of('`', w));
    assert(unmarked(s, a, e) == run_of('`', w) + plain_line(after));
    assert(before + (run_of('`', w) + plain_line(after)) =~= before + run_of('`', w) + plain_line(
        after,
    ));
}

} // verus!
