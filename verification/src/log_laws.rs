//! What a merge of event logs keeps and in which order, told by the lines
//! themselves and by the `ts` fields of their events.

use crate::json::json_document;
use crate::log::{
    appended, blank, filled, fits, fresh, law_merge_appends_in_order, law_merge_reads_back,
    law_merge_unions, lemma_appended_fits, lemma_fresh_contains, lemma_fresh_distinct,
    merged_lines, no_returns, text_of, ts_of,
};
use crate::order::{
    key_lt, law_stable_order_exists, lemma_key_irreflexive, lemma_key_transitive, sorts_before,
    stable_order_of, text_key, text_keys,
};
use crate::text::{first_of, is_space, lemma_first_of, lines_of, trimmed, without_return};
use crate::textmap::text_lt;
use vstd::prelude::*;

verus! {

/// Whether text `a` comes before text `b`: at the first place where they
/// differ it has the lesser character, or it ends.
pub open spec fn precedes(a: Seq<char>, b: Seq<char>) -> bool {
    exists|n: int| #[trigger] parts_at(a, b, n)
}

/// Whether `a` and `b` agree up to `n`, and `a` ends there or has the lesser
/// character.
pub open spec fn parts_at(a: Seq<char>, b: Seq<char>, n: int) -> bool {
    &&& 0 <= n <= a.len()
    &&& n < b.len()
    &&& forall|m: int| 0 <= m < n ==> a[m] == b[m]
    &&& n == a.len() || (a[n] as u64) < (b[n] as u64)
}

pub(crate) proof fn lemma_parts(a: Seq<char>, b: Seq<char>, n: int)
    requires
        parts_at(a, b, n),
    ensures
        text_lt(a, b),
    decreases n,
{
    let x = text_key(a);
    let y = text_key(b);
    if n > 0 {
        assert(a[0] == b[0]);
        let a1 = a.skip(1);
        let b1 = b.skip(1);
        assert forall|m: int| 0 <= m < n - 1 implies a1[m] == b1[m] by {
            assert(a[m + 1] == b[m + 1]);
        }
        lemma_parts(a1, b1, n - 1);
        assert(text_key(a1) =~= x.skip(1));
        assert(text_key(b1) =~= y.skip(1));
        assert(x[0] == y[0]);
        assert(key_lt(x.skip(1), y.skip(1)));
        assert(key_lt(x, y));
    } else if a.len() > 0 {
        assert(x[0] == a[0] as u64 && y[0] == b[0] as u64);
        assert(x[0] < y[0]);
        assert(key_lt(x, y));
    } else {
        assert(key_lt(x, y));
    }
}

/// The `ts` field of the event on a line.
pub open spec fn stamped(line: Seq<char>, ts: Seq<char>) -> bool {
    json_document(line) is Some && json_document(line)->0.text_field("ts"@) == Some(ts)
}

/// Whether no `ts` field can be read on a line.
pub open spec fn unstamped(line: Seq<char>) -> bool {
    json_document(line) is None || json_document(line)->0.text_field("ts"@) is None
}

/// A line is sorted by its whole `ts` field, and one without by nothing.
pub proof fn law_stamp_is_the_field(line: Seq<char>, ts: Seq<char>)
    ensures
        stamped(line, ts) ==> ts_of(line) == ts,
        unstamped(line) ==> ts_of(line) == Seq::<char>::empty(),
{
}

/// Whether `line` stands at `i` in the merged log, and was not committed.
pub open spec fn appended_at(
    committed: Seq<char>,
    working: Seq<char>,
    stash: Seq<char>,
    line: Seq<char>,
    i: int,
) -> bool {
    &&& 0 <= i < merged_lines(committed, working, stash).len()
    &&& merged_lines(committed, working, stash)[i] == line
    &&& !lines_of(committed).contains(line)
}

proof fn lemma_appended_place(
    committed: Seq<char>,
    working: Seq<char>,
    stash: Seq<char>,
    line: Seq<char>,
    i: int,
)
    requires
        appended_at(committed, working, stash, line, i),
    ensures
        filled(lines_of(committed)).len() <= i,
{
    let kept = filled(lines_of(committed));
    if i < kept.len() {
        assert(merged_lines(committed, working, stash)[i] == kept[i]);
        assert(kept.contains(line));
        crate::log::lemma_filled_contains(lines_of(committed), line);
    }
}

/// The last write by time stamp wins: of two appended events, the one whose
/// `ts` comes first as text stands first in the merged log.
pub proof fn law_merge_goes_by_ts(
    committed: Seq<char>,
    working: Seq<char>,
    stash: Seq<char>,
    x: Seq<char>,
    y: Seq<char>,
    a: Seq<char>,
    b: Seq<char>,
    i: int,
    j: int,
)
    requires
        fits(working, stash),
        appended_at(committed, working, stash, x, i),
        appended_at(committed, working, stash, y, j),
        stamped(x, a),
        stamped(y, b),
        precedes(a, b),
    ensures
        i < j,
{
    let n = choose|n: int| #[trigger] parts_at(a, b, n);
    lemma_parts(a, b, n);
    lemma_appended_place(committed, working, stash, x, i);
    lemma_appended_place(committed, working, stash, y, j);
    lemma_key_irreflexive(text_key(a));
    if j < i {
        law_merge_appends_in_order(committed, working, stash, j, i);
    }
}

/// A line without a time stamp stands before every appended event with one.
pub proof fn law_unstamped_lines_come_first(
    committed: Seq<char>,
    working: Seq<char>,
    stash: Seq<char>,
    x: Seq<char>,
    y: Seq<char>,
    b: Seq<char>,
    i: int,
    j: int,
)
    requires
        fits(working, stash),
        appended_at(committed, working, stash, x, i),
        appended_at(committed, working, stash, y, j),
        unstamped(x),
        stamped(y, b),
        b.len() > 0,
    ensures
        i < j,
{
    let none = Seq::<char>::empty();
    assert(parts_at(none, b, 0));
    lemma_parts(none, b, 0);
    lemma_appended_place(committed, working, stash, x, i);
    lemma_appended_place(committed, working, stash, y, j);
    lemma_key_irreflexive(text_key(none));
    if j < i {
        law_merge_appends_in_order(committed, working, stash, j, i);
    }
}

/// Whether `line` stands first at `p` among `lines`.
pub open spec fn first_at(lines: Seq<Seq<char>>, line: Seq<char>, p: int) -> bool {
    &&& 0 <= p < lines.len()
    &&& lines[p] == line
    &&& forall|m: int| 0 <= m < p ==> #[trigger] lines[m] != line
}

proof fn lemma_fresh_order(
    kept: Seq<Seq<char>>,
    lines: Seq<Seq<char>>,
    x: Seq<char>,
    y: Seq<char>,
    p: int,
    r: int,
    f: int,
    g: int,
)
    requires
        first_at(lines, x, p),
        first_at(lines, y, r),
        p < r,
        0 <= f < fresh(kept, lines).len(),
        0 <= g < fresh(kept, lines).len(),
        fresh(kept, lines)[f] == x,
        fresh(kept, lines)[g] == y,
    ensures
        f < g,
    decreases lines.len(),
{
    let front = lines.drop_last();
    let before = fresh(kept, front);
    let all = fresh(kept, lines);
    lemma_fresh_distinct(kept, lines);
    lemma_fresh_contains(kept, front, x);
    lemma_fresh_contains(kept, front, y);
    lemma_fresh_contains(kept, lines, x);
    assert(all.contains(x));
    assert(front[p] == x);
    assert(front.contains(x));
    assert(before.contains(x));
    let f0 = choose|f0: int| 0 <= f0 < before.len() && before[f0] == x;
    assert(all[f0] == x);
    assert(f0 == f);
    if r < front.len() {
        assert(front[r] == y);
        assert forall|m: int| 0 <= m < p implies #[trigger] front[m] != x by {
            assert(front[m] == lines[m]);
        }
        assert forall|m: int| 0 <= m < r implies #[trigger] front[m] != y by {
            assert(front[m] == lines[m]);
        }
        lemma_fresh_contains(kept, lines, y);
        assert(all.contains(y));
        assert(front.contains(y));
        assert(before.contains(y));
        let g0 = choose|g0: int| 0 <= g0 < before.len() && before[g0] == y;
        assert(all[g0] == y);
        assert(g0 == g);
        lemma_fresh_order(kept, front, x, y, p, r, f, g);
    } else {
        if g < before.len() {
            assert(before[g] == y);
            assert(before.contains(y));
            assert(front.contains(y));
            let m = choose|m: int| 0 <= m < front.len() && front[m] == y;
            assert(lines[m] == y);
        }
    }
}

/// Events of one time stamp keep the order in which they were first met:
/// those of the working tree, then those of the stash.
pub proof fn law_merge_keeps_order_of_equals(
    committed: Seq<char>,
    working: Seq<char>,
    stash: Seq<char>,
    x: Seq<char>,
    y: Seq<char>,
    ts: Seq<char>,
    p: int,
    r: int,
    i: int,
    j: int,
)
    requires
        fits(working, stash),
        appended_at(committed, working, stash, x, i),
        appended_at(committed, working, stash, y, j),
        stamped(x, ts) && stamped(y, ts) || unstamped(x) && unstamped(y),
        first_at(lines_of(working) + lines_of(stash), x, p),
        first_at(lines_of(working) + lines_of(stash), y, r),
        p < r,
    ensures
        i < j,
{
    let kept = filled(lines_of(committed));
    let all = lines_of(working) + lines_of(stash);
    let new = appended(committed, working, stash);
    let stamps = new.map_values(|l: Seq<char>| ts_of(l));
    let keys = text_keys(stamps);
    let order = stable_order_of(keys);
    lemma_appended_fits(committed, working, stash);
    law_stable_order_exists(keys);
    lemma_appended_place(committed, working, stash, x, i);
    lemma_appended_place(committed, working, stash, y, j);
    let f = order[i - kept.len()] as int;
    let g = order[j - kept.len()] as int;
    assert(merged_lines(committed, working, stash)[i] == new[f]);
    assert(merged_lines(committed, working, stash)[j] == new[g]);
    lemma_fresh_order(kept, all, x, y, p, r, f, g);
    assert(keys[f] == text_key(ts_of(x)));
    assert(keys[g] == text_key(ts_of(y)));
    lemma_key_irreflexive(keys[f]);
    if j < i {
        assert(sorts_before(keys, g, f));
    }
    assert(i != j);
}

// ---------------------------------------------------------------------
// The merged text
// ---------------------------------------------------------------------

/// Whether a line holds something else than whitespace.
pub open spec fn says_something(line: Seq<char>) -> bool {
    exists|m: int| 0 <= m < line.len() && !is_space(#[trigger] line[m])
}

proof fn lemma_blank(line: Seq<char>)
    ensures
        blank(line) == !says_something(line),
{
    lemma_trim_empty(line);
}

proof fn lemma_leading_empty(s: Seq<char>)
    ensures
        (crate::text::without_leading_space(s).len() == 0) == !says_something(s),
        crate::text::without_leading_space(s).len() > 0 ==> !is_space(
            crate::text::without_leading_space(s)[0],
        ),
    decreases s.len(),
{
    if s.len() > 0 && is_space(s[0]) {
        let rest = s.skip(1);
        lemma_leading_empty(rest);
        if says_something(rest) {
            let m = choose|m: int| 0 <= m < rest.len() && !is_space(#[trigger] rest[m]);
            assert(!is_space(s[m + 1]));
        }
        if says_something(s) {
            let m = choose|m: int| 0 <= m < s.len() && !is_space(#[trigger] s[m]);
            assert(!is_space(rest[m - 1]));
        }
    } else if s.len() > 0 {
        assert(!is_space(s[0]));
    }
}

pub(crate) proof fn lemma_trim_empty(s: Seq<char>)
    ensures
        (trimmed(s).len() == 0) == !says_something(s),
{
    lemma_leading_empty(s);
    crate::triage_laws::lemma_trimmed_end(crate::text::without_leading_space(s));
}

/// No event is lost and none invented: the lines of the merged text are just
/// the lines of the three logs that say something, as long as none of them
/// ends in a carriage return.
pub proof fn law_merged_text_holds_every_line(
    committed: Seq<char>,
    working: Seq<char>,
    stash: Seq<char>,
    line: Seq<char>,
)
    requires
        fits(working, stash),
        no_returns(committed),
        no_returns(working),
        no_returns(stash),
    ensures
        lines_of(text_of(merged_lines(committed, working, stash))).contains(line) == (
        says_something(line) && (lines_of(committed).contains(line) || lines_of(working).contains(
            line,
        ) || lines_of(stash).contains(line))),
{
    law_merge_reads_back(committed, working, stash);
    law_merge_unions(committed, working, stash, line);
    lemma_blank(line);
}

proof fn lemma_text_sum(a: Seq<Seq<char>>, b: Seq<Seq<char>>)
    ensures
        text_of(a + b) == text_of(a) + text_of(b),
    decreases b.len(),
{
    if b.len() == 0 {
        assert(a + b =~= a);
        assert(text_of(a) + text_of(b) =~= text_of(a));
    } else {
        lemma_text_sum(a, b.drop_last());
        assert((a + b).drop_last() =~= a + b.drop_last());
        assert((a + b).last() == b.last());
        assert(text_of(a) + (text_of(b.drop_last()) + b.last().push('\n')) =~= (text_of(a)
            + text_of(b.drop_last())) + b.last().push('\n'));
    }
}

proof fn lemma_text_of_lines(s: Seq<char>)
    requires
        s.len() == 0 || s.last() == '\n',
        forall|m: int| 0 <= m < s.len() ==> #[trigger] s[m] != '\r',
    ensures
        text_of(lines_of(s)) == s,
    decreases s.len(),
{
    let n = first_of(s, '\n') as int;
    lemma_first_of(s, '\n');
    if s.len() == 0 {
        assert(text_of(lines_of(s)) =~= s);
    } else {
        assert(n < s.len()) by {
            if n >= s.len() {
                assert(s[s.len() - 1] != '\n');
            }
        }
        let line = s.take(n);
        let tail = s.skip(n + 1);
        if n > 0 {
            assert(line.last() == s[n - 1]);
        }
        assert(without_return(line) == line);
        assert(lines_of(s) == seq![line] + lines_of(tail));
        if tail.len() > 0 {
            assert(tail.last() == s.last());
        }
        assert forall|m: int| 0 <= m < tail.len() implies #[trigger] tail[m] != '\r' by {
            assert(tail[m] == s[m + n + 1]);
        }
        lemma_text_of_lines(tail);
        lemma_text_sum(seq![line], lines_of(tail));
        assert(seq![line].drop_last() =~= Seq::<Seq<char>>::empty());
        assert(text_of(seq![line].drop_last()) =~= Seq::<char>::empty());
        assert(text_of(seq![line]) =~= line.push('\n'));
        assert(line.push('\n') + tail =~= s);
    }
}

/// The committed log is kept to the letter: a merged log begins with it, given
/// that its lines are ended, none is blank and no carriage return is in it.
pub proof fn law_merged_text_opens_with_committed(
    committed: Seq<char>,
    working: Seq<char>,
    stash: Seq<char>,
)
    requires
        committed.len() == 0 || committed.last() == '\n',
        forall|m: int| 0 <= m < committed.len() ==> #[trigger] committed[m] != '\r',
        forall|i: int|
            0 <= i < lines_of(committed).len() ==> says_something(#[trigger] lines_of(committed)[i]),
    ensures
        committed.is_prefix_of(text_of(merged_lines(committed, working, stash))),
{
    let lines = lines_of(committed);
    assert forall|i: int| 0 <= i < lines.len() implies !blank(#[trigger] lines[i]) by {
        lemma_blank(lines[i]);
    }
    crate::log::lemma_nothing_filled_out(lines);
    lemma_text_of_lines(committed);
    let all = merged_lines(committed, working, stash);
    let new = all.skip(lines.len() as int);
    assert(all =~= lines + new);
    lemma_text_sum(lines, new);
    assert(text_of(all).subrange(0, committed.len() as int) =~= committed);
}

} // verus!
