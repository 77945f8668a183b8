//! Merging append-only event logs.

use crate::events::{complete, lemma_lines_append, lemma_lines_of_one};
use crate::json::{json_document, json_opt, parse_json, Json, JsonView};
use crate::order::{
    is_stable_order, key_lt, keys_of, law_stable_order_exists, lemma_key_irreflexive,
    lemma_key_transitive, sorts_before, stable_order, stable_order_of, text_key, text_keys,
};
use crate::text::{
    chars_of, lines, lines_of, owned, rows, same, string_of, texts, trim, trimmed, without_return,
};
use crate::textmap::text_lt;
use vstd::prelude::*;

verus! {

/// Whether a line holds nothing but whitespace.
pub open spec fn blank(line: Seq<char>) -> bool {
    trimmed(line).len() == 0
}

/// The lines that are not blank.
pub open spec fn filled(lines: Seq<Seq<char>>) -> Seq<Seq<char>>
    decreases lines.len(),
{
    if lines.len() == 0 {
        Seq::empty()
    } else if blank(lines.last()) {
        filled(lines.drop_last())
    } else {
        filled(lines.drop_last()).push(lines.last())
    }
}

/// The lines that are neither blank nor among `kept`, each once, in the order
/// in which they first occur.
pub open spec fn fresh(kept: Seq<Seq<char>>, lines: Seq<Seq<char>>) -> Seq<Seq<char>>
    decreases lines.len(),
{
    if lines.len() == 0 {
        Seq::empty()
    } else {
        let before = fresh(kept, lines.drop_last());
        let line = lines.last();
        if blank(line) || kept.contains(line) || before.contains(line) {
            before
        } else {
            before.push(line)
        }
    }
}

/// The `ts` of a parsed event; empty when it has none.
pub open spec fn ts_in(event: Option<JsonView>) -> Seq<char> {
    match event {
        Some(event) => match event.text_field("ts"@) {
            Some(ts) => ts,
            None => Seq::empty(),
        },
        None => Seq::empty(),
    }
}

/// The `ts` of an event line; empty when it has none.
pub open spec fn ts_of(line: Seq<char>) -> Seq<char> {
    ts_in(json_document(line))
}

/// The lines in the stable order of their stamps.
pub open spec fn ordered(lines: Seq<Seq<char>>, stamps: Seq<Seq<char>>) -> Seq<Seq<char>> {
    stable_order_of(text_keys(stamps)).map_values(|i: usize| lines[i as int])
}

/// The lines, each ended by a line feed.
pub open spec fn text_of(lines: Seq<Seq<char>>) -> Seq<char>
    decreases lines.len(),
{
    if lines.len() == 0 {
        Seq::empty()
    } else {
        text_of(lines.drop_last()) + lines.last().push('\n')
    }
}

/// The lines that a merge appends to the committed ones, in order of their
/// first occurrence.
pub open spec fn appended(committed: Seq<char>, working: Seq<char>, stash: Seq<char>) -> Seq<
    Seq<char>,
> {
    fresh(filled(lines_of(committed)), lines_of(working) + lines_of(stash))
}

/// The lines of a merged log: the committed ones as they are, then the others
/// by time stamp.
pub open spec fn merged_lines(
    committed: Seq<char>,
    working: Seq<char>,
    stash: Seq<char>,
) -> Seq<Seq<char>> {
    let new = appended(committed, working, stash);
    filled(lines_of(committed)) + ordered(new, new.map_values(|line: Seq<char>| ts_of(line)))
}

fn is_blank(line: &[char]) -> (r: bool)
    ensures
        r == blank(line@),
{
    trim(line).len() == 0
}

fn has_line(all: &Vec<Vec<char>>, line: &[char]) -> (r: bool)
    ensures
        r == rows(all@).contains(line@),
{
    let mut i: usize = 0;
    while i < all.len()
        invariant
            i <= all@.len(),
            forall|k: int| 0 <= k < i ==> (#[trigger] all@[k])@ != line@,
        decreases all@.len() - i,
    {
        if same(all[i].as_slice(), line) {
            assert(rows(all@)[i as int] == line@);
            return true;
        }
        i += 1;
    }
    proof {
        if rows(all@).contains(line@) {
            let k = choose|k: int| 0 <= k < rows(all@).len() && rows(all@)[k] == line@;
            assert(all@[k]@ == line@);
        }
    }
    false
}

pub(crate) fn filled_lines(all: &Vec<Vec<char>>) -> (r: Vec<Vec<char>>)
    ensures
        rows(r@) == filled(rows(all@)),
{
    let ghost ls = rows(all@);
    let mut out: Vec<Vec<char>> = Vec::new();
    let mut i: usize = 0;
    assert(rows(out@) == filled(ls.take(0)));
    while i < all.len()
        invariant
            i <= all@.len(),
            ls == rows(all@),
            rows(out@) == filled(ls.take(i as int)),
        decreases all@.len() - i,
    {
        assert(ls.take(i + 1).last() == all@[i as int]@);
        assert(ls.take(i + 1).drop_last() == ls.take(i as int));
        if !is_blank(all[i].as_slice()) {
            let ghost before = out@;
            out.push(owned(all[i].as_slice()));
            assert(rows(out@) == rows(before).push(all@[i as int]@));
        }
        i += 1;
    }
    assert(ls.take(all@.len() as int) == ls);
    out
}

fn add_fresh(
    kept: &Vec<Vec<char>>,
    out: &mut Vec<Vec<char>>,
    all: &Vec<Vec<char>>,
    seen: Ghost<Seq<Seq<char>>>,
)
    requires
        rows(old(out)@) == fresh(rows(kept@), seen@),
    ensures
        rows(final(out)@) == fresh(rows(kept@), seen@ + rows(all@)),
{
    let ghost ls = rows(all@);
    let mut i: usize = 0;
    assert(seen@ + ls.take(0) == seen@);
    while i < all.len()
        invariant
            i <= all@.len(),
            ls == rows(all@),
            rows(out@) == fresh(rows(kept@), seen@ + ls.take(i as int)),
        decreases all@.len() - i,
    {
        let line = all[i].as_slice();
        let ghost now = seen@ + ls.take(i + 1);
        assert(now.last() == line@);
        assert(now.drop_last() == seen@ + ls.take(i as int));
        if !is_blank(line) && !has_line(kept, line) && !has_line(out, line) {
            let ghost before = out@;
            out.push(owned(line));
            assert(rows(out@) == rows(before).push(line@));
        }
        i += 1;
    }
    assert(ls.take(all@.len() as int) == ls);
}

/// The lines of `working` and `stash` that `committed` does not hold: none
/// blank, each once, in the order in which they first occur.
pub fn new_lines(committed: &str, working: &str, stash: &str) -> (r: Vec<String>)
    ensures
        texts(r@) == appended(committed@, working@, stash@),
{
    let all = lines(chars_of(committed).as_slice());
    let kept = filled_lines(&all);
    let ours = lines(chars_of(working).as_slice());
    let theirs = lines(chars_of(stash).as_slice());
    let mut found: Vec<Vec<char>> = Vec::new();
    assert(rows(found@) == fresh(rows(kept@), Seq::empty()));
    add_fresh(&kept, &mut found, &ours, Ghost(Seq::empty()));
    assert(Seq::<Seq<char>>::empty() + rows(ours@) == rows(ours@));
    add_fresh(&kept, &mut found, &theirs, Ghost(rows(ours@)));
    let mut out: Vec<String> = Vec::new();
    let mut i: usize = 0;
    while i < found.len()
        invariant
            i <= found@.len(),
            texts(out@) == rows(found@).take(i as int),
        decreases found@.len() - i,
    {
        let ghost before = out@;
        out.push(string_of(found[i].as_slice()));
        assert(texts(out@) == texts(before).push(found@[i as int]@));
        i += 1;
    }
    assert(rows(found@).take(found@.len() as int) == rows(found@));
    out
}

fn push_line(out: &mut Vec<char>, line: &[char])
    ensures
        final(out)@ == old(out)@ + line@.push('\n'),
{
    let ghost start = out@;
    let mut i: usize = 0;
    while i < line.len()
        invariant
            i <= line@.len(),
            out@ == start + line@.take(i as int),
        decreases line@.len() - i,
    {
        out.push(line[i]);
        assert(line@.take(i + 1) == line@.take(i as int).push(line@[i as int]));
        i += 1;
    }
    assert(line@.take(line@.len() as int) == line@);
    out.push('\n');
    assert(out@ =~= start + line@.push('\n'));
}

/// The committed lines, then the new ones in the stable order of their stamps.
pub fn merge_stamped(committed: &str, new: &Vec<String>, stamps: &Vec<String>) -> (r: String)
    requires
        stamps@.len() == new@.len(),
    ensures
        r@ == text_of(filled(lines_of(committed@)) + ordered(texts(new@), texts(stamps@))),
{
    let keys = keys_of(stamps);
    let order = stable_order(&keys);
    let all = lines(chars_of(committed).as_slice());
    let kept = filled_lines(&all);
    let ghost head = rows(kept@);
    let ghost tail = ordered(texts(new@), texts(stamps@));
    let ghost whole = head + tail;
    let mut out: Vec<char> = Vec::new();
    let mut k: usize = 0;
    assert(out@ == text_of(whole.take(0)));
    while k < kept.len()
        invariant
            k <= kept@.len(),
            head == rows(kept@),
            whole == head + tail,
            out@ == text_of(whole.take(k as int)),
        decreases kept@.len() - k,
    {
        assert(whole.take(k + 1).last() == kept@[k as int]@);
        assert(whole.take(k + 1).drop_last() == whole.take(k as int));
        push_line(&mut out, kept[k].as_slice());
        k += 1;
    }
    let mut j: usize = 0;
    while j < order.len()
        invariant
            j <= order@.len(),
            head == rows(kept@),
            tail == ordered(texts(new@), texts(stamps@)),
            whole == head + tail,
            order@ == stable_order_of(text_keys(texts(stamps@))),
            is_stable_order(order@, text_keys(texts(stamps@))),
            stamps@.len() == new@.len(),
            out@ == text_of(whole.take(head.len() + j)),
        decreases order@.len() - j,
    {
        let line = chars_of(new[order[j]].as_str());
        let ghost n = head.len() + j;
        assert(whole.take(n + 1).last() == tail[j as int]);
        assert(whole.take(n + 1).drop_last() == whole.take(n as int));
        push_line(&mut out, line.as_slice());
        j += 1;
    }
    assert(whole.take(whole.len() as int) == whole);
    string_of(out.as_slice())
}

/// The `ts` field of a parsed event; empty when it has none.
pub fn event_stamp(event: &Option<Json>) -> (r: String)
    ensures
        r@ == ts_in(json_opt(*event)),
{
    match event {
        Some(event) => match event.text_at("ts") {
            Some(ts) => ts.clone(),
            None => String::new(),
        },
        None => String::new(),
    }
}

/// The `ts` field of an event line, for ordering merged appends. Lines
/// that don't parse or lack a `ts` sort first (empty key), which only
/// affects malformed lines.
pub fn ts_key(line: &str) -> (r: String)
    ensures
        r@ == ts_of(line@),
{
    let event = parse_json(line);
    event_stamp(&event)
}

/// Merge append-only event logs without a `git stash pop`. `committed` is
/// kept verbatim (its order, including a block of identical time stamps, is
/// preserved); then every line present in `working` or `stash` but not already
/// committed is appended, de-duplicated and sorted by its `ts` field. Ordering
/// by `ts` makes the fold's log-order last-write-wins correct even when a
/// status change and its successor were split across the working tree and the
/// stash.
///
/// A checkpoint restores pending events with this instead of a pop, which
/// conflicts (and strands events) whenever a concurrent append lands on the
/// log during the checkpoint.
pub fn merge_append_log(committed: &str, working: &str, stash: &str) -> (r: String)
    ensures
        r@ == text_of(merged_lines(committed@, working@, stash@)),
{
    let new = new_lines(committed, working, stash);
    let mut stamps: Vec<String> = Vec::new();
    let ghost wanted = texts(new@).map_values(|line: Seq<char>| ts_of(line));
    let mut i: usize = 0;
    while i < new.len()
        invariant
            i <= new@.len(),
            wanted == texts(new@).map_values(|line: Seq<char>| ts_of(line)),
            texts(stamps@) == wanted.take(i as int),
        decreases new@.len() - i,
    {
        let ghost before = stamps@;
        stamps.push(ts_key(new[i].as_str()));
        assert(texts(stamps@) == texts(before).push(wanted[i as int]));
        i += 1;
    }
    assert(wanted.take(new@.len() as int) == wanted);
    assert(texts(stamps@).len() == stamps@.len());
    merge_stamped(committed, &new, &stamps)
}

// ---------------------------------------------------------------------
// Laws
// ---------------------------------------------------------------------

proof fn lemma_push_contains(s: Seq<Seq<char>>, last: Seq<char>, x: Seq<char>)
    ensures
        s.push(last).contains(x) == (s.contains(x) || x == last),
{
    let t = s.push(last);
    if s.contains(x) {
        let i = choose|i: int| 0 <= i < s.len() && s[i] == x;
        assert(t[i] == x);
    }
    assert(t[s.len() as int] == last);
    if t.contains(x) {
        let i = choose|i: int| 0 <= i < t.len() && t[i] == x;
        if i < s.len() {
            assert(s[i] == x);
        }
    }
}

proof fn lemma_last_contains(lines: Seq<Seq<char>>, x: Seq<char>)
    requires
        lines.len() > 0,
    ensures
        lines.contains(x) == (lines.drop_last().contains(x) || x == lines.last()),
{
    assert(lines.drop_last().push(lines.last()) =~= lines);
    lemma_push_contains(lines.drop_last(), lines.last(), x);
}

proof fn lemma_sum_contains(a: Seq<Seq<char>>, b: Seq<Seq<char>>, x: Seq<char>)
    ensures
        (a + b).contains(x) == (a.contains(x) || b.contains(x)),
{
    if a.contains(x) {
        let i = choose|i: int| 0 <= i < a.len() && a[i] == x;
        assert((a + b)[i] == x);
    }
    if b.contains(x) {
        let i = choose|i: int| 0 <= i < b.len() && b[i] == x;
        assert((a + b)[a.len() + i] == x);
    }
    if (a + b).contains(x) {
        let i = choose|i: int| 0 <= i < (a + b).len() && (a + b)[i] == x;
        if i < a.len() {
            assert(a[i] == x);
        } else {
            assert(b[i - a.len()] == x);
        }
    }
}

pub(crate) proof fn lemma_filled_contains(lines: Seq<Seq<char>>, x: Seq<char>)
    ensures
        filled(lines).contains(x) == (lines.contains(x) && !blank(x)),
    decreases lines.len(),
{
    if lines.len() > 0 {
        lemma_filled_contains(lines.drop_last(), x);
        lemma_last_contains(lines, x);
        lemma_push_contains(filled(lines.drop_last()), lines.last(), x);
    }
}

pub(crate) proof fn lemma_fresh_contains(kept: Seq<Seq<char>>, lines: Seq<Seq<char>>, x: Seq<char>)
    ensures
        fresh(kept, lines).contains(x) == (lines.contains(x) && !blank(x) && !kept.contains(x)),
    decreases lines.len(),
{
    if lines.len() > 0 {
        lemma_fresh_contains(kept, lines.drop_last(), x);
        lemma_last_contains(lines, x);
        lemma_push_contains(fresh(kept, lines.drop_last()), lines.last(), x);
    }
}

proof fn lemma_fresh_len(kept: Seq<Seq<char>>, lines: Seq<Seq<char>>)
    ensures
        fresh(kept, lines).len() <= lines.len(),
    decreases lines.len(),
{
    if lines.len() > 0 {
        lemma_fresh_len(kept, lines.drop_last());
    }
}

pub(crate) proof fn lemma_fresh_distinct(kept: Seq<Seq<char>>, lines: Seq<Seq<char>>)
    ensures
        fresh(kept, lines).no_duplicates(),
    decreases lines.len(),
{
    if lines.len() > 0 {
        lemma_fresh_distinct(kept, lines.drop_last());
        let before = fresh(kept, lines.drop_last());
        let after = before.push(lines.last());
        if !before.contains(lines.last()) {
            assert forall|i: int, j: int|
                0 <= i < after.len() && 0 <= j < after.len() && i != j implies after[i]
                != after[j] by {
                if i < before.len() && j < before.len() {
                    assert(before[i] != before[j]);
                } else if i < before.len() {
                    assert(before.contains(before[i]));
                } else {
                    assert(before.contains(before[j]));
                }
            }
        }
    }
}

proof fn lemma_lines_len(s: Seq<char>)
    ensures
        lines_of(s).len() <= s.len(),
    decreases s.len(),
{
    let n = crate::text::first_of(s, '\n') as int;
    if s.len() > 0 && n < s.len() {
        lemma_lines_len(s.skip(n + 1));
    }
}

/// No line of a text holds a line feed.
proof fn lemma_lines_have_no_feed(s: Seq<char>, x: Seq<char>)
    requires
        lines_of(s).contains(x),
    ensures
        !x.contains('\n'),
    decreases s.len(),
{
    let n = crate::text::first_of(s, '\n') as int;
    lemma_before_first(s, '\n');
    let i = choose|i: int| 0 <= i < lines_of(s).len() && lines_of(s)[i] == x;
    if n >= s.len() {
        assert(x == s);
        if x.contains('\n') {
            let k = choose|k: int| 0 <= k < x.len() && x[k] == '\n';
            assert(s[k] != '\n');
        }
    } else if i == 0 {
        assert(x == without_return(s.take(n)));
        if x.contains('\n') {
            let k = choose|k: int| 0 <= k < x.len() && x[k] == '\n';
            assert(s[k] != '\n');
        }
    } else {
        assert(lines_of(s.skip(n + 1))[i - 1] == x);
        lemma_lines_have_no_feed(s.skip(n + 1), x);
    }
}

proof fn lemma_before_first(s: Seq<char>, c: char)
    ensures
        crate::text::first_of(s, c) <= s.len(),
        forall|k: int| 0 <= k < crate::text::first_of(s, c) ==> s[k] != c,
    decreases s.len(),
{
    if s.len() > 0 && s[0] != c {
        lemma_before_first(s.skip(1), c);
        assert forall|k: int| 0 <= k < crate::text::first_of(s, c) implies s[k] != c by {
            if k > 0 {
                assert(s.skip(1)[k - 1] == s[k]);
            }
        }
    }
}

proof fn lemma_ordered_permutes(lines: Seq<Seq<char>>, stamps: Seq<Seq<char>>, x: Seq<char>)
    requires
        stamps.len() == lines.len(),
        lines.len() <= usize::MAX,
    ensures
        ordered(lines, stamps).len() == lines.len(),
        ordered(lines, stamps).contains(x) == lines.contains(x),
{
    let keys = text_keys(stamps);
    let order = stable_order_of(keys);
    let out = ordered(lines, stamps);
    law_stable_order_exists(keys);
    if lines.contains(x) {
        let i = choose|i: int| 0 <= i < lines.len() && lines[i] == x;
        assert(order.contains(i as usize));
        let k = choose|k: int| 0 <= k < order.len() && order[k] == i as usize;
        assert(out[k] == x);
    }
    if out.contains(x) {
        let k = choose|k: int| 0 <= k < out.len() && out[k] == x;
        assert(lines[order[k] as int] == x);
    }
}

/// Whether the texts are small enough to be held in memory together.
pub open spec fn fits(working: Seq<char>, stash: Seq<char>) -> bool {
    working.len() + stash.len() <= usize::MAX
}

pub(crate) proof fn lemma_appended_fits(committed: Seq<char>, working: Seq<char>, stash: Seq<char>)
    requires
        fits(working, stash),
    ensures
        appended(committed, working, stash).len() <= usize::MAX,
{
    lemma_lines_len(working);
    lemma_lines_len(stash);
    lemma_fresh_len(filled(lines_of(committed)), lines_of(working) + lines_of(stash));
}

/// The committed lines open a merged log, in their order and untouched.
pub proof fn law_merge_keeps_committed(
    committed: Seq<char>,
    working: Seq<char>,
    stash: Seq<char>,
)
    ensures
        filled(lines_of(committed)).is_prefix_of(merged_lines(committed, working, stash)),
{
    let kept = filled(lines_of(committed));
    let all = merged_lines(committed, working, stash);
    assert(all.subrange(0, kept.len() as int) =~= kept);
}

/// A merged log holds exactly the lines of the three logs that are not blank:
/// none is lost and none is invented.
pub proof fn law_merge_unions(
    committed: Seq<char>,
    working: Seq<char>,
    stash: Seq<char>,
    line: Seq<char>,
)
    requires
        fits(working, stash),
    ensures
        merged_lines(committed, working, stash).contains(line) == (!blank(line) && (lines_of(
            committed,
        ).contains(line) || lines_of(working).contains(line) || lines_of(stash).contains(line))),
{
    let kept = filled(lines_of(committed));
    let new = appended(committed, working, stash);
    let stamps = new.map_values(|l: Seq<char>| ts_of(l));
    lemma_appended_fits(committed, working, stash);
    lemma_ordered_permutes(new, stamps, line);
    lemma_sum_contains(kept, ordered(new, stamps), line);
    lemma_filled_contains(lines_of(committed), line);
    lemma_fresh_contains(kept, lines_of(working) + lines_of(stash), line);
    lemma_sum_contains(lines_of(working), lines_of(stash), line);
}

/// A merge appends no line twice and none that was committed, and orders
/// what it appends by time stamp.
pub proof fn law_merge_appends_in_order(
    committed: Seq<char>,
    working: Seq<char>,
    stash: Seq<char>,
    i: int,
    j: int,
)
    requires
        fits(working, stash),
        filled(lines_of(committed)).len() <= i < j,
        j < merged_lines(committed, working, stash).len(),
    ensures
        merged_lines(committed, working, stash)[i] != merged_lines(committed, working, stash)[j],
        !filled(lines_of(committed)).contains(merged_lines(committed, working, stash)[i]),
        !filled(lines_of(committed)).contains(merged_lines(committed, working, stash)[j]),
        !text_lt(
            ts_of(merged_lines(committed, working, stash)[j]),
            ts_of(merged_lines(committed, working, stash)[i]),
        ),
{
    let kept = filled(lines_of(committed));
    let new = appended(committed, working, stash);
    let stamps = new.map_values(|l: Seq<char>| ts_of(l));
    let keys = text_keys(stamps);
    let order = stable_order_of(keys);
    lemma_appended_fits(committed, working, stash);
    law_stable_order_exists(keys);
    let a = order[i - kept.len()] as int;
    let b = order[j - kept.len()] as int;
    assert(merged_lines(committed, working, stash)[i] == new[a]);
    assert(merged_lines(committed, working, stash)[j] == new[b]);
    assert(sorts_before(keys, a, b));
    assert(keys[a] == text_key(ts_of(new[a])));
    assert(keys[b] == text_key(ts_of(new[b])));
    lemma_key_irreflexive(keys[a]);
    if key_lt(keys[a], keys[b]) && key_lt(keys[b], keys[a]) {
        lemma_key_transitive(keys[a], keys[b], keys[a]);
    }
    lemma_fresh_distinct(kept, lines_of(working) + lines_of(stash));
    assert(a != b);
    assert(new.contains(new[a]) && new.contains(new[b]));
    lemma_fresh_contains(kept, lines_of(working) + lines_of(stash), new[a]);
    lemma_fresh_contains(kept, lines_of(working) + lines_of(stash), new[b]);
}

proof fn lemma_text_reads_back(lines: Seq<Seq<char>>)
    requires
        forall|i: int|
            0 <= i < lines.len() ==> !(#[trigger] lines[i]).contains('\n') && without_return(
                lines[i],
            ) == lines[i],
    ensures
        lines_of(text_of(lines)) == lines,
        complete(text_of(lines)),
    decreases lines.len(),
{
    if lines.len() == 0 {
        assert(lines_of(text_of(lines)) =~= lines);
    } else {
        let before = lines.drop_last();
        let last = lines[lines.len() - 1];
        assert forall|i: int| 0 <= i < before.len() implies !(#[trigger] before[i]).contains('\n')
            && without_return(before[i]) == before[i] by {
            assert(before[i] == lines[i]);
        }
        lemma_text_reads_back(before);
        lemma_lines_append(text_of(before), last.push('\n'));
        lemma_lines_of_one(last);
        assert(before + seq![last] =~= lines);
        assert(text_of(lines).last() == '\n');
    }
}

/// Whether no line of a text ends in a carriage return.
pub open spec fn no_returns(text: Seq<char>) -> bool {
    forall|line: Seq<char>| #[trigger]
        lines_of(text).contains(line) ==> without_return(line) == line
}

/// The lines of a merged log read back as they were merged.
pub proof fn law_merge_reads_back(committed: Seq<char>, working: Seq<char>, stash: Seq<char>)
    requires
        fits(working, stash),
        no_returns(committed),
        no_returns(working),
        no_returns(stash),
    ensures
        lines_of(text_of(merged_lines(committed, working, stash))) == merged_lines(
            committed,
            working,
            stash,
        ),
{
    let all = merged_lines(committed, working, stash);
    assert forall|i: int| 0 <= i < all.len() implies !(#[trigger] all[i]).contains('\n')
        && without_return(all[i]) == all[i] by {
        let x = all[i];
        assert(all.contains(x));
        law_merge_unions(committed, working, stash, x);
        if lines_of(committed).contains(x) {
            lemma_lines_have_no_feed(committed, x);
        } else if lines_of(working).contains(x) {
            lemma_lines_have_no_feed(working, x);
        } else {
            lemma_lines_have_no_feed(stash, x);
        }
    }
    lemma_text_reads_back(all);
}

pub(crate) proof fn lemma_nothing_filled_out(lines: Seq<Seq<char>>)
    requires
        forall|i: int| 0 <= i < lines.len() ==> !blank(#[trigger] lines[i]),
    ensures
        filled(lines) == lines,
    decreases lines.len(),
{
    if lines.len() == 0 {
        assert(filled(lines) =~= lines);
    } else {
        assert(!blank(lines[lines.len() - 1]));
        assert forall|i: int| 0 <= i < lines.drop_last().len() implies !blank(
            #[trigger] lines.drop_last()[i],
        ) by {
            assert(lines.drop_last()[i] == lines[i]);
        }
        lemma_nothing_filled_out(lines.drop_last());
        assert(lines.drop_last().push(lines.last()) =~= lines);
    }
}

/// Merging the same logs into a merged log changes nothing.
pub proof fn law_merge_is_idempotent(committed: Seq<char>, working: Seq<char>, stash: Seq<char>)
    requires
        fits(working, stash),
        no_returns(committed),
        no_returns(working),
        no_returns(stash),
    ensures
        merged_lines(text_of(merged_lines(committed, working, stash)), working, stash)
            == merged_lines(committed, working, stash),
{
    let all = merged_lines(committed, working, stash);
    let text = text_of(all);
    law_merge_reads_back(committed, working, stash);
    assert forall|i: int| 0 <= i < all.len() implies !blank(#[trigger] all[i]) by {
        assert(all.contains(all[i]));
        law_merge_unions(committed, working, stash, all[i]);
    }
    lemma_nothing_filled_out(all);
    let new = appended(text, working, stash);
    if new.len() > 0 {
        let x = new[0];
        assert(new.contains(x));
        lemma_fresh_contains(all, lines_of(working) + lines_of(stash), x);
        lemma_sum_contains(lines_of(working), lines_of(stash), x);
        law_merge_unions(committed, working, stash, x);
    }
    let stamps = new.map_values(|l: Seq<char>| ts_of(l));
    law_stable_order_exists(text_keys(stamps));
    assert(ordered(new, stamps) =~= Seq::<Seq<char>>::empty());
    assert(all + Seq::<Seq<char>>::empty() =~= all);
}

} // verus!
