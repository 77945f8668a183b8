//! What the pieces that everything else stands on do: lines and trimming,
//! listings, counts, the vocabulary of statuses, the undo stack and the order
//! of a checkpoint.

use crate::checkpoint::{
    busy_error, failure, OutcomeView, PhaseView, ReplyView, StepView,
};
use crate::cycle::{in_scope_id8, scope_count, scope_dependencies, scope_edges};
use crate::db::{has_extension, items_in, log_text};
use crate::geometry::{grid_corner, grid_rows};
use crate::map_session::dependency_count;
use crate::model::{id8_of, ItemView, OpView, StackView};
use crate::restore::{RestoreView, RestoredView};
use crate::status::{status_named, Status};
use crate::text::{
    first_of, is_space, lemma_first_is, lemma_first_of, lines_of, lowered, trimmed,
    without_leading_space,
};
use crate::triage::truncated;
use vstd::prelude::*;

verus! {

// ---------------------------------------------------------------------
// Text
// ---------------------------------------------------------------------

/// A text is parted at its line feeds: what stands before the first is its
/// first line, without the carriage return before it, and what stands after
/// it gives the other lines.
pub proof fn law_text_is_parted_at_feeds(line: Seq<char>, rest: Seq<char>)
    requires
        forall|m: int| 0 <= m < line.len() ==> #[trigger] line[m] != '\n',
    ensures
        lines_of(line.push('\n') + rest) == seq![
            if line.len() > 0 && line.last() == '\r' {
                line.drop_last()
            } else {
                line
            },
        ] + lines_of(rest),
        line.len() > 0 ==> lines_of(line) == seq![line],
        lines_of(Seq::<char>::empty()).len() == 0,
{
    let s = line.push('\n') + rest;
    let n = line.len() as int;
    assert forall|m: int| 0 <= m < n implies #[trigger] s[m] != '\n' by {
        assert(s[m] == line[m]);
    }
    lemma_first_is(s, '\n', n);
    assert(s.take(n) =~= line);
    assert(s.skip(n + 1) =~= rest);
    lemma_first_of(line, '\n');
    if line.len() > 0 && first_of(line, '\n') < line.len() {
        assert(line[first_of(line, '\n') as int] == '\n');
    }
}

proof fn lemma_leading(s: Seq<char>, a: int)
    requires
        0 <= a <= s.len(),
        forall|m: int| 0 <= m < a ==> is_space(#[trigger] s[m]),
        a == s.len() || !is_space(s[a]),
    ensures
        without_leading_space(s) == s.skip(a),
    decreases a,
{
    if a > 0 {
        assert(is_space(s[0]));
        let rest = s.skip(1);
        assert forall|m: int| 0 <= m < a - 1 implies is_space(#[trigger] rest[m]) by {
            assert(rest[m] == s[m + 1]);
        }
        lemma_leading(rest, a - 1);
        assert(rest.skip(a - 1) =~= s.skip(a));
    } else {
        assert(s.skip(0) =~= s);
    }
}

/// Trimming takes the whitespace off both ends and leaves all between.
pub proof fn law_trim_takes_the_ends(s: Seq<char>, a: int, b: int)
    requires
        0 <= a < b <= s.len(),
        forall|m: int| 0 <= m < a ==> is_space(#[trigger] s[m]),
        !is_space(s[a]),
        !is_space(s[b - 1]),
        forall|m: int| b <= m < s.len() ==> is_space(#[trigger] s[m]),
    ensures
        trimmed(s) == s.subrange(a, b),
{
    lemma_leading(s, a);
    let rest = s.skip(a);
    assert forall|m: int| b - a <= m < rest.len() implies is_space(#[trigger] rest[m]) by {
        assert(rest[m] == s[m + a]);
    }
    crate::ask_laws::lemma_trailing(rest, b - a);
    assert(rest.take(b - a) =~= s.subrange(a, b));
}

/// Blanks, tabs and line ends are whitespace; letters, digits and marks are
/// not.
pub proof fn law_whitespace_is_this()
    ensures
        is_space(' ') && is_space('\t') && is_space('\n') && is_space('\r'),
        forall|c: char| '!' <= c <= '~' ==> !is_space(c),
{
}

/// Lower case changes the capital letters of ASCII and nothing else.
pub proof fn law_lower_case_is_this(s: Seq<char>, i: int)
    requires
        0 <= i < s.len(),
    ensures
        lowered(s).len() == s.len(),
        'A' <= s[i] <= 'Z' ==> lowered(s)[i] as u32 == s[i] as u32 + 32,
        !('A' <= s[i] <= 'Z') ==> lowered(s)[i] == s[i],
{
}

/// A text that fits stays whole, a longer one keeps all but the last
/// character's room and ends in an ellipsis.
pub proof fn law_truncation_fits(s: Seq<char>, max: nat)
    ensures
        s.len() <= max ==> truncated(s, max) == s,
        s.len() > max > 0 ==> truncated(s, max).len() == max && truncated(s, max).last() == '…'
            && truncated(s, max).drop_last() == s.take(max - 1),
{
    if s.len() > max > 0 {
        assert(truncated(s, max).drop_last() =~= s.take(max - 1));
    }
}

// ---------------------------------------------------------------------
// The database
// ---------------------------------------------------------------------

/// A name has an extension when it ends in a dot and the extension, with
/// something before the dot.
pub proof fn law_extension_ends_the_name(stem: Seq<char>, ext: Seq<char>, name: Seq<char>)
    ensures
        stem.len() > 0 ==> has_extension(stem.push('.') + ext, ext),
        has_extension(name, ext) ==> exists|s: Seq<char>|
            #![trigger s.push('.')]
            s.len() > 0 && name == s.push('.') + ext,
{
    let whole = stem.push('.') + ext;
    if stem.len() > 0 {
        assert(whole.skip(stem.len() as int + 1) =~= ext);
    }
    if has_extension(name, ext) {
        let dot = name.len() - ext.len() - 1;
        let s = name.take(dot);
        assert(name =~= s.push('.') + ext) by {
            assert(name.skip(dot + 1) == ext);
            assert forall|i: int| 0 <= i < name.len() implies name[i] == (s.push('.') + ext)[i] by {
                if i > dot {
                    assert(name.skip(dot + 1)[i - dot - 1] == name[i]);
                }
            }
        }
    }
}

/// Briefs are read one after the other, and each that describes an item gives
/// that item.
pub proof fn law_briefs_are_read_in_order(a: Seq<Seq<char>>, b: Seq<Seq<char>>, one: Seq<char>)
    ensures
        items_in(a + b) == items_in(a) + items_in(b),
        crate::brief::brief_item(one) is Some ==> items_in(seq![one]) == seq![
            crate::brief::brief_item(one)->0,
        ],
        crate::brief::brief_item(one) is None ==> items_in(seq![one]).len() == 0,
    decreases b.len(),
{
    let none = Seq::<Seq<char>>::empty();
    assert(seq![one].drop_last() =~= none);
    assert(items_in(none).len() == 0);
    if crate::brief::brief_item(one) is Some {
        assert(items_in(seq![one]) =~= seq![crate::brief::brief_item(one)->0]);
    }
    if b.len() == 0 {
        assert(a + b =~= a);
        assert(items_in(a) + items_in(b) =~= items_in(a));
    } else {
        law_briefs_are_read_in_order(a, b.drop_last(), one);
        assert((a + b).drop_last() =~= a + b.drop_last());
        assert((a + b).last() == b.last());
        assert(items_in(a + b) =~= items_in(a) + items_in(b));
    }
}

/// Logs are read as one text, each ended by a line feed.
pub proof fn law_logs_are_one_text(a: Seq<Seq<char>>, b: Seq<Seq<char>>, one: Seq<char>)
    ensures
        log_text(a + b) == log_text(a) + log_text(b),
        log_text(seq![one]) == one.push('\n'),
    decreases b.len(),
{
    let none = Seq::<Seq<char>>::empty();
    assert(seq![one].drop_last() =~= none);
    assert(log_text(none) =~= Seq::<char>::empty());
    assert(log_text(seq![one]) =~= one.push('\n'));
    if b.len() == 0 {
        assert(a + b =~= a);
        assert(log_text(a) + log_text(b) =~= log_text(a));
    } else {
        law_logs_are_one_text(a, b.drop_last(), one);
        assert((a + b).drop_last() =~= a + b.drop_last());
        assert((a + b).last() == b.last());
        assert(log_text(a + b) =~= log_text(a) + log_text(b));
    }
}

// ---------------------------------------------------------------------
// Counts
// ---------------------------------------------------------------------

/// An item counts in scope unless it is complete or canceled, and all its
/// dependencies count.
pub proof fn law_items_in_scope_are_counted(items: Seq<ItemView>, k: nat)
    requires
        k < items.len(),
    ensures
        scope_count(items, 0) == 0,
        scope_count(items, k + 1) == scope_count(items, k) + if items[k as int].status
            != Status::Complete && items[k as int].status != Status::Canceled {
            1nat
        } else {
            0nat
        },
        dependency_count(items, 0) == 0,
        dependency_count(items, k + 1) == dependency_count(items, k) + items[k as int].depends_on.len(),
{
}

/// A dependency counts between items in scope when both its item and one that
/// it names are neither complete nor canceled.
pub proof fn law_edges_in_scope_are_counted(
    items: Seq<ItemView>,
    deps: Seq<Seq<char>>,
    d: nat,
    k: nat,
)
    requires
        d < deps.len(),
        k < items.len(),
    ensures
        scope_dependencies(items, deps, 0) == 0,
        scope_dependencies(items, deps, d + 1) == scope_dependencies(items, deps, d) + if (exists|
            i: int,
        |
            0 <= i < items.len() && (#[trigger] items[i]).status != Status::Complete
                && items[i].status != Status::Canceled && id8_of(items[i].id) == deps[d as int]) {
            1nat
        } else {
            0nat
        },
        scope_edges(items, 0) == 0,
        scope_edges(items, k + 1) == scope_edges(items, k) + if items[k as int].status
            != Status::Complete && items[k as int].status != Status::Canceled {
            scope_dependencies(
                items,
                items[k as int].depends_on,
                items[k as int].depends_on.len(),
            )
        } else {
            0
        },
{
    let dep = deps[d as int];
    if in_scope_id8(items, dep) {
        let i = choose|i: int|
            0 <= i < items.len() && (#[trigger] items[i]).status.in_scope() && id8_of(items[i].id)
                == dep;
        assert(items[i].status != Status::Complete && items[i].status != Status::Canceled);
    }
    if exists|i: int|
        0 <= i < items.len() && (#[trigger] items[i]).status != Status::Complete && items[i].status
            != Status::Canceled && id8_of(items[i].id) == dep {
        let i = choose|i: int|
            0 <= i < items.len() && (#[trigger] items[i]).status != Status::Complete
                && items[i].status != Status::Canceled && id8_of(items[i].id) == dep;
        assert(items[i].status.in_scope());
    }
}

// ---------------------------------------------------------------------
// Vocabulary
// ---------------------------------------------------------------------

/// The names under which statuses are stored, in lifecycle order, and which of
/// them are in default scope.
pub proof fn law_statuses_are_these()
    ensures
        Status::NotStarted.name() == "not_started"@ && Status::NotStarted.rank() == 0,
        Status::Started.name() == "started"@ && Status::Started.rank() == 1,
        Status::Paused.name() == "paused"@ && Status::Paused.rank() == 2,
        Status::Blocked.name() == "blocked"@ && Status::Blocked.rank() == 3,
        Status::Implemented.name() == "implemented"@ && Status::Implemented.rank() == 4,
        Status::Merged.name() == "merged"@ && Status::Merged.rank() == 5,
        Status::Complete.name() == "complete"@ && Status::Complete.rank() == 6,
        Status::Canceled.name() == "canceled"@ && Status::Canceled.rank() == 7,
        Status::Unknown.name() == "unknown"@ && Status::Unknown.rank() == 8,
        forall|s: Status|
            s.in_scope() == (s != Status::Complete && s != Status::Canceled),
        forall|s: Status| #[trigger] status_named(s.name()) == Some(s),
{
    assert forall|s: Status| #[trigger] status_named(s.name()) == Some(s) by {
        crate::status::law_status_round_trips(s);
    }
}

/// The stack holds 200 steps: a new one is kept on top, the oldest falls off a
/// full stack, and what was undone can no longer be redone.
pub proof fn law_undo_holds_two_hundred(stack: StackView, op: OpView)
    requires
        stack.undo.len() <= 200,
    ensures
        stack.undo.len() < 200 ==> stack.pushed(op).undo == stack.undo.push(op),
        stack.undo.len() == 200 ==> stack.pushed(op).undo == stack.undo.skip(1).push(op),
        stack.pushed(op).redo.len() == 0,
{
    if stack.undo.len() == 200 {
        assert(stack.undo.push(op).skip(1) =~= stack.undo.skip(1).push(op));
    }
}

// ---------------------------------------------------------------------
// The grid
// ---------------------------------------------------------------------

/// A grid has six columns and as many rows as its nodes need, and stands in
/// the middle of the field, at least 16 from its edges.
pub proof fn law_grid_is_centered(count: int)
    requires
        0 < count,
    ensures
        6 * (grid_rows(count) - 1) < count <= 6 * grid_rows(count),
        ({
            let cols = if count < 6 {
                count
            } else {
                6
            };
            let width = cols * 240 - 16;
            let height = grid_rows(count) * 90 - 14;
            let left = (4800 - width) / 2;
            let top = (19200 - height) / 2;
            grid_corner(count) == (
                if left > 16 {
                    left
                } else {
                    16
                },
                if top > 16 {
                    top
                } else {
                    16
                },
            )
        }),
{
    assert(crate::geometry::columns_spec() == 6);
    assert(grid_rows(count) == (count + 5) / 6);
}

// ---------------------------------------------------------------------
// The checkpoint
// ---------------------------------------------------------------------

/// The steps of a checkpoint follow each other in one order as long as each
/// succeeds: stash what is pending, lock, restore, look again, fold, stage,
/// commit, push, read the sha, release.
pub proof fn law_steps_follow_in_order(message: Seq<char>, text: Seq<char>, sha: Seq<char>)
    ensures
        ({
            let done = |p: PhaseView, t: Seq<char>| p.after(message, ReplyView::Done(t));
            let lock = |stashed: bool, attempt: nat| PhaseView::Acquiring { stashed, attempt };
            let restore = PhaseView::Restoring { task: RestoreView::Listing, missed: None };
            &&& text.len() > 0 ==> done(PhaseView::Looking, text) == PhaseView::Stashing
            &&& text.len() == 0 ==> done(PhaseView::Looking, text) == lock(false, 0)
            &&& done(PhaseView::Stashing, text) == lock(true, 0)
            &&& forall|attempt: nat|
                done(#[trigger] lock(true, attempt), text) == restore && done(
                    lock(false, attempt),
                    text,
                ) == PhaseView::Checking
            &&& done(
                PhaseView::Restoring { task: RestoreView::Dropping, missed: None },
                text,
            ) == PhaseView::Checking
            &&& text.len() > 0 ==> done(PhaseView::Checking, text) == PhaseView::Folding
            &&& text.len() == 0 ==> done(PhaseView::Checking, text) == (PhaseView::Releasing {
                outcome: OutcomeView::Nothing,
            })
            &&& done(PhaseView::Folding, text) == PhaseView::Staging
            &&& done(PhaseView::Staging, text) == PhaseView::Committing
            &&& done(PhaseView::Committing, text) == PhaseView::Pushing
            &&& done(PhaseView::Pushing, text) == PhaseView::Reading
            &&& done(PhaseView::Reading, sha) == (PhaseView::Releasing {
                outcome: OutcomeView::Committed(sha),
            })
            &&& done(
                PhaseView::Releasing { outcome: OutcomeView::Committed(sha) },
                text,
            ) == (PhaseView::Finished { outcome: OutcomeView::Committed(sha) })
            &&& done(PhaseView::Releasing { outcome: OutcomeView::Nothing }, text) == (
            PhaseView::Finished { outcome: OutcomeView::Nothing })
        }),
{
}

/// A busy lock is tried five times, and then given up with what it said last;
/// what was stashed is restored before that is reported.
pub proof fn law_busy_lock_is_tried_five_times(
    message: Seq<char>,
    note: Seq<char>,
    stashed: bool,
    attempt: nat,
)
    ensures
        ({
            let after = (PhaseView::Acquiring { stashed, attempt }).after(
                message,
                ReplyView::Refused(note),
            );
            &&& attempt < 4 ==> after == (PhaseView::Acquiring { stashed, attempt: attempt + 1 })
            &&& attempt >= 4 && stashed ==> after == (PhaseView::Restoring {
                task: RestoreView::Listing,
                missed: Some(busy_error(note)),
            })
            &&& attempt >= 4 && !stashed ==> after == (PhaseView::Finished {
                outcome: OutcomeView::Failed(busy_error(note)),
            })
        }),
{
}

/// A step that fails under the lock is reported, after the lock is released;
/// an earlier error is not replaced by that of the release.
pub proof fn law_failed_step_is_reported(
    phase: PhaseView,
    message: Seq<char>,
    reply: ReplyView,
    earlier: Seq<char>,
)
    requires
        reply !is Done,
        phase is Checking || phase is Folding || phase is Staging || phase is Committing || phase
            is Pushing || phase is Reading,
    ensures
        phase.after(message, reply) == (PhaseView::Releasing {
            outcome: OutcomeView::Failed(failure(phase.step(message)->0, reply)),
        }),
        (PhaseView::Releasing { outcome: OutcomeView::Failed(earlier) }).after(message, reply) == (
        PhaseView::Finished { outcome: OutcomeView::Failed(earlier) }),
{
}

/// Restoring merges log after log: it reads what is committed, what lies in
/// the stash and what stands in the working tree of each, writes it, and goes
/// on to the next.
pub proof fn law_restoring_goes_log_by_log(
    path: Seq<char>,
    rest: Seq<Seq<char>>,
    committed: Seq<char>,
    stash: Seq<char>,
    text: Seq<char>,
)
    ensures
        (RestoreView::Committed { path, rest }).after(ReplyView::Done(committed))
            == RestoredView::Next(RestoreView::Stashed { path, rest, committed }),
        (RestoreView::Stashed { path, rest, committed }).after(ReplyView::Done(stash))
            == RestoredView::Next(RestoreView::Working { path, rest, committed, stash }),
        rest.len() > 0 ==> (RestoreView::Writing { path, rest, text }).after(
            ReplyView::Done(Seq::empty()),
        ) == RestoredView::Next(RestoreView::Committed { path: rest[0], rest: rest.skip(1) }),
        rest.len() == 0 ==> (RestoreView::Writing { path, rest, text }).after(
            ReplyView::Done(Seq::empty()),
        ) == RestoredView::Next(RestoreView::Dropping),
        (RestoreView::Writing { path, rest, text }).step() == StepView::Write(path, text),
{
}

} // verus!
