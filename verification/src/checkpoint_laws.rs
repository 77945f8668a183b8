//! What a checkpoint does when a step does not go well, and how it restores
//! what it stashed.

use crate::checkpoint::{
    reply_for, spelled, CommandView, OutcomeView, PhaseView, ReplyView, StepView,
};
use crate::log::{filled, merged_lines, text_of};
use crate::log_laws::{lemma_trim_empty, says_something};
use crate::restore::{RestoreView, RestoredView};
use crate::text::{lines_of, trimmed};
use vstd::prelude::*;

verus! {

// ---------------------------------------------------------------------
// Replies
// ---------------------------------------------------------------------

/// What a command printed is taken without the whitespace around it, but for a
/// file, which is taken as it is. A lock says on its standard output why it is
/// busy; any other failure is told with all that was printed.
pub proof fn law_reply_is_what_was_printed(
    command: CommandView,
    path: Seq<char>,
    stdout: Seq<char>,
    stderr: Seq<char>,
)
    ensures
        reply_for(CommandView::ShowCommitted(path), true, stdout, stderr) == ReplyView::Done(
            stdout,
        ),
        reply_for(CommandView::ShowStashed(path), true, stdout, stderr) == ReplyView::Done(stdout),
        command !is ShowCommitted && command !is ShowStashed ==> reply_for(
            command,
            true,
            stdout,
            stderr,
        ) == ReplyView::Done(trimmed(stdout)),
        reply_for(CommandView::Acquire, false, stdout, stderr) == ReplyView::Refused(
            trimmed(stdout),
        ),
        command !is Acquire ==> reply_for(command, false, stdout, stderr) == ReplyView::Refused(
            trimmed(stdout) + trimmed(stderr),
        ),
{
}

/// A command is spelled with one space before each argument.
pub proof fn law_arguments_are_parted_by_spaces(
    program: Seq<char>,
    first: Seq<Seq<char>>,
    second: Seq<Seq<char>>,
    one: Seq<char>,
)
    ensures
        spelled(program, first + second) == spelled(spelled(program, first), second),
        spelled(program, seq![one]) == program + seq![' '] + one,
        spelled(program, Seq::empty()) == program,
    decreases second.len(),
{
    let single = seq![one];
    assert(single.drop_last() =~= Seq::<Seq<char>>::empty());
    assert(spelled(program, single.drop_last()) == program);
    assert(spelled(program, single) =~= program + seq![' '] + one);
    if second.len() == 0 {
        assert(first + second =~= first);
    } else {
        law_arguments_are_parted_by_spaces(program, first, second.drop_last(), one);
        assert((first + second).drop_last() =~= first + second.drop_last());
        assert((first + second).last() == second.last());
    }
}

/// The commands are run with these programs and arguments.
pub proof fn law_commands_are_these(path: Seq<char>, message: Seq<char>)
    ensures
        CommandView::Status.program() == "git"@ && CommandView::Status.arguments() == seq![
            "status"@,
            "--porcelain"@,
            "--"@,
            "events"@,
        ],
        CommandView::Stash.program() == "git"@ && CommandView::Stash.arguments() == seq![
            "stash"@,
            "push"@,
            "-m"@,
            "workcat-map-checkpoint"@,
            "--"@,
            "events"@,
        ],
        CommandView::ListStash.program() == "git"@ && CommandView::ListStash.arguments() == seq![
            "stash"@,
            "show"@,
            "--name-only"@,
            "stash@{0}"@,
        ],
        CommandView::ShowCommitted(path).program() == "git"@ && CommandView::ShowCommitted(
            path,
        ).arguments() == seq!["show"@, "HEAD:"@ + path],
        CommandView::ShowStashed(path).program() == "git"@ && CommandView::ShowStashed(
            path,
        ).arguments() == seq!["show"@, "stash@{0}:"@ + path],
        CommandView::DropStash.program() == "git"@ && CommandView::DropStash.arguments() == seq![
            "stash"@,
            "drop"@,
        ],
        CommandView::Acquire.program() == "python3"@ && CommandView::Acquire.arguments() == seq![
            "tools/lock.py"@,
            "acquire"@,
            "--actor"@,
            "workcat-map"@,
        ],
        CommandView::Release.program() == "python3"@ && CommandView::Release.arguments() == seq![
            "tools/lock.py"@,
            "release"@,
            "--actor"@,
            "workcat-map"@,
        ],
        CommandView::Fold.program() == "python3"@ && CommandView::Fold.arguments() == seq![
            "tools/fold.py"@,
        ],
        CommandView::Stage.program() == "git"@ && CommandView::Stage.arguments() == seq![
            "add"@,
            "events"@,
            "briefs"@,
        ],
        CommandView::Commit(message).program() == "git"@ && CommandView::Commit(
            message,
        ).arguments() == seq!["commit"@, "-m"@, message],
        CommandView::Push.program() == "git"@ && CommandView::Push.arguments() == seq!["push"@],
        CommandView::Head.program() == "git"@ && CommandView::Head.arguments() == seq![
            "rev-parse"@,
            "--short"@,
            "HEAD"@,
        ],
{
}

// ---------------------------------------------------------------------
// Failures
// ---------------------------------------------------------------------

/// Before the lock is tried, a failure ends the checkpoint.
pub proof fn law_failure_before_the_lock_ends(
    message: Seq<char>,
    text: Seq<char>,
    error: Seq<char>,
)
    ensures
        PhaseView::Looking.after(message, ReplyView::Broken(error)) == (PhaseView::Finished {
            outcome: OutcomeView::Failed(error),
        }),
        PhaseView::Stashing.after(message, ReplyView::Broken(error)) == (PhaseView::Finished {
            outcome: OutcomeView::Failed(error),
        }),
        PhaseView::Looking.after(message, ReplyView::Refused(text)) == (PhaseView::Finished {
            outcome: OutcomeView::Failed(
                spelled("git"@, seq!["status"@, "--porcelain"@, "--"@, "events"@]) + " failed: "@
                    + text,
            ),
        }),
        PhaseView::Stashing.after(message, ReplyView::Refused(text)) == (PhaseView::Finished {
            outcome: OutcomeView::Failed(
                spelled(
                    "git"@,
                    seq![
                        "stash"@,
                        "push"@,
                        "-m"@,
                        "workcat-map-checkpoint"@,
                        "--"@,
                        "events"@,
                    ],
                ) + " failed: "@ + text,
            ),
        }),
{
}

/// A lock that cannot even be tried is not tried again. What was stashed is
/// restored before that is reported.
pub proof fn law_broken_lock_is_given_up(
    message: Seq<char>,
    error: Seq<char>,
    attempt: nat,
)
    ensures
        (PhaseView::Acquiring { stashed: true, attempt }).after(message, ReplyView::Broken(error))
            == (PhaseView::Restoring { task: RestoreView::Listing, missed: Some(error) }),
        (PhaseView::Acquiring { stashed: false, attempt }).after(message, ReplyView::Broken(error))
            == (PhaseView::Finished { outcome: OutcomeView::Failed(error) }),
{
}

/// A lock that cannot be released turns a success into a failure, and leaves a
/// failure as it is.
pub proof fn law_failed_release_is_reported(
    message: Seq<char>,
    sha: Seq<char>,
    earlier: Seq<char>,
    error: Seq<char>,
)
    ensures
        (PhaseView::Releasing { outcome: OutcomeView::Committed(sha) }).after(
            message,
            ReplyView::Broken(error),
        ) == (PhaseView::Finished { outcome: OutcomeView::Failed(error) }),
        (PhaseView::Releasing { outcome: OutcomeView::Nothing }).after(
            message,
            ReplyView::Broken(error),
        ) == (PhaseView::Finished { outcome: OutcomeView::Failed(error) }),
        (PhaseView::Releasing { outcome: OutcomeView::Failed(earlier) }).after(
            message,
            ReplyView::Done(error),
        ) == (PhaseView::Finished { outcome: OutcomeView::Failed(earlier) }),
        (PhaseView::Finished { outcome: OutcomeView::Committed(sha) }).after(
            message,
            ReplyView::Broken(error),
        ) == (PhaseView::Finished { outcome: OutcomeView::Committed(sha) }),
{
}

/// A restoring that breaks under the lock ends in an error that says where the
/// events are; one after a missed lock ends in the error of the lock.
pub proof fn law_broken_restoring_is_reported(
    message: Seq<char>,
    task: RestoreView,
    error: Seq<char>,
    earlier: Seq<char>,
    text: Seq<char>,
)
    ensures
        (PhaseView::Restoring { task, missed: None }).after(message, ReplyView::Broken(error)) == (
        PhaseView::Releasing {
            outcome: OutcomeView::Failed(
                "restoring pending events failed (they are safe in `git stash`; resolve by hand in the db repo): "@
                    + error,
            ),
        }),
        (PhaseView::Restoring { task, missed: Some(earlier) }).after(
            message,
            ReplyView::Broken(error),
        ) == (PhaseView::Finished { outcome: OutcomeView::Failed(earlier) }),
        (PhaseView::Restoring { task: RestoreView::Dropping, missed: Some(earlier) }).after(
            message,
            ReplyView::Done(text),
        ) == (PhaseView::Finished { outcome: OutcomeView::Failed(earlier) }),
{
}

// ---------------------------------------------------------------------
// Restoring
// ---------------------------------------------------------------------

proof fn lemma_filled_after_blanks(lines: Seq<Seq<char>>, i: int)
    requires
        0 <= i < lines.len(),
        forall|k: int| 0 <= k < i ==> !says_something(#[trigger] lines[k]),
        says_something(lines[i]),
    ensures
        filled(lines) == seq![lines[i]] + filled(lines.skip(i + 1)),
    decreases lines.len(),
{
    let front = lines.drop_last();
    lemma_trim_empty(lines.last());
    if i < lines.len() - 1 {
        assert(front[i] == lines[i]);
        lemma_filled_after_blanks(front, i);
        let rest = lines.skip(i + 1);
        assert(rest.drop_last() =~= front.skip(i + 1));
        assert(rest.last() == lines.last());
        assert(filled(lines) =~= seq![lines[i]] + filled(rest));
    } else {
        lemma_all_blank(front);
        assert(lines.skip(i + 1).len() == 0);
        assert(filled(lines) =~= seq![lines[i]] + filled(lines.skip(i + 1)));
    }
}

proof fn lemma_all_blank(lines: Seq<Seq<char>>)
    requires
        forall|k: int| 0 <= k < lines.len() ==> !says_something(#[trigger] lines[k]),
    ensures
        filled(lines).len() == 0,
    decreases lines.len(),
{
    if lines.len() > 0 {
        let front = lines.drop_last();
        assert forall|k: int| 0 <= k < front.len() implies !says_something(
            #[trigger] front[k],
        ) by {
            assert(front[k] == lines[k]);
        }
        lemma_all_blank(front);
        assert(!says_something(lines[lines.len() - 1]));
        lemma_trim_empty(lines.last());
    }
}

/// The stashed logs are restored one by one, each line of the list naming one:
/// first the one on the first line that is not blank, with those on the later
/// lines still to come. Where no line names one, the stash is dropped.
pub proof fn law_every_stashed_log_is_restored(text: Seq<char>, i: int)
    ensures
        ({
            let lines = lines_of(text);
            let next = RestoreView::Listing.after(ReplyView::Done(text));
            &&& 0 <= i < lines.len() && says_something(lines[i]) && (forall|k: int|
                0 <= k < i ==> !says_something(#[trigger] lines[k])) ==> next
                == RestoredView::Next(
                RestoreView::Committed { path: lines[i], rest: filled(lines.skip(i + 1)) },
            )
            &&& (forall|k: int| 0 <= k < lines.len() ==> !says_something(#[trigger] lines[k]))
                ==> next == RestoredView::Next(RestoreView::Dropping)
        }),
{
    let lines = lines_of(text);
    if 0 <= i < lines.len() && says_something(lines[i]) && (forall|k: int|
        0 <= k < i ==> !says_something(#[trigger] lines[k])) {
        lemma_filled_after_blanks(lines, i);
        let all = seq![lines[i]] + filled(lines.skip(i + 1));
        assert(all.skip(1) =~= filled(lines.skip(i + 1)));
    }
    if forall|k: int| 0 <= k < lines.len() ==> !says_something(#[trigger] lines[k]) {
        lemma_all_blank(lines);
    }
}

/// A log that is not committed yet has no committed lines. Any other failure
/// ends the restoring.
pub proof fn law_new_log_has_no_committed_lines(
    path: Seq<char>,
    rest: Seq<Seq<char>>,
    committed: Seq<char>,
    stash: Seq<char>,
    text: Seq<char>,
    error: Seq<char>,
)
    ensures
        (RestoreView::Committed { path, rest }).after(ReplyView::Refused(error))
            == RestoredView::Next(
            RestoreView::Stashed { path, rest, committed: Seq::empty() },
        ),
        (RestoreView::Committed { path, rest }).after(ReplyView::Broken(error)) is Failed,
        RestoreView::Listing.after(ReplyView::Refused(error)) is Failed,
        (RestoreView::Stashed { path, rest, committed }).after(ReplyView::Refused(error))
            is Failed,
        (RestoreView::Working { path, rest, committed, stash }).after(ReplyView::Refused(error))
            is Failed,
        (RestoreView::Writing { path, rest, text }).after(ReplyView::Refused(error)) is Failed,
        RestoreView::Dropping.after(ReplyView::Refused(error)) is Failed,
        RestoreView::Dropping.after(ReplyView::Done(text)) is Done,
{
}

/// Each step of the restoring asks for what its name says, of the log at hand,
/// and what is written is the merge of what was read.
pub proof fn law_restoring_asks_for_each_side(
    path: Seq<char>,
    rest: Seq<Seq<char>>,
    committed: Seq<char>,
    working: Seq<char>,
    stash: Seq<char>,
)
    ensures
        RestoreView::Listing.step() == StepView::Run(CommandView::ListStash),
        (RestoreView::Committed { path, rest }).step() == StepView::Run(
            CommandView::ShowCommitted(path),
        ),
        (RestoreView::Stashed { path, rest, committed }).step() == StepView::Run(
            CommandView::ShowStashed(path),
        ),
        (RestoreView::Working { path, rest, committed, stash }).step() == StepView::Read(path),
        RestoreView::Dropping.step() == StepView::Run(CommandView::DropStash),
        (RestoreView::Working { path, rest, committed, stash }).after(ReplyView::Done(working))
            == RestoredView::Next(
            RestoreView::Writing {
                path,
                rest,
                text: text_of(merged_lines(committed, working, stash)),
            },
        ),
{
}

} // verus!
