//! Bringing pending events back from the stash.
//!
//! Each stashed log is merged, line by line, with what is committed and what
//! stands in the working tree, and the stash is dropped once all are written.
//! A `git stash pop` would conflict, and strand events, whenever a concurrent
//! append lands on a log in the meantime. The working copy is read last,
//! right before the merged log is written over it.

use crate::checkpoint::{Command, CommandView, Reply, ReplyView, Step, StepView};
use crate::log::{
    blank, filled, filled_lines, fits, law_merge_unions, merge_append_log, merged_lines, text_of,
};
use crate::text::{chars_of, lines, lines_of, rows, string_of, texts};
use vstd::prelude::*;

verus! {

/// Where the restoring stands: which step it awaits the reply of.
#[derive(Debug, PartialEq)]
pub enum Restore {
    /// Which logs lie in the stash.
    Listing,
    /// What is committed of the log at `path`; `rest` are the logs after it.
    Committed { path: String, rest: Vec<String> },
    /// What lies of it in the stash.
    Stashed { path: String, rest: Vec<String>, committed: String },
    /// What stands of it in the working tree.
    Working { path: String, rest: Vec<String>, committed: String, stash: String },
    /// The merged log goes into the working tree.
    Writing { path: String, rest: Vec<String>, text: String },
    /// Every log is written: the stash can go.
    Dropping,
}

/// The mathematical value of a [`Restore`].
pub enum RestoreView {
    Listing,
    Committed { path: Seq<char>, rest: Seq<Seq<char>> },
    Stashed { path: Seq<char>, rest: Seq<Seq<char>>, committed: Seq<char> },
    Working { path: Seq<char>, rest: Seq<Seq<char>>, committed: Seq<char>, stash: Seq<char> },
    Writing { path: Seq<char>, rest: Seq<Seq<char>>, text: Seq<char> },
    Dropping,
}

impl View for Restore {
    type V = RestoreView;

    open spec fn view(&self) -> RestoreView {
        match self {
            Restore::Listing => RestoreView::Listing,
            Restore::Committed { path, rest } => RestoreView::Committed {
                path: path@,
                rest: texts(rest@),
            },
            Restore::Stashed { path, rest, committed } => RestoreView::Stashed {
                path: path@,
                rest: texts(rest@),
                committed: committed@,
            },
            Restore::Working { path, rest, committed, stash } => RestoreView::Working {
                path: path@,
                rest: texts(rest@),
                committed: committed@,
                stash: stash@,
            },
            Restore::Writing { path, rest, text } => RestoreView::Writing {
                path: path@,
                rest: texts(rest@),
                text: text@,
            },
            Restore::Dropping => RestoreView::Dropping,
        }
    }
}

/// What follows a reply: more to do, or an end, good or bad.
#[derive(Debug, PartialEq)]
pub enum Restored {
    Next(Restore),
    Done,
    Failed,
}

/// The mathematical value of a [`Restored`].
pub enum RestoredView {
    Next(RestoreView),
    Done,
    Failed,
}

impl View for Restored {
    type V = RestoredView;

    open spec fn view(&self) -> RestoredView {
        match self {
            Restored::Next(task) => RestoredView::Next(task@),
            Restored::Done => RestoredView::Done,
            Restored::Failed => RestoredView::Failed,
        }
    }
}

/// The restoring of the logs at `paths`, in order.
pub open spec fn restoring(paths: Seq<Seq<char>>) -> RestoreView {
    if paths.len() == 0 {
        RestoreView::Dropping
    } else {
        RestoreView::Committed { path: paths[0], rest: paths.skip(1) }
    }
}

impl RestoreView {
    /// The step whose reply is awaited.
    pub open spec fn step(self) -> StepView {
        match self {
            RestoreView::Listing => StepView::Run(CommandView::ListStash),
            RestoreView::Committed { path, .. } => StepView::Run(CommandView::ShowCommitted(path)),
            RestoreView::Stashed { path, .. } => StepView::Run(CommandView::ShowStashed(path)),
            RestoreView::Working { path, .. } => StepView::Read(path),
            RestoreView::Writing { path, text, .. } => StepView::Write(path, text),
            RestoreView::Dropping => StepView::Run(CommandView::DropStash),
        }
    }

    /// What follows a reply. A log that is not committed yet has no committed
    /// lines; any other failure ends the restoring.
    pub open spec fn after(self, reply: ReplyView) -> RestoredView {
        match (self, reply) {
            (RestoreView::Listing, ReplyView::Done(text)) => RestoredView::Next(
                restoring(filled(lines_of(text))),
            ),
            (RestoreView::Committed { path, rest }, ReplyView::Done(committed)) => {
                RestoredView::Next(RestoreView::Stashed { path, rest, committed })
            },
            (RestoreView::Committed { path, rest }, ReplyView::Refused(_)) => {
                RestoredView::Next(RestoreView::Stashed { path, rest, committed: Seq::empty() })
            },
            (RestoreView::Stashed { path, rest, committed }, ReplyView::Done(stash)) => {
                RestoredView::Next(RestoreView::Working { path, rest, committed, stash })
            },
            (RestoreView::Working { path, rest, committed, stash }, ReplyView::Done(working)) => {
                RestoredView::Next(
                    RestoreView::Writing {
                        path,
                        rest,
                        text: text_of(merged_lines(committed, working, stash)),
                    },
                )
            },
            (RestoreView::Writing { rest, .. }, ReplyView::Done(_)) => RestoredView::Next(
                restoring(rest),
            ),
            (RestoreView::Dropping, ReplyView::Done(_)) => RestoredView::Done,
            _ => RestoredView::Failed,
        }
    }

    /// How many replies are awaited at most, once the stashed logs are known.
    pub open spec fn remaining(self) -> nat {
        match self {
            RestoreView::Listing => 0,
            RestoreView::Committed { rest, .. } => 4 * rest.len() + 5,
            RestoreView::Stashed { rest, .. } => 4 * rest.len() + 4,
            RestoreView::Working { rest, .. } => 4 * rest.len() + 3,
            RestoreView::Writing { rest, .. } => 4 * rest.len() + 2,
            RestoreView::Dropping => 1,
        }
    }
}

/// The paths that a listing names, one on a line.
fn listed_paths(text: &str) -> (r: Vec<String>)
    ensures
        texts(r@) == filled(lines_of(text@)),
{
    let all = lines(chars_of(text).as_slice());
    let named = filled_lines(&all);
    let ghost wanted = rows(named@);
    let mut out: Vec<String> = Vec::new();
    let mut i: usize = 0;
    assert(texts(out@) =~= wanted.take(0));
    while i < named.len()
        invariant
            i <= named@.len(),
            wanted == rows(named@),
            texts(out@) == wanted.take(i as int),
        decreases named@.len() - i,
    {
        let ghost before = out@;
        let path = string_of(named[i].as_slice());
        assert(path@ == wanted[i as int]);
        out.push(path);
        assert(texts(out@) =~= texts(before).push(path@));
        assert(wanted.take(i + 1) =~= wanted.take(i as int).push(wanted[i as int]));
        i += 1;
    }
    assert(wanted.take(named@.len() as int) =~= wanted);
    out
}

fn restore_logs(paths: Vec<String>) -> (r: Restore)
    ensures
        r@ == restoring(texts(paths@)),
{
    let mut rest = paths;
    if rest.len() == 0 {
        Restore::Dropping
    } else {
        let path = rest.remove(0);
        assert(texts(rest@) =~= texts(paths@).skip(1));
        Restore::Committed { path, rest }
    }
}

impl Restore {
    /// The step whose reply is awaited.
    pub fn step(&self) -> (r: Step)
        ensures
            r@ == self@.step(),
    {
        match self {
            Restore::Listing => Step::Run(Command::ListStash),
            Restore::Committed { path, .. } => Step::Run(Command::ShowCommitted(path.clone())),
            Restore::Stashed { path, .. } => Step::Run(Command::ShowStashed(path.clone())),
            Restore::Working { path, .. } => Step::Read(path.clone()),
            Restore::Writing { path, text, .. } => Step::Write(path.clone(), text.clone()),
            Restore::Dropping => Step::Run(Command::DropStash),
        }
    }

    /// What follows a reply.
    pub fn advance(self, reply: &Reply) -> (r: Restored)
        ensures
            r@ == self@.after(reply@),
    {
        match (self, reply) {
            (Restore::Listing, Reply::Done(text)) => Restored::Next(
                restore_logs(listed_paths(text.as_str())),
            ),
            (Restore::Committed { path, rest }, Reply::Done(committed)) => Restored::Next(
                Restore::Stashed { path, rest, committed: committed.clone() },
            ),
            (Restore::Committed { path, rest }, Reply::Refused(_)) => {
                let committed = String::new();
                assert(committed@ =~= Seq::<char>::empty());
                Restored::Next(Restore::Stashed { path, rest, committed })
            },
            (Restore::Stashed { path, rest, committed }, Reply::Done(stash)) => Restored::Next(
                Restore::Working { path, rest, committed, stash: stash.clone() },
            ),
            (Restore::Working { path, rest, committed, stash }, Reply::Done(working)) => {
                let text = merge_append_log(committed.as_str(), working.as_str(), stash.as_str());
                Restored::Next(Restore::Writing { path, rest, text })
            },
            (Restore::Writing { path: _, rest, text: _ }, Reply::Done(_)) => Restored::Next(
                restore_logs(rest),
            ),
            (Restore::Dropping, Reply::Done(_)) => Restored::Done,
            _ => Restored::Failed,
        }
    }
}

// ---------------------------------------------------------------------
// Laws
// ---------------------------------------------------------------------

/// No pending event is lost: the log that is written holds every line, blank
/// ones aside, that was committed, stood in the working tree or lay in the
/// stash.
pub proof fn law_restored_log_holds_all(
    path: Seq<char>,
    rest: Seq<Seq<char>>,
    committed: Seq<char>,
    stash: Seq<char>,
    working: Seq<char>,
    line: Seq<char>,
)
    requires
        fits(working, stash),
        !blank(line),
        lines_of(committed).contains(line) || lines_of(working).contains(line) || lines_of(
            stash,
        ).contains(line),
    ensures
        ({
            let reading = RestoreView::Working { path, rest, committed, stash };
            let merged = merged_lines(committed, working, stash);
            &&& reading.after(ReplyView::Done(working)) == RestoredView::Next(
                RestoreView::Writing { path, rest, text: text_of(merged) },
            )
            &&& merged.contains(line)
        }),
{
    law_merge_unions(committed, working, stash, line);
}

/// The stash goes only when every listed log was written: the step that drops
/// it follows the writing of the last log, or a listing that names none.
pub proof fn law_stash_goes_last(task: RestoreView, reply: ReplyView)
    requires
        task.after(reply) == RestoredView::Next(RestoreView::Dropping),
    ensures
        reply is Done,
        (task is Writing && task->Writing_rest.len() == 0) || (task is Listing && filled(
            lines_of(reply->Done_0),
        ).len() == 0),
{
}

/// Nothing but a drop that succeeded ends the restoring well.
pub proof fn law_restoring_ends_with_the_drop(task: RestoreView, reply: ReplyView)
    requires
        task.after(reply) is Done,
    ensures
        task is Dropping,
        reply is Done,
{
}

} // verus!
