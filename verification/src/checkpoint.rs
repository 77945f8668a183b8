//! The write protocol of a checkpoint: acquire the lock, restore pending
//! events, fold briefs, commit, push, release. The protocol decides which
//! step comes next; whoever drives it takes the step and hands back the
//! reply.
//!
//! Uncommitted event appends made since the last checkpoint are
//! stashed across the lock acquire (whose `git pull --rebase` needs a
//! clean tree) and restored before folding, keeping appends
//! append-only relative to anything pulled. They are restored by merging
//! logs (see [`crate::restore`]), whether the lock was had or not.

use crate::events::ACTOR;
use crate::map_edit::counted_text;
use crate::restore::{Restore, RestoreView, Restored, RestoredView};
use crate::text::{chars_of, decimal, join, string_of, text_opt, texts, trim, trimmed};
use vstd::prelude::*;

verus! {

/// How many times to retry a busy lock.
pub const LOCK_RETRIES: u32 = 4;

/// How many seconds to wait between two tries.
pub const LOCK_RETRY_SECONDS: u64 = 2;

// ---------------------------------------------------------------------
// Commands
// ---------------------------------------------------------------------

/// A command of the protocol, run in the database directory.
#[derive(Debug, PartialEq)]
pub enum Command {
    /// Tells whether event appends are uncommitted.
    Status,
    /// Sets uncommitted event appends aside.
    Stash,
    /// Names the files in the stash.
    ListStash,
    /// Prints the file at this path as it is committed.
    ShowCommitted(String),
    /// Prints the file at this path as it lies in the stash.
    ShowStashed(String),
    /// Discards the stash.
    DropStash,
    Acquire,
    Release,
    /// Materializes the briefs.
    Fold,
    Stage,
    /// Commits under this message.
    Commit(String),
    Push,
    /// Tells the short sha of the last commit.
    Head,
}

/// The mathematical value of a [`Command`].
pub enum CommandView {
    Status,
    Stash,
    ListStash,
    ShowCommitted(Seq<char>),
    ShowStashed(Seq<char>),
    DropStash,
    Acquire,
    Release,
    Fold,
    Stage,
    Commit(Seq<char>),
    Push,
    Head,
}

impl View for Command {
    type V = CommandView;

    open spec fn view(&self) -> CommandView {
        match self {
            Command::Status => CommandView::Status,
            Command::Stash => CommandView::Stash,
            Command::ListStash => CommandView::ListStash,
            Command::ShowCommitted(path) => CommandView::ShowCommitted(path@),
            Command::ShowStashed(path) => CommandView::ShowStashed(path@),
            Command::DropStash => CommandView::DropStash,
            Command::Acquire => CommandView::Acquire,
            Command::Release => CommandView::Release,
            Command::Fold => CommandView::Fold,
            Command::Stage => CommandView::Stage,
            Command::Commit(message) => CommandView::Commit(message@),
            Command::Push => CommandView::Push,
            Command::Head => CommandView::Head,
        }
    }
}

impl CommandView {
    /// The program that a command runs.
    pub open spec fn program(self) -> Seq<char> {
        match self {
            CommandView::Acquire | CommandView::Release | CommandView::Fold => "python3"@,
            _ => "git"@,
        }
    }

    /// The arguments that it runs with.
    pub open spec fn arguments(self) -> Seq<Seq<char>> {
        match self {
            CommandView::Status => seq!["status"@, "--porcelain"@, "--"@, "events"@],
            CommandView::Stash => seq![
                "stash"@,
                "push"@,
                "-m"@,
                "workcat-map-checkpoint"@,
                "--"@,
                "events"@,
            ],
            CommandView::ListStash => seq!["stash"@, "show"@, "--name-only"@, "stash@{0}"@],
            CommandView::ShowCommitted(path) => seq!["show"@, "HEAD:"@ + path],
            CommandView::ShowStashed(path) => seq!["show"@, "stash@{0}:"@ + path],
            CommandView::DropStash => seq!["stash"@, "drop"@],
            CommandView::Acquire => seq!["tools/lock.py"@, "acquire"@, "--actor"@, ACTOR@],
            CommandView::Release => seq!["tools/lock.py"@, "release"@, "--actor"@, ACTOR@],
            CommandView::Fold => seq!["tools/fold.py"@],
            CommandView::Stage => seq!["add"@, "events"@, "briefs"@],
            CommandView::Commit(message) => seq!["commit"@, "-m"@, message],
            CommandView::Push => seq!["push"@],
            CommandView::Head => seq!["rev-parse"@, "--short"@, "HEAD"@],
        }
    }
}

fn push_text(out: &mut Vec<String>, text: &str)
    ensures
        texts(final(out)@) == texts(old(out)@).push(text@),
{
    out.push(text.to_owned());
    assert(texts(out@) =~= texts(old(out)@).push(text@));
}

impl Command {
    /// The program that the command runs.
    pub fn program(&self) -> (r: &'static str)
        ensures
            r@ == self@.program(),
    {
        match self {
            Command::Acquire | Command::Release | Command::Fold => "python3",
            _ => "git",
        }
    }

    /// The arguments that it runs with.
    pub fn arguments(&self) -> (r: Vec<String>)
        ensures
            texts(r@) == self@.arguments(),
    {
        let mut out: Vec<String> = Vec::new();
        match self {
            Command::Status => {
                push_text(&mut out, "status");
                push_text(&mut out, "--porcelain");
                push_text(&mut out, "--");
                push_text(&mut out, "events");
            },
            Command::Stash => {
                push_text(&mut out, "stash");
                push_text(&mut out, "push");
                push_text(&mut out, "-m");
                push_text(&mut out, "workcat-map-checkpoint");
                push_text(&mut out, "--");
                push_text(&mut out, "events");
            },
            Command::ListStash => {
                push_text(&mut out, "stash");
                push_text(&mut out, "show");
                push_text(&mut out, "--name-only");
                push_text(&mut out, "stash@{0}");
            },
            Command::ShowCommitted(path) => {
                push_text(&mut out, "show");
                push_text(&mut out, join("HEAD:", path.as_str()).as_str());
            },
            Command::ShowStashed(path) => {
                push_text(&mut out, "show");
                push_text(&mut out, join("stash@{0}:", path.as_str()).as_str());
            },
            Command::DropStash => {
                push_text(&mut out, "stash");
                push_text(&mut out, "drop");
            },
            Command::Acquire => {
                push_text(&mut out, "tools/lock.py");
                push_text(&mut out, "acquire");
                push_text(&mut out, "--actor");
                push_text(&mut out, ACTOR);
            },
            Command::Release => {
                push_text(&mut out, "tools/lock.py");
                push_text(&mut out, "release");
                push_text(&mut out, "--actor");
                push_text(&mut out, ACTOR);
            },
            Command::Fold => {
                push_text(&mut out, "tools/fold.py");
            },
            Command::Stage => {
                push_text(&mut out, "add");
                push_text(&mut out, "events");
                push_text(&mut out, "briefs");
            },
            Command::Commit(message) => {
                push_text(&mut out, "commit");
                push_text(&mut out, "-m");
                push_text(&mut out, message.as_str());
            },
            Command::Push => {
                push_text(&mut out, "push");
            },
            Command::Head => {
                push_text(&mut out, "rev-parse");
                push_text(&mut out, "--short");
                push_text(&mut out, "HEAD");
            },
        }
        assert(texts(out@) =~= self@.arguments());
        out
    }
}

/// A step of the protocol.
#[derive(Debug, PartialEq)]
pub enum Step {
    /// Run a command.
    Run(Command),
    /// Read the file at this path; one that is not there is empty.
    Read(String),
    /// Write this text to the file at this path.
    Write(String, String),
}

/// The mathematical value of a [`Step`].
pub enum StepView {
    Run(CommandView),
    Read(Seq<char>),
    Write(Seq<char>, Seq<char>),
}

impl View for Step {
    type V = StepView;

    open spec fn view(&self) -> StepView {
        match self {
            Step::Run(command) => StepView::Run(command@),
            Step::Read(path) => StepView::Read(path@),
            Step::Write(path, text) => StepView::Write(path@, text@),
        }
    }
}

impl StepView {
    /// The step as a report names it.
    pub open spec fn spelling(self) -> Seq<char> {
        match self {
            StepView::Run(command) => spelled(command.program(), command.arguments()),
            StepView::Read(path) => "reading "@ + path,
            StepView::Write(path, _) => "writing "@ + path,
        }
    }
}

/// How a step ended.
#[derive(Debug, PartialEq)]
pub enum Reply {
    /// It succeeded, and gave this.
    Done(String),
    /// It was taken and failed, and gave this.
    Refused(String),
    /// It could not be taken.
    Broken(String),
}

/// The mathematical value of a [`Reply`].
pub enum ReplyView {
    Done(Seq<char>),
    Refused(Seq<char>),
    Broken(Seq<char>),
}

impl View for Reply {
    type V = ReplyView;

    open spec fn view(&self) -> ReplyView {
        match self {
            Reply::Done(text) => ReplyView::Done(text@),
            Reply::Refused(text) => ReplyView::Refused(text@),
            Reply::Broken(text) => ReplyView::Broken(text@),
        }
    }
}

impl CommandView {
    /// Whether the command prints a file, which is taken as it is.
    pub open spec fn prints_file(self) -> bool {
        self is ShowCommitted || self is ShowStashed
    }
}

/// The reply of a command that ran: what it printed, trimmed but for a file.
/// A busy lock says why on its standard output; other failures are reported
/// with all that was printed.
pub open spec fn reply_for(
    command: CommandView,
    success: bool,
    stdout: Seq<char>,
    stderr: Seq<char>,
) -> ReplyView {
    if success && command.prints_file() {
        ReplyView::Done(stdout)
    } else if success {
        ReplyView::Done(trimmed(stdout))
    } else if command is Acquire {
        ReplyView::Refused(trimmed(stdout))
    } else {
        ReplyView::Refused(trimmed(stdout) + trimmed(stderr))
    }
}

/// The reply of a command that ran.
pub fn reply_of(command: &Command, success: bool, stdout: &str, stderr: &str) -> (r: Reply)
    ensures
        r@ == reply_for(command@, success, stdout@, stderr@),
{
    let out = string_of(trim(chars_of(stdout).as_slice()));
    if success {
        return match command {
            Command::ShowCommitted(_) | Command::ShowStashed(_) => Reply::Done(stdout.to_owned()),
            _ => Reply::Done(out),
        };
    }
    match command {
        Command::Acquire => Reply::Refused(out),
        _ => {
            let err = string_of(trim(chars_of(stderr).as_slice()));
            Reply::Refused(join(out.as_str(), err.as_str()))
        },
    }
}

// ---------------------------------------------------------------------
// Phases
// ---------------------------------------------------------------------

/// How a checkpoint ended: the short sha of its commit or nothing when there
/// was nothing to commit, or the error.
pub type Outcome = Result<Option<String>, String>;

/// The mathematical value of an [`Outcome`].
pub enum OutcomeView {
    Committed(Seq<char>),
    Nothing,
    Failed(Seq<char>),
}

pub open spec fn outcome_view(outcome: Outcome) -> OutcomeView {
    match outcome {
        Ok(Some(sha)) => OutcomeView::Committed(sha@),
        Ok(None) => OutcomeView::Nothing,
        Err(error) => OutcomeView::Failed(error@),
    }
}

/// Where a checkpoint stands: which step it awaits the reply of.
#[derive(Debug, PartialEq)]
pub enum Phase {
    /// Whether there are appends to stash.
    Looking,
    Stashing,
    /// The lock, at a try counted from 0.
    Acquiring { stashed: bool, attempt: u32 },
    /// The stash comes back. Where the lock was `missed`, this is before the
    /// error is reported.
    Restoring { task: Restore, missed: Option<String> },
    /// Whether there is anything to commit.
    Checking,
    Folding,
    Staging,
    Committing,
    Pushing,
    Reading,
    Releasing { outcome: Outcome },
    Finished { outcome: Outcome },
}

/// The mathematical value of a [`Phase`].
pub enum PhaseView {
    Looking,
    Stashing,
    Acquiring { stashed: bool, attempt: nat },
    Restoring { task: RestoreView, missed: Option<Seq<char>> },
    Checking,
    Folding,
    Staging,
    Committing,
    Pushing,
    Reading,
    Releasing { outcome: OutcomeView },
    Finished { outcome: OutcomeView },
}

impl View for Phase {
    type V = PhaseView;

    open spec fn view(&self) -> PhaseView {
        match self {
            Phase::Looking => PhaseView::Looking,
            Phase::Stashing => PhaseView::Stashing,
            Phase::Acquiring { stashed, attempt } => PhaseView::Acquiring {
                stashed: *stashed,
                attempt: *attempt as nat,
            },
            Phase::Restoring { task, missed } => PhaseView::Restoring {
                task: task@,
                missed: text_opt(*missed),
            },
            Phase::Checking => PhaseView::Checking,
            Phase::Folding => PhaseView::Folding,
            Phase::Staging => PhaseView::Staging,
            Phase::Committing => PhaseView::Committing,
            Phase::Pushing => PhaseView::Pushing,
            Phase::Reading => PhaseView::Reading,
            Phase::Releasing { outcome } => PhaseView::Releasing { outcome: outcome_view(*outcome) },
            Phase::Finished { outcome } => PhaseView::Finished { outcome: outcome_view(*outcome) },
        }
    }
}

/// `command` and its arguments as one text, the arguments parted by spaces.
pub open spec fn spelled(program: Seq<char>, args: Seq<Seq<char>>) -> Seq<char>
    decreases args.len(),
{
    if args.len() == 0 {
        program
    } else {
        spelled(program, args.drop_last()).push(' ') + args.last()
    }
}

/// The error of a reply that is not success.
pub open spec fn failure(step: StepView, reply: ReplyView) -> Seq<char> {
    match reply {
        ReplyView::Done(_) => Seq::empty(),
        ReplyView::Refused(text) => step.spelling() + " failed: "@ + text,
        ReplyView::Broken(error) => error,
    }
}

/// The error of a lock that stayed busy.
pub open spec fn busy_error(note: Seq<char>) -> Seq<char> {
    "lock still busy after "@ + decimal((LOCK_RETRIES + 1) as nat) + " tries: "@ + note
}

/// The error of pending events that could not be brought back.
pub open spec fn restore_error(error: Seq<char>) -> Seq<char> {
    "restoring pending events failed (they are safe in `git stash`; resolve by hand in the db repo): "@
        + error
}

impl PhaseView {
    /// The step whose reply a phase awaits.
    pub open spec fn step(self, message: Seq<char>) -> Option<StepView> {
        match self {
            PhaseView::Looking | PhaseView::Checking => Some(StepView::Run(CommandView::Status)),
            PhaseView::Stashing => Some(StepView::Run(CommandView::Stash)),
            PhaseView::Acquiring { .. } => Some(StepView::Run(CommandView::Acquire)),
            PhaseView::Restoring { task, .. } => Some(task.step()),
            PhaseView::Folding => Some(StepView::Run(CommandView::Fold)),
            PhaseView::Staging => Some(StepView::Run(CommandView::Stage)),
            PhaseView::Committing => Some(StepView::Run(CommandView::Commit(message))),
            PhaseView::Pushing => Some(StepView::Run(CommandView::Push)),
            PhaseView::Reading => Some(StepView::Run(CommandView::Head)),
            PhaseView::Releasing { .. } => Some(StepView::Run(CommandView::Release)),
            PhaseView::Finished { .. } => None,
        }
    }

    /// What is reported when a phase is entered.
    pub open spec fn progress(self, note: Seq<char>) -> Option<Seq<char>> {
        match self {
            PhaseView::Stashing => Some("stashing pending events..."@),
            PhaseView::Acquiring { attempt, .. } => if attempt == 0 {
                Some("acquiring write lock..."@)
            } else {
                Some("waiting for lock ("@ + note + "), retry "@ + decimal(attempt) + "..."@)
            },
            PhaseView::Folding => Some("folding briefs..."@),
            PhaseView::Committing => Some("committing..."@),
            PhaseView::Pushing => Some("pushing..."@),
            PhaseView::Releasing { .. } => Some("releasing write lock..."@),
            _ => None,
        }
    }

    /// The phase that follows a reply.
    pub open spec fn after(self, message: Seq<char>, reply: ReplyView) -> PhaseView {
        match self.step(message) {
            None => self,
            Some(step) => {
                let error = failure(step, reply);
                match self {
                    PhaseView::Looking => match reply {
                        ReplyView::Done(text) => if text.len() > 0 {
                            PhaseView::Stashing
                        } else {
                            PhaseView::Acquiring { stashed: false, attempt: 0 }
                        },
                        _ => PhaseView::Finished { outcome: OutcomeView::Failed(error) },
                    },
                    PhaseView::Stashing => match reply {
                        ReplyView::Done(_) => PhaseView::Acquiring { stashed: true, attempt: 0 },
                        _ => PhaseView::Finished { outcome: OutcomeView::Failed(error) },
                    },
                    PhaseView::Acquiring { stashed, attempt } => match reply {
                        ReplyView::Done(_) => if stashed {
                            PhaseView::Restoring { task: RestoreView::Listing, missed: None }
                        } else {
                            PhaseView::Checking
                        },
                        ReplyView::Refused(note) => if attempt < LOCK_RETRIES {
                            PhaseView::Acquiring { stashed, attempt: attempt + 1 }
                        } else {
                            unlocked(stashed, busy_error(note))
                        },
                        ReplyView::Broken(error) => unlocked(stashed, error),
                    },
                    PhaseView::Restoring { task, missed } => match (task.after(reply), missed) {
                        (RestoredView::Next(task), _) => PhaseView::Restoring { task, missed },
                        (_, Some(earlier)) => PhaseView::Finished {
                            outcome: OutcomeView::Failed(earlier),
                        },
                        (RestoredView::Done, None) => PhaseView::Checking,
                        (RestoredView::Failed, None) => PhaseView::Releasing {
                            outcome: OutcomeView::Failed(restore_error(error)),
                        },
                    },
                    PhaseView::Checking => match reply {
                        ReplyView::Done(text) => if text.len() > 0 {
                            PhaseView::Folding
                        } else {
                            PhaseView::Releasing { outcome: OutcomeView::Nothing }
                        },
                        _ => PhaseView::Releasing { outcome: OutcomeView::Failed(error) },
                    },
                    PhaseView::Folding => match reply {
                        ReplyView::Done(_) => PhaseView::Staging,
                        _ => PhaseView::Releasing { outcome: OutcomeView::Failed(error) },
                    },
                    PhaseView::Staging => match reply {
                        ReplyView::Done(_) => PhaseView::Committing,
                        _ => PhaseView::Releasing { outcome: OutcomeView::Failed(error) },
                    },
                    PhaseView::Committing => match reply {
                        ReplyView::Done(_) => PhaseView::Pushing,
                        _ => PhaseView::Releasing { outcome: OutcomeView::Failed(error) },
                    },
                    PhaseView::Pushing => match reply {
                        ReplyView::Done(_) => PhaseView::Reading,
                        _ => PhaseView::Releasing { outcome: OutcomeView::Failed(error) },
                    },
                    PhaseView::Reading => match reply {
                        ReplyView::Done(sha) => PhaseView::Releasing {
                            outcome: OutcomeView::Committed(sha),
                        },
                        _ => PhaseView::Releasing { outcome: OutcomeView::Failed(error) },
                    },
                    PhaseView::Releasing { outcome } => match (reply, outcome) {
                        (ReplyView::Done(_), _) => PhaseView::Finished { outcome },
                        (_, OutcomeView::Failed(_)) => PhaseView::Finished { outcome },
                        _ => PhaseView::Finished { outcome: OutcomeView::Failed(error) },
                    },
                    PhaseView::Finished { .. } => self,
                }
            },
        }
    }

    /// Whether the lock is held.
    pub open spec fn locked(self) -> bool {
        match self {
            PhaseView::Restoring { missed, .. } => missed is None,
            PhaseView::Checking | PhaseView::Folding | PhaseView::Staging | PhaseView::Committing
            | PhaseView::Pushing | PhaseView::Reading | PhaseView::Releasing { .. } => true,
            _ => false,
        }
    }

    /// Whether pending events lie in the stash.
    pub open spec fn holds_stash(self) -> bool {
        match self {
            PhaseView::Acquiring { stashed, .. } => stashed,
            PhaseView::Restoring { .. } => true,
            _ => false,
        }
    }

    /// How many replies a checkpoint can await at most, apart from those that
    /// restore the stashed logs.
    pub open spec fn remaining(self) -> nat {
        match self {
            PhaseView::Looking => 16,
            PhaseView::Stashing => 15,
            PhaseView::Acquiring { attempt, .. } => if attempt <= LOCK_RETRIES {
                (14 - attempt) as nat
            } else {
                10
            },
            PhaseView::Restoring { task, .. } => if task is Listing {
                9
            } else {
                8
            },
            PhaseView::Checking => 7,
            PhaseView::Folding => 6,
            PhaseView::Staging => 5,
            PhaseView::Committing => 4,
            PhaseView::Pushing => 3,
            PhaseView::Reading => 2,
            PhaseView::Releasing { .. } => 1,
            PhaseView::Finished { .. } => 0,
        }
    }
}

/// The phase after the lock was not had.
pub open spec fn unlocked(stashed: bool, error: Seq<char>) -> PhaseView {
    if stashed {
        PhaseView::Restoring { task: RestoreView::Listing, missed: Some(error) }
    } else {
        PhaseView::Finished { outcome: OutcomeView::Failed(error) }
    }
}

// ---------------------------------------------------------------------
// The protocol
// ---------------------------------------------------------------------

/// `program` and its arguments as one text, the arguments parted by spaces.
pub fn spell(program: &str, args: &Vec<String>) -> (r: String)
    ensures
        r@ == spelled(program@, texts(args@)),
{
    let ghost all = texts(args@);
    let mut out = program.to_owned();
    let mut i: usize = 0;
    while i < args.len()
        invariant
            i <= args@.len(),
            all == texts(args@),
            out@ == spelled(program@, all.take(i as int)),
        decreases args@.len() - i,
    {
        assert(all.take(i + 1).last() == args@[i as int]@);
        assert(all.take(i + 1).drop_last() == all.take(i as int));
        out.push(' ');
        out.append(args[i].as_str());
        i += 1;
    }
    assert(all.take(args@.len() as int) == all);
    out
}

impl Step {
    /// The step as a report names it.
    pub fn spelling(&self) -> (r: String)
        ensures
            r@ == self@.spelling(),
    {
        match self {
            Step::Run(command) => {
                let args = command.arguments();
                spell(command.program(), &args)
            },
            Step::Read(path) => join("reading ", path.as_str()),
            Step::Write(path, _) => join("writing ", path.as_str()),
        }
    }
}

fn failure_text(step: &Step, reply: &Reply) -> (r: String)
    ensures
        r@ == failure(step@, reply@),
{
    match reply {
        Reply::Done(_) => {
            let r = String::new();
            assert(r@ =~= Seq::<char>::empty());
            r
        },
        Reply::Refused(text) => {
            let start = join(step.spelling().as_str(), " failed: ");
            join(start.as_str(), text.as_str())
        },
        Reply::Broken(error) => error.clone(),
    }
}

impl Phase {
    /// The step whose reply the phase awaits.
    pub fn step(&self, message: &str) -> (r: Option<Step>)
        ensures
            r is Some == self@.step(message@) is Some,
            r matches Some(step) ==> Some(step@) == self@.step(message@),
    {
        match self {
            Phase::Looking | Phase::Checking => Some(Step::Run(Command::Status)),
            Phase::Stashing => Some(Step::Run(Command::Stash)),
            Phase::Acquiring { .. } => Some(Step::Run(Command::Acquire)),
            Phase::Restoring { task, .. } => Some(task.step()),
            Phase::Folding => Some(Step::Run(Command::Fold)),
            Phase::Staging => Some(Step::Run(Command::Stage)),
            Phase::Committing => Some(Step::Run(Command::Commit(message.to_owned()))),
            Phase::Pushing => Some(Step::Run(Command::Push)),
            Phase::Reading => Some(Step::Run(Command::Head)),
            Phase::Releasing { .. } => Some(Step::Run(Command::Release)),
            Phase::Finished { .. } => None,
        }
    }

    /// What is reported when the phase is entered; `note` is what a busy lock
    /// said.
    pub fn progress(&self, note: &str) -> (r: Option<String>)
        ensures
            text_opt(r) == self@.progress(note@),
    {
        match self {
            Phase::Stashing => Some("stashing pending events...".to_owned()),
            Phase::Acquiring { attempt, .. } => if *attempt == 0 {
                Some("acquiring write lock...".to_owned())
            } else {
                let start = join("waiting for lock (", note);
                let with_note = join(start.as_str(), "), retry ");
                Some(counted_text(with_note.as_str(), *attempt as usize, "..."))
            },
            Phase::Folding => Some("folding briefs...".to_owned()),
            Phase::Committing => Some("committing...".to_owned()),
            Phase::Pushing => Some("pushing...".to_owned()),
            Phase::Releasing { .. } => Some("releasing write lock...".to_owned()),
            _ => None,
        }
    }

    /// The phase that follows a reply.
    pub fn advance(self, message: &str, reply: &Reply) -> (r: Phase)
        ensures
            r@ == self@.after(message@, reply@),
    {
        let step = match self.step(message) {
            Some(step) => step,
            None => {
                return self;
            },
        };
        let error = failure_text(&step, reply);
        match self {
            Phase::Looking => match reply {
                Reply::Done(text) => if text.as_str().is_empty() {
                    Phase::Acquiring { stashed: false, attempt: 0 }
                } else {
                    Phase::Stashing
                },
                _ => Phase::Finished { outcome: Err(error) },
            },
            Phase::Stashing => match reply {
                Reply::Done(_) => Phase::Acquiring { stashed: true, attempt: 0 },
                _ => Phase::Finished { outcome: Err(error) },
            },
            Phase::Acquiring { stashed, attempt } => match reply {
                Reply::Done(_) => if stashed {
                    Phase::Restoring { task: Restore::Listing, missed: None }
                } else {
                    Phase::Checking
                },
                Reply::Refused(note) => if attempt < LOCK_RETRIES {
                    Phase::Acquiring { stashed, attempt: attempt + 1 }
                } else {
                    let error = join(
                        counted_text(
                            "lock still busy after ",
                            (LOCK_RETRIES + 1) as usize,
                            " tries: ",
                        ).as_str(),
                        note.as_str(),
                    );
                    lock_missed(stashed, error)
                },
                Reply::Broken(error) => lock_missed(stashed, error.clone()),
            },
            Phase::Restoring { task, missed } => match (task.advance(reply), missed) {
                (Restored::Next(task), missed) => Phase::Restoring { task, missed },
                (_, Some(earlier)) => Phase::Finished { outcome: Err(earlier) },
                (Restored::Done, None) => Phase::Checking,
                (Restored::Failed, None) => Phase::Releasing {
                    outcome: Err(
                        join(
                            "restoring pending events failed (they are safe in `git stash`; resolve by hand in the db repo): ",
                            error.as_str(),
                        ),
                    ),
                },
            },
            Phase::Checking => match reply {
                Reply::Done(text) => if text.as_str().is_empty() {
                    Phase::Releasing { outcome: Ok(None) }
                } else {
                    Phase::Folding
                },
                _ => Phase::Releasing { outcome: Err(error) },
            },
            Phase::Folding => match reply {
                Reply::Done(_) => Phase::Staging,
                _ => Phase::Releasing { outcome: Err(error) },
            },
            Phase::Staging => match reply {
                Reply::Done(_) => Phase::Committing,
                _ => Phase::Releasing { outcome: Err(error) },
            },
            Phase::Committing => match reply {
                Reply::Done(_) => Phase::Pushing,
                _ => Phase::Releasing { outcome: Err(error) },
            },
            Phase::Pushing => match reply {
                Reply::Done(_) => Phase::Reading,
                _ => Phase::Releasing { outcome: Err(error) },
            },
            Phase::Reading => match reply {
                Reply::Done(sha) => Phase::Releasing { outcome: Ok(Some(sha.clone())) },
                _ => Phase::Releasing { outcome: Err(error) },
            },
            Phase::Releasing { outcome } => match (reply, outcome) {
                (Reply::Done(_), outcome) => Phase::Finished { outcome },
                (_, Err(earlier)) => Phase::Finished { outcome: Err(earlier) },
                (_, Ok(_)) => Phase::Finished { outcome: Err(error) },
            },
            Phase::Finished { outcome } => Phase::Finished { outcome },
        }
    }
}

fn lock_missed(stashed: bool, error: String) -> (r: Phase)
    ensures
        r@ == unlocked(stashed, error@),
{
    if stashed {
        Phase::Restoring { task: Restore::Listing, missed: Some(error) }
    } else {
        Phase::Finished { outcome: Err(error) }
    }
}

// ---------------------------------------------------------------------
// Laws
// ---------------------------------------------------------------------

/// Whatever the replies, the protocol comes to an end: each brings it nearer
/// to it, or brings the restoring of the stashed logs nearer to its end.
pub proof fn law_checkpoint_ends(phase: PhaseView, message: Seq<char>, reply: ReplyView)
    requires
        phase !is Finished,
        phase matches PhaseView::Acquiring { attempt, .. } ==> attempt <= LOCK_RETRIES,
    ensures
        phase.after(message, reply).remaining() < phase.remaining() || {
            &&& phase.after(message, reply).remaining() == phase.remaining()
            &&& phase is Restoring && phase.after(message, reply) is Restoring
            &&& phase.after(message, reply)->task.remaining() < phase->task.remaining()
        },
        phase.after(message, reply) matches PhaseView::Acquiring { attempt, .. } ==> attempt
            <= LOCK_RETRIES,
{
}

/// A lock that was had is given back: the protocol does not finish from a
/// phase that holds it but by releasing it.
pub proof fn law_lock_is_released(phase: PhaseView, message: Seq<char>, reply: ReplyView)
    requires
        phase.locked(),
    ensures
        phase.after(message, reply).locked() || phase is Releasing,
        phase is Releasing ==> phase.step(message) == Some(StepView::Run(CommandView::Release)),
{
}

/// The lock is held whenever briefs are folded, staged, committed or pushed.
pub proof fn law_writes_hold_the_lock(phase: PhaseView, message: Seq<char>)
    requires
        phase.step(message) matches Some(StepView::Run(command)) && (command is Fold || command
            is Stage || command is Commit || command is Push),
    ensures
        phase.locked(),
{
}

/// Pending events that were stashed are brought back: the protocol leaves a
/// phase that holds the stash only when their restoring has come to its end,
/// and it leaves it well only by dropping the stash.
pub proof fn law_stash_is_restored(phase: PhaseView, message: Seq<char>, reply: ReplyView)
    requires
        phase.holds_stash(),
    ensures
        phase.after(message, reply).holds_stash() || phase is Restoring && phase->task.after(
            reply,
        ) !is Next,
        phase.after(message, reply) is Checking && phase is Restoring ==> phase.step(message)
            == Some(StepView::Run(CommandView::DropStash)) && reply is Done,
{
}

/// A checkpoint reports a commit only when its release succeeded, and only
/// after the push did.
pub proof fn law_commit_was_pushed(
    phase: PhaseView,
    message: Seq<char>,
    reply: ReplyView,
    sha: Seq<char>,
)
    requires
        phase !is Finished,
        phase.after(message, reply) == (PhaseView::Finished {
            outcome: OutcomeView::Committed(sha),
        }),
    ensures
        phase == (PhaseView::Releasing { outcome: OutcomeView::Committed(sha) }),
        reply is Done,
{
}

/// Only the phase after a push that succeeded reads a sha.
pub proof fn law_sha_follows_push(phase: PhaseView, message: Seq<char>, reply: ReplyView)
    requires
        phase.after(message, reply) is Reading,
    ensures
        phase is Pushing,
        reply is Done,
{
}

} // verus!
