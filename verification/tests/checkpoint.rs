//! The checkpoint protocol, step by step.

use mission_control::checkpoint::{
    reply_of, spell, Command, Outcome, Phase, Reply, Step, LOCK_RETRIES, LOCK_RETRY_SECONDS,
};
use mission_control::log::merge_append_log;
use mission_control::restore::{Restore, Restored};

const MESSAGE: &str = "map: session checkpoint";

fn done(text: &str) -> Reply {
    Reply::Done(text.to_string())
}

fn refused(text: &str) -> Reply {
    Reply::Refused(text.to_string())
}

/// Runs the protocol on scripted replies; gives the steps that were taken
/// and how it ended.
fn run(replies: Vec<Reply>) -> (Vec<Step>, Outcome) {
    let mut phase = Phase::Looking;
    let mut steps = Vec::new();
    let mut replies = replies.into_iter();
    while let Some(step) = phase.step(MESSAGE) {
        steps.push(step);
        let reply = replies.next().expect("a reply for every step");
        phase = phase.advance(MESSAGE, &reply);
    }
    assert_eq!(replies.next(), None, "every reply is used");
    match phase {
        Phase::Finished { outcome } => (steps, outcome),
        other => panic!("stopped in {other:?}"),
    }
}

fn runs(commands: Vec<Command>) -> Vec<Step> {
    commands.into_iter().map(Step::Run).collect()
}

const LOG: &str = "events/2026-07/log.jsonl";
const COMMITTED: &str = "{\"ts\":\"1\",\"id\":\"a\"}\n";
const STASHED: &str = "{\"ts\":\"1\",\"id\":\"a\"}\n{\"ts\":\"2\",\"id\":\"b\"}\n";
const WORKING: &str = "{\"ts\":\"1\",\"id\":\"a\"}\n{\"ts\":\"3\",\"id\":\"c\"}\n";

/// The steps that restore one log, and the replies to them.
fn restoring() -> (Vec<Step>, Vec<Reply>) {
    let merged = merge_append_log(COMMITTED, WORKING, STASHED);
    (
        vec![
            Step::Run(Command::ListStash),
            Step::Run(Command::ShowCommitted(LOG.to_string())),
            Step::Run(Command::ShowStashed(LOG.to_string())),
            Step::Read(LOG.to_string()),
            Step::Write(LOG.to_string(), merged),
            Step::Run(Command::DropStash),
        ],
        vec![done(LOG), done(COMMITTED), done(STASHED), done(WORKING), done(""), done("")],
    )
}

#[test]
fn pending_events_are_committed_under_the_lock() {
    let (restore_steps, restore_replies) = restoring();
    let mut replies = vec![done(" M events/2026-07/log.jsonl"), done(""), done("")];
    replies.extend(restore_replies);
    replies.extend([
        done(" M events/2026-07/log.jsonl"),
        done(""),
        done(""),
        done(""),
        done(""),
        done("abc1234"),
        done(""),
    ]);
    let (steps, outcome) = run(replies);
    let mut expected = runs(vec![Command::Status, Command::Stash, Command::Acquire]);
    expected.extend(restore_steps);
    expected.extend(runs(vec![
        Command::Status,
        Command::Fold,
        Command::Stage,
        Command::Commit(MESSAGE.to_string()),
        Command::Push,
        Command::Head,
        Command::Release,
    ]));
    assert_eq!(steps, expected);
    assert_eq!(outcome, Ok(Some("abc1234".to_string())));
}

#[test]
fn a_clean_tree_has_nothing_to_commit() {
    let (steps, outcome) = run(vec![done(""), done(""), done(""), done("")]);
    assert_eq!(
        steps,
        runs(vec![Command::Status, Command::Acquire, Command::Status, Command::Release])
    );
    assert_eq!(outcome, Ok(None));
}

#[test]
fn a_busy_lock_is_tried_again_and_then_given_up() {
    assert_eq!(LOCK_RETRY_SECONDS, 2);
    let mut replies = vec![done("M"), done("")];
    for _ in 0..LOCK_RETRIES + 1 {
        replies.push(refused("held by ci"));
    }
    let (restore_steps, restore_replies) = restoring();
    replies.extend(restore_replies);
    let (steps, outcome) = run(replies);
    assert_eq!(
        outcome,
        Err("lock still busy after 5 tries: held by ci".to_string())
    );
    // What was stashed is put back.
    assert!(steps.ends_with(&restore_steps));
    // One refusal less, and the checkpoint goes on.
    let mut replies = vec![done("")];
    for _ in 0..LOCK_RETRIES {
        replies.push(refused("held by ci"));
    }
    replies.extend([done(""), done(""), done("")]);
    assert_eq!(run(replies).1, Ok(None));
}

#[test]
fn a_lock_that_cannot_be_tried_fails_at_once() {
    let (steps, outcome) =
        run(vec![done(""), Reply::Broken("no python3".to_string())]);
    assert_eq!(steps, runs(vec![Command::Status, Command::Acquire]));
    assert_eq!(outcome, Err("no python3".to_string()));
    let mut replies = vec![done("M"), done(""), Reply::Broken("no python3".to_string())];
    let (restore_steps, restore_replies) = restoring();
    replies.extend(restore_replies);
    let (steps, outcome) = run(replies);
    assert!(steps.ends_with(&restore_steps));
    assert_eq!(outcome, Err("no python3".to_string()));
    // The first error is reported, whether the restoring succeeds or not.
    let (_, outcome) = run(vec![
        done("M"),
        done(""),
        Reply::Broken("no python3".to_string()),
        refused("no stash"),
    ]);
    assert_eq!(outcome, Err("no python3".to_string()));
}

#[test]
fn a_failed_step_still_releases_the_lock() {
    // The push is refused after the commit.
    let (steps, outcome) = run(vec![
        done(""),
        done(""),
        done("M"),
        done(""),
        done(""),
        done(""),
        refused("rejected"),
        done(""),
    ]);
    assert_eq!(steps.last(), Some(&Step::Run(Command::Release)));
    assert!(outcome.unwrap_err().contains("rejected"));
    // A failed release shows only when nothing failed before.
    let (_, outcome) = run(vec![done(""), done(""), done(""), refused("gone")]);
    assert!(outcome.unwrap_err().contains("gone"));
    let (_, outcome) = run(vec![done(""), done(""), refused("first"), refused("second")]);
    assert!(outcome.unwrap_err().contains("first"));
}

#[test]
fn events_that_cannot_be_restored_stay_in_the_stash() {
    let start = "restoring pending events failed (they are safe in `git stash`; \
        resolve by hand in the db repo): ";
    let locked = || vec![done("M"), done(""), done("")];
    // Wherever the restoring fails, the stash is not dropped.
    let failures = vec![
        (vec![refused("none")], "git stash show --name-only stash@{0} failed: none"),
        (vec![done(LOG), Reply::Broken("no git".to_string())], "no git"),
        (
            vec![done(LOG), done(COMMITTED), refused("bad")],
            "git show stash@{0}:events/2026-07/log.jsonl failed: bad",
        ),
        (
            vec![done(LOG), done(COMMITTED), done(STASHED), refused("odd")],
            "reading events/2026-07/log.jsonl failed: odd",
        ),
        (
            vec![done(LOG), done(COMMITTED), done(STASHED), done(""), refused("full")],
            "writing events/2026-07/log.jsonl failed: full",
        ),
    ];
    for (failing, error) in failures {
        let mut replies = locked();
        replies.extend(failing);
        replies.push(done(""));
        let (steps, outcome) = run(replies);
        assert_eq!(steps.last(), Some(&Step::Run(Command::Release)));
        assert!(!steps.contains(&Step::Run(Command::DropStash)));
        assert_eq!(outcome, Err(format!("{start}{error}")));
    }
}

#[test]
fn stashed_logs_are_merged_one_after_the_other() {
    let mut task = Restore::Listing;
    let mut written = Vec::new();
    let replies = vec![
        done("events/2026-06/log.jsonl\n\nevents/2026-07/log.jsonl"),
        done(COMMITTED),
        done(STASHED),
        done(WORKING),
        done(""),
        // Not committed yet: all comes from the stash and the working tree.
        refused("exists on disk, but not in 'HEAD'"),
        done("{\"ts\":\"2\"}\n"),
        done("{\"ts\":\"3\"}\n{\"ts\":\"1\"}\n"),
        done(""),
    ];
    for reply in replies {
        if let Step::Write(path, text) = task.step() {
            written.push((path, text));
        }
        task = match task.advance(&reply) {
            Restored::Next(task) => task,
            other => panic!("ended with {other:?}"),
        };
    }
    assert_eq!(task, Restore::Dropping);
    assert_eq!(
        written,
        vec![
            (
                "events/2026-06/log.jsonl".to_string(),
                "{\"ts\":\"1\",\"id\":\"a\"}\n{\"ts\":\"2\",\"id\":\"b\"}\n\
                 {\"ts\":\"3\",\"id\":\"c\"}\n"
                    .to_string()
            ),
            (
                "events/2026-07/log.jsonl".to_string(),
                "{\"ts\":\"1\"}\n{\"ts\":\"2\"}\n{\"ts\":\"3\"}\n".to_string()
            ),
        ]
    );
}

#[test]
fn failures_before_the_lock_end_the_checkpoint() {
    let (steps, outcome) = run(vec![refused("not a repository")]);
    assert_eq!(steps, runs(vec![Command::Status]));
    assert!(outcome.unwrap_err().contains("not a repository"));
    let (steps, _) = run(vec![done("M"), refused("cannot stash")]);
    assert_eq!(steps, runs(vec![Command::Status, Command::Stash]));
}

#[test]
fn progress_follows_the_phases() {
    let note = |phase: Phase| phase.progress("held by ci");
    assert_eq!(note(Phase::Looking), None);
    assert_eq!(note(Phase::Stashing).as_deref(), Some("stashing pending events..."));
    assert_eq!(
        note(Phase::Acquiring { stashed: true, attempt: 0 }).as_deref(),
        Some("acquiring write lock...")
    );
    assert_eq!(
        note(Phase::Acquiring { stashed: false, attempt: 3 }).as_deref(),
        Some("waiting for lock (held by ci), retry 3...")
    );
    assert_eq!(note(Phase::Folding).as_deref(), Some("folding briefs..."));
    assert_eq!(note(Phase::Committing).as_deref(), Some("committing..."));
    assert_eq!(note(Phase::Pushing).as_deref(), Some("pushing..."));
    assert_eq!(
        note(Phase::Releasing { outcome: Ok(None) }).as_deref(),
        Some("releasing write lock...")
    );
    assert_eq!(note(Phase::Finished { outcome: Ok(None) }), None);
}

#[test]
fn commands_are_spelled_out() {
    let line = |c: Command| spell(c.program(), &c.arguments());
    assert_eq!(line(Command::Status), "git status --porcelain -- events");
    assert_eq!(
        line(Command::Stash),
        "git stash push -m workcat-map-checkpoint -- events"
    );
    assert_eq!(line(Command::ListStash), "git stash show --name-only stash@{0}");
    assert_eq!(line(Command::ShowCommitted("a/b".to_string())), "git show HEAD:a/b");
    assert_eq!(line(Command::ShowStashed("a/b".to_string())), "git show stash@{0}:a/b");
    assert_eq!(line(Command::DropStash), "git stash drop");
    assert_eq!(
        line(Command::Acquire),
        "python3 tools/lock.py acquire --actor workcat-map"
    );
    assert_eq!(
        line(Command::Release),
        "python3 tools/lock.py release --actor workcat-map"
    );
    assert_eq!(line(Command::Fold), "python3 tools/fold.py");
    assert_eq!(line(Command::Stage), "git add events briefs");
    assert_eq!(line(Command::Commit("m".to_string())), "git commit -m m");
    assert_eq!(line(Command::Push), "git push");
    assert_eq!(line(Command::Head), "git rev-parse --short HEAD");
}

#[test]
fn replies_carry_trimmed_output() {
    assert_eq!(reply_of(&Command::Head, true, " abc \n", "noise"), done("abc"));
    // A file is taken as it is.
    let show = Command::ShowStashed("a".to_string());
    assert_eq!(reply_of(&show, true, " x\n", ""), done(" x\n"));
    assert_eq!(reply_of(&show, false, "", "fatal\n"), refused("fatal"));
    assert_eq!(reply_of(&Command::Push, false, "out\n", " err\n"), refused("outerr"));
    assert_eq!(reply_of(&Command::Acquire, false, "held by ci\n", "err"), refused("held by ci"));
}

#[test]
fn a_finished_checkpoint_stays_finished() {
    let end = Phase::Finished { outcome: Ok(None) };
    assert_eq!(end.step(MESSAGE), None);
    assert_eq!(
        end.advance(MESSAGE, &refused("late")),
        Phase::Finished { outcome: Ok(None) }
    );
}
