//! The triage list and its fixtures.

use mission_control::digest::ThreadDigest;
use mission_control::fixtures::fixture_digests;
use mission_control::mission::{ListLine, MissionControlView};
use mission_control::time::Timestamp;
use mission_control::triage::{Role, TriageState};

fn noon() -> Timestamp {
    Timestamp::new(1_783_339_200, 0).unwrap()
}

fn digest(id: &str, role: Role, text: &str) -> ThreadDigest {
    ThreadDigest::new(id.into(), id.into(), None, 1, Some(role), text.into(), false)
}

#[test]
fn fixtures_cover_all_states() {
    let digests = fixture_digests(noon());
    assert_eq!(digests.len(), 11);
    for state in TriageState::ALL {
        assert!(
            digests.iter().any(|digest| digest.state == state),
            "no fixture in state {state:?}"
        );
    }
}

#[test]
fn fixtures_are_triaged_and_dated() {
    let digests = fixture_digests(noon());
    let states: Vec<TriageState> = digests.iter().map(|d| d.state).collect();
    assert_eq!(
        states,
        vec![
            TriageState::AwaitingMerge,
            TriageState::NeedsYou,
            TriageState::NeedsYou,
            TriageState::AwaitingMerge,
            TriageState::AwaitingMerge,
            TriageState::Running,
            TriageState::Running,
            TriageState::NeedsYou,
            TriageState::Done,
            TriageState::AwaitingMerge,
            TriageState::Done,
        ]
    );
    let ages: Vec<String> = digests.iter().map(|d| MissionControlView::age(d, noon())).collect();
    assert_eq!(
        ages,
        vec!["2h", "48m", "3h", "2d", "1d", "8m", "3m", "12h", "2d", "1h", "4d"]
    );
    assert_eq!(digests[9].ask.as_deref(), Some("merge PR #140"));
    assert_eq!(digests[2].ask.as_deref(), Some("Do you want me to re-run the gauntlet?"));
    assert_eq!(digests[0].message_count, 42);
}

#[test]
fn the_list_groups_threads_by_state() {
    let view = MissionControlView::with_digests(fixture_digests(noon()));
    let list = view.list();
    let groups: Vec<TriageState> = list
        .iter()
        .filter_map(|line| match line {
            ListLine::Group(state, _) => Some(*state),
            _ => None,
        })
        .collect();
    assert_eq!(groups, TriageState::ALL.to_vec());
    let rows: Vec<usize> = list
        .iter()
        .filter_map(|line| match line {
            ListLine::Row(ix) => Some(*ix),
            _ => None,
        })
        .collect();
    assert_eq!(rows, vec![1, 2, 7, 0, 3, 4, 9, 5, 6, 8, 10]);
    assert_eq!(view.count_summary(), "7 need you · 2 running");
}

#[test]
fn the_filter_shows_what_needs_me() {
    let mut view = MissionControlView::with_digests(fixture_digests(noon()));
    assert_eq!(view.visible_states().len(), 4);
    view.set_filter_needs_me(true);
    assert_eq!(
        view.visible_states(),
        vec![TriageState::NeedsYou, TriageState::AwaitingMerge]
    );
    let rows = view.list().iter().filter(|line| matches!(line, ListLine::Row(_))).count();
    assert_eq!(rows, 7);
}

#[test]
fn an_empty_list_says_why() {
    let mut view = MissionControlView::live();
    assert!(view.loading);
    assert_eq!(view.list(), vec![ListLine::Note("Loading threads…".to_string())]);
    view.apply_load_result(Err("no database".to_string()));
    assert!(!view.loading);
    assert_eq!(
        view.list(),
        vec![ListLine::Error("Failed to load threads: no database".to_string())]
    );
    view.refresh();
    assert!(view.loading);
    view.apply_load_result(Ok(Vec::new()));
    assert_eq!(view.error, None);
    assert_eq!(view.list(), vec![ListLine::Note("No threads found".to_string())]);
}

#[test]
fn rows_expand_one_at_a_time() {
    let mut view = MissionControlView::with_digests(fixture_digests(noon()));
    view.toggle_expanded("fixture-01");
    assert!(view.is_expanded("fixture-01"));
    view.toggle_expanded("fixture-02");
    assert!(!view.is_expanded("fixture-01"));
    view.toggle_expanded("fixture-02");
    assert!(!view.is_expanded("fixture-02"));
}

#[test]
fn the_second_line_is_the_ask_or_the_state() {
    let line = |d: &ThreadDigest| MissionControlView::secondary_line(d);
    let asking = digest("a", Role::Agent, "All done here, honestly. Should I ship it?");
    assert_eq!(line(&asking).as_deref(), Some("Should I ship it?"));
    let waiting = digest("b", Role::User, "whatever it said before");
    assert_eq!(line(&waiting).as_deref(), Some("Waiting for the agent to reply"));
    let working = digest("c", Role::Agent, "On it.");
    assert_eq!(line(&working).as_deref(), Some("Agent is mid-work"));
    let done = digest("d", Role::Agent, "\n   Renamed every module in the tree.  \nMore text.");
    assert_eq!(line(&done).as_deref(), Some("Renamed every module in the tree."));
    let offering = digest("e", Role::Agent, "Renamed every module. Want me to push it?");
    assert_eq!(offering.state, TriageState::Done);
    assert_eq!(line(&offering).as_deref(), Some("Want me to push it?"));
}

#[test]
fn the_expanded_row_shows_the_tail() {
    let text = |d: &ThreadDigest| MissionControlView::expanded_text(d);
    assert_eq!(text(&digest("a", Role::User, "  \n")), "(no agent message yet)");
    let eight = (1..=8).map(|i| format!("line {i}")).collect::<Vec<_>>().join("\n");
    assert_eq!(
        text(&digest("b", Role::Agent, &eight)),
        "line 3\nline 4\nline 5\nline 6\nline 7\nline 8"
    );
    let long = "é".repeat(601);
    assert_eq!(text(&digest("c", Role::Agent, &long)), format!("…{}", "é".repeat(600)));
    let fits = "é".repeat(600);
    assert_eq!(text(&digest("d", Role::Agent, &fits)), fits);
}

#[test]
fn a_thread_without_a_time_has_no_age() {
    let undated = digest("a", Role::Agent, "x");
    assert_eq!(MissionControlView::age(&undated, noon()), "—");
}
