//! Items, filters, lenses and the undo stack.

use mission_control::brief::{dep_id8, parse_brief};
use mission_control::model::{
    find_section, hits, FilterState, ItemMeta, Lens, Op, Position, UndoStack, UNDO_CAPACITY,
};
use mission_control::status::{Status, StatusSet, ALL_STATUSES};

const BRIEF: &str = "\
# Bootstrap the workcat repo-as-database substrate (epoch zero)

- id: 8b0ce58d-5d07-5d7b-9b28-db7e670fd7f6
- ref: agent_notes/2026-07-06/workcat-substrate-bootstrap-HANDOFF.md
- status: not_started
- created_at: 2026-07-07 05:24:05
- updated_at: 2026-07-07T16:53:00.562099+00:00
- depends_on:
  - e89113a0-run-the-workcat-commit-grain-benchmark-dr-004-ruli.md

## State

Not started.

## Next

- id: not-a-real-id (must not be parsed; sections are past the block)
";

fn at(x: f32, y: f32) -> Position {
    Position { x: f64::from(x).to_bits(), y: f64::from(y).to_bits() }
}

#[test]
fn parses_brief_metadata() {
    let item = parse_brief(BRIEF).unwrap();
    assert_eq!(
        item,
        ItemMeta {
            id: "8b0ce58d-5d07-5d7b-9b28-db7e670fd7f6".into(),
            subject: "Bootstrap the workcat repo-as-database substrate (epoch zero)".into(),
            reference: "agent_notes/2026-07-06/workcat-substrate-bootstrap-HANDOFF.md".into(),
            status: Status::NotStarted,
            updated_at: Some("2026-07-07T16:53:00.562099+00:00".into()),
            depends_on: vec!["e89113a0".into()],
            sections: vec![
                ("State".into(), "Not started.".into()),
                (
                    "Next".into(),
                    "- id: not-a-real-id (must not be parsed; sections are past the block)".into()
                ),
            ],
        }
    );
    assert_eq!(item.id8(), "8b0ce58d");
}

#[test]
fn parses_notes_section() {
    let text = "# S\n\n- id: abc\n- ref: r\n- status: started\n- depends_on: []\n\n\
        ## State\n\nGoing.\n\n## Notes\n\nA note line.\nSecond line.\n";
    let item = parse_brief(text).unwrap();
    assert_eq!(item.notes(), Some("A note line.\nSecond line."));
    assert_eq!(item.sections.len(), 2);
}

#[test]
fn parses_empty_depends_on() {
    let text = "# S\n\n- id: abc\n- ref: r\n- status: merged\n- depends_on: []\n\n## State\n";
    let item = parse_brief(text).unwrap();
    assert_eq!(item.status, Status::Merged);
    assert!(item.depends_on.is_empty());
}

#[test]
fn missing_fields_yield_none() {
    assert_eq!(parse_brief("# Subject only\n"), None);
    assert_eq!(parse_brief("- id: x\n- ref: r\n- status: started\n"), None);
}

#[test]
fn unknown_status_yields_none() {
    let text = "# S\n\n- id: abc\n- ref: r\n- status: bogus\n";
    assert_eq!(parse_brief(text), None);
}

#[test]
fn dep_entries_reduce_to_id8() {
    assert_eq!(dep_id8("e89113a0-some-slug.md"), "e89113a0");
    assert_eq!(dep_id8("8b0ce58d-5d07-5d7b-9b28-db7e670fd7f6"), "8b0ce58d");
}

#[test]
fn status_round_trips() {
    for status in ALL_STATUSES {
        assert_eq!(Status::parse(status.as_str()), Some(status));
    }
    assert_eq!(Status::parse("bogus"), None);
}

#[test]
fn only_canceled_and_unknown_are_terminal_choices() {
    for status in ALL_STATUSES {
        assert_eq!(
            status.is_terminal_choice(),
            matches!(status, Status::Canceled | Status::Unknown),
            "{status:?}"
        );
    }
}

#[test]
fn default_scope_hides_terminal_statuses() {
    let visible: Vec<_> = ALL_STATUSES
        .into_iter()
        .filter(|s| s.in_default_scope())
        .collect();
    assert_eq!(
        visible,
        vec![
            Status::NotStarted,
            Status::Started,
            Status::Paused,
            Status::Blocked,
            Status::Implemented,
            Status::Merged,
            Status::Unknown,
        ]
    );
}

fn item(subject: &str, reference: &str, status: Status) -> ItemMeta {
    ItemMeta {
        id: format!("{subject}-id"),
        subject: subject.into(),
        reference: reference.into(),
        status,
        updated_at: None,
        depends_on: Vec::new(),
        sections: Vec::new(),
    }
}

#[test]
fn default_filter_matches_default_scope() {
    let filter = FilterState::default();
    assert!(filter.is_default());
    assert!(filter.matches(&item("a", "r", Status::Started)));
    assert!(filter.matches(&item("a", "r", Status::Unknown)));
    assert!(!filter.matches(&item("a", "r", Status::Complete)));
    assert!(!filter.matches(&item("a", "r", Status::Canceled)));
}

#[test]
fn filter_query_matches_subject_and_ref_case_insensitive() {
    let mut filter = FilterState::default();
    filter.query = "CONNECTOR".into();
    assert!(filter.matches(&item("Fix the eda connector", "r", Status::Started)));
    assert!(filter.matches(&item("a", "notes/connector-fix.md", Status::Started)));
    assert!(!filter.matches(&item("unrelated", "r", Status::Started)));
    filter.query = "  ".into();
    assert!(filter.matches(&item("anything", "r", Status::Started)));
}

#[test]
fn filter_toggle_status_round_trips() {
    let mut filter = FilterState::default();
    filter.toggle_status(Status::Complete);
    assert!(filter.matches(&item("a", "r", Status::Complete)));
    assert!(!filter.is_default());
    filter.toggle_status(Status::Complete);
    assert!(!filter.matches(&item("a", "r", Status::Complete)));
    assert!(filter.is_default());
}

#[test]
fn undo_stack_round_trips_and_caps() {
    let mut stack = UndoStack::default();
    let move_op = Op::Move(vec![("id-a".into(), at(0.0, 0.0), at(5.0, 5.0))]);
    let status_op = Op::SetStatus("id-a".into(), Status::Started, Status::Merged);
    stack.push(move_op.clone());
    stack.push(status_op.clone());
    assert_eq!(stack.undo(), Some(status_op.clone()));
    assert_eq!(stack.redo(), Some(status_op.clone()));
    assert_eq!(stack.undo(), Some(status_op));
    assert_eq!(stack.undo(), Some(move_op.clone()));
    assert_eq!(stack.undo(), None);
    assert_eq!(stack.redo_len(), 2);
    // A new push clears redo.
    stack.push(move_op);
    assert_eq!(stack.redo_len(), 0);
    // Capacity: oldest entries fall off.
    for i in 0..(UNDO_CAPACITY + 10) {
        stack.push(Op::SetStatus(
            format!("id-{i}"),
            Status::Started,
            Status::Paused,
        ));
    }
    assert_eq!(stack.undo_len(), UNDO_CAPACITY);
}

#[test]
fn the_newest_operations_survive_the_cap() {
    let mut stack = UndoStack::default();
    for i in 0..UNDO_CAPACITY + 1 {
        stack.push(Op::SetStatus(format!("id-{i}"), Status::Started, Status::Paused));
    }
    for i in (1..UNDO_CAPACITY + 1).rev() {
        assert_eq!(
            stack.undo(),
            Some(Op::SetStatus(format!("id-{i}"), Status::Started, Status::Paused))
        );
    }
    assert_eq!(stack.undo(), None);
    assert_eq!(stack.redo_len(), UNDO_CAPACITY);
    assert_eq!(
        stack.redo(),
        Some(Op::SetStatus("id-1".into(), Status::Started, Status::Paused))
    );
}

#[test]
fn queries_fold_case_beyond_ascii() {
    let mut filter = FilterState::default();
    filter.query = " ÄPFEL ".into();
    assert!(filter.matches(&item("zwei äpfel", "r", Status::Started)));
    assert!(filter.matches(&item("a", "notes/Äpfel.md", Status::Started)));
    assert!(!filter.matches(&item("zwei birnen", "r", Status::Started)));
}

#[test]
fn a_lower_case_query_hits_subject_or_reference() {
    assert!(hits("fix", "prefix it", "r"));
    assert!(hits("fix", "a", "notes/fix.md"));
    assert!(hits("", "a", "r"));
    assert!(!hits("fix", "FIX", "FIX"));
}

#[test]
fn toggling_one_status_leaves_the_others() {
    let mut filter = FilterState::default();
    filter.toggle_status(Status::Blocked);
    assert!(!filter.matches(&item("a", "r", Status::Blocked)));
    assert!(filter.matches(&item("a", "r", Status::Paused)));
    assert!(!filter.matches(&item("a", "r", Status::Complete)));
}

#[test]
fn a_query_alone_leaves_the_default_filter() {
    let mut filter = FilterState::default();
    filter.query = "x".into();
    assert!(!filter.is_default());
}

#[test]
fn lens_ignores_statuses_it_does_not_know() {
    let lens = Lens {
        name: "n".into(),
        visible_statuses: vec!["blocked".into(), "bogus".into(), "blocked".into()],
        query: "q".into(),
        positions: Vec::new(),
    };
    let filter = lens.to_filter();
    assert_eq!(filter.visible_statuses.len(), 1);
    assert!(filter.visible_statuses.contains(&Status::Blocked));
    assert_eq!(filter.query, "q");
}

#[test]
fn status_sets_hold_each_status_once() {
    let mut set = StatusSet::new();
    assert_eq!(set.len(), 0);
    assert!(set.insert(Status::Merged));
    assert!(!set.insert(Status::Merged));
    assert!(set.contains(&Status::Merged));
    assert!(!set.contains(&Status::Paused));
    assert_eq!(set.len(), 1);
    assert!(set.remove(&Status::Merged));
    assert!(!set.remove(&Status::Merged));
    assert!(set.same(&StatusSet::new()));
    assert_eq!(StatusSet::in_default_scope().len(), 7);
}

#[test]
fn status_labels_and_ranks() {
    let labels: Vec<&str> = ALL_STATUSES.iter().map(|s| s.label()).collect();
    assert_eq!(labels[0], "Not started");
    let ranks: Vec<usize> = ALL_STATUSES.iter().map(|s| s.layout_rank()).collect();
    assert_eq!(ranks, (0..9).collect::<Vec<usize>>());
}

#[test]
fn short_ids_are_eight_bytes() {
    let mut short = item("s", "r", Status::Started);
    short.id = "abc".into();
    assert_eq!(short.id8(), "abc");
    short.id = "äöüä-rest".into();
    assert!(short.id8_fits());
    assert_eq!(short.id8(), "äöüä");
    short.id = "1234567ä".into();
    assert!(!short.id8_fits());
}

#[test]
fn the_first_section_of_a_name_counts() {
    let sections: Vec<(String, String)> = vec![
        ("State".into(), "one".into()),
        ("NOTES".into(), "two".into()),
        ("Notes".into(), "three".into()),
    ];
    assert_eq!(find_section(&sections, "notes"), 1);
    assert_eq!(find_section(&sections, "State"), 0);
    assert_eq!(find_section(&sections, "missing"), 3);
}

#[test]
fn repeated_metadata_counts_as_given_last() {
    let text = "# First\n# Second\n- id: a\n- id: b\n- ref: r\n- status: bogus\n- status: paused\n\
        - depends_on:\n  - one\n  - two-long-name.md\n- updated_at: t\n  - not-a-dependency\n";
    let item = parse_brief(text).unwrap();
    assert_eq!(item.subject, "First");
    assert_eq!(item.id, "b");
    assert_eq!(item.status, Status::Paused);
    assert_eq!(item.depends_on, vec!["one", "two-long"]);
    assert_eq!(item.updated_at.as_deref(), Some("t"));
    assert!(item.sections.is_empty());
    assert_eq!(item.notes(), None);
}
