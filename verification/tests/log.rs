//! Merging append-only logs.

use mission_control::events::fold_node_positions;
use mission_control::json::parse_json;
use mission_control::log::{event_stamp, merge_append_log, merge_stamped, new_lines, ts_key};

const A: &str =
    r#"{"ts":"2026-07-07T16:53:00.5+00:00","actor":"m","kind":"item_snapshot","id":"a"}"#;
const B: &str =
    r#"{"ts":"2026-07-07T16:53:00.5+00:00","actor":"m","kind":"item_snapshot","id":"b"}"#;
const STARTED: &str =
    r#"{"ts":"2026-07-08T01:00:00+00:00","kind":"status_set","id":"x","status":"started"}"#;
const IMPLEMENTED: &str =
    r#"{"ts":"2026-07-08T02:00:02+00:00","kind":"status_set","id":"x","status":"implemented"}"#;
const UNKNOWN: &str =
    r#"{"ts":"2026-07-08T02:00:01+00:00","kind":"status_set","id":"x","status":"unknown"}"#;

#[test]
fn merge_append_log_unions_and_ts_orders_without_conflict() {
    // committed has the epoch block (identical ts, must keep order)
    // plus one real event.
    let committed = format!("{A}\n{B}\n{STARTED}\n");
    // The working tree gained a concurrent append (the successor)
    // during the checkpoint window...
    let working = format!("{STARTED}\n{IMPLEMENTED}\n");
    // ...while the stash holds the earlier pending event (its
    // predecessor), out of order relative to the working append.
    let stash = format!("{STARTED}\n{UNKNOWN}\n");
    let merged = merge_append_log(&committed, &working, &stash);
    let lines: Vec<&str> = merged.lines().collect();
    // Epoch block order preserved; committed real event kept once.
    assert!(lines[0].contains(r#""id":"a""#));
    assert!(lines[1].contains(r#""id":"b""#));
    assert_eq!(lines.len(), 5, "3 committed + 2 unique appends");
    // The two new appends are ts-ordered: unknown (02:00:01) before
    // implemented (02:00:02), so the fold's last-write is implemented.
    let unknown = lines.iter().position(|l| l.contains("unknown")).unwrap();
    let implemented = lines.iter().position(|l| l.contains("implemented")).unwrap();
    assert!(unknown < implemented);
}

#[test]
fn the_committed_log_stays_in_front() {
    let committed = format!("{IMPLEMENTED}\n{A}\n");
    let merged = merge_append_log(&committed, STARTED, UNKNOWN);
    assert_eq!(merged, format!("{IMPLEMENTED}\n{A}\n{STARTED}\n{UNKNOWN}\n"));
}

#[test]
fn merging_again_changes_nothing() {
    let merged = merge_append_log(&format!("{A}\n"), IMPLEMENTED, UNKNOWN);
    assert_eq!(merge_append_log(&merged, IMPLEMENTED, UNKNOWN), merged);
    assert_eq!(merge_append_log(&merged, &merged, &merged), merged);
    assert_eq!(merge_append_log("", "", ""), "");
}

#[test]
fn blank_and_known_lines_are_not_new() {
    let new = new_lines(&format!("{A}\n"), &format!("\n{A}\n  \n{B}\n"), &format!("{B}\n{STARTED}"));
    assert_eq!(new, vec![B.to_string(), STARTED.to_string()]);
}

#[test]
fn lines_without_a_stamp_come_first() {
    assert_eq!(ts_key(STARTED), "2026-07-08T01:00:00+00:00");
    assert_eq!(ts_key("broken"), "");
    assert_eq!(ts_key(r#"{"ts":7}"#), "");
    assert_eq!(event_stamp(&parse_json(r#"{"ts":"t"}"#)), "t");
    assert_eq!(event_stamp(&None), "");
    let merged = merge_append_log("", &format!("{STARTED}\nbroken\n"), "");
    assert_eq!(merged, format!("broken\n{STARTED}\n"));
}

#[test]
fn equal_stamps_keep_their_order() {
    let new = vec!["z".to_string(), "y".to_string(), "x".to_string()];
    let stamps = vec!["2".to_string(), "1".to_string(), "1".to_string()];
    assert_eq!(merge_stamped("head\n", &new, &stamps), "head\ny\nx\nz\n");
}

#[test]
fn the_fold_of_a_merge_ends_with_the_latest_append() {
    let old = r#"{"ts":"1","kind":"node_moved","id":"n","x":1,"y":1}"#;
    let late = r#"{"ts":"3","kind":"node_moved","id":"n","x":3,"y":3}"#;
    let mid = r#"{"ts":"2","kind":"node_moved","id":"n","x":2,"y":2}"#;
    let merged = merge_append_log(&format!("{old}\n"), late, mid);
    let lines: Vec<&str> = merged.lines().collect();
    let positions = fold_node_positions(&lines);
    assert_eq!(positions.get("n").unwrap().x, 3f64.to_bits());
}
