//! Events: their vocabulary, their lines in the log, and what the log folds
//! to.

use mission_control::events::{
    brief_edited_event, brief_edited_event_at, event_line, fold_lenses, fold_node_positions,
    lens_deleted_event, lens_deleted_event_at, lens_saved_event, lens_saved_event_at, moved_node, node_moved_event, node_moved_event_at, parse_events,
    read_lens_edit, status_set_event, status_set_event_at, LensEdit, ACTOR,
};
use mission_control::json::{parse_json, parse_json_bytes, Json};
use mission_control::model::Position;
use mission_control::status::Status;
use mission_control::time::parse_timestamp;
use serde_json::Value;

fn at(x: f64, y: f64) -> Position {
    Position { x: x.to_bits(), y: y.to_bits() }
}

#[test]
fn lenses_fold_last_write_wins_and_delete() {
    let lines = [
        r#"{"kind":"lens_saved","name":"blocked","visible_statuses":["blocked"],"query":""}"#,
        r#"{"kind":"lens_saved","name":"eda","visible_statuses":["started","paused"],"query":"eda"}"#,
        r#"{"kind":"node_moved","id":"x","x":1,"y":2}"#,
        r#"{"kind":"lens_saved","name":"blocked","visible_statuses":["blocked","paused"],"query":"q"}"#,
        r#"{"kind":"lens_deleted","name":"eda"}"#,
        "garbage",
    ];
    let lenses = fold_lenses(&lines);
    assert_eq!(lenses.len(), 1);
    let lens = lenses.get("blocked").unwrap();
    assert_eq!(lens.visible_statuses, vec!["blocked", "paused"]);
    assert_eq!(lens.query, "q");
    let filter = lens.to_filter();
    assert!(filter.visible_statuses.contains(&Status::Blocked));
    assert!(filter.visible_statuses.contains(&Status::Paused));
    assert_eq!(filter.visible_statuses.len(), 2);
}

#[test]
fn fold_positions_last_write_wins() {
    let lines = [
        r#"{"ts":"t1","actor":"a","kind":"node_moved","id":"aaa","x":1.0,"y":2.0}"#,
        r#"{"ts":"t2","actor":"a","kind":"status_set","id":"aaa","status":"started"}"#,
        r#"{"ts":"t3","actor":"a","kind":"node_moved","id":"bbb","x":9,"y":8}"#,
        "not json at all",
        r#"{"ts":"t4","actor":"a","kind":"node_moved","id":"aaa","x":5.5,"y":6.5}"#,
        r#"{"kind":"node_moved","id":"ccc"}"#,
        "",
    ];
    let positions = fold_node_positions(&lines);
    assert_eq!(positions.len(), 2);
    assert_eq!(*positions.get("aaa").unwrap(), at(5.5, 6.5));
    assert_eq!(*positions.get("bbb").unwrap(), at(9.0, 8.0));
}

#[test]
fn events_match_db_vocabulary() {
    let ev = status_set_event("some-id", "started");
    assert_eq!(ev["kind"], "status_set");
    assert_eq!(ev["actor"], ACTOR);
    assert_eq!(ev["id"], "some-id");
    assert_eq!(ev["status"], "started");
    assert!(ev["ts"].as_str().unwrap().contains('T'));
    let ev = node_moved_event("some-id", Value::from(1.5f32), Value::from(2.5f32));
    assert_eq!(ev["kind"], "node_moved");
    assert_eq!(ev["x"], 1.5);
    assert_eq!(ev["y"], 2.5);
}

#[test]
fn events_are_one_line_in_field_order() {
    let ev = node_moved_event_at("2026-07-08T01:00:00+00:00", "a\nb", Value::from(1.5), Value::from(-2));
    assert_eq!(
        event_line(&ev),
        "{\"ts\":\"2026-07-08T01:00:00+00:00\",\"actor\":\"workcat-map\",\"kind\":\"node_moved\",\
         \"id\":\"a\\nb\",\"x\":1.5,\"y\":-2}\n"
    );
    let ev = status_set_event_at("t", "i", "paused");
    assert_eq!(
        event_line(&ev),
        "{\"ts\":\"t\",\"actor\":\"workcat-map\",\"kind\":\"status_set\",\"id\":\"i\",\"status\":\"paused\"}\n"
    );
    let ev = lens_deleted_event_at("t", "mine");
    assert_eq!(
        event_line(&ev),
        "{\"ts\":\"t\",\"actor\":\"workcat-map\",\"kind\":\"lens_deleted\",\"name\":\"mine\"}\n"
    );
    let ev = brief_edited_event_at("t", "i", "Notes", "two\nlines");
    assert_eq!(ev["kind"], "brief_edited");
    assert_eq!(ev["section"], "Notes");
    assert_eq!(ev["text"], "two\nlines");
}

#[test]
fn events_record_the_time_they_are_made() {
    let events = [
        node_moved_event("n", Value::from(1.0), Value::from(2.0)),
        status_set_event("n", "started"),
        lens_saved_event("l", &Vec::new(), "", Vec::new()),
        lens_deleted_event("l"),
        brief_edited_event("n", "Notes", "text"),
    ];
    for event in &events {
        let ts = event["ts"].as_str().unwrap();
        let recorded = parse_timestamp(ts).unwrap();
        assert_eq!(recorded.to_rfc3339(), ts);
        // No earlier than this test was written.
        assert!(recorded.seconds() > 1_700_000_000);
    }
}

#[test]
fn a_line_holds_one_line_feed_however_deep_its_event() {
    let mut event = Value::from("two\nlines");
    for _ in 0..200 {
        event = Value::Array(vec![event]);
    }
    let line = event_line(&event);
    assert_eq!(line.matches('\n').count(), 1);
    assert!(line.ends_with("]\n"));
    // The parser gives up on such depth.
    assert!(parse_json(&line).is_none());
}

#[test]
fn a_written_move_reads_back_where_it_went() {
    for x in [0.1f32, -7.25, 1e-30, 3.4e38, 224.0] {
        let ev = node_moved_event("n", Value::from(x), Value::from(0.5f32));
        let line = event_line(&ev);
        let positions = fold_node_positions(&[line.as_str()]);
        let found = positions.get("n").unwrap();
        assert_eq!(f64::from_bits(found.x) as f32, x);
        assert_eq!(f64::from_bits(found.y), 0.5);
    }
}

#[test]
fn positions_are_read_in_single_precision() {
    let line = r#"{"kind":"node_moved","id":"n","x":0.1,"y":16777217}"#;
    let positions = fold_node_positions(&[line]);
    assert_eq!(*positions.get("n").unwrap(), at(f64::from(0.1f32), 16_777_216.0));
    let line = r#"{"kind":"lens_saved","name":"l","positions":[{"id":"n","x":0.1,"y":1e300}]}"#;
    let lenses = fold_lenses(&[line]);
    assert_eq!(
        lenses.get("l").unwrap().positions,
        vec![("n".to_string(), at(f64::from(0.1f32), f64::INFINITY))]
    );
}

#[test]
fn a_move_without_numbers_goes_nowhere() {
    // What is not finite has no number in the log.
    let ev = node_moved_event("n", Value::from(f32::NAN), Value::from(0.5f32));
    assert_eq!(ev["x"], Value::Null);
    let line = event_line(&ev);
    assert_eq!(fold_node_positions(&[line.as_str()]).len(), 0);
}

#[test]
fn a_written_lens_reads_back_with_its_places() {
    let ev = lens_saved_event_at(
        "t",
        "mine",
        &vec!["blocked".to_string(), "paused".to_string()],
        "que\"ry",
        vec![
            ("a".to_string(), Value::from(1.5), Value::from(2.5)),
            ("b".to_string(), Value::from(-1), Value::Null),
        ],
    );
    let line = event_line(&ev);
    let lenses = fold_lenses(&[line.as_str()]);
    let lens = lenses.get("mine").unwrap();
    assert_eq!(lens.name, "mine");
    assert_eq!(lens.visible_statuses, vec!["blocked", "paused"]);
    assert_eq!(lens.query, "que\"ry");
    assert_eq!(lens.positions, vec![("a".to_string(), at(1.5, 2.5))]);
    let gone = event_line(&lens_deleted_event_at("t", "mine"));
    assert_eq!(fold_lenses(&[line.as_str(), gone.as_str()]).len(), 0);
    // Saved again after it was deleted.
    assert_eq!(fold_lenses(&[gone.as_str(), line.as_str()]).len(), 1);
}

#[test]
fn lens_edits_need_their_kind_and_name() {
    let edit = |text: &str| read_lens_edit(&parse_json(text).unwrap());
    assert!(matches!(edit(r#"{"kind":"lens_saved","name":"n"}"#), LensEdit::Save(_)));
    assert!(matches!(edit(r#"{"kind":"lens_deleted","name":"n"}"#), LensEdit::Delete(_)));
    assert!(matches!(edit(r#"{"kind":"lens_saved"}"#), LensEdit::Nothing));
    assert!(matches!(edit(r#"{"kind":"other","name":"n"}"#), LensEdit::Nothing));
    assert!(matches!(edit("[]"), LensEdit::Nothing));
}

#[test]
fn moves_need_an_id_and_two_numbers() {
    let read = |text: &str| moved_node(&parse_json(text).unwrap());
    assert_eq!(
        read(r#"{"kind":"node_moved","id":"n","x":1,"y":2e1}"#),
        Some(("n".to_string(), at(1.0, 20.0)))
    );
    assert_eq!(read(r#"{"kind":"node_moved","id":"n","x":1}"#), None);
    assert_eq!(read(r#"{"kind":"node_moved","x":1,"y":2}"#), None);
    assert_eq!(read(r#"{"kind":"status_set","id":"n","x":1,"y":2}"#), None);
    assert_eq!(read(r#"{"kind":"node_moved","id":"n","x":"1","y":2}"#), None);
}

#[test]
fn blank_and_broken_lines_are_skipped() {
    let events = parse_events(&["  ", "{", r#" {"a":1} "#, "7"]);
    assert_eq!(events.len(), 2);
    assert_eq!(events[0].number_at("a"), Some(1f64.to_bits()));
    assert_eq!(events[1], Json::Number(Some(7f64.to_bits())));
}

#[test]
fn documents_keep_what_they_hold() {
    let json = parse_json(r#"{"t":"x","l":[null,true,1.5],"o":{"k":"v"},"t":"y"}"#).unwrap();
    assert_eq!(json.text_at("t").map(|s| s.as_str()), Some("y"));
    assert_eq!(
        json.list_at("l").unwrap(),
        &vec![Json::Null, Json::Bool(true), Json::Number(Some(1.5f64.to_bits()))]
    );
    assert_eq!(json.get("o").unwrap().text_at("k").unwrap(), "v");
    assert!(json.has_key("o"));
    assert!(!json.has_key("missing"));
    assert_eq!(json.as_text(), None);
    assert_eq!(json.as_number(), None);
    assert!(json.as_list().is_none());
    assert_eq!(parse_json("{"), None);
    assert_eq!(parse_json_bytes(&[0xff, 0xfe]), None);
    assert_eq!(parse_json_bytes(b"null"), Some(Json::Null));
}
