//! The database directory: which files are read, and what they hold.

use mission_control::db::{
    list_dirs, list_files, load_items, load_lenses, load_positions, log_path, resolve_db_dir,
    DB_DIR_ENV_VAR,
};
use mission_control::events::{event_line, node_moved_event, status_set_event};
use mission_control::model::Position;
use serde_json::Value;

fn at(x: f64, y: f64) -> Position {
    Position { x: x.to_bits(), y: y.to_bits() }
}

fn texts(all: &[&str]) -> Vec<String> {
    all.iter().map(|s| s.to_string()).collect()
}

#[test]
fn load_items_parses_briefs_and_skips_garbage() {
    let files = [
        (
            "bbbb0000-second.md",
            "# Second\n\n- id: bbbb0000-x\n- ref: r2\n- status: complete\n- depends_on:\n  - aaaa0000-first.md\n",
        ),
        ("notes.txt", "not a brief"),
        (
            "aaaa0000-first.md",
            "# First\n\n- id: aaaa0000-x\n- ref: r1\n- status: started\n- depends_on: []\n",
        ),
        ("broken.md", "no metadata here"),
    ];
    let names = texts(&files.map(|f| f.0));
    let read: Vec<String> = list_files(&names, "md").iter().map(|&i| files[i].1.to_string()).collect();
    let (items, skipped) = load_items(&read);
    assert_eq!(items.len(), 2);
    assert_eq!(items[0].subject, "First");
    assert_eq!(items[1].depends_on, vec!["aaaa0000".to_string()]);
    assert_eq!(skipped, vec![2]);
}

#[test]
fn append_then_load_positions_round_trips() {
    let mut log = String::new();
    for event in [
        node_moved_event("id-a", Value::from(10.0f32), Value::from(20.0f32)),
        status_set_event("id-a", "started"),
        node_moved_event("id-a", Value::from(30.5f32), Value::from(40.5f32)),
    ] {
        log.push_str(&event_line(&event));
    }
    let positions = load_positions(&vec![log]);
    assert_eq!(positions.len(), 1);
    assert_eq!(*positions.get("id-a").unwrap(), at(30.5, 40.5));
}

#[test]
fn positions_fold_across_shards_in_order() {
    let shards = [
        (
            "2026-07",
            r#"{"ts":"t","actor":"a","kind":"node_moved","id":"n","x":2,"y":2}"#,
        ),
        (
            "2026-06",
            r#"{"ts":"t","actor":"a","kind":"node_moved","id":"n","x":1,"y":1}"#,
        ),
    ];
    let months = texts(&shards.map(|s| s.0));
    let logs: Vec<String> = list_dirs(&months).iter().map(|&i| shards[i].1.to_string()).collect();
    let positions = load_positions(&logs);
    assert_eq!(*positions.get("n").unwrap(), at(2.0, 2.0));
}

#[test]
fn lenses_fold_across_shards_in_order() {
    let saved = r#"{"kind":"lens_saved","name":"n","visible_statuses":["merged"],"query":"1"}"#;
    let again = r#"{"kind":"lens_saved","name":"n","visible_statuses":[],"query":"2"}"#;
    let gone = r#"{"kind":"lens_deleted","name":"n"}"#;
    let lenses = load_lenses(&texts(&[saved, again]));
    assert_eq!(lenses.get("n").unwrap().query, "2");
    assert_eq!(load_lenses(&texts(&[saved, gone])).len(), 0);
    assert_eq!(load_lenses(&texts(&[&format!("{gone}\n{saved}")])).len(), 1);
}

#[test]
fn only_files_with_the_extension_are_read() {
    let names = texts(&["b.md", ".md", "a.txt", "md", "a.md", "c.md.bak", "a.x.md"]);
    let picked: Vec<&str> = list_files(&names, "md").iter().map(|&i| names[i].as_str()).collect();
    assert_eq!(picked, vec!["a.md", "a.x.md", "b.md"]);
}

#[test]
fn directories_are_read_in_order() {
    assert_eq!(list_dirs(&texts(&["b", "a", "c"])), vec![1, 0, 2]);
    assert!(list_dirs(&Vec::new()).is_empty());
}

#[test]
fn database_directory_prefers_the_environment() {
    assert_eq!(DB_DIR_ENV_VAR, "WORKCAT_DB_DIR");
    assert_eq!(resolve_db_dir(Some("/e".to_string()), "/d".to_string()), "/e");
    assert_eq!(resolve_db_dir(None, "/d".to_string()), "/d");
    assert_eq!(log_path("2026-07"), "events/2026-07/log.jsonl");
}
