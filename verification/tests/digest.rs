//! Digests of stored threads.

use mission_control::digest::{
    agent_message_content, digest_from_bytes, digest_from_document, digest_from_row, load_digests,
    load_recent_titles, resolve_db_path, Row, RowError, ThreadDigest,
};
use mission_control::json::{parse_json, Json};
use mission_control::triage::{Role, TriageState};

const FLAKY: &str = r#"{
    "title": "Fix flaky worktree test",
    "updated_at": "2026-07-06T10:00:00Z",
    "messages": [
        {"User": {"content": [{"Text": "please fix the flaky test"}]}},
        {"Agent": {"content": [
            {"Text": "Fixed the race by pinning the executor seed. All 12 runs pass."},
            {"ToolResult": {"tool": "terminal"}}
        ]}}
    ]
}"#;

fn row(id: &str, data_type: &str, data: &[u8]) -> Row {
    Row {
        id: id.to_string(),
        summary: "summary".to_string(),
        updated_at: "2026-07-06T10:00:00Z".to_string(),
        data_type: data_type.to_string(),
        data: data.to_vec(),
    }
}

#[test]
fn digest_from_zstd_row() {
    let data = zstd::encode_all(FLAKY.as_bytes(), 0).unwrap();
    let digest =
        digest_from_row("abc", "summary", "2026-07-06T10:00:00Z", "zstd", &data).unwrap();
    assert_eq!(digest.title, "Fix flaky worktree test");
    assert_eq!(digest.message_count, 2);
    assert_eq!(digest.last_role, Some(Role::Agent));
    assert_eq!(digest.state, TriageState::Done);
    assert!(!digest.final_agent_has_tool_use);
    assert!(digest.updated_at.is_some());
}

#[test]
fn tool_use_in_final_agent_message_is_running() {
    let data = br#"{
        "title": "t",
        "messages": [
            {"User": {"content": [{"Text": "go"}]}},
            {"Agent": {"content": [
                {"Text": "Running the build now."},
                {"ToolUse": {"tool": "terminal"}}
            ]}}
        ]
    }"#;
    let digest = digest_from_row("x", "s", "bogus", "json", data).unwrap();
    assert!(digest.final_agent_has_tool_use);
    assert_eq!(digest.state, TriageState::Running);
    assert_eq!(digest.updated_at, None);
}

#[test]
fn rows_fail_for_a_reason() {
    let plain = FLAKY.as_bytes();
    assert_eq!(
        digest_from_row("a", "s", "t", "zstd", plain).unwrap_err(),
        RowError::Decompress
    );
    assert_eq!(
        digest_from_row("a", "s", "t", "json", b"not json").unwrap_err(),
        RowError::Parse
    );
    let packed = zstd::encode_all(&b"not json"[..], 0).unwrap();
    assert_eq!(
        digest_from_row("a", "s", "t", "zstd", &packed).unwrap_err(),
        RowError::Parse
    );
    assert_eq!(
        digest_from_bytes("a", "s", "t", b"{").unwrap_err(),
        RowError::Parse
    );
}

#[test]
fn every_row_is_digested_or_reported() {
    let packed = zstd::encode_all(FLAKY.as_bytes(), 0).unwrap();
    let rows = vec![
        row("one", "zstd", &packed),
        row("two", "zstd", b"garbage"),
        row("three", "json", FLAKY.as_bytes()),
        row("four", "json", b"]"),
    ];
    let (digests, skipped) = load_digests(&rows);
    let ids: Vec<&str> = digests.iter().map(|d| d.id.as_str()).collect();
    assert_eq!(ids, vec!["one", "three"]);
    assert_eq!(
        skipped,
        vec![
            ("two".to_string(), RowError::Decompress),
            ("four".to_string(), RowError::Parse),
        ]
    );
    assert_eq!(
        load_recent_titles(&digests),
        vec!["Fix flaky worktree test", "Fix flaky worktree test"]
    );
}

#[test]
fn titles_fall_back_to_the_summary() {
    let digest = |text: &str| digest_from_bytes("id", "the summary", "t", text.as_bytes()).unwrap();
    assert_eq!(digest(r#"{"title":"T"}"#).title, "T");
    assert_eq!(digest(r#"{"title":""}"#).title, "the summary");
    assert_eq!(digest(r#"{"title":7}"#).title, "the summary");
    assert_eq!(digest("{}").title, "the summary");
    assert_eq!(digest("{}").message_count, 0);
    assert_eq!(digest("{}").last_role, None);
    assert_eq!(digest("{}").state, TriageState::Running);
}

#[test]
fn the_document_knows_its_own_time_best() {
    let value = parse_json(r#"{"updated_at":"2026-07-06T10:00:00Z"}"#).unwrap();
    let digest = digest_from_document("id", "s", "2020-01-01T00:00:00Z", &value);
    assert_eq!(digest.updated_at.unwrap().month(), "2026-07");
    let value = parse_json("{}").unwrap();
    let digest = digest_from_document("id", "s", "2020-01-01 00:00:00", &value);
    assert_eq!(digest.updated_at.unwrap().month(), "2020-01");
}

#[test]
fn message_text_joins_its_segments() {
    let message = parse_json(
        r#"{"content":[{"Text":"one"},{"ToolUse":{}},{"Text":"two"},{"Thinking":"no"}]}"#,
    )
    .unwrap();
    let (text, tools) = agent_message_content(&message);
    assert_eq!(text, "one\ntwo");
    assert!(tools);
    let (text, tools) = agent_message_content(&Json::Null);
    assert_eq!((text.as_str(), tools), ("", false));
}

#[test]
fn digests_carry_their_triage() {
    let digest = ThreadDigest::new(
        "id".to_string(),
        "title".to_string(),
        None,
        3,
        Some(Role::Agent),
        "The work is complete. Should I tag the release?".to_string(),
        false,
    );
    assert_eq!(digest.state, TriageState::NeedsYou);
    assert_eq!(digest.ask.as_deref(), Some("Should I tag the release?"));
    assert_eq!(digest.message_count, 3);
}

#[test]
fn database_path_prefers_the_override() {
    let some = |s: &str| Some(s.to_string());
    assert_eq!(resolve_db_path(some("o"), some("e"), "d".to_string()), "o");
    assert_eq!(resolve_db_path(None, some("e"), "d".to_string()), "e");
    assert_eq!(resolve_db_path(None, None, "d".to_string()), "d");
}
