//! The map view: its scene, gestures, layouts, lenses and sessions.

use mission_control::geometry::{grid_position, NODE_HEIGHT, NODE_WIDTH};
use mission_control::map::{truncate_to, WorkcatMapView, DEFAULT_LENS, MAX_LABEL_CHARS};
use mission_control::map_edit::MapEvent;
use mission_control::map_session::{
    checkpoints_at_once, count_dependencies, CheckpointEnd, EnterAction, AUTO_CHECKPOINT_SECONDS,
};
use mission_control::model::{ItemMeta, Lens, Position};
use mission_control::status::Status;
use mission_control::textmap::TextMap;

fn bits(x: f32) -> u64 {
    f64::from(x).to_bits()
}

fn at(x: f32, y: f32) -> Position {
    Position { x: bits(x), y: bits(y) }
}

fn item(id: &str, subject: &str, status: Status, deps: &[&str]) -> ItemMeta {
    ItemMeta {
        id: id.into(),
        subject: subject.into(),
        reference: format!("notes/{id}.md"),
        status,
        updated_at: None,
        depends_on: deps.iter().map(|d| d.to_string()).collect(),
        sections: Vec::new(),
    }
}

/// Four items; the complete one is out of the default scope.
fn loaded() -> WorkcatMapView {
    let mut map = WorkcatMapView::new();
    let mut positions = TextMap::new();
    positions.insert("aaaa0000-1".to_string(), at(100.0, 200.0));
    map.apply_loaded(
        vec![
            item("aaaa0000-1", "alpha", Status::Started, &["bbbb0000", "dddd0000"]),
            item("bbbb0000-2", "beta", Status::NotStarted, &[]),
            item("cccc0000-3", "gamma", Status::Started, &["aaaa0000", "nowhere0"]),
            item("dddd0000-4", "delta", Status::Complete, &[]),
        ],
        positions,
        TextMap::new(),
    );
    map
}

fn ids(map: &WorkcatMapView) -> Vec<&str> {
    map.nodes.iter().map(|n| map.items[n.item_ix].id.as_str()).collect()
}

fn place(map: &WorkcatMapView, id: &str) -> Position {
    map.nodes[map.node_ix_by_id(id).unwrap()].at
}

/// The bottom-right corners of the nodes.
fn fars(map: &WorkcatMapView) -> Vec<Position> {
    map.nodes
        .iter()
        .map(|n| {
            let (x, y) = (f64::from_bits(n.at.x) as f32, f64::from_bits(n.at.y) as f32);
            at(x + NODE_WIDTH as f32, y + NODE_HEIGHT as f32)
        })
        .collect()
}

#[test]
fn a_new_map_is_loading() {
    let map = WorkcatMapView::new();
    assert!(map.loading);
    assert_eq!(map.status, "loading workcat-db...");
    assert!(map.needs_default_lens);
    assert!(map.nodes.is_empty());
    assert!(map.focused_item().is_none());
}

#[test]
fn loading_lays_out_what_is_in_scope() {
    let map = loaded();
    assert!(!map.loading);
    assert_eq!(map.status, "3 of 4 items in scope, 2 edges");
    // Ordered by status, then subject.
    assert_eq!(ids(&map), vec!["bbbb0000-2", "aaaa0000-1", "cccc0000-3"]);
    // Edges run between visible nodes only.
    assert_eq!(map.edges, vec![(1, 0), (2, 1)]);
    assert_eq!(place(&map, "aaaa0000-1"), at(100.0, 200.0));
    assert_eq!(place(&map, "bbbb0000-2"), grid_position(0, 3));
    assert_eq!(place(&map, "cccc0000-3"), grid_position(2, 3));
    assert_eq!(map.positions.len(), 3);
}

#[test]
fn hidden_items_need_no_short_id() {
    let mut map = WorkcatMapView::new();
    let items = vec![
        item("aaaa0000-1", "alpha", Status::Started, &[]),
        item("1234567\u{e4}-2", "beta", Status::Complete, &["aaaa0000"]),
    ];
    assert!(!items[1].id8_fits());
    map.apply_loaded(items, TextMap::new(), TextMap::new());
    assert_eq!(ids(&map), vec!["aaaa0000-1"]);
    map.toggle_status_filter(Status::Blocked);
    map.set_query("beta".to_string());
    assert!(map.nodes.is_empty());
    map.clear_filter();
    assert_eq!(ids(&map), vec!["aaaa0000-1"]);
}

#[test]
fn failures_to_load_and_append_are_shown() {
    let mut map = WorkcatMapView::new();
    map.load_failed("no such directory");
    assert!(!map.loading);
    assert_eq!(map.status, "load failed: no such directory");
    map.append_failed("disk full");
    assert_eq!(map.status, "event append failed: disk full");
}

#[test]
fn slots_stay_pinned_when_the_filter_changes() {
    let mut map = loaded();
    let before = place(&map, "cccc0000-3");
    map.toggle_status_filter(Status::NotStarted);
    assert_eq!(ids(&map), vec!["aaaa0000-1", "cccc0000-3"]);
    assert_eq!(place(&map, "cccc0000-3"), before);
    map.toggle_status_filter(Status::NotStarted);
    assert_eq!(ids(&map), vec!["bbbb0000-2", "aaaa0000-1", "cccc0000-3"]);
    map.rebuild_scene();
    assert_eq!(place(&map, "cccc0000-3"), before);
}

#[test]
fn queries_narrow_the_scene() {
    let mut map = loaded();
    map.set_query("GAMMA".to_string());
    assert_eq!(ids(&map), vec!["cccc0000-3"]);
    assert!(map.edges.is_empty());
    map.clear_filter();
    assert_eq!(map.nodes.len(), 3);
    assert!(map.filter.is_default());
}

#[test]
fn labels_are_cut_to_four_lines() {
    assert_eq!(truncate_to("short", 5), "short");
    assert_eq!(truncate_to("longer", 5), "longe…");
    let long = "x".repeat(MAX_LABEL_CHARS + 1);
    let mut map = WorkcatMapView::new();
    map.apply_loaded(
        vec![item("a", &long, Status::Started, &[])],
        TextMap::new(),
        TextMap::new(),
    );
    assert_eq!(map.nodes[0].label.chars().count(), MAX_LABEL_CHARS + 1);
    assert!(map.nodes[0].label.ends_with('…'));
}

#[test]
fn a_drag_moves_logs_and_can_be_undone() {
    let mut map = loaded();
    map.begin_drag(1);
    assert_eq!(map.focused_item().unwrap().id, "aaaa0000-1");
    map.update_drag(&vec![at(150.0, 260.0)]);
    assert_eq!(map.drag_travel(), Some((at(100.0, 200.0), at(150.0, 260.0))));
    let events = map.end_drag(bits(50.0), bits(60.0));
    assert_eq!(
        events,
        vec![MapEvent::NodeMoved("aaaa0000-1".to_string(), at(150.0, 260.0))]
    );
    assert_eq!(map.pending_events, 1);
    assert_eq!(*map.positions.get("aaaa0000-1").unwrap(), at(150.0, 260.0));
    let events = map.undo();
    assert_eq!(
        events,
        vec![MapEvent::NodeMoved("aaaa0000-1".to_string(), at(100.0, 200.0))]
    );
    assert_eq!(map.status, "undid (0 left)");
    assert_eq!(place(&map, "aaaa0000-1"), at(100.0, 200.0));
    map.redo();
    assert_eq!(map.status, "redid (0 redoable)");
    assert_eq!(place(&map, "aaaa0000-1"), at(150.0, 260.0));
    assert_eq!(map.pending_events, 3);
    map.undo();
    assert!(map.undo().is_empty());
    assert_eq!(map.status, "nothing to undo");
    map.redo();
    assert!(map.redo().is_empty());
    assert_eq!(map.status, "nothing to redo");
}

#[test]
fn a_press_that_stays_is_a_click() {
    let mut map = loaded();
    map.begin_drag(0);
    map.update_drag(&vec![at(1.0, 2.0)]);
    assert!(map.end_drag(bits(-3.0), bits(3.0)).is_empty());
    assert_eq!(map.pending_events, 0);
    assert_eq!(map.focused_node, Some(0));
    assert!(map.drag.is_none());
    // Pressing past the last node starts nothing.
    map.begin_drag(99);
    assert!(map.drag.is_none());
    assert_eq!(map.drag_travel(), None);
}

#[test]
fn drags_stop_at_the_edge_of_the_field() {
    let mut map = loaded();
    map.begin_drag(1);
    map.update_drag(&vec![at(-10.0, 1e9)]);
    assert_eq!(place(&map, "aaaa0000-1"), at(0.0, 19124.0));
}

#[test]
fn dragging_a_selected_node_moves_the_selection() {
    let mut map = loaded();
    let all = fars(&map);
    map.finish_rect_select(at(0.0, 0.0), at(4800.0, 19200.0), bits(4800.0), bits(19200.0), &all);
    assert_eq!(map.status, "3 selected");
    assert!(map.node_selected(0));
    map.begin_drag(2);
    let starts: Vec<usize> = map.drag.as_ref().unwrap().starts.iter().map(|s| s.0).collect();
    assert_eq!(starts, vec![0, 1, 2]);
    map.update_drag(&vec![at(1.0, 1.0), at(100.0, 200.0), at(3.0, 3.0)]);
    // The node that came to rest where it started is not logged.
    let events = map.end_drag(bits(9.0), bits(9.0));
    assert_eq!(
        events,
        vec![
            MapEvent::NodeMoved("bbbb0000-2".to_string(), at(1.0, 1.0)),
            MapEvent::NodeMoved("cccc0000-3".to_string(), at(3.0, 3.0)),
        ]
    );
    // One undo step for the whole gesture.
    assert_eq!(map.undo_stack.undo_len(), 1);
    assert_eq!(map.undo().len(), 2);
}

#[test]
fn rectangles_select_the_nodes_they_meet() {
    let mut map = loaded();
    let all = fars(&map);
    map.finish_rect_select(at(90.0, 190.0), at(50.0, 240.0), bits(-40.0), bits(50.0), &all);
    assert_eq!(map.selected.len(), 0);
    map.finish_rect_select(at(120.0, 190.0), at(50.0, 240.0), bits(-70.0), bits(50.0), &all);
    assert_eq!(map.selected.keys(), vec!["aaaa0000-1"]);
    assert_eq!(map.status, "1 selected");
    // The selection is dropped with its node.
    map.toggle_status_filter(Status::Started);
    assert_eq!(map.selected.len(), 0);
    map.toggle_status_filter(Status::Started);
    map.finish_rect_select(at(0.0, 0.0), at(1.0, 1.0), bits(1.0), bits(1.0), &all);
    assert_eq!(map.selected.len(), 0);
}

#[test]
fn a_background_click_clears_the_selection() {
    let mut map = loaded();
    let all = fars(&map);
    map.finish_rect_select(at(0.0, 0.0), at(4800.0, 19200.0), bits(4800.0), bits(19200.0), &all);
    map.focus_node(1);
    map.begin_background_gesture();
    assert_eq!(map.focused_node, None);
    map.end_pan(bits(40.0), bits(0.0));
    assert_eq!(map.selected.len(), 3);
    map.end_pan(bits(1.0), bits(0.0));
    assert_eq!(map.selected.len(), 0);
    map.save_lens_prompt();
    map.focus_node(0);
    map.clear_focus();
    assert_eq!(map.focused_node, None);
    assert!(!map.naming_lens);
}

#[test]
fn arranging_uses_the_grid_once() {
    let mut map = loaded();
    let events = map.auto_arrange();
    assert_eq!(
        events,
        vec![MapEvent::NodeMoved("aaaa0000-1".to_string(), grid_position(1, 3))]
    );
    assert_eq!(map.status, "arranged 1 nodes");
    assert!(map.auto_arrange().is_empty());
    assert_eq!(map.status, "already arranged");
    map.undo();
    assert_eq!(place(&map, "aaaa0000-1"), at(100.0, 200.0));
}

#[test]
fn squeezing_applies_the_packed_places() {
    let mut map = loaded();
    let targets = vec![(0, at(16.0, 16.0)), (1, at(100.0, 200.0)), (2, at(-5.0, 30.0)), (7, at(1.0, 1.0))];
    let events = map.apply_squeeze(&targets, 2);
    assert_eq!(events.len(), 2);
    assert_eq!(map.status, "squeezed 2 blocks (2 nodes)");
    assert_eq!(place(&map, "cccc0000-3"), at(0.0, 30.0));
    assert!(map.apply_squeeze(&targets, 2).is_empty());
    assert_eq!(map.status, "already packed");
    let mut empty = WorkcatMapView::new();
    empty.apply_squeeze(&Vec::new(), 0);
    assert_eq!(empty.status, "nothing to squeeze");
}

#[test]
fn fit_and_locate_need_something_to_show() {
    let mut map = loaded();
    let all = fars(&map);
    let bbox = map.fit(&all).unwrap();
    assert_eq!(bbox.min, at(100.0, 200.0));
    assert_eq!(map.center_on_focused(), None);
    assert_eq!(map.status, "no focused item to locate");
    map.focus_node(1);
    assert_eq!(map.center_on_focused(), Some(at(100.0, 200.0)));
    let mut empty = WorkcatMapView::new();
    assert_eq!(empty.fit(&Vec::new()), None);
    assert_eq!(empty.status, "nothing to fit");
}

#[test]
fn status_changes_are_logged_and_undone() {
    let mut map = loaded();
    assert!(map.set_status("bogus").is_empty());
    assert_eq!(map.status, "unknown status: bogus");
    assert!(map.set_status("merged").is_empty());
    assert_eq!(map.status, "no focused item to set status on");
    map.focus_node(1);
    let events = map.set_status("complete");
    assert_eq!(
        events,
        vec![MapEvent::StatusSet("aaaa0000-1".to_string(), Status::Complete)]
    );
    assert_eq!(map.status, "status: aaaa0000 -> Complete");
    // The item left the scene with its status.
    assert_eq!(ids(&map), vec!["bbbb0000-2", "cccc0000-3"]);
    let events = map.undo();
    assert_eq!(
        events,
        vec![MapEvent::StatusSet("aaaa0000-1".to_string(), Status::Started)]
    );
    assert_eq!(ids(&map), vec!["bbbb0000-2", "aaaa0000-1", "cccc0000-3"]);
    assert_eq!(place(&map, "aaaa0000-1"), at(100.0, 200.0));
    map.focus_node(1);
    assert!(map.set_focused_status(Status::Started).is_empty());
    assert_eq!(map.set_focused_status(Status::Paused).len(), 1);
}

#[test]
fn lenses_restore_filter_and_places() {
    let mut map = loaded();
    map.toggle_status_filter(Status::NotStarted);
    map.set_query(" a ".to_string());
    let events = map.save_lens("mine".to_string());
    let lens = Lens {
        name: "mine".into(),
        visible_statuses: ["started", "paused", "blocked", "implemented", "merged", "unknown"]
            .map(String::from)
            .to_vec(),
        query: "a".into(),
        positions: vec![
            ("aaaa0000-1".into(), at(100.0, 200.0)),
            ("cccc0000-3".into(), grid_position(2, 3)),
        ],
    };
    assert_eq!(events, vec![MapEvent::LensSaved(lens)]);
    assert_eq!(map.status, "saved lens mine");
    assert_eq!(map.active_lens.as_deref(), Some("mine"));
    map.clear_filter();
    assert_eq!(map.active_lens, None);
    map.begin_drag(1);
    map.update_drag(&vec![at(1.0, 1.0)]);
    map.end_drag(bits(-99.0), bits(-199.0));
    map.apply_lens("mine");
    assert_eq!(map.status, "lens: mine");
    assert_eq!(ids(&map), vec!["aaaa0000-1", "cccc0000-3"]);
    assert_eq!(place(&map, "aaaa0000-1"), at(100.0, 200.0));
    assert_eq!(map.current_positions()[0], ("aaaa0000-1".to_string(), at(100.0, 200.0)));
    map.apply_lens("other");
    assert_eq!(map.status, "no lens named other");
}

#[test]
fn lenses_are_named_saved_and_deleted() {
    let mut map = loaded();
    assert!(map.save_active_lens().is_empty());
    assert_eq!(map.status, "no active lens — use + to create one");
    map.save_lens_prompt();
    assert!(map.naming_lens);
    assert_eq!(map.toggle_detail(), EnterAction::ConfirmLensName);
    assert!(map.confirm_lens_name("   ").is_empty());
    assert_eq!(map.status, "lens needs a name");
    assert!(map.naming_lens);
    assert_eq!(map.confirm_lens_name(" mine ").len(), 1);
    assert!(!map.naming_lens);
    assert_eq!(map.save_active_lens().len(), 1);
    assert!(map.delete_lens("other").is_empty());
    assert_eq!(
        map.delete_lens("mine"),
        vec![MapEvent::LensDeleted("mine".to_string())]
    );
    assert_eq!(map.status, "deleted lens mine");
    assert_eq!(map.active_lens, None);
    assert_eq!(map.lenses.len(), 0);
}

#[test]
fn the_default_lens_opens_once() {
    let mut lenses = TextMap::new();
    lenses.insert(
        DEFAULT_LENS.to_string(),
        Lens {
            name: DEFAULT_LENS.into(),
            visible_statuses: vec!["complete".into()],
            query: String::new(),
            positions: vec![("dddd0000-4".into(), at(5.0, 6.0))],
        },
    );
    let mut map = WorkcatMapView::new();
    map.apply_loaded(
        vec![
            item("aaaa0000-1", "alpha", Status::Started, &[]),
            item("dddd0000-4", "delta", Status::Complete, &[]),
        ],
        TextMap::new(),
        lenses,
    );
    map.open_default_lens();
    assert_eq!(ids(&map), vec!["dddd0000-4"]);
    assert_eq!(place(&map, "dddd0000-4"), at(5.0, 6.0));
    assert!(!map.needs_default_lens);
    map.clear_filter();
    map.open_default_lens();
    assert_eq!(ids(&map), vec!["aaaa0000-1"]);
}

#[test]
fn sections_are_replaced_whole() {
    let mut map = loaded();
    let (events, line) = map.save_notes_for("bbbb0000-2", "first".to_string());
    assert_eq!(
        events,
        vec![MapEvent::BriefEdited("bbbb0000-2".into(), "Notes".into(), "first".into())]
    );
    assert_eq!(line, "notes saved (uncommitted)");
    assert_eq!(map.items[1].notes(), Some("first"));
    let (events, line) = map.save_section_for("bbbb0000-2", "NOTES", "first".to_string());
    assert!(events.is_empty());
    assert_eq!(line, "notes unchanged");
    map.save_section_for("bbbb0000-2", "NOTES", "second".to_string());
    assert_eq!(map.items[1].sections, vec![("Notes".to_string(), "second".to_string())]);
    let (events, line) = map.save_section_for("zzzz", "Notes", "x".to_string());
    assert!(events.is_empty());
    assert_eq!(line, "no item zzzz");
    // Saving nothing where there is nothing changes nothing.
    let (events, _) = map.save_section_for("aaaa0000-1", "Hazards", String::new());
    assert!(events.is_empty());
    assert!(map.items[0].sections.is_empty());
}

#[test]
fn enter_opens_the_focused_item() {
    let mut map = loaded();
    assert_eq!(map.toggle_detail(), EnterAction::Nothing);
    assert_eq!(map.status, "no focused item");
    map.focus_node(0);
    assert_eq!(map.toggle_detail(), EnterAction::OpenDetail);
}

#[test]
fn checkpoints_do_not_overlap_and_keep_what_failed() {
    let mut map = loaded();
    assert!(!map.auto_checkpoint_due());
    map.focus_node(0);
    map.set_status("paused");
    assert!(map.auto_checkpoint_due());
    assert!(map.begin_checkpoint());
    assert_eq!(map.status, "checkpoint starting...");
    assert!(!map.auto_checkpoint_due());
    assert!(!map.begin_checkpoint());
    assert_eq!(map.status, "checkpoint already running; event queued for the next one");
    map.finish_checkpoint(CheckpointEnd::Failed("no network".to_string()));
    assert_eq!(map.status, "checkpoint failed: no network");
    assert_eq!(map.pending_events, 1);
    assert!(map.begin_checkpoint());
    map.finish_checkpoint(CheckpointEnd::Committed("abc1234".to_string()));
    assert_eq!(map.status, "checkpointed @ abc1234");
    assert_eq!(map.pending_events, 0);
    map.begin_checkpoint();
    map.finish_checkpoint(CheckpointEnd::Nothing);
    assert_eq!(map.status, "nothing to checkpoint");
}

#[test]
fn every_dependency_is_counted() {
    assert_eq!(count_dependencies(&loaded().items), 4);
}

#[test]
fn events_replay_to_the_same_places() {
    let mut map = loaded();
    let mut log = Vec::new();
    map.begin_drag(0);
    map.update_drag(&vec![at(11.0, 12.0)]);
    log.extend(map.end_drag(bits(100.0), bits(100.0)));
    log.extend(map.auto_arrange());
    log.extend(map.undo());
    let mut replayed: TextMap<Position> = TextMap::new();
    for event in log {
        if let MapEvent::NodeMoved(id, p) = event {
            replayed.insert(id, p);
        }
    }
    for id in replayed.keys() {
        assert_eq!(replayed.get(&id), map.positions.get(&id));
    }
    assert_eq!(*map.positions.get("bbbb0000-2").unwrap(), at(11.0, 12.0));
}

#[test]
fn status_changes_are_checkpointed_at_once() {
    let mut map = loaded();
    map.focus_node(1);
    let events = map.set_status("paused");
    assert!(checkpoints_at_once(&events));
    let events = map.auto_arrange();
    assert!(!events.is_empty());
    assert!(!checkpoints_at_once(&events));
    assert!(!checkpoints_at_once(&Vec::new()));
    assert_eq!(AUTO_CHECKPOINT_SECONDS, 5);
}
