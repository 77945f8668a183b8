//! The detail panel, what the map draws, and the headless cycle.

use mission_control::cycle::{load_report, status_message, LoadReport};
use mission_control::detail::{
    detail_content, primary_action, shorten_reference, NotesSave, PrimaryAction, WorkcatDetailView,
};
use mission_control::map::WorkcatMapView;
use mission_control::map_render::{
    background_menu_of, key_context, node_menu, status_menu, Border, MenuAction, MenuLine,
};
use mission_control::model::ItemMeta;
use mission_control::status::{Status, ALL_STATUSES};
use mission_control::textmap::TextMap;

fn item(id: &str, status: Status, deps: &[&str]) -> ItemMeta {
    ItemMeta {
        id: id.into(),
        subject: format!("subject of {id}"),
        reference: "a/b/c/d.md".into(),
        status,
        updated_at: None,
        depends_on: deps.iter().map(|d| d.to_string()).collect(),
        sections: Vec::new(),
    }
}

fn loaded() -> WorkcatMapView {
    let mut map = WorkcatMapView::new();
    map.apply_loaded(
        vec![
            item("aaaa0000-1", Status::Started, &["bbbb0000"]),
            item("bbbb0000-2", Status::Blocked, &[]),
            item("cccc0000-3", Status::Started, &[]),
            item("dddd0000-4", Status::Canceled, &["aaaa0000"]),
        ],
        TextMap::new(),
        TextMap::new(),
    );
    map
}

#[test]
fn references_are_elided_in_the_middle() {
    assert_eq!(shorten_reference("a/b/c/d.md"), "a/…/d.md");
    assert_eq!(shorten_reference("a/d.md"), "a/d.md");
    assert_eq!(shorten_reference("d.md"), "d.md");
    assert_eq!(shorten_reference(""), "");
    assert_eq!(shorten_reference("/x/y"), "/…/y");
}

#[test]
fn the_detail_panel_shows_the_sections_in_their_places() {
    let mut it = item("aaaa0000-1", Status::Started, &["x"]);
    it.sections = vec![
        ("State".into(), "one\n\ntwo".into()),
        ("NEXT".into(), "ship it".into()),
        ("Context".into(), "first\n   \nsecond".into()),
        ("Hazards".into(), "- careful\n- - twice\n   \n-".into()),
        ("Notes".into(), "mine".into()),
    ];
    let content = detail_content(&it);
    assert_eq!(content.id8, "aaaa0000");
    assert_eq!(content.next, "ship it");
    assert_eq!(content.short_reference, "a/…/d.md");
    assert_eq!(content.context, vec!["first", "second"]);
    assert_eq!(
        content.sections,
        vec![(
            "State".to_string(),
            vec!["one".to_string(), String::new(), "two".to_string()]
        )]
    );
    assert_eq!(content.hazards, vec!["careful", "twice", "-"]);
    assert_eq!(content.footer, "1 dependency");
    let bare = detail_content(&item("aaaa0000-1", Status::Started, &[]));
    assert_eq!(bare.next, "No next step recorded.");
    assert!(bare.hazards.is_empty());
    assert_eq!(bare.footer, "0 dependencies");
}

#[test]
fn the_notes_field_follows_the_focus() {
    let mut it = item("aaaa0000-1", Status::Started, &[]);
    it.sections = vec![("Notes".into(), "mine".into())];
    let mut view = WorkcatDetailView::new();
    assert_eq!(view.save_notes(true, "x"), NotesSave::Nothing);
    assert_eq!(view.sync_notes(Some(&it)).as_deref(), Some("mine"));
    // The same item again leaves the field alone.
    assert_eq!(view.sync_notes(Some(&it)), None);
    view.note_edit();
    assert_eq!(view.status, "Saving…");
    assert_eq!(
        view.save_notes(true, " new \n"),
        NotesSave::Save("aaaa0000-1".to_string(), "new".to_string())
    );
    assert_eq!(view.save_notes(false, "x"), NotesSave::NoMap);
    assert_eq!(view.status, "map panel not loaded");
    let other = item("bbbb0000-2", Status::Started, &[]);
    assert_eq!(view.sync_notes(Some(&other)).as_deref(), Some(""));
    assert_eq!(view.status, "");
    view.sync_notes(None);
    assert_eq!(view.notes_item, None);
    view.report_opened("a/b.md", true);
    assert_eq!(view.status, "opening a/b.md");
    view.report_opened("a/b.md", false);
    assert_eq!(view.status, "handoff not in project: a/b.md");
}

#[test]
fn statuses_have_colors_of_their_own() {
    let mut colors: Vec<u32> = ALL_STATUSES.iter().map(|&s| WorkcatMapView::status_color(s)).collect();
    assert_eq!(colors[0], 0x888780);
    assert_eq!(WorkcatMapView::status_color(Status::Blocked), 0xe24b4a);
    colors.sort();
    colors.dedup();
    assert_eq!(colors.len(), 9);
}

#[test]
fn focus_shows_on_the_border_and_the_edges() {
    let mut map = loaded();
    let a = map.node_ix_by_id("aaaa0000-1").unwrap();
    let b = map.node_ix_by_id("bbbb0000-2").unwrap();
    assert_eq!(map.lit_edges(), vec![(a, b, false)]);
    assert_eq!(map.node_style(a).border, Border::Plain);
    map.focus_node(a);
    assert_eq!(map.lit_edges(), vec![(a, b, true)]);
    assert_eq!(map.node_style(a).border, Border::Focused);
    assert_eq!(map.node_style(b).border, Border::Plain);
    assert_eq!(map.node_style(b).color, 0xe24b4a);
}

#[test]
fn chips_count_the_items_of_each_status() {
    let map = loaded();
    let chips = map.filter_chips();
    assert_eq!(chips.iter().map(|c| c.count).sum::<usize>(), 4);
    let started = chips.iter().find(|c| c.status == Status::Started).unwrap();
    assert_eq!((started.count, started.visible), (2, true));
    let canceled = chips.iter().find(|c| c.status == Status::Canceled).unwrap();
    assert_eq!((canceled.count, canceled.visible), (1, false));
}

#[test]
fn labels_show_the_lens_and_what_is_pending() {
    let mut map = loaded();
    assert_eq!(map.pending_label(), None);
    map.save_lens("mine".to_string());
    assert_eq!(map.pending_label().as_deref(), Some("1 uncommitted"));
    assert_eq!(map.lens_label().as_deref(), Some("lens: mine"));
}

#[test]
fn the_status_menu_parts_terminal_choices() {
    let menu = status_menu(Some(Status::Paused));
    let choices: Vec<&Status> = menu
        .iter()
        .filter_map(|line| match line {
            MenuLine::Choice(_, _, MenuAction::SetStatus(status)) => Some(status),
            _ => None,
        })
        .collect();
    assert_eq!(choices.len(), 9);
    let checked: Vec<&str> = menu
        .iter()
        .filter_map(|line| match line {
            MenuLine::Choice(label, true, _) => Some(label.as_str()),
            _ => None,
        })
        .collect();
    assert_eq!(checked, vec!["Paused"]);
    let divider = menu.iter().position(|line| *line == MenuLine::Separator).unwrap();
    let canceled = menu
        .iter()
        .position(|line| matches!(line, MenuLine::Choice(_, _, MenuAction::SetStatus(Status::Canceled))))
        .unwrap();
    assert!(divider < canceled);
    let node = node_menu(None);
    assert_eq!(node.last(), Some(&MenuLine::Entry("Checkpoint now".to_string(), MenuAction::Checkpoint)));
}

#[test]
fn the_background_menu_knows_the_lenses() {
    let names = vec!["one".to_string(), "two".to_string()];
    let menu = background_menu_of(&names, &Some("two".to_string()), false);
    let entry = |label: &str, action: MenuAction| MenuLine::Entry(label.to_string(), action);
    assert!(menu.contains(&entry("one", MenuAction::ApplyLens("one".to_string()))));
    assert!(menu.contains(&entry("two (active)", MenuAction::ApplyLens("two".to_string()))));
    assert!(menu.contains(&entry("Save two", MenuAction::SaveActiveLens)));
    assert!(menu.contains(&entry("Delete Lens two", MenuAction::DeleteLens("two".to_string()))));
    assert!(menu.contains(&entry("Clear Filter", MenuAction::ClearFilter)));
    let menu = background_menu_of(&names, &None, true);
    assert!(!menu.contains(&entry("Clear Filter", MenuAction::ClearFilter)));
    assert!(!menu.iter().any(|line| matches!(line, MenuLine::Entry(_, MenuAction::SaveActiveLens))));
    assert!(menu.contains(&entry("New lens…", MenuAction::SaveLensPrompt)));
    assert_eq!(loaded().background_menu(), background_menu_of(&Vec::new(), &None, true));
}

#[test]
fn typing_keeps_the_keys() {
    assert_ne!(key_context(true), key_context(false));
    assert_eq!(key_context(false), "WorkcatMap");
}

#[test]
fn the_primary_action_takes_the_forward_transition() {
    assert_eq!(primary_action(&None), PrimaryAction::Nothing);
    let start = Some(("Start".to_string(), Some(Status::Started)));
    assert_eq!(primary_action(&start), PrimaryAction::Apply(Status::Started));
    assert_eq!(primary_action(&Some(("Triage".to_string(), None))), PrimaryAction::OpenMenu);
}

#[test]
fn a_load_is_counted_in_all_and_in_scope() {
    assert_eq!(
        load_report(&loaded().items),
        LoadReport { items: 4, in_scope: 3, edges: 2, edges_in_scope: 1 }
    );
    // An item out of scope needs no short id.
    let items = vec![
        item("aaaa0000-1", Status::Started, &["aaaa0000", "nowhere0"]),
        item("1234567\u{e4}-2", Status::Complete, &["aaaa0000"]),
    ];
    assert_eq!(
        load_report(&items),
        LoadReport { items: 2, in_scope: 1, edges: 3, edges_in_scope: 1 }
    );
    assert_eq!(status_message("aaaa0000", Status::Merged), "status: aaaa0000 -> merged");
}
