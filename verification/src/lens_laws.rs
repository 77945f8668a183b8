//! What lenses, filters, focus and menus do, told by what the map holds before
//! and after.

use crate::map::{scene_order, MapState, DEFAULT_LENS};
use crate::map_edit::MapEventView;
use crate::map_gesture::start_of;
use crate::map_laws::{law_known_position_wins, law_rebuild_keeps_positions};
use crate::map_lens::{overlaid, visible_names};
use crate::map_render::{
    background_lines, chip_tooltip, lens_entries, node_menu_lines, status_choices, MenuActionView,
    MenuLineView,
};
use crate::model::{FilterView, ItemView, LensView, Position, StackView};
use crate::status::{Status, ALL_STATUSES};
use crate::text::{decimal, trimmed};
use vstd::prelude::*;

verus! {

// ---------------------------------------------------------------------
// Saving
// ---------------------------------------------------------------------

/// The name of a status alone, if it is visible.
pub open spec fn named_if(visible: Set<Status>, status: Status, name: Seq<char>) -> Seq<Seq<char>> {
    if visible.contains(status) {
        seq![name]
    } else {
        Seq::empty()
    }
}

proof fn lemma_name_added(visible: Set<Status>, k: nat)
    requires
        1 <= k <= 9,
    ensures
        visible_names(visible, k) == visible_names(visible, (k - 1) as nat) + named_if(
            visible,
            ALL_STATUSES[k - 1],
            ALL_STATUSES[k - 1].name(),
        ),
{
    assert(visible_names(visible, k) =~= visible_names(visible, (k - 1) as nat) + named_if(
        visible,
        ALL_STATUSES[k - 1],
        ALL_STATUSES[k - 1].name(),
    ));
}

/// A lens names every visible status, in lifecycle order.
pub proof fn law_lens_names_visible_statuses(state: MapState, name: Seq<char>)
    ensures
        ({
            let shown = state.filter.visible;
            state.lens_named(name).visible_statuses == named_if(
                shown,
                Status::NotStarted,
                "not_started"@,
            ) + named_if(shown, Status::Started, "started"@) + named_if(
                shown,
                Status::Paused,
                "paused"@,
            ) + named_if(shown, Status::Blocked, "blocked"@) + named_if(
                shown,
                Status::Implemented,
                "implemented"@,
            ) + named_if(shown, Status::Merged, "merged"@) + named_if(
                shown,
                Status::Complete,
                "complete"@,
            ) + named_if(shown, Status::Canceled, "canceled"@) + named_if(
                shown,
                Status::Unknown,
                "unknown"@,
            )
        }),
{
    let v = state.filter.visible;
    assert(visible_names(v, 0).len() == 0);
    lemma_name_added(v, 1);
    assert(visible_names(v, 1) =~= named_if(v, Status::NotStarted, "not_started"@));
    lemma_name_added(v, 2);
    lemma_name_added(v, 3);
    lemma_name_added(v, 4);
    lemma_name_added(v, 5);
    lemma_name_added(v, 6);
    lemma_name_added(v, 7);
    lemma_name_added(v, 8);
    lemma_name_added(v, 9);
}

/// A lens holds the place of every node, by the id of its item, and the search
/// text without the whitespace around it.
pub proof fn law_lens_holds_every_place(state: MapState, name: Seq<char>, k: int)
    requires
        0 <= k < state.nodes.len(),
    ensures
        ({
            let lens = state.lens_named(name);
            &&& lens.name == name
            &&& lens.query == trimmed(state.filter.query)
            &&& lens.positions.len() == state.nodes.len()
            &&& lens.positions[k] == (
                state.items[state.nodes[k].item_ix as int].id,
                state.nodes[k].at,
            )
        }),
{
}

/// Saving a lens files it under its name, makes it the active one and records
/// one event; other lenses and the map stay as they are.
pub proof fn law_saving_files_the_lens(state: MapState, name: Seq<char>, other: Seq<char>)
    requires
        other != name,
    ensures
        ({
            let (after, events) = state.lens_saved(name);
            &&& after.lenses.dom().contains(name)
            &&& after.lenses[name] == state.lens_named(name)
            &&& after.lenses.dom().contains(other) == state.lenses.dom().contains(other)
            &&& after.lenses[other] == state.lenses[other]
            &&& after.active_lens == Some(name)
            &&& events == seq![MapEventView::LensSaved(state.lens_named(name))]
            &&& state.pending_events < usize::MAX ==> after.pending_events == state.pending_events
                + 1
            &&& after.status == "saved lens "@ + name
            &&& after.items == state.items && after.positions == state.positions
            &&& after.nodes == state.nodes && after.edges == state.edges
            &&& after.filter == state.filter && after.selected == state.selected
            &&& after.focused_node == state.focused_node && after.undo_stack == state.undo_stack
        }),
{
}

/// The active lens is saved under its own name; without one nothing is saved.
pub proof fn law_active_lens_is_saved_anew(state: MapState)
    ensures
        state.active_lens matches Some(name) ==> state.active_lens_saved() == state.lens_saved(
            name,
        ),
        state.active_lens is None ==> state.active_lens_saved().0.lenses == state.lenses
            && state.active_lens_saved().0.active_lens is None
            && state.active_lens_saved().1.len() == 0
            && state.active_lens_saved().0.pending_events == state.pending_events,
{
}

/// A typed name counts without the whitespace around it. A blank one saves
/// nothing and leaves the name to be typed.
pub proof fn law_typed_name_is_trimmed(state: MapState, typed: Seq<char>)
    ensures
        ({
            let (after, events) = state.lens_confirmed(typed);
            if trimmed(typed).len() == 0 {
                &&& events.len() == 0
                &&& after.lenses == state.lenses
                &&& after.active_lens == state.active_lens
                &&& after.naming_lens == state.naming_lens
                &&& after.status == "lens needs a name"@
            } else {
                &&& events == state.lens_saved(trimmed(typed)).1
                &&& after.lenses == state.lens_saved(trimmed(typed)).0.lenses
                &&& after.active_lens == Some(trimmed(typed))
                &&& !after.naming_lens
            }
        }),
{
}

/// Deleting a lens that is there records it, keeps every other lens, and
/// leaves it where it was the active one.
pub proof fn law_deleting_leaves_other_lenses(state: MapState, name: Seq<char>, other: Seq<char>)
    requires
        state.lenses.dom().contains(name),
        other != name,
    ensures
        ({
            let (after, events) = state.lens_deleted(name);
            &&& !after.lenses.dom().contains(name)
            &&& after.lenses.dom().contains(other) == state.lenses.dom().contains(other)
            &&& after.lenses.dom().contains(other) ==> after.lenses[other] == state.lenses[other]
            &&& events == seq![MapEventView::LensDeleted(name)]
            &&& state.active_lens == Some(name) ==> after.active_lens is None
            &&& state.active_lens != Some(name) ==> after.active_lens == state.active_lens
            &&& state.pending_events < usize::MAX ==> after.pending_events == state.pending_events
                + 1
            &&& after.status == "deleted lens "@ + name
            &&& after.nodes == state.nodes && after.filter == state.filter
            &&& after.positions == state.positions
        }),
{
}

// ---------------------------------------------------------------------
// Applying
// ---------------------------------------------------------------------

proof fn lemma_overlaid_last(
    positions: Map<Seq<char>, Position>,
    placed: Seq<(Seq<char>, Position)>,
    k: nat,
    i: int,
)
    requires
        0 <= i < k <= placed.len(),
        forall|j: int| i < j < placed.len() ==> (#[trigger] placed[j]).0 != placed[i].0,
    ensures
        overlaid(positions, placed, k).dom().contains(placed[i].0),
        overlaid(positions, placed, k)[placed[i].0] == placed[i].1,
    decreases k,
{
    if i < k - 1 {
        lemma_overlaid_last(positions, placed, (k - 1) as nat, i);
        assert(placed[k - 1].0 != placed[i].0);
    }
}

proof fn lemma_overlaid_other(
    positions: Map<Seq<char>, Position>,
    placed: Seq<(Seq<char>, Position)>,
    k: nat,
    id: Seq<char>,
)
    requires
        k <= placed.len(),
        forall|j: int| 0 <= j < placed.len() ==> (#[trigger] placed[j]).0 != id,
    ensures
        overlaid(positions, placed, k).dom().contains(id) == positions.dom().contains(id),
        overlaid(positions, placed, k)[id] == positions[id],
    decreases k,
{
    if k > 0 {
        lemma_overlaid_other(positions, placed, (k - 1) as nat, id);
        assert(placed[k - 1].0 != id);
    }
}

/// Applying a lens puts every node that it names where it says, the last entry
/// of a node deciding. A node that it does not name keeps the place it has.
pub proof fn law_applied_lens_places_nodes(state: MapState, name: Seq<char>, k: int, i: int)
    requires
        state.items.len() <= usize::MAX,
        state.lenses.dom().contains(name),
        0 <= k < state.with_lens(name).nodes.len(),
    ensures
        ({
            let placed = state.lenses[name].positions;
            let after = state.with_lens(name);
            let id = state.items[after.nodes[k].item_ix as int].id;
            &&& 0 <= i < placed.len() && placed[i].0 == id && (forall|j: int|
                i < j < placed.len() ==> (#[trigger] placed[j]).0 != id) ==> after.nodes[k].at
                == placed[i].1
            &&& (forall|j: int| 0 <= j < placed.len() ==> (#[trigger] placed[j]).0 != id)
                && state.positions.dom().contains(id) ==> after.nodes[k].at == state.positions[id]
        }),
{
    let placed = state.lenses[name].positions;
    let after = state.with_lens(name);
    let id = state.items[after.nodes[k].item_ix as int].id;
    let middle = MapState {
        filter: state.lenses[name].filter(),
        active_lens: Some(name),
        positions: overlaid(state.positions, placed, placed.len()),
        ..state
    };
    assert(after.nodes == middle.rebuilt().nodes);
    assert(middle.rebuilt().node_id(k) == id);
    if 0 <= i < placed.len() && placed[i].0 == id && (forall|j: int|
        i < j < placed.len() ==> (#[trigger] placed[j]).0 != id) {
        lemma_overlaid_last(state.positions, placed, placed.len(), i);
        law_known_position_wins(middle, k);
    }
    if (forall|j: int| 0 <= j < placed.len() ==> (#[trigger] placed[j]).0 != id)
        && state.positions.dom().contains(id) {
        lemma_overlaid_other(state.positions, placed, placed.len(), id);
        law_known_position_wins(middle, k);
    }
}

/// Applying a lens takes over its filter and makes it the active one. One that
/// is not there changes nothing but the status line.
pub proof fn law_applied_lens_is_active(state: MapState, name: Seq<char>)
    ensures
        ({
            let after = state.with_lens(name);
            if state.lenses.dom().contains(name) {
                &&& after.active_lens == Some(name)
                &&& after.filter == state.lenses[name].filter()
                &&& after.filter.query == state.lenses[name].query
                &&& after.lenses == state.lenses
                &&& after.items == state.items
                &&& after.status == "lens: "@ + name
                &&& after.pending_events == state.pending_events
                &&& after.undo_stack == state.undo_stack
            } else {
                after == (MapState { status: "no lens named "@ + name, ..state })
            }
        }),
{
}

/// The lens named default is applied once, after the first load.
pub proof fn law_default_lens_is_applied_once(state: MapState)
    ensures
        ({
            let name = "default"@;
            let after = state.opened();
            &&& state.loading || !state.needs_default_lens ==> after == state
            &&& !state.loading && state.needs_default_lens ==> !after.needs_default_lens
                && after.opened() == after
            &&& !state.loading && state.needs_default_lens && state.lenses.dom().contains(name)
                ==> after.active_lens == Some(name) && after.filter == state.lenses[name].filter()
            &&& !state.loading && state.needs_default_lens && !state.lenses.dom().contains(name)
                ==> after == (MapState { needs_default_lens: false, ..state })
        }),
{
    assert(DEFAULT_LENS@ == "default"@);
}

/// A change of the filter leaves the active lens; one of the search text only
/// where the text differs. Neither touches the lenses nor what is pending.
pub proof fn law_filtering_leaves_the_lens(state: MapState, filter: FilterView, query: Seq<char>)
    ensures
        state.refiltered(filter).filter == filter,
        state.refiltered(filter).active_lens is None,
        state.refiltered(filter).lenses == state.lenses,
        state.refiltered(filter).items == state.items,
        state.refiltered(filter).pending_events == state.pending_events,
        state.searched(query).filter.query == query,
        state.searched(query).filter.visible == state.filter.visible,
        state.filter.query == query ==> state.searched(query) == state,
        state.filter.query != query ==> state.searched(query).active_lens is None,
{
}

/// A change of the filter loses no place that a node has.
pub proof fn law_filtering_keeps_places(state: MapState, filter: FilterView, id: Seq<char>)
    requires
        state.positions.dom().contains(id),
    ensures
        state.refiltered(filter).positions.dom().contains(id),
        state.refiltered(filter).positions[id] == state.positions[id],
{
    law_rebuild_keeps_positions(MapState { filter, active_lens: None, ..state }, id);
}

// ---------------------------------------------------------------------
// Focus
// ---------------------------------------------------------------------

/// A rebuild keeps the focus just when there still is a node of that number.
pub proof fn law_rebuild_keeps_the_focus(state: MapState, ix: usize)
    requires
        state.focused_node == Some(ix),
    ensures
        ix < state.rebuilt().nodes.len() ==> state.rebuilt().focused_node == Some(ix),
        ix >= state.rebuilt().nodes.len() ==> state.rebuilt().focused_node is None,
        (MapState { focused_node: None, ..state }).rebuilt().focused_node is None,
{
    let order = scene_order(state.items, state.filter);
    assert(state.rebuilt().nodes.len() == order.len());
}

/// The focus tells the item of the focused node and where the node stands.
pub proof fn law_focus_tells_item_and_place(state: MapState)
    ensures
        state.focused_node matches Some(ix) ==> (ix < state.nodes.len()
            ==> state.focused_item() == Some(
            state.items[state.nodes[ix as int].item_ix as int],
        ) && state.focused_place() == Some(state.nodes[ix as int].at)),
        state.focused_node matches Some(ix) ==> (ix >= state.nodes.len()
            ==> state.focused_item() is None && state.focused_place() is None),
        state.focused_node is None ==> state.focused_item() is None
            && state.focused_place() is None,
{
}

/// Leaving the focus clears the focus, the selection and the lens name, and
/// nothing else.
pub proof fn law_leaving_clears_the_focus(state: MapState)
    ensures
        state.unfocused().focused_node is None,
        forall|id: Seq<char>| !(#[trigger] state.unfocused().selected.contains(id)),
        !state.unfocused().naming_lens,
        state.unfocused().nodes == state.nodes,
        state.unfocused().items == state.items,
        state.unfocused().filter == state.filter,
        state.unfocused().active_lens == state.active_lens,
        state.unfocused().positions == state.positions,
{
}

proof fn lemma_start(starts: Seq<(usize, Position)>, node: usize, from: int, i: int)
    requires
        0 <= from <= i < starts.len(),
        starts[i].0 == node,
        forall|j: int| from <= j < i ==> (#[trigger] starts[j]).0 != node,
    ensures
        start_of(starts, node, from) == Some(starts[i].1),
    decreases i - from,
{
    if from < i {
        assert(starts[from].0 != node);
        lemma_start(starts, node, from + 1, i);
    }
}

/// The travel of a drag goes from where the pressed node was taken up to where
/// it stands.
pub proof fn law_travel_is_that_of_the_pressed_node(state: MapState, i: int)
    requires
        state.drag matches Some(drag) && drag.pressed_ix < state.nodes.len() && 0 <= i
            < drag.starts.len() && drag.starts[i].0 == drag.pressed_ix && (forall|j: int|
            0 <= j < i ==> (#[trigger] drag.starts[j]).0 != drag.pressed_ix),
    ensures
        state.travel() == Some(
            (
                (state.drag->0).starts[i].1,
                state.nodes[(state.drag->0).pressed_ix as int].at,
            ),
        ),
{
    let drag = state.drag->0;
    lemma_start(drag.starts, drag.pressed_ix, 0, i);
}

/// A release that counts as a click, or without a drag, changes nothing but
/// that the drag is over.
pub proof fn law_click_moves_nothing(state: MapState, click: bool)
    requires
        click || state.drag is None,
    ensures
        state.released(click).1.len() == 0,
        state.released(click).0 == (MapState { drag: None, ..state }),
{
}

/// A rectangle that never grew past a click clears the selection.
pub proof fn law_click_clears_the_selection(
    state: MapState,
    from: Position,
    to: Position,
    fars: Seq<Position>,
)
    ensures
        state.rect_selected(true, from, to, fars) == (MapState { selected: Set::empty(), ..state }),
{
}

// ---------------------------------------------------------------------
// Loading
// ---------------------------------------------------------------------

/// A new map is empty, waits for the load, and will apply the default lens.
pub proof fn law_new_map_is_empty()
    ensures
        ({
            let state = MapState::initial();
            &&& state.items.len() == 0 && state.nodes.len() == 0 && state.edges.len() == 0
            &&& state.focused_node is None && state.drag is None && state.active_lens is None
            &&& state.selected == Set::<Seq<char>>::empty()
            &&& state.positions.dom() == Set::<Seq<char>>::empty()
            &&& state.lenses.dom() == Set::<Seq<char>>::empty()
            &&& state.filter == FilterView::default_scope()
            &&& state.undo_stack == StackView::empty()
            &&& state.status == "loading workcat-db..."@
            &&& state.loading && state.needs_default_lens
            &&& !state.naming_lens && !state.checkpoint_running && state.pending_events == 0
        }),
{
}

/// After the load the map holds what was loaded and tells how much of it is
/// shown.
pub proof fn law_load_is_told(
    state: MapState,
    items: Seq<ItemView>,
    positions: Map<Seq<char>, Position>,
    lenses: Map<Seq<char>, LensView>,
)
    ensures
        ({
            let after = state.loaded(items, positions, lenses);
            &&& after.items == items
            &&& after.lenses == lenses
            &&& !after.loading
            &&& after.filter == state.filter
            &&& after.undo_stack == state.undo_stack
            &&& after.nodes.len() == scene_order(items, state.filter).len()
            &&& forall|id: Seq<char>|
                positions.dom().contains(id) ==> #[trigger] after.positions.dom().contains(id)
                    && after.positions[id] == positions[id]
            &&& after.status == decimal(after.nodes.len()) + " of "@ + decimal(items.len())
                + " items in scope, "@ + decimal(after.edges.len()) + " edges"@
        }),
{
    let middle = MapState { items, positions, lenses, loading: false, ..state };
    assert forall|id: Seq<char>|
        positions.dom().contains(id) implies #[trigger] middle.rebuilt().positions.dom().contains(
        id,
    ) && middle.rebuilt().positions[id] == positions[id] by {
        law_rebuild_keeps_positions(middle, id);
    }
}

// ---------------------------------------------------------------------
// Menus
// ---------------------------------------------------------------------

proof fn lemma_lens_entries(
    names: Seq<Seq<char>>,
    active: Option<Seq<char>>,
    k: nat,
    i: int,
)
    requires
        k <= names.len(),
    ensures
        lens_entries(names, active, k).len() == 10 + k,
        forall|j: int|
            0 <= j < 10 ==> (#[trigger] lens_entries(names, active, k)[j]) == lens_entries(
                names,
                active,
                0,
            )[j],
        0 <= i < k ==> lens_entries(names, active, k)[10 + i] == MenuLineView::Entry(
            if active == Some(names[i]) {
                names[i] + " (active)"@
            } else {
                names[i]
            },
            MenuActionView::ApplyLens(names[i]),
        ),
    decreases k,
{
    if k > 0 {
        lemma_lens_entries(names, active, (k - 1) as nat, i);
    }
}

/// The background menu opens with what can be done to the map.
pub proof fn law_background_menu_opens(
    names: Seq<Seq<char>>,
    active: Option<Seq<char>>,
    default_filter: bool,
)
    ensures
        background_lines(names, active, default_filter).take(10) == seq![
            MenuLineView::Entry("Fit"@, MenuActionView::Fit),
            MenuLineView::Entry("Squeeze"@, MenuActionView::Squeeze),
            MenuLineView::Entry("Auto-arrange"@, MenuActionView::AutoArrange),
            MenuLineView::Entry("Zoom In"@, MenuActionView::ZoomIn),
            MenuLineView::Entry("Zoom Out"@, MenuActionView::ZoomOut),
            MenuLineView::Entry("Zoom 100%"@, MenuActionView::ZoomReset),
            MenuLineView::Entry("Undo"@, MenuActionView::Undo),
            MenuLineView::Entry("Redo"@, MenuActionView::Redo),
            MenuLineView::Separator,
            MenuLineView::Header("Lenses"@),
        ],
{
    lemma_lens_entries(names, active, names.len(), 0);
    let lines = background_lines(names, active, default_filter);
    let first = lens_entries(names, active, 0);
    assert forall|j: int| 0 <= j < 10 implies #[trigger] lines[j] == first[j] by {
        assert(lens_entries(names, active, names.len())[j] == first[j]);
    }
    assert(lines.take(10) =~= first);
}

/// Then it offers every lens, the active one marked.
pub proof fn law_background_menu_offers_every_lens(
    names: Seq<Seq<char>>,
    active: Option<Seq<char>>,
    default_filter: bool,
    i: int,
)
    requires
        0 <= i < names.len(),
    ensures
        active != Some(names[i]) ==> background_lines(names, active, default_filter)[10 + i]
            == MenuLineView::Entry(names[i], MenuActionView::ApplyLens(names[i])),
        active == Some(names[i]) ==> background_lines(names, active, default_filter)[10 + i]
            == MenuLineView::Entry(
            names[i] + " (active)"@,
            MenuActionView::ApplyLens(names[i]),
        ),
{
    lemma_lens_entries(names, active, names.len(), i);
}

/// It ends with what can be done to the lenses, a way back to the default
/// filter where another one is set, and the checkpoint.
pub proof fn law_background_menu_ends(names: Seq<Seq<char>>, name: Seq<char>)
    ensures
        ({
            let from = 10 + names.len() as int;
            let save = MenuLineView::Entry("Save "@ + name, MenuActionView::SaveActiveLens);
            let new = MenuLineView::Entry("New lens\u{2026}"@, MenuActionView::SaveLensPrompt);
            let delete = MenuLineView::Entry(
                "Delete Lens "@ + name,
                MenuActionView::DeleteLens(name),
            );
            let clear = MenuLineView::Entry("Clear Filter"@, MenuActionView::ClearFilter);
            let checkpoint = MenuLineView::Entry("Checkpoint Now"@, MenuActionView::Checkpoint);
            let bar = MenuLineView::Separator;
            &&& background_lines(names, Some(name), true).skip(from) == seq![
                save,
                new,
                delete,
                bar,
                checkpoint,
            ]
            &&& background_lines(names, Some(name), false).skip(from) == seq![
                save,
                new,
                delete,
                clear,
                bar,
                checkpoint,
            ]
            &&& background_lines(names, None, true).skip(from) == seq![new, bar, checkpoint]
            &&& background_lines(names, None, false).skip(from) == seq![
                new,
                clear,
                bar,
                checkpoint,
            ]
        }),
{
    lemma_lens_entries(names, Some(name), names.len(), 0);
    lemma_lens_entries(names, None, names.len(), 0);
}

/// The menu of a node is that of its status, then the detail panel and the
/// checkpoint.
pub proof fn law_node_menu_ends(current: Option<Status>)
    ensures
        node_menu_lines(current) == status_choices(current, 9) + seq![
            MenuLineView::Separator,
            MenuLineView::Entry("Open detail panel"@, MenuActionView::ToggleDetail),
            MenuLineView::Entry("Checkpoint now"@, MenuActionView::Checkpoint),
        ],
{
}

/// Hovering over a chip tells what a click on it does.
pub proof fn law_chip_tells_what_a_click_does(status: Status)
    ensures
        chip_tooltip(status, true) == status.label_text() + " \u{2014} click to "@ + "hide"@,
        chip_tooltip(status, false) == status.label_text() + " \u{2014} click to "@ + "show"@,
{
}

} // verus!
