//! What edits of the map do to its nodes, items and log, told node by node.

use crate::geometry::{clamped, grid_slot, spanned, Rect};
use crate::map::MapState;
use crate::map_edit::{item_with_id, move_events, same_place, with_item_status, MapEventView};
use crate::map_session::{with_section, CheckpointEnd};
use crate::model::{section_body, ItemView, OpView, Position};
use crate::number::is_less;
use crate::status::Status;
use vstd::prelude::*;

verus! {

// ---------------------------------------------------------------------
// Layouts
// ---------------------------------------------------------------------

/// Whether no two targets of a layout name the same node.
pub open spec fn distinct_targets(targets: Seq<(usize, Position)>) -> bool {
    forall|i: int, j: int|
        0 <= i < j < targets.len() ==> (#[trigger] targets[i]).0 != (#[trigger] targets[j]).0
}

proof fn lemma_laid_frame(state: MapState, targets: Seq<(usize, Position)>, k: nat)
    requires
        k <= targets.len(),
    ensures
        ({
            let laid = state.laid(targets, k).0;
            &&& laid.nodes.len() == state.nodes.len()
            &&& laid.items == state.items
            &&& laid.undo_stack == state.undo_stack
            &&& laid.pending_events == state.pending_events
            &&& laid.filter == state.filter
            &&& laid.selected == state.selected
            &&& forall|n: int|
                0 <= n < state.nodes.len() ==> (#[trigger] laid.nodes[n]).item_ix
                    == state.nodes[n].item_ix
        }),
    decreases k,
{
    if k > 0 {
        lemma_laid_frame(state, targets, (k - 1) as nat);
    }
}

proof fn lemma_untouched(state: MapState, targets: Seq<(usize, Position)>, k: nat, n: int)
    requires
        k <= targets.len(),
        0 <= n < state.nodes.len(),
        forall|i: int| 0 <= i < k ==> (#[trigger] targets[i]).0 != n,
    ensures
        state.laid(targets, k).0.nodes[n] == state.nodes[n],
    decreases k,
{
    if k > 0 {
        lemma_laid_frame(state, targets, (k - 1) as nat);
        lemma_untouched(state, targets, (k - 1) as nat, n);
        assert(targets[k - 1].0 != n);
    }
}

proof fn lemma_laid(state: MapState, targets: Seq<(usize, Position)>, k: nat, j: int)
    requires
        0 <= j < k <= targets.len(),
        distinct_targets(targets),
        targets[j].0 < state.nodes.len(),
    ensures
        ({
            let (laid, moves) = state.laid(targets, k);
            let n = targets[j].0 as int;
            let stays = same_place(state.nodes[n].at, targets[j].1);
            &&& laid.nodes[n].at == if stays {
                state.nodes[n].at
            } else {
                targets[j].1
            }
            &&& !stays ==> moves.contains((state.node_id(n), state.nodes[n].at, targets[j].1))
        }),
    decreases k,
{
    let n = targets[j].0 as int;
    let before = state.laid(targets, (k - 1) as nat);
    lemma_laid_frame(state, targets, (k - 1) as nat);
    if j == k - 1 {
        assert forall|i: int| 0 <= i < k - 1 implies (#[trigger] targets[i]).0 != n by {
            assert(targets[i].0 != targets[j].0);
        }
        lemma_untouched(state, targets, (k - 1) as nat, n);
        let moves = state.laid(targets, k).1;
        if !same_place(state.nodes[n].at, targets[j].1) {
            assert(moves[before.1.len() as int] == (
                state.node_id(n),
                state.nodes[n].at,
                targets[j].1,
            ));
        }
    } else {
        lemma_laid(state, targets, (k - 1) as nat, j);
        assert(targets[j].0 != targets[k - 1].0);
        let moves = state.laid(targets, k).1;
        if !same_place(state.nodes[n].at, targets[j].1) {
            let m = (state.node_id(n), state.nodes[n].at, targets[j].1);
            let i = choose|i: int| 0 <= i < before.1.len() && before.1[i] == m;
            assert(moves[i] == m);
        }
    }
}

/// A layout puts every node that it names where it says and logs each that
/// moves; a node that stands there already stays unlogged.
pub proof fn law_layout_reaches_every_target(
    state: MapState,
    targets: Seq<(usize, Position)>,
    j: int,
)
    requires
        distinct_targets(targets),
        0 <= j < targets.len(),
        targets[j].0 < state.nodes.len(),
    ensures
        ({
            let (after, events) = state.arranged(targets);
            let n = targets[j].0 as int;
            let stays = same_place(state.nodes[n].at, targets[j].1);
            &&& after.nodes[n].at == if stays {
                state.nodes[n].at
            } else {
                targets[j].1
            }
            &&& !stays ==> events.contains(
                MapEventView::NodeMoved(state.node_id(n), targets[j].1),
            )
        }),
{
    lemma_laid(state, targets, targets.len(), j);
    let (laid, moves) = state.laid(targets, targets.len());
    let n = targets[j].0 as int;
    if !same_place(state.nodes[n].at, targets[j].1) {
        let m = (state.node_id(n), state.nodes[n].at, targets[j].1);
        let i = choose|i: int| 0 <= i < moves.len() && moves[i] == m;
        assert(move_events(moves, false)[i] == MapEventView::NodeMoved(m.0, m.2));
    }
}

/// A layout leaves every node alone that it does not name, and every item.
pub proof fn law_layout_leaves_others(state: MapState, targets: Seq<(usize, Position)>, n: int)
    requires
        0 <= n < state.nodes.len(),
        forall|i: int| 0 <= i < targets.len() ==> (#[trigger] targets[i]).0 != n,
    ensures
        state.arranged(targets).0.nodes[n] == state.nodes[n],
        state.arranged(targets).0.nodes.len() == state.nodes.len(),
        state.arranged(targets).0.items == state.items,
{
    lemma_laid_frame(state, targets, targets.len());
    lemma_untouched(state, targets, targets.len(), n);
}

/// What a layout moved is one step to undo, and as many events are pending as
/// it logged.
pub proof fn law_layout_is_one_step(state: MapState, targets: Seq<(usize, Position)>)
    requires
        state.undo_stack.well_formed(),
    ensures
        ({
            let (after, events) = state.arranged(targets);
            let moves = state.laid(targets, targets.len()).1;
            &&& events.len() == moves.len()
            &&& events.len() == 0 ==> after.undo_stack == state.undo_stack
            &&& events.len() > 0 ==> after.undo_stack.undo.last() == OpView::Move(moves)
                && after.undo_stack.redo.len() == 0
            &&& state.pending_events + events.len() <= usize::MAX ==> after.pending_events
                == state.pending_events + events.len()
        }),
{
    lemma_laid_frame(state, targets, targets.len());
}

/// Arranging puts every node into the grid slot of its place.
pub proof fn law_arranging_fills_the_grid(state: MapState, n: int)
    requires
        0 <= n < state.nodes.len() <= usize::MAX,
    ensures
        ({
            let (after, events) = state.auto_arranged();
            let slot = grid_slot(n, state.nodes.len() as int);
            if same_place(state.nodes[n].at, slot) {
                after.nodes[n].at == state.nodes[n].at
            } else {
                after.nodes[n].at == slot && events.contains(
                    MapEventView::NodeMoved(state.node_id(n), slot),
                )
            }
        }),
{
    let targets = state.grid_targets();
    assert forall|i: int, j: int| 0 <= i < j < targets.len() implies (#[trigger] targets[i]).0 != (
    #[trigger] targets[j]).0 by {}
    assert(targets[n].0 == n);
    law_layout_reaches_every_target(state, targets, n);
}

// ---------------------------------------------------------------------
// Drags
// ---------------------------------------------------------------------

proof fn lemma_selected_starts(state: MapState, k: nat, n: int)
    requires
        k <= state.nodes.len() <= usize::MAX,
        0 <= n < state.nodes.len(),
    ensures
        (exists|i: int|
            0 <= i < state.selected_starts(k).len() && (#[trigger] state.selected_starts(k)[i]).0
                == n) == (n < k && state.selected.contains(state.node_id(n))),
        forall|i: int|
            0 <= i < state.selected_starts(k).len() ==> (#[trigger] state.selected_starts(k)[i]).0
                < k && state.selected_starts(k)[i].1 == state.nodes[state.selected_starts(
                k,
            )[i].0 as int].at,
    decreases k,
{
    if k > 0 {
        lemma_selected_starts(state, (k - 1) as nat, n);
        let before = state.selected_starts((k - 1) as nat);
        let all = state.selected_starts(k);
        if exists|i: int| 0 <= i < before.len() && (#[trigger] before[i]).0 == n {
            let i = choose|i: int| 0 <= i < before.len() && (#[trigger] before[i]).0 == n;
            assert(all[i].0 == n);
        }
        if n == k - 1 && state.selected.contains(state.node_id(n)) {
            assert(all[before.len() as int].0 == n);
        }
        assert forall|i: int| 0 <= i < all.len() implies (#[trigger] all[i]).0 < k && all[i].1
            == state.nodes[all[i].0 as int].at by {
            if i < before.len() {
                assert(all[i] == before[i]);
            }
        }
        if exists|i: int| 0 <= i < all.len() && (#[trigger] all[i]).0 == n {
            let i = choose|i: int| 0 <= i < all.len() && (#[trigger] all[i]).0 == n;
            if i < before.len() {
                assert(before[i].0 == n);
            }
        }
    }
}

/// A press on one of several selected nodes takes up all of them, each from
/// where it stands; a press on any other node takes up that node alone. The
/// pressed node gets the focus.
pub proof fn law_press_takes_up_the_selection(state: MapState, node: usize, n: int)
    requires
        node < state.nodes.len() <= usize::MAX,
        0 <= n < state.nodes.len(),
    ensures
        ({
            let after = state.pressed(node);
            let group = state.selected.contains(state.node_id(node as int)) && state.selected.len()
                > 1;
            let starts = after.drag->0.starts;
            &&& after.focused_node == Some(node)
            &&& after.selected == state.selected
            &&& after.drag is Some && after.drag->0.pressed_ix == node
            &&& group ==> (exists|i: int| 0 <= i < starts.len() && (#[trigger] starts[i]).0 == n)
                == state.selected.contains(state.node_id(n))
            &&& !group ==> starts == seq![(node, state.nodes[node as int].at)]
            &&& forall|i: int|
                0 <= i < starts.len() ==> (#[trigger] starts[i]).1 == state.nodes[starts[
                    i
                ].0 as int].at
        }),
{
    lemma_selected_starts(state, state.nodes.len(), n);
    let all = state.selected_starts(state.nodes.len());
    let starts = state.pressed(node).drag->0.starts;
    if state.selected.contains(state.node_id(node as int)) && state.selected.len() > 1 {
        assert(starts == all);
        assert((exists|i: int| 0 <= i < starts.len() && (#[trigger] starts[i]).0 == n)
            == state.selected.contains(state.node_id(n)));
        assert forall|i: int| 0 <= i < starts.len() implies (#[trigger] starts[i]).1
            == state.nodes[starts[i].0 as int].at by {
            assert(all[i].1 == state.nodes[all[i].0 as int].at);
        }
    }
}

proof fn lemma_dragged_frame(
    state: MapState,
    starts: Seq<(usize, Position)>,
    places: Seq<Position>,
    k: nat,
    n: int,
)
    requires
        k <= starts.len(),
    ensures
        state.dragged(starts, places, k).nodes.len() == state.nodes.len(),
        state.dragged(starts, places, k).items == state.items,
        state.dragged(starts, places, k).positions == state.positions,
        0 <= n < state.nodes.len() && (forall|i: int| 0 <= i < k ==> (#[trigger] starts[i]).0 != n)
            ==> state.dragged(starts, places, k).nodes[n] == state.nodes[n],
    decreases k,
{
    if k > 0 {
        lemma_dragged_frame(state, starts, places, (k - 1) as nat, n);
        if forall|i: int| 0 <= i < k ==> (#[trigger] starts[i]).0 != n {
            assert(starts[k - 1].0 != n);
        }
    }
}

/// While it is dragged every taken-up node follows the pointer, as far as the
/// field goes; the others stay, and no known position changes before the
/// drag comes to rest.
pub proof fn law_drag_moves_what_it_took_up(
    state: MapState,
    starts: Seq<(usize, Position)>,
    places: Seq<Position>,
    k: nat,
    j: int,
    n: int,
)
    requires
        k <= starts.len(),
        distinct_targets(starts),
    ensures
        0 <= j < k && starts[j].0 < state.nodes.len() ==> state.dragged(starts, places, k).nodes[
            starts[j].0 as int
        ].at == clamped(places[j]),
        0 <= n < state.nodes.len() && (forall|i: int| 0 <= i < k ==> (#[trigger] starts[i]).0 != n)
            ==> state.dragged(starts, places, k).nodes[n] == state.nodes[n],
        state.dragged(starts, places, k).positions == state.positions,
    decreases k,
{
    lemma_dragged_frame(state, starts, places, k, n);
    if k > 0 && 0 <= j < k {
        lemma_dragged_frame(state, starts, places, (k - 1) as nat, n);
        if j < k - 1 {
            law_drag_moves_what_it_took_up(state, starts, places, (k - 1) as nat, j, n);
            assert(starts[j].0 != starts[k - 1].0);
        }
    }
}

proof fn lemma_dropped(state: MapState, starts: Seq<(usize, Position)>, k: nat, j: int)
    requires
        0 <= j < k <= starts.len(),
        starts[j].0 < state.nodes.len(),
        !same_place(state.nodes[starts[j].0 as int].at, starts[j].1),
    ensures
        ({
            let n = starts[j].0 as int;
            state.dropped(starts, k).1.contains(
                (state.node_id(n), starts[j].1, state.nodes[n].at),
            )
        }),
    decreases k,
{
    let n = starts[j].0 as int;
    let m = (state.node_id(n), starts[j].1, state.nodes[n].at);
    let before = state.dropped(starts, (k - 1) as nat).1;
    let all = state.dropped(starts, k).1;
    if j == k - 1 {
        assert(all[before.len() as int] == m);
    } else {
        lemma_dropped(state, starts, (k - 1) as nat, j);
        let i = choose|i: int| 0 <= i < before.len() && before[i] == m;
        assert(all[i] == m);
    }
}

/// A real drag logs every node that it moved, with where it came to rest; a
/// click logs nothing and moves nothing.
pub proof fn law_drop_logs_every_move(state: MapState, j: int)
    requires
        state.drag is Some,
        state.drag->0.pressed_ix < state.nodes.len(),
        0 <= j < state.drag->0.starts.len(),
        state.drag->0.starts[j].0 < state.nodes.len(),
    ensures
        ({
            let start = state.drag->0.starts[j];
            let n = start.0 as int;
            let (after, events) = state.released(false);
            &&& after.drag is None
            &&& after.nodes == state.nodes
            &&& !same_place(state.nodes[n].at, start.1) ==> events.contains(
                MapEventView::NodeMoved(state.node_id(n), state.nodes[n].at),
            )
        }),
        ({
            let (after, events) = state.released(true);
            &&& events.len() == 0
            &&& after == (MapState { drag: None, ..state })
        }),
{
    let starts = state.drag->0.starts;
    let rest = MapState { drag: None, ..state };
    let n = starts[j].0 as int;
    if !same_place(state.nodes[n].at, starts[j].1) {
        lemma_dropped(rest, starts, starts.len(), j);
        let moves = rest.dropped(starts, starts.len()).1;
        let m = (rest.node_id(n), starts[j].1, rest.nodes[n].at);
        let i = choose|i: int| 0 <= i < moves.len() && moves[i] == m;
        assert(move_events(moves, false)[i] == MapEventView::NodeMoved(m.0, m.2));
    }
}

// ---------------------------------------------------------------------
// Selections
// ---------------------------------------------------------------------

/// Whether a node's box and a rectangle overlap.
pub open spec fn overlaps(corner: Position, far: Position, rect: Rect) -> bool {
    &&& is_less(corner.x, rect.max.x) && is_less(rect.min.x, far.x)
    &&& is_less(corner.y, rect.max.y) && is_less(rect.min.y, far.y)
}

proof fn lemma_inside(state: MapState, rect: Rect, fars: Seq<Position>, k: nat, id: Seq<char>)
    requires
        k <= state.nodes.len(),
    ensures
        state.ids_inside(rect, fars, k).contains(id) == exists|n: int|
            0 <= n < k && overlaps((#[trigger] state.nodes[n]).at, fars[n], rect) && state.node_id(n)
                == id,
    decreases k,
{
    if k > 0 {
        lemma_inside(state, rect, fars, (k - 1) as nat, id);
        if overlaps(state.nodes[k - 1].at, fars[k - 1], rect) && state.node_id(k - 1) == id {
            let n = k - 1;
            assert(overlaps(state.nodes[n].at, fars[n], rect) && state.node_id(n) == id);
        }
    }
}

/// A rectangle selects just the items whose nodes it overlaps; a click on the
/// background selects none.
pub proof fn law_rectangle_selects_what_it_overlaps(
    state: MapState,
    from: Position,
    to: Position,
    fars: Seq<Position>,
    id: Seq<char>,
)
    ensures
        state.rect_selected(false, from, to, fars).selected.contains(id) == exists|n: int|
            0 <= n < state.nodes.len() && overlaps(
                (#[trigger] state.nodes[n]).at,
                fars[n],
                spanned(from, to),
            ) && state.items[state.nodes[n].item_ix as int].id == id,
        !state.rect_selected(true, from, to, fars).selected.contains(id),
{
    lemma_inside(state, spanned(from, to), fars, state.nodes.len(), id);
}

// ---------------------------------------------------------------------
// Statuses and sections
// ---------------------------------------------------------------------

/// Setting a status changes the focused item alone, logs that one change, can
/// be undone, and takes the node off the map just when the filter hides the
/// new status.
pub proof fn law_status_change_is_recorded(state: MapState, status: Status, node: usize)
    requires
        state.focused_node == Some(node),
        node < state.nodes.len(),
        state.nodes[node as int].item_ix < state.items.len(),
        state.items[state.nodes[node as int].item_ix as int].status != status,
        state.undo_stack.well_formed(),
    ensures
        ({
            let ix = state.nodes[node as int].item_ix as int;
            let item = state.items[ix];
            let (after, events) = state.status_changed(status);
            &&& events == seq![MapEventView::StatusSet(item.id, status)]
            &&& after.items.len() == state.items.len()
            &&& after.items[ix] == (ItemView { status, ..item })
            &&& forall|i: int|
                0 <= i < state.items.len() && i != ix ==> #[trigger] after.items[i]
                    == state.items[i]
            &&& after.undo_stack.undo.last() == OpView::SetStatus(item.id, item.status, status)
            &&& state.filter.visible.contains(status) ==> after.nodes == state.nodes && after.edges
                == state.edges
            &&& !state.filter.visible.contains(status) ==> after.nodes == (MapState {
                items: after.items,
                ..state
            }).rebuilt().nodes
            &&& state.pending_events < usize::MAX ==> after.pending_events == state.pending_events
                + 1
        }),
{
    let ix = state.nodes[node as int].item_ix as int;
    let item = state.items[ix];
    let changed = MapState {
        items: with_item_status(state.items, ix, status),
        undo_stack: state.undo_stack.pushed(OpView::SetStatus(item.id, item.status, status)),
        ..state
    };
    let bare = MapState { items: with_item_status(state.items, ix, status), ..state };
    assert(changed.rebuilt().nodes == bare.rebuilt().nodes);
}

/// Setting the status that an item has, or one without a focused item, logs
/// nothing and changes no item.
pub proof fn law_idle_status_change_logs_nothing(state: MapState, status: Status)
    requires
        state.focused_node is None || state.items[state.nodes[
            state.focused_node->0 as int
        ].item_ix as int].status == status,
    ensures
        state.status_changed(status).1.len() == 0,
        state.status_changed(status).0.items == state.items,
        state.status_changed(status).0.nodes == state.nodes,
{
}

proof fn lemma_item_with_id(items: Seq<ItemView>, id: Seq<char>, from: int, ix: int)
    requires
        0 <= from <= ix < items.len(),
        items[ix].id == id,
        forall|i: int| from <= i < ix ==> (#[trigger] items[i]).id != id,
    ensures
        item_with_id(items, id, from) == ix,
    decreases ix - from,
{
    if from < ix {
        assert(items[from].id != id);
        lemma_item_with_id(items, id, from + 1, ix);
    }
}

/// Saving a section changes that section of the first item with the id, and
/// nothing else of any item; it logs the whole text once, and not at all when
/// the text is there already.
pub proof fn law_section_save_is_recorded(
    state: MapState,
    id: Seq<char>,
    heading: Seq<char>,
    text: Seq<char>,
    ix: int,
)
    requires
        0 <= ix < state.items.len(),
        state.items[ix].id == id,
        forall|i: int| 0 <= i < ix ==> (#[trigger] state.items[i]).id != id,
    ensures
        ({
            let (after, events, _) = state.section_saved(id, heading, text);
            let had = section_body(state.items[ix].sections, heading);
            let same = had == Some(text) || had is None && text.len() == 0;
            &&& same ==> events.len() == 0 && after.items == state.items
            &&& !same ==> {
                &&& events == seq![MapEventView::BriefEdited(id, heading, text)]
                &&& after.items.len() == state.items.len()
                &&& section_body(after.items[ix].sections, heading) == Some(text)
                &&& after.items[ix] == (ItemView {
                    sections: after.items[ix].sections,
                    ..state.items[ix]
                })
                &&& forall|i: int|
                    0 <= i < state.items.len() && i != ix ==> #[trigger] after.items[i]
                        == state.items[i]
                &&& state.pending_events < usize::MAX ==> after.pending_events
                    == state.pending_events + 1
            }
        }),
{
    lemma_item_with_id(state.items, id, 0, ix);
    crate::map_session::law_saved_section_reads_back(state.items[ix].sections, heading, text);
    if text.len() == 0 {
        assert(text =~= Seq::<char>::empty());
    }
}

/// A save leaves every other section as it was.
pub proof fn law_section_save_leaves_others(
    sections: Seq<(Seq<char>, Seq<char>)>,
    heading: Seq<char>,
    text: Seq<char>,
    other: int,
)
    requires
        0 <= other < sections.len(),
        crate::text::lowered(sections[other].0) != crate::text::lowered(heading),
    ensures
        other < with_section(sections, heading, text).len(),
        with_section(sections, heading, text)[other] == sections[other],
{
    lemma_place_matches(sections, heading);
}

proof fn lemma_place_matches(sections: Seq<(Seq<char>, Seq<char>)>, name: Seq<char>)
    ensures
        crate::model::section_place(sections, name) < sections.len() ==> crate::text::lowered(
            sections[crate::model::section_place(sections, name) as int].0,
        ) == crate::text::lowered(name),
    decreases sections.len(),
{
    if sections.len() > 0 && crate::text::lowered(sections[0].0) != crate::text::lowered(name) {
        lemma_place_matches(sections.skip(1), name);
    }
}

// ---------------------------------------------------------------------
// Checkpoints
// ---------------------------------------------------------------------

/// A checkpoint that went well leaves nothing pending, and none runs after one
/// ended, however it did.
pub proof fn law_checkpoint_end_is_noted(state: MapState, end: CheckpointEnd)
    ensures
        !state.checkpoint_ended(end).checkpoint_running,
        end !is Failed ==> state.checkpoint_ended(end).pending_events == 0,
        end is Failed ==> state.checkpoint_ended(end).pending_events == state.pending_events,
        state.checkpoint_ended(end).items == state.items,
        state.checkpoint_ended(end).nodes == state.nodes,
        state.checkpoint_ended(end).undo_stack == state.undo_stack,
{
}

} // verus!
