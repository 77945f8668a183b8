//! Laws of the map: what its operations keep, undo and record.

use crate::map::{
    edges_from, ids_at, item_keys, last_with_id8, lemma_shown_in_range, scene_edges, scene_order,
    shown, with_slots, MapState,
};
use crate::map_edit::{counted, item_with_id, move_events, MapEventView, Moves};
use crate::map_session::CheckpointEnd;
use crate::model::{id8_of, FilterView, ItemView, OpView, Position};
use crate::order::{law_stable_order_exists, stable_order_of};
use crate::status::Status;
use vstd::prelude::*;

verus! {

// ---------------------------------------------------------------------
// The scene
// ---------------------------------------------------------------------

proof fn lemma_shown_contains(items: Seq<ItemView>, filter: FilterView, i: int)
    requires
        0 <= i < items.len() <= usize::MAX,
    ensures
        shown(items, filter).contains(i as usize) == filter.shows(
            items[i].status,
            items[i].subject,
            items[i].reference,
        ),
    decreases items.len(),
{
    let before = shown(items.drop_last(), filter);
    let last = (items.len() - 1) as usize;
    let after = before.push(last);
    lemma_shown_in_range(items.drop_last(), filter);
    assert(after[before.len() as int] == last);
    if i < items.len() - 1 {
        lemma_shown_contains(items.drop_last(), filter, i);
        if before.contains(i as usize) {
            let k = choose|k: int| 0 <= k < before.len() && before[k] == i as usize;
            assert(after[k] == i as usize);
        }
        if after.contains(i as usize) {
            let k = choose|k: int| 0 <= k < after.len() && after[k] == i as usize;
            assert(before[k] == i as usize);
        }
    } else if before.contains(last) {
        let k = choose|k: int| 0 <= k < before.len() && before[k] == last;
        assert(before[k] < items.len() - 1);
    }
}

pub(crate) proof fn lemma_order(items: Seq<ItemView>, filter: FilterView)
    requires
        items.len() <= usize::MAX,
    ensures
        scene_order(items, filter).len() == shown(items, filter).len(),
        forall|k: int|
            0 <= k < scene_order(items, filter).len() ==> (#[trigger] scene_order(items, filter)[k])
                < items.len(),
        forall|x: usize| #[trigger]
            scene_order(items, filter).contains(x) == shown(items, filter).contains(x),
{
    let places = shown(items, filter);
    let keys = item_keys(items, places);
    let order = stable_order_of(keys);
    let out = scene_order(items, filter);
    lemma_shown_in_range(items, filter);
    law_stable_order_exists(keys);
    assert forall|k: int| 0 <= k < out.len() implies (#[trigger] out[k]) < items.len() by {
        assert(out[k] == places[order[k] as int]);
    }
    assert forall|x: usize| #[trigger] out.contains(x) == places.contains(x) by {
        if places.contains(x) {
            let i = choose|i: int| 0 <= i < places.len() && places[i] == x;
            assert(order.contains(i as usize));
            let k = choose|k: int| 0 <= k < order.len() && order[k] == i as usize;
            assert(out[k] == x);
        }
        if out.contains(x) {
            let k = choose|k: int| 0 <= k < out.len() && out[k] == x;
            assert(places[order[k] as int] == x);
        }
    }
}

/// The scene shows exactly the items that the filter shows.
pub proof fn law_scene_shows_filtered(state: MapState, i: int)
    requires
        0 <= i < state.items.len() <= usize::MAX,
    ensures
        (exists|k: int|
            0 <= k < state.rebuilt().nodes.len() && (#[trigger] state.rebuilt().nodes[k]).item_ix
                == i) == state.filter.shows(
            state.items[i].status,
            state.items[i].subject,
            state.items[i].reference,
        ),
{
    let order = scene_order(state.items, state.filter);
    let nodes = state.rebuilt().nodes;
    lemma_order(state.items, state.filter);
    lemma_shown_contains(state.items, state.filter, i);
    if order.contains(i as usize) {
        let k = choose|k: int| 0 <= k < order.len() && order[k] == i as usize;
        assert(nodes[k].item_ix == i);
    }
    if exists|k: int| 0 <= k < nodes.len() && (#[trigger] nodes[k]).item_ix == i {
        let k = choose|k: int| 0 <= k < nodes.len() && (#[trigger] nodes[k]).item_ix == i;
        assert(order[k] == i as usize);
        assert(order.contains(i as usize));
    }
}

pub(crate) proof fn lemma_with_slots(
    ids: Seq<Seq<char>>,
    positions: Map<Seq<char>, Position>,
    k: nat,
    id: Seq<char>,
)
    requires
        k <= ids.len(),
    ensures
        positions.dom().contains(id) ==> with_slots(ids, positions, k).dom().contains(id)
            && with_slots(ids, positions, k)[id] == positions[id],
        with_slots(ids, positions, k).dom().contains(id) == (positions.dom().contains(id)
            || ids.take(k as int).contains(id)),
    decreases k,
{
    if k > 0 {
        lemma_with_slots(ids, positions, (k - 1) as nat, id);
        let prior = ids.take(k - 1);
        let now = ids.take(k as int);
        if prior.contains(id) {
            let j = choose|j: int| 0 <= j < prior.len() && prior[j] == id;
            assert(now[j] == id);
        }
        assert(now[k - 1] == ids[k - 1]);
        if now.contains(id) && id != ids[k - 1] {
            let j = choose|j: int| 0 <= j < now.len() && now[j] == id;
            assert(prior[j] == id);
        }
    }
}

/// A position that is known wins over the grid, and stays.
pub proof fn law_known_position_wins(state: MapState, k: int)
    requires
        state.items.len() <= usize::MAX,
        0 <= k < state.rebuilt().nodes.len(),
        state.positions.dom().contains(state.rebuilt().node_id(k)),
    ensures
        state.rebuilt().nodes[k].at == state.positions[state.rebuilt().node_id(k)],
{
    let order = scene_order(state.items, state.filter);
    let ids = ids_at(state.items, order);
    lemma_order(state.items, state.filter);
    lemma_with_slots(ids, state.positions, ids.len(), ids[k]);
}

/// A rebuild loses no known position.
pub proof fn law_rebuild_keeps_positions(state: MapState, id: Seq<char>)
    requires
        state.positions.dom().contains(id),
    ensures
        state.rebuilt().positions.dom().contains(id),
        state.rebuilt().positions[id] == state.positions[id],
{
    let ids = ids_at(state.items, scene_order(state.items, state.filter));
    lemma_with_slots(ids, state.positions, ids.len(), id);
}

proof fn lemma_slots_settled(ids: Seq<Seq<char>>, positions: Map<Seq<char>, Position>, k: nat)
    requires
        k <= ids.len(),
        forall|i: int| 0 <= i < ids.len() ==> positions.dom().contains(#[trigger] ids[i]),
    ensures
        with_slots(ids, positions, k) == positions,
    decreases k,
{
    if k > 0 {
        lemma_slots_settled(ids, positions, (k - 1) as nat);
        assert(positions.dom().contains(ids[k - 1]));
    }
}

/// Making the scene anew changes nothing when nothing else changed.
pub proof fn law_rebuild_is_idempotent(state: MapState)
    ensures
        state.rebuilt().rebuilt() == state.rebuilt(),
{
    let once = state.rebuilt();
    let ids = ids_at(state.items, scene_order(state.items, state.filter));
    assert forall|i: int| 0 <= i < ids.len() implies once.positions.dom().contains(
        #[trigger] ids[i],
    ) by {
        lemma_with_slots(ids, state.positions, ids.len(), ids[i]);
        assert(ids.take(ids.len() as int) =~= ids);
        assert(ids.contains(ids[i]));
    }
    lemma_slots_settled(ids, once.positions, ids.len());
    assert(once.rebuilt().selected =~= once.selected);
}

/// Only items that the scene shows stay selected.
pub proof fn law_selection_is_visible(state: MapState, id: Seq<char>)
    requires
        state.rebuilt().selected.contains(id),
    ensures
        state.selected.contains(id),
        exists|k: int|
            0 <= k < state.rebuilt().nodes.len() && #[trigger] state.rebuilt().node_id(k) == id,
{
    let order = scene_order(state.items, state.filter);
    let ids = ids_at(state.items, order);
    assert(ids.contains(id));
    let k = choose|k: int| 0 <= k < ids.len() && ids[k] == id;
    assert(state.rebuilt().node_id(k) == id);
}

proof fn lemma_last_in_range(ids: Seq<Seq<char>>, id8: Seq<char>)
    requires
        ids.len() <= usize::MAX,
    ensures
        last_with_id8(ids, id8) matches Some(ix) ==> ix < ids.len() && id8_of(ids[ix as int])
            == id8,
    decreases ids.len(),
{
    if ids.len() > 0 && id8_of(ids.last()) != id8 {
        lemma_last_in_range(ids.drop_last(), id8);
    }
}

pub(crate) proof fn lemma_edges_from(ids: Seq<Seq<char>>, node: usize, deps: Seq<Seq<char>>, e: int)
    requires
        ids.len() <= usize::MAX,
        0 <= e < edges_from(ids, node, deps).len(),
    ensures
        edges_from(ids, node, deps)[e].0 == node,
        edges_from(ids, node, deps)[e].1 < ids.len(),
        deps.contains(id8_of(ids[edges_from(ids, node, deps)[e].1 as int])),
    decreases deps.len(),
{
    let before = edges_from(ids, node, deps.drop_last());
    lemma_last_in_range(ids, deps.last());
    if e < before.len() {
        lemma_edges_from(ids, node, deps.drop_last(), e);
        let short = id8_of(ids[before[e].1 as int]);
        let i = choose|i: int|
            0 <= i < deps.drop_last().len() && deps.drop_last()[i] == short;
        assert(deps[i] == short);
    } else {
        assert(deps[deps.len() - 1] == deps.last());
    }
}

proof fn lemma_scene_edges(items: Seq<ItemView>, order: Seq<usize>, k: nat, e: int)
    requires
        k <= order.len() <= usize::MAX,
        0 <= e < scene_edges(items, order, k).len(),
    ensures
        ({
            let edge = scene_edges(items, order, k)[e];
            &&& edge.0 < k
            &&& edge.1 < order.len()
            &&& items[order[edge.0 as int] as int].depends_on.contains(
                id8_of(items[order[edge.1 as int] as int].id),
            )
        }),
    decreases k,
{
    if k > 0 {
        let before = scene_edges(items, order, (k - 1) as nat);
        if e < before.len() {
            lemma_scene_edges(items, order, (k - 1) as nat, e);
        } else {
            lemma_edges_from(
                ids_at(items, order),
                (k - 1) as usize,
                items[order[k - 1] as int].depends_on,
                e - before.len(),
            );
        }
    }
}

/// Every edge of the scene leads from a node to one that it depends on.
pub proof fn law_edges_are_dependencies(state: MapState, e: int)
    requires
        state.items.len() <= usize::MAX,
        0 <= e < state.rebuilt().edges.len(),
    ensures
        ({
            let scene = state.rebuilt();
            let (from, to) = scene.edges[e];
            &&& from < scene.nodes.len()
            &&& to < scene.nodes.len()
            &&& state.items[scene.nodes[from as int].item_ix as int].depends_on.contains(
                id8_of(scene.node_id(to as int)),
            )
        }),
{
    let order = scene_order(state.items, state.filter);
    lemma_order(state.items, state.filter);
    lemma_shown_in_range(state.items, state.filter);
    lemma_scene_edges(state.items, order, order.len(), e);
}

// ---------------------------------------------------------------------
// The log
// ---------------------------------------------------------------------

/// Positions after the moves that events record.
pub open spec fn replayed(
    positions: Map<Seq<char>, Position>,
    events: Seq<MapEventView>,
) -> Map<Seq<char>, Position>
    decreases events.len(),
{
    if events.len() == 0 {
        positions
    } else {
        let before = replayed(positions, events.drop_last());
        match events.last() {
            MapEventView::NodeMoved(id, at) => before.insert(id, at),
            _ => before,
        }
    }
}

proof fn lemma_replayed_push(
    positions: Map<Seq<char>, Position>,
    moves: Moves,
    m: (Seq<char>, Position, Position),
    backward: bool,
)
    ensures
        replayed(positions, move_events(moves.push(m), backward)) == replayed(
            positions,
            move_events(moves, backward),
        ).insert(
            m.0,
            if backward {
                m.1
            } else {
                m.2
            },
        ),
{
    let events = move_events(moves.push(m), backward);
    assert(events.drop_last() =~= move_events(moves, backward));
}

proof fn lemma_laid_replays(state: MapState, targets: Seq<(usize, Position)>, k: nat)
    ensures
        state.laid(targets, k).0.positions == replayed(
            state.positions,
            move_events(state.laid(targets, k).1, false),
        ),
        state.laid(targets, k).0.pending_events == state.pending_events,
    decreases k,
{
    if k > 0 {
        lemma_laid_replays(state, targets, (k - 1) as nat);
        let (before, moves) = state.laid(targets, (k - 1) as nat);
        let ix = targets[k - 1].0 as int;
        if state.laid(targets, k).1.len() > moves.len() {
            lemma_replayed_push(
                state.positions,
                moves,
                (before.node_id(ix), before.nodes[ix].at, targets[k - 1].1),
                false,
            );
        }
    } else {
        assert(move_events(Seq::empty(), false) =~= Seq::<MapEventView>::empty());
    }
}

/// A layout puts into the log what it does to the positions in memory.
pub proof fn law_layout_is_logged(state: MapState, targets: Seq<(usize, Position)>)
    ensures
        state.arranged(targets).0.positions == replayed(
            state.positions,
            state.arranged(targets).1,
        ),
        state.arranged(targets).0.pending_events == counted(
            state.pending_events,
            state.arranged(targets).1.len(),
        ),
{
    lemma_laid_replays(state, targets, targets.len());
}

proof fn lemma_dropped_replays(state: MapState, starts: Seq<(usize, Position)>, k: nat)
    ensures
        state.dropped(starts, k).0 == replayed(
            state.positions,
            move_events(state.dropped(starts, k).1, false),
        ),
    decreases k,
{
    if k > 0 {
        lemma_dropped_replays(state, starts, (k - 1) as nat);
        let (positions, moves) = state.dropped(starts, (k - 1) as nat);
        let ix = starts[k - 1].0 as int;
        if state.dropped(starts, k).1.len() > moves.len() {
            lemma_replayed_push(
                state.positions,
                moves,
                (state.node_id(ix), starts[k - 1].1, state.nodes[ix].at),
                false,
            );
        }
    } else {
        assert(move_events(Seq::empty(), false) =~= Seq::<MapEventView>::empty());
    }
}

/// A drag puts into the log what it does to the positions in memory; one that
/// counts as a click does nothing to either.
pub proof fn law_drag_is_logged(state: MapState, click: bool)
    requires
        state.pending_events <= usize::MAX,
    ensures
        state.released(click).0.positions == replayed(
            state.positions,
            state.released(click).1,
        ),
        state.released(click).0.pending_events == counted(
            state.pending_events,
            state.released(click).1.len(),
        ),
        click ==> state.released(click).1.len() == 0,
{
    let rest = MapState { drag: None, ..state };
    if let Some(drag) = state.drag {
        lemma_dropped_replays(rest, drag.starts, drag.starts.len());
    }
}

proof fn lemma_moves_replay(state: MapState, moves: Moves, backward: bool, k: nat)
    requires
        k <= moves.len(),
    ensures
        state.with_moves(moves, backward, k).positions == replayed(
            state.positions,
            move_events(moves.take(k as int), backward),
        ),
    decreases k,
{
    if k > 0 {
        lemma_moves_replay(state, moves, backward, (k - 1) as nat);
        assert(moves.take(k as int) =~= moves.take(k - 1).push(moves[k - 1]));
        lemma_replayed_push(state.positions, moves.take(k - 1), moves[k - 1], backward);
    } else {
        assert(move_events(moves.take(0), backward) =~= Seq::<MapEventView>::empty());
    }
}

/// Undoing or redoing moves puts into the log what it does to the positions in
/// memory: history is added to, never rewritten.
pub proof fn law_undone_moves_are_logged(state: MapState, moves: Moves, backward: bool)
    ensures
        state.applied(OpView::Move(moves), backward).0.positions == replayed(
            state.positions,
            state.applied(OpView::Move(moves), backward).1,
        ),
        state.applied(OpView::Move(moves), backward).1.len() == moves.len(),
{
    lemma_moves_replay(state, moves, backward, moves.len());
    assert(moves.take(moves.len() as int) =~= moves);
}

// ---------------------------------------------------------------------
// Undo
// ---------------------------------------------------------------------

proof fn lemma_replayed_value(
    positions: Map<Seq<char>, Position>,
    moves: Moves,
    backward: bool,
    i: int,
)
    requires
        0 <= i < moves.len(),
        forall|a: int, b: int|
            0 <= a < b < moves.len() ==> (#[trigger] moves[a]).0 != (#[trigger] moves[b]).0,
    ensures
        replayed(positions, move_events(moves, backward)).dom().contains(moves[i].0),
        replayed(positions, move_events(moves, backward))[moves[i].0] == (if backward {
            moves[i].1
        } else {
            moves[i].2
        }),
    decreases moves.len(),
{
    let short = moves.drop_last();
    let last = moves[moves.len() - 1];
    assert(short.push(last) =~= moves);
    lemma_replayed_push(positions, short, last, backward);
    if i < moves.len() - 1 {
        assert forall|a: int, b: int| 0 <= a < b < short.len() implies (#[trigger] short[a]).0 != (
        #[trigger] short[b]).0 by {
            assert(moves[a].0 != moves[b].0);
        }
        lemma_replayed_value(positions, short, backward, i);
        assert(moves[i].0 != moves[moves.len() - 1].0);
    }
}

proof fn lemma_replayed_other(
    positions: Map<Seq<char>, Position>,
    moves: Moves,
    backward: bool,
    id: Seq<char>,
)
    requires
        forall|i: int| 0 <= i < moves.len() ==> (#[trigger] moves[i]).0 != id,
    ensures
        replayed(positions, move_events(moves, backward)).dom().contains(id)
            == positions.dom().contains(id),
        replayed(positions, move_events(moves, backward))[id] == positions[id],
    decreases moves.len(),
{
    if moves.len() == 0 {
        assert(move_events(moves, backward) =~= Seq::<MapEventView>::empty());
    } else {
        let short = moves.drop_last();
        let last = moves[moves.len() - 1];
        assert(short.push(last) =~= moves);
        lemma_replayed_push(positions, short, last, backward);
        assert forall|i: int| 0 <= i < short.len() implies (#[trigger] short[i]).0 != id by {
            assert(moves[i].0 != id);
        }
        lemma_replayed_other(positions, short, backward, id);
    }
}

/// Undoing moves puts every moved item back where it was, redoing them puts it
/// where it went, and neither touches another item.
pub proof fn law_undo_restores_places(
    state: MapState,
    moves: Moves,
    backward: bool,
    i: int,
    other: Seq<char>,
)
    requires
        0 <= i < moves.len(),
        forall|a: int, b: int|
            0 <= a < b < moves.len() ==> (#[trigger] moves[a]).0 != (#[trigger] moves[b]).0,
        forall|a: int| 0 <= a < moves.len() ==> (#[trigger] moves[a]).0 != other,
    ensures
        ({
            let after = state.applied(OpView::Move(moves), backward).0.positions;
            &&& after.dom().contains(moves[i].0)
            &&& after[moves[i].0] == (if backward {
                moves[i].1
            } else {
                moves[i].2
            })
            &&& after.dom().contains(other) == state.positions.dom().contains(other)
            &&& after[other] == state.positions[other]
        }),
{
    law_undone_moves_are_logged(state, moves, backward);
    lemma_replayed_value(state.positions, moves, backward, i);
    lemma_replayed_other(state.positions, moves, backward, other);
}

proof fn lemma_item_found(items: Seq<ItemView>, id: Seq<char>, from: int)
    requires
        0 <= from <= items.len(),
    ensures
        from <= item_with_id(items, id, from) <= items.len(),
        item_with_id(items, id, from) < items.len() ==> items[item_with_id(items, id, from)].id
            == id,
    decreases items.len() - from,
{
    if from < items.len() && items[from].id != id {
        lemma_item_found(items, id, from + 1);
    }
}

/// Undoing a status change gives the item its former status, and redoing it
/// the later one; no other item changes.
pub proof fn law_undo_restores_status(
    state: MapState,
    id: Seq<char>,
    from: Status,
    to: Status,
    backward: bool,
    other: int,
)
    requires
        item_with_id(state.items, id, 0) < state.items.len(),
        0 <= other < state.items.len(),
        other != item_with_id(state.items, id, 0),
    ensures
        ({
            let after = state.applied(OpView::SetStatus(id, from, to), backward).0.items;
            &&& after[item_with_id(state.items, id, 0)].status == (if backward {
                from
            } else {
                to
            })
            &&& after[other] == state.items[other]
        }),
{
    lemma_item_found(state.items, id, 0);
}

// ---------------------------------------------------------------------
// Checkpoints
// ---------------------------------------------------------------------

/// A checkpoint that failed leaves every pending event pending.
pub proof fn law_failed_checkpoint_loses_nothing(state: MapState, error: String)
    ensures
        state.checkpoint_ended(CheckpointEnd::Failed(error)).pending_events
            == state.pending_events,
        !state.checkpoint_ended(CheckpointEnd::Failed(error)).checkpoint_running,
{
}

/// Asking for a checkpoint while one runs changes nothing but the status
/// line.
pub proof fn law_running_checkpoint_is_not_disturbed(state: MapState)
    requires
        state.checkpoint_running,
    ensures
        state.checkpoint_asked() == state.saying(state.checkpoint_asked().status),
{
}

} // verus!
