//! What undo and redo do to the nodes and items of the map.

use crate::map::MapState;
use crate::map_edit::{item_with_id, MapEventView};
use crate::model::{ItemView, OpView, Position};
use crate::status::Status;
use crate::text::decimal;
use vstd::prelude::*;

verus! {

/// Whether node `n` is the first that shows an item with this id.
pub open spec fn first_shown(state: MapState, id: Seq<char>, n: int) -> bool {
    &&& 0 <= n < state.nodes.len()
    &&& state.items[state.nodes[n].item_ix as int].id == id
    &&& forall|m: int|
        0 <= m < n ==> state.items[(#[trigger] state.nodes[m]).item_ix as int].id != id
}

proof fn lemma_node_found(state: MapState, id: Seq<char>, from: int, n: int)
    requires
        first_shown(state, id, n),
        0 <= from <= n,
    ensures
        state.node_with_id(id, from) == n,
    decreases n - from,
{
    if from < n {
        assert(state.items[state.nodes[from].item_ix as int].id != id);
        lemma_node_found(state, id, from + 1, n);
    }
}

proof fn lemma_other_node(state: MapState, id: Seq<char>, from: int, n: int)
    requires
        0 <= n < state.nodes.len(),
        state.items[state.nodes[n].item_ix as int].id != id,
        0 <= from,
    ensures
        state.node_with_id(id, from) >= from,
        state.node_with_id(id, from) != n,
    decreases state.nodes.len() - from,
{
    if from < state.nodes.len() && state.node_id(from) != id {
        lemma_other_node(state, id, from + 1, n);
    }
}

proof fn lemma_moved_shape(
    state: MapState,
    moves: Seq<(Seq<char>, Position, Position)>,
    backward: bool,
    k: nat,
)
    requires
        k <= moves.len(),
    ensures
        state.with_moves(moves, backward, k).items == state.items,
        state.with_moves(moves, backward, k).nodes.len() == state.nodes.len(),
        forall|m: int|
            0 <= m < state.nodes.len() ==> (#[trigger] state.with_moves(
                moves,
                backward,
                k,
            ).nodes[m]).item_ix == state.nodes[m].item_ix && state.with_moves(
                moves,
                backward,
                k,
            ).nodes[m].label == state.nodes[m].label,
    decreases k,
{
    if k > 0 {
        lemma_moved_shape(state, moves, backward, (k - 1) as nat);
    }
}

proof fn lemma_moved(
    state: MapState,
    moves: Seq<(Seq<char>, Position, Position)>,
    backward: bool,
    k: nat,
    i: int,
    n: int,
)
    requires
        0 <= i < moves.len(),
        k <= moves.len(),
        forall|a: int| 0 <= a < moves.len() && a != i ==> (#[trigger] moves[a]).0 != moves[i].0,
        first_shown(state, moves[i].0, n),
    ensures
        state.with_moves(moves, backward, k).nodes[n].at == (if i >= k {
            state.nodes[n].at
        } else if backward {
            moves[i].1
        } else {
            moves[i].2
        }),
    decreases k,
{
    if k > 0 {
        let before = state.with_moves(moves, backward, (k - 1) as nat);
        lemma_moved(state, moves, backward, (k - 1) as nat, i, n);
        lemma_moved_shape(state, moves, backward, (k - 1) as nat);
        assert(before.nodes[n].item_ix == state.nodes[n].item_ix);
        if i == k - 1 {
            assert(first_shown(before, moves[i].0, n)) by {
                assert forall|m: int| 0 <= m < n implies before.items[(
                #[trigger] before.nodes[m]).item_ix as int].id != moves[i].0 by {
                    assert(before.nodes[m].item_ix == state.nodes[m].item_ix);
                }
            }
            lemma_node_found(before, moves[i].0, 0, n);
        } else {
            assert(moves[k - 1].0 != moves[i].0);
            lemma_other_node(before, moves[k - 1].0, 0, n);
        }
    }
}

proof fn lemma_unmoved(
    state: MapState,
    moves: Seq<(Seq<char>, Position, Position)>,
    backward: bool,
    k: nat,
    n: int,
)
    requires
        k <= moves.len(),
        0 <= n < state.nodes.len(),
        forall|a: int|
            0 <= a < moves.len() ==> (#[trigger] moves[a]).0
                != state.items[state.nodes[n].item_ix as int].id,
    ensures
        state.with_moves(moves, backward, k).nodes[n] == state.nodes[n],
    decreases k,
{
    if k > 0 {
        let before = state.with_moves(moves, backward, (k - 1) as nat);
        lemma_unmoved(state, moves, backward, (k - 1) as nat, n);
        lemma_moved_shape(state, moves, backward, (k - 1) as nat);
        assert(moves[k - 1].0 != state.items[state.nodes[n].item_ix as int].id);
        lemma_other_node(before, moves[k - 1].0, 0, n);
    }
}

/// Undoing moves takes the node of every moved item back to where it was, and
/// redoing them takes it to where it went. A node whose item did not move
/// stays.
pub proof fn law_undo_moves_the_nodes(
    state: MapState,
    moves: Seq<(Seq<char>, Position, Position)>,
    i: int,
    n: int,
)
    requires
        0 <= n < state.nodes.len(),
    ensures
        ({
            let back = state.applied(OpView::Move(moves), true).0.nodes;
            let forth = state.applied(OpView::Move(moves), false).0.nodes;
            let id = state.items[state.nodes[n].item_ix as int].id;
            &&& back.len() == state.nodes.len() && forth.len() == state.nodes.len()
            &&& 0 <= i < moves.len() && first_shown(state, moves[i].0, n) && (forall|a: int|
                0 <= a < moves.len() && a != i ==> (#[trigger] moves[a]).0 != moves[i].0)
                ==> back[n].at == moves[i].1 && forth[n].at == moves[i].2
            &&& (forall|a: int| 0 <= a < moves.len() ==> (#[trigger] moves[a]).0 != id)
                ==> back[n] == state.nodes[n] && forth[n] == state.nodes[n]
        }),
{
    lemma_moved_shape(state, moves, true, moves.len());
    lemma_moved_shape(state, moves, false, moves.len());
    if 0 <= i < moves.len() && first_shown(state, moves[i].0, n) && (forall|a: int|
        0 <= a < moves.len() && a != i ==> (#[trigger] moves[a]).0 != moves[i].0) {
        lemma_moved(state, moves, true, moves.len(), i, n);
        lemma_moved(state, moves, false, moves.len(), i, n);
    }
    if forall|a: int|
        0 <= a < moves.len() ==> (#[trigger] moves[a]).0
            != state.items[state.nodes[n].item_ix as int].id {
        lemma_unmoved(state, moves, true, moves.len(), n);
        lemma_unmoved(state, moves, false, moves.len(), n);
    }
}

/// Every move that is undone or redone is recorded as a move to where the item
/// then stands, and counts as pending.
pub proof fn law_undone_moves_are_recorded(
    state: MapState,
    moves: Seq<(Seq<char>, Position, Position)>,
    i: int,
)
    requires
        0 <= i < moves.len(),
    ensures
        ({
            let (back, undone) = state.applied(OpView::Move(moves), true);
            let (forth, redone) = state.applied(OpView::Move(moves), false);
            &&& undone.len() == moves.len() && redone.len() == moves.len()
            &&& undone[i] == MapEventView::NodeMoved(moves[i].0, moves[i].1)
            &&& redone[i] == MapEventView::NodeMoved(moves[i].0, moves[i].2)
            &&& state.pending_events + moves.len() <= usize::MAX ==> back.pending_events
                == state.pending_events + moves.len() && forth.pending_events
                == state.pending_events + moves.len()
        }),
{
    lemma_moved_pending(state, moves, true, moves.len());
    lemma_moved_pending(state, moves, false, moves.len());
}

proof fn lemma_moved_pending(
    state: MapState,
    moves: Seq<(Seq<char>, Position, Position)>,
    backward: bool,
    k: nat,
)
    ensures
        state.with_moves(moves, backward, k).pending_events == state.pending_events,
    decreases k,
{
    if k > 0 {
        lemma_moved_pending(state, moves, backward, (k - 1) as nat);
    }
}

proof fn lemma_item_found(items: Seq<ItemView>, id: Seq<char>, from: int, ix: int)
    requires
        0 <= from <= ix < items.len(),
        items[ix].id == id,
        forall|m: int| from <= m < ix ==> (#[trigger] items[m]).id != id,
    ensures
        item_with_id(items, id, from) == ix,
    decreases ix - from,
{
    if from < ix {
        assert(items[from].id != id);
        lemma_item_found(items, id, from + 1, ix);
    }
}

/// Undoing a status change sets the status of its item back, and redoing it
/// sets it again. Nothing else of the items changes, and one event records it.
pub proof fn law_undo_sets_the_status(
    state: MapState,
    id: Seq<char>,
    from: Status,
    to: Status,
    ix: int,
    other: int,
)
    requires
        0 <= ix < state.items.len(),
        state.items[ix].id == id,
        forall|m: int| 0 <= m < ix ==> (#[trigger] state.items[m]).id != id,
        0 <= other < state.items.len(),
        other != ix,
    ensures
        ({
            let (back, undone) = state.applied(OpView::SetStatus(id, from, to), true);
            let (forth, redone) = state.applied(OpView::SetStatus(id, from, to), false);
            &&& back.items.len() == state.items.len() && forth.items.len() == state.items.len()
            &&& back.items[ix] == (ItemView { status: from, ..state.items[ix] })
            &&& forth.items[ix] == (ItemView { status: to, ..state.items[ix] })
            &&& back.items[other] == state.items[other] && forth.items[other] == state.items[other]
            &&& undone == seq![MapEventView::StatusSet(id, from)]
            &&& redone == seq![MapEventView::StatusSet(id, to)]
            &&& state.pending_events < usize::MAX ==> back.pending_events == state.pending_events
                + 1 && forth.pending_events == state.pending_events + 1
        }),
{
    lemma_item_found(state.items, id, 0, ix);
}

/// An undo takes back the last edit that was not taken back, and a redo makes
/// the last one that was; the status line counts what is left.
pub proof fn law_undo_takes_back_the_last_edit(state: MapState)
    ensures
        ({
            let undo = state.undo_stack.undo;
            let redo = state.undo_stack.redo;
            let (back, undone) = state.undone();
            let (forth, redone) = state.redone();
            &&& undo.len() > 0 ==> {
                let popped = MapState { undo_stack: state.undo_stack.undone().0, ..state };
                &&& undone == popped.applied(undo[undo.len() - 1], true).1
                &&& back.items == popped.applied(undo[undo.len() - 1], true).0.items
                &&& back.nodes == popped.applied(undo[undo.len() - 1], true).0.nodes
                &&& back.positions == popped.applied(undo[undo.len() - 1], true).0.positions
                &&& back.status == "undid ("@ + decimal((undo.len() - 1) as nat) + " left)"@
            }
            &&& undo.len() == 0 ==> undone.len() == 0 && back == (MapState {
                status: "nothing to undo"@,
                ..state
            })
            &&& redo.len() > 0 ==> {
                let popped = MapState { undo_stack: state.undo_stack.redone().0, ..state };
                &&& redone == popped.applied(redo[redo.len() - 1], false).1
                &&& forth.items == popped.applied(redo[redo.len() - 1], false).0.items
                &&& forth.nodes == popped.applied(redo[redo.len() - 1], false).0.nodes
                &&& forth.positions == popped.applied(redo[redo.len() - 1], false).0.positions
                &&& forth.status == "redid ("@ + decimal((redo.len() - 1) as nat)
                    + " redoable)"@
            }
            &&& redo.len() == 0 ==> redone.len() == 0 && forth == (MapState {
                status: "nothing to redo"@,
                ..state
            })
        }),
{
}

/// A checkpoint that is asked for while none runs starts.
pub proof fn law_checkpoint_starts(state: MapState)
    requires
        !state.checkpoint_running,
    ensures
        state.checkpoint_asked() == (MapState {
            checkpoint_running: true,
            status: "checkpoint starting..."@,
            ..state
        }),
{
}

} // verus!
