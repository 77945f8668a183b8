//! Changes to the map: moves, layouts, status changes, undo and redo. Each
//! gives the events that record it, in the order in which they are to be
//! appended to the log.

use crate::geometry::{clamp_position, clamped, grid_position, grid_slot};
use crate::map::{node_views, short_ids_fit, MapNode, MapState, NodeView, WorkcatMapView};
use crate::model::{
    has_id8, move_views, op_id_fits, ItemMeta, ItemView, Lens, LensView, Op, OpView, Position,
};
use crate::number::{equal_numbers, same_number};
use crate::status::Status;
use crate::text::{decimal, join, same_text, to_decimal};
use vstd::prelude::*;

verus! {

// ---------------------------------------------------------------------
// Events
// ---------------------------------------------------------------------

/// A change to be recorded in the event log.
#[derive(Debug, PartialEq)]
pub enum MapEvent {
    NodeMoved(String, Position),
    StatusSet(String, Status),
    LensSaved(Lens),
    LensDeleted(String),
    /// A brief section replaced as a whole: item id, heading and text.
    BriefEdited(String, String, String),
}

/// The mathematical value of a [`MapEvent`].
pub enum MapEventView {
    NodeMoved(Seq<char>, Position),
    StatusSet(Seq<char>, Status),
    LensSaved(LensView),
    LensDeleted(Seq<char>),
    BriefEdited(Seq<char>, Seq<char>, Seq<char>),
}

impl View for MapEvent {
    type V = MapEventView;

    open spec fn view(&self) -> MapEventView {
        match self {
            MapEvent::NodeMoved(id, at) => MapEventView::NodeMoved(id@, *at),
            MapEvent::StatusSet(id, status) => MapEventView::StatusSet(id@, *status),
            MapEvent::LensSaved(lens) => MapEventView::LensSaved(lens@),
            MapEvent::LensDeleted(name) => MapEventView::LensDeleted(name@),
            MapEvent::BriefEdited(id, heading, text) => MapEventView::BriefEdited(
                id@,
                heading@,
                text@,
            ),
        }
    }
}

pub open spec fn event_views(v: Seq<MapEvent>) -> Seq<MapEventView> {
    v.map_values(|e: MapEvent| e@)
}

/// The count of pending events after `n` more.
pub open spec fn counted(pending: nat, n: nat) -> nat {
    if pending + n > usize::MAX {
        usize::MAX as nat
    } else {
        pending + n
    }
}

/// The events that moves give, to their new or to their old places.
pub open spec fn move_events(
    moves: Seq<(Seq<char>, Position, Position)>,
    backward: bool,
) -> Seq<MapEventView> {
    moves.map_values(
        |m: (Seq<char>, Position, Position)|
            MapEventView::NodeMoved(
                m.0,
                if backward {
                    m.1
                } else {
                    m.2
                },
            ),
    )
}

impl MapState {
    /// The state with `n` more events pending.
    pub open spec fn with_pending(self, n: nat) -> MapState {
        MapState { pending_events: counted(self.pending_events, n), ..self }
    }

    /// The state with another status line.
    pub open spec fn saying(self, status: Seq<char>) -> MapState {
        MapState { status, ..self }
    }

    /// The id of the item that a node shows.
    pub open spec fn node_id(self, node: int) -> Seq<char> {
        self.items[self.nodes[node].item_ix as int].id
    }

    /// The first node at or after `from` that shows an item with this id; the
    /// number of nodes when there is none.
    pub open spec fn node_with_id(self, id: Seq<char>, from: int) -> int
        decreases self.nodes.len() - from,
    {
        if from >= self.nodes.len() || self.node_id(from) == id {
            from
        } else {
            self.node_with_id(id, from + 1)
        }
    }

    /// The state with a node moved.
    pub open spec fn with_node_at(self, node: int, at: Position) -> MapState {
        if 0 <= node < self.nodes.len() {
            MapState {
                nodes: self.nodes.update(node, NodeView { at, ..self.nodes[node] }),
                ..self
            }
        } else {
            self
        }
    }

    /// The state with an item placed, and its node moved.
    pub open spec fn with_place(self, id: Seq<char>, at: Position) -> MapState {
        let moved = self.with_node_at(self.node_with_id(id, 0), at);
        MapState { positions: moved.positions.insert(id, at), ..moved }
    }

    /// The state after the first `k` moves, to their new or to their old
    /// places.
    pub open spec fn with_moves(
        self,
        moves: Seq<(Seq<char>, Position, Position)>,
        backward: bool,
        k: nat,
    ) -> MapState
        decreases k,
    {
        if k == 0 {
            self
        } else {
            let m = moves[k - 1];
            self.with_moves(moves, backward, (k - 1) as nat).with_place(
                m.0,
                if backward {
                    m.1
                } else {
                    m.2
                },
            )
        }
    }
}

/// The first item at or after `from` with this id; the number of items when
/// there is none.
pub open spec fn item_with_id(items: Seq<ItemView>, id: Seq<char>, from: int) -> int
    decreases items.len() - from,
{
    if from >= items.len() || items[from].id == id {
        from
    } else {
        item_with_id(items, id, from + 1)
    }
}

/// Items with the status of one changed.
pub open spec fn with_item_status(items: Seq<ItemView>, ix: int, status: Status) -> Seq<ItemView> {
    if 0 <= ix < items.len() {
        items.update(ix, ItemView { status, ..items[ix] })
    } else {
        items
    }
}

impl MapState {
    /// The state after an operation is applied forward or backward, and the
    /// events that record this.
    pub open spec fn applied(self, op: OpView, backward: bool) -> (MapState, Seq<MapEventView>) {
        match op {
            OpView::Move(moves) => (
                self.with_moves(moves, backward, moves.len()).with_pending(moves.len()),
                move_events(moves, backward),
            ),
            OpView::SetStatus(id, from, to) => {
                let status = if backward {
                    from
                } else {
                    to
                };
                (
                    MapState {
                        items: with_item_status(
                            self.items,
                            item_with_id(self.items, id, 0),
                            status,
                        ),
                        ..self
                    }.with_pending(1).rebuilt(),
                    seq![MapEventView::StatusSet(id, status)],
                )
            },
        }
    }

    /// The state after an undo, and the events that record it.
    pub open spec fn undone(self) -> (MapState, Seq<MapEventView>) {
        match self.undo_stack.undone() {
            (stack, Some(op)) => {
                let r = MapState { undo_stack: stack, ..self }.applied(op, true);
                (
                    r.0.saying("undid ("@ + decimal(stack.undo.len()) + " left)"@),
                    r.1,
                )
            },
            (_, None) => (self.saying("nothing to undo"@), Seq::empty()),
        }
    }

    /// The state after a redo, and the events that record it.
    pub open spec fn redone(self) -> (MapState, Seq<MapEventView>) {
        match self.undo_stack.redone() {
            (stack, Some(op)) => {
                let r = MapState { undo_stack: stack, ..self }.applied(op, false);
                (
                    r.0.saying("redid ("@ + decimal(stack.redo.len()) + " redoable)"@),
                    r.1,
                )
            },
            (_, None) => (self.saying("nothing to redo"@), Seq::empty()),
        }
    }
}

/// A state that differs from a well-formed one outside nodes and items is
/// well-formed, given that its filter and its undo stack are in order.
pub proof fn lemma_same_scene(before: MapState, after: MapState)
    requires
        before.well_formed(),
        after.nodes == before.nodes,
        after.items == before.items,
        after.undo_stack.well_formed(),
        after.undo_stack.ids_fit(),
        short_ids_fit(after.items, after.filter.visible),
        after.focused_node matches Some(ix) ==> ix < after.nodes.len(),
    ensures
        after.well_formed(),
{
}

/// `before`, `n` in decimal and `after` in a row.
pub fn counted_text(before: &str, n: usize, after: &str) -> (r: String)
    ensures
        r@ == before@ + decimal(n as nat) + after@,
{
    let start = join(before, to_decimal(n as u64).as_str());
    join(start.as_str(), after)
}

impl WorkcatMapView {
    /// Show a status line.
    pub fn say(&mut self, status: String)
        ensures
            final(self)@ == old(self)@.saying(status@),
            old(self)@.well_formed() ==> final(self)@.well_formed(),
    {
        self.status = status;
    }

    /// Count events that are appended to the log.
    pub(crate) fn count_events(&mut self, n: usize)
        ensures
            final(self)@ == old(self)@.with_pending(n as nat),
            old(self)@.well_formed() ==> final(self)@.well_formed(),
    {
        if self.pending_events > usize::MAX - n {
            self.pending_events = usize::MAX;
        } else {
            self.pending_events = self.pending_events + n;
        }
    }

    /// The first node that shows an item with this id; the number of nodes
    /// when there is none.
    fn find_node(&self, id: &str) -> (r: usize)
        requires
            self@.well_formed(),
        ensures
            r == self@.node_with_id(id@, 0),
            r <= self.nodes@.len(),
    {
        let mut i: usize = 0;
        while i < self.nodes.len()
            invariant
                i <= self.nodes@.len(),
                self@.well_formed(),
                self@.node_with_id(id@, i as int) == self@.node_with_id(id@, 0),
            decreases self.nodes@.len() - i,
        {
            assert(self@.nodes[i as int] == self.nodes@[i as int]@);
            let item_ix = self.nodes[i].item_ix;
            assert(self@.items[item_ix as int] == self.items@[item_ix as int]@);
            if same_text(self.items[item_ix].id.as_str(), id) {
                return i;
            }
            i += 1;
        }
        i
    }

    /// The first node that shows an item with this id.
    pub fn node_ix_by_id(&self, id: &str) -> (r: Option<usize>)
        requires
            self@.well_formed(),
        ensures
            r == (if self@.node_with_id(id@, 0) < self@.nodes.len() {
                Some(self@.node_with_id(id@, 0) as usize)
            } else {
                None
            }),
    {
        let ix = self.find_node(id);
        if ix < self.nodes.len() {
            Some(ix)
        } else {
            None
        }
    }

    /// Move a node.
    pub(crate) fn set_node_at(&mut self, node: usize, at: Position)
        requires
            old(self)@.well_formed(),
            node < old(self)@.nodes.len(),
        ensures
            final(self)@ == old(self)@.with_node_at(node as int, at),
            final(self)@.well_formed(),
    {
        let ghost before = self.nodes@;
        let item_ix = self.nodes[node].item_ix;
        let label = self.nodes[node].label.clone();
        self.nodes.set(node, MapNode { item_ix, at, label });
        proof {
            assert(node_views(self.nodes@) =~= node_views(before).update(
                node as int,
                NodeView { at, ..node_views(before)[node as int] },
            ));
            assert forall|i: int| 0 <= i < self@.nodes.len() implies (
            #[trigger] self@.nodes[i]).item_ix < self@.items.len() && has_id8(
                self@.items[self@.nodes[i].item_ix as int].id,
            ) by {
                assert(old(self)@.nodes[i].item_ix < old(self)@.items.len());
            }
        }
    }

    /// Place an item and move its node.
    fn place_item(&mut self, id: String, at: Position)
        requires
            old(self)@.well_formed(),
        ensures
            final(self)@ == old(self)@.with_place(id@, at),
            final(self)@.well_formed(),
    {
        let node = self.find_node(id.as_str());
        if node < self.nodes.len() {
            self.set_node_at(node, at);
        }
        self.positions.insert(id, at);
    }

    pub(crate) fn find_item(&self, id: &str) -> (r: usize)
        ensures
            r == item_with_id(self@.items, id@, 0),
            r <= self.items@.len(),
            r < self.items@.len() ==> self@.items[r as int].id == id@,
    {
        let mut i: usize = 0;
        while i < self.items.len()
            invariant
                i <= self.items@.len(),
                item_with_id(self@.items, id@, i as int) == item_with_id(self@.items, id@, 0),
            decreases self.items@.len() - i,
        {
            assert(self@.items[i as int] == self.items@[i as int]@);
            if same_text(self.items[i].id.as_str(), id) {
                return i;
            }
            i += 1;
        }
        i
    }

    /// Change the status of an item.
    pub(crate) fn set_item_status(&mut self, ix: usize, status: Status)
        requires
            old(self)@.well_formed(),
            ix < old(self)@.items.len(),
            has_id8(old(self)@.items[ix as int].id),
        ensures
            final(self)@ == (MapState {
                items: with_item_status(old(self)@.items, ix as int, status),
                ..old(self)@
            }),
            final(self)@.well_formed(),
    {
        let ghost before = self@.items;
        let mut item = ItemMeta {
            id: String::new(),
            subject: String::new(),
            reference: String::new(),
            status,
            updated_at: None,
            depends_on: Vec::new(),
            sections: Vec::new(),
        };
        let ghost items0 = self.items@;
        std::mem::swap(&mut item, &mut self.items[ix]);
        item.status = status;
        self.items.set(ix, item);
        proof {
            assert(items0[ix as int]@ == before[ix as int]);
            assert(self@.items =~= with_item_status(before, ix as int, status));
            assert forall|i: int| 0 <= i < self@.items.len() implies (
            #[trigger] self@.items[i]).id == before[i].id && (i != ix ==> self@.items[i]
                == before[i]) by {}
        }
    }

    /// Apply one op in the undo (`backward = true`) or redo direction
    /// by updating local state and giving compensating events.
    /// Unlike a fresh status change, compensations do not checkpoint;
    /// they ride along with the next one.
    fn apply_op(&mut self, op: &Op, backward: bool) -> (r: Vec<MapEvent>)
        requires
            old(self)@.well_formed(),
            op_id_fits(op@),
        ensures
            (final(self)@, event_views(r@)) == old(self)@.applied(op@, backward),
            final(self)@.well_formed(),
    {
        let ghost start = self@;
        match op {
            Op::Move(moves) => {
                let ghost ms = move_views(moves@);
                let ghost wanted = move_events(ms, backward);
                let mut events: Vec<MapEvent> = Vec::new();
                let mut k: usize = 0;
                while k < moves.len()
                    invariant
                        k <= moves@.len(),
                        ms == move_views(moves@),
                        wanted == move_events(ms, backward),
                        self@ == start.with_moves(ms, backward, k as nat),
                        self@.well_formed(),
                        event_views(events@) == wanted.take(k as int),
                    decreases moves@.len() - k,
                {
                    let at = if backward {
                        moves[k].1
                    } else {
                        moves[k].2
                    };
                    let ghost before = events@;
                    assert(ms[k as int] == (moves@[k as int].0@, moves@[k as int].1,
                        moves@[k as int].2));
                    self.place_item(moves[k].0.clone(), at);
                    let event = MapEvent::NodeMoved(moves[k].0.clone(), at);
                    events.push(event);
                    assert(event_views(events@) =~= event_views(before).push(event@));
                    assert(wanted.take(k + 1) =~= wanted.take(k as int).push(wanted[k as int]));
                    k += 1;
                }
                assert(wanted.take(moves@.len() as int) =~= wanted);
                self.count_events(moves.len());
                events
            },
            Op::SetStatus(id, from, to) => {
                let status = if backward {
                    *from
                } else {
                    *to
                };
                let ix = self.find_item(id.as_str());
                if ix < self.items.len() {
                    self.set_item_status(ix, status);
                }
                self.count_events(1);
                self.rebuild_scene();
                let events = vec![MapEvent::StatusSet(id.clone(), status)];
                assert(event_views(events@) =~= seq![MapEventView::StatusSet(id@, status)]);
                events
            },
        }
    }

    /// Undo the last operation by compensating events.
    pub fn undo(&mut self) -> (r: Vec<MapEvent>)
        requires
            old(self)@.well_formed(),
        ensures
            (final(self)@, event_views(r@)) == old(self)@.undone(),
            final(self)@.well_formed(),
    {
        match self.undo_stack.undo() {
            Some(op) => {
                let left = self.undo_stack.undo_len();
                proof {
                    lemma_same_scene(old(self)@, self@);
                }
                let events = self.apply_op(&op, true);
                self.say(counted_text("undid (", left, " left)"));
                events
            },
            None => {
                self.say("nothing to undo".to_owned());
                let events: Vec<MapEvent> = Vec::new();
                assert(event_views(events@) =~= Seq::empty());
                events
            },
        }
    }

    /// Redo the last undone operation.
    pub fn redo(&mut self) -> (r: Vec<MapEvent>)
        requires
            old(self)@.well_formed(),
        ensures
            (final(self)@, event_views(r@)) == old(self)@.redone(),
            final(self)@.well_formed(),
    {
        match self.undo_stack.redo() {
            Some(op) => {
                let left = self.undo_stack.redo_len();
                proof {
                    lemma_same_scene(old(self)@, self@);
                }
                let events = self.apply_op(&op, false);
                self.say(counted_text("redid (", left, " redoable)"));
                events
            },
            None => {
                proof {
                    lemma_same_scene(old(self)@, self@);
                }
                self.say("nothing to redo".to_owned());
                let events: Vec<MapEvent> = Vec::new();
                assert(event_views(events@) =~= Seq::empty());
                events
            },
        }
    }
}

// ---------------------------------------------------------------------
// Layouts
// ---------------------------------------------------------------------

/// Whether two places are the same.
pub open spec fn same_place(a: Position, b: Position) -> bool {
    equal_numbers(a.x, b.x) && equal_numbers(a.y, b.y)
}

pub fn is_same_place(a: Position, b: Position) -> (r: bool)
    ensures
        r == same_place(a, b),
{
    same_number(a.x, b.x) && same_number(a.y, b.y)
}

/// One gesture's moves: the id of each moved item, and where it moved from
/// and to.
pub type Moves = Seq<(Seq<char>, Position, Position)>;

impl MapState {
    /// The state after the first `k` targets of a layout, and the moves they
    /// made. A target that names no node, or the place where the node
    /// stands, makes none.
    pub open spec fn laid(self, targets: Seq<(usize, Position)>, k: nat) -> (MapState, Moves)
        decreases k,
    {
        if k == 0 {
            (self, Seq::empty())
        } else {
            let (state, moves) = self.laid(targets, (k - 1) as nat);
            let ix = targets[k - 1].0 as int;
            let at = targets[k - 1].1;
            if ix >= state.nodes.len() || same_place(state.nodes[ix].at, at) {
                (state, moves)
            } else {
                let id = state.node_id(ix);
                let moved = state.with_node_at(ix, at);
                (
                    MapState { positions: moved.positions.insert(id, at), ..moved },
                    moves.push((id, state.nodes[ix].at, at)),
                )
            }
        }
    }

    /// The state with moves recorded as one undo step, and the events that
    /// record them.
    pub open spec fn recorded(self, moves: Moves) -> (MapState, Seq<MapEventView>) {
        let pending = self.with_pending(moves.len());
        (
            if moves.len() == 0 {
                pending
            } else {
                MapState {
                    undo_stack: pending.undo_stack.pushed(OpView::Move(moves)),
                    ..pending
                }
            },
            move_events(moves, false),
        )
    }

    /// The state after a layout, and the events that record it.
    pub open spec fn arranged(self, targets: Seq<(usize, Position)>) -> (
        MapState,
        Seq<MapEventView>,
    ) {
        let (state, moves) = self.laid(targets, targets.len());
        state.recorded(moves)
    }

    /// The grid slots of all nodes, in their order.
    pub open spec fn grid_targets(self) -> Seq<(usize, Position)> {
        Seq::new(
            self.nodes.len(),
            |slot: int| (slot as usize, grid_slot(slot, self.nodes.len() as int)),
        )
    }

    /// The state after the nodes are put on the grid, and the events that
    /// record it.
    pub open spec fn auto_arranged(self) -> (MapState, Seq<MapEventView>) {
        let (state, events) = self.arranged(self.grid_targets());
        (
            state.saying(
                if events.len() == 0 {
                    "already arranged"@
                } else {
                    "arranged "@ + decimal(events.len()) + " nodes"@
                },
            ),
            events,
        )
    }

    /// The state after the nodes are squeezed into blocks, and the events that
    /// record it.
    pub open spec fn squeezed(self, targets: Seq<(usize, Position)>, blocks: nat) -> (
        MapState,
        Seq<MapEventView>,
    ) {
        if self.nodes.len() == 0 {
            (self.saying("nothing to squeeze"@), Seq::empty())
        } else {
            let (state, events) = self.arranged(
                targets.map_values(|t: (usize, Position)| (t.0, clamped(t.1))),
            );
            (
                state.saying(
                    if events.len() == 0 {
                        "already packed"@
                    } else {
                        "squeezed "@ + decimal(blocks) + " blocks ("@ + decimal(events.len())
                            + " nodes)"@
                    },
                ),
                events,
            )
        }
    }
}

impl WorkcatMapView {
    /// Record moves as one undo step, and give the events that record them.
    pub(crate) fn record_moves(&mut self, moves: Vec<(String, Position, Position)>) -> (r: Vec<MapEvent>)
        requires
            old(self)@.well_formed(),
        ensures
            (final(self)@, event_views(r@)) == old(self)@.recorded(move_views(moves@)),
            r@.len() == moves@.len(),
            final(self)@.well_formed(),
    {
        let ghost ms = move_views(moves@);
        let ghost wanted = move_events(ms, false);
        let mut events: Vec<MapEvent> = Vec::new();
        let mut k: usize = 0;
        while k < moves.len()
            invariant
                k <= moves@.len(),
                ms == move_views(moves@),
                wanted == move_events(ms, false),
                events@.len() == k,
                event_views(events@) == wanted.take(k as int),
            decreases moves@.len() - k,
        {
            let ghost before = events@;
            let event = MapEvent::NodeMoved(moves[k].0.clone(), moves[k].2);
            assert(ms[k as int] == (moves@[k as int].0@, moves@[k as int].1, moves@[k as int].2));
            events.push(event);
            assert(event_views(events@) =~= event_views(before).push(event@));
            assert(wanted.take(k + 1) =~= wanted.take(k as int).push(wanted[k as int]));
            k += 1;
        }
        assert(wanted.take(moves@.len() as int) =~= wanted);
        self.count_events(moves.len());
        if moves.len() > 0 {
            let ghost mid = self@;
            self.undo_stack.push(Op::Move(moves));
            proof {
                lemma_same_scene(mid, self@);
            }
        }
        events
    }

    /// Apply `(node_ix, target)` moves as one undoable operation, giving a
    /// `node_moved` event per changed node.
    pub fn apply_layout(&mut self, targets: &Vec<(usize, Position)>) -> (r: Vec<MapEvent>)
        requires
            old(self)@.well_formed(),
        ensures
            (final(self)@, event_views(r@)) == old(self)@.arranged(targets@),
            final(self)@.well_formed(),
    {
        let ghost start = self@;
        let mut moves: Vec<(String, Position, Position)> = Vec::new();
        let mut k: usize = 0;
        assert(move_views(moves@) =~= Seq::empty());
        while k < targets.len()
            invariant
                k <= targets@.len(),
                self@.well_formed(),
                (self@, move_views(moves@)) == start.laid(targets@, k as nat),
            decreases targets@.len() - k,
        {
            let (ix, at) = targets[k];
            if ix < self.nodes.len() {
                assert(self@.nodes[ix as int] == self.nodes@[ix as int]@);
                let from = self.nodes[ix].at;
                if !is_same_place(from, at) {
                    let item_ix = self.nodes[ix].item_ix;
                    assert(self@.nodes[ix as int].item_ix < self@.items.len());
                    assert(self@.items[item_ix as int] == self.items@[item_ix as int]@);
                    let id = self.items[item_ix].id.clone();
                    let ghost before = moves@;
                    self.set_node_at(ix, at);
                    let ghost mid = self@;
                    self.positions.insert(id.clone(), at);
                    proof {
                        lemma_same_scene(mid, self@);
                    }
                    moves.push((id, from, at));
                    assert(move_views(moves@) =~= move_views(before).push((id@, from, at)));
                }
            }
            k += 1;
        }
        self.record_moves(moves)
    }

    /// Re-lay out the currently visible nodes on the deterministic
    /// grid (their current sorted order), recording one undo step.
    pub fn auto_arrange(&mut self) -> (r: Vec<MapEvent>)
        requires
            old(self)@.well_formed(),
        ensures
            (final(self)@, event_views(r@)) == old(self)@.auto_arranged(),
            final(self)@.well_formed(),
    {
        let count: usize = self.nodes.len();
        let ghost wanted = self@.grid_targets();
        let mut targets: Vec<(usize, Position)> = Vec::new();
        let mut slot: usize = 0;
        while slot < count
            invariant
                slot <= count,
                count == wanted.len(),
                count == old(self)@.nodes.len(),
                wanted == old(self)@.grid_targets(),
                targets@ == wanted.take(slot as int),
            decreases count - slot,
        {
            targets.push((slot, grid_position(slot, count)));
            assert(wanted.take(slot + 1) =~= wanted.take(slot as int).push(wanted[slot as int]));
            slot += 1;
        }
        assert(wanted.take(count as int) =~= wanted);
        let events = self.apply_layout(&targets);
        assert(event_views(events@).len() == events@.len());
        if events.len() == 0 {
            self.say("already arranged".to_owned());
        } else {
            self.say(counted_text("arranged ", events.len(), " nodes"));
        }
        events
    }

    /// Move the nodes to the places of a squeeze into so many blocks, but not
    /// out of the field, recording one undo step.
    pub fn apply_squeeze(&mut self, targets: &Vec<(usize, Position)>, blocks: usize) -> (r: Vec<
        MapEvent,
    >)
        requires
            old(self)@.well_formed(),
        ensures
            (final(self)@, event_views(r@)) == old(self)@.squeezed(targets@, blocks as nat),
            final(self)@.well_formed(),
    {
        if self.nodes.len() == 0 {
            self.say("nothing to squeeze".to_owned());
            let events: Vec<MapEvent> = Vec::new();
            assert(event_views(events@) =~= Seq::empty());
            return events;
        }
        let ghost wanted = targets@.map_values(|t: (usize, Position)| (t.0, clamped(t.1)));
        let mut inside: Vec<(usize, Position)> = Vec::new();
        let mut k: usize = 0;
        while k < targets.len()
            invariant
                k <= targets@.len(),
                wanted == targets@.map_values(|t: (usize, Position)| (t.0, clamped(t.1))),
                inside@ == wanted.take(k as int),
            decreases targets@.len() - k,
        {
            inside.push((targets[k].0, clamp_position(targets[k].1)));
            assert(wanted.take(k + 1) =~= wanted.take(k as int).push(wanted[k as int]));
            k += 1;
        }
        assert(wanted.take(targets@.len() as int) =~= wanted);
        let events = self.apply_layout(&inside);
        assert(event_views(events@).len() == events@.len());
        if events.len() == 0 {
            self.say("already packed".to_owned());
        } else {
            let start = counted_text("squeezed ", blocks, " blocks (");
            self.say(counted_text(start.as_str(), events.len(), " nodes)"));
        }
        events
    }
}

} // verus!
