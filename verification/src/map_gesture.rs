//! Gestures on the map: focus, drags of one node or of a selection, and
//! rectangle selection. The window adds and subtracts coordinates; what its
//! sums mean is decided here.

use crate::geometry::{
    bounds, clamp_position, clamped, is_click, meets, node_in_rect, nodes_bbox, normalize_rect,
    spanned, within_slop, Rect,
};
use crate::map::{DragState, DragView, MapState, WorkcatMapView};
use crate::map_edit::{
    counted_text, event_views, lemma_same_scene, same_place, MapEvent, MapEventView, Moves,
};
use crate::model::{move_views, ItemMeta, ItemView, Position};
use crate::text::decimal;
use crate::textmap::TextMap;
use vstd::prelude::*;

verus! {

impl MapState {
    /// The first `k` nodes of the selection, with where they stand.
    pub open spec fn selected_starts(self, k: nat) -> Seq<(usize, Position)>
        decreases k,
    {
        if k == 0 {
            Seq::empty()
        } else {
            let before = self.selected_starts((k - 1) as nat);
            if self.selected.contains(self.node_id(k - 1)) {
                before.push(((k - 1) as usize, self.nodes[k - 1].at))
            } else {
                before
            }
        }
    }

    /// The state after a press on a node. Pressing a node of a selection of
    /// several drags them all; pressing another drags it alone and keeps the
    /// selection.
    pub open spec fn pressed(self, node: usize) -> MapState {
        if node >= self.nodes.len() {
            self
        } else {
            let starts = if self.selected.contains(self.node_id(node as int))
                && self.selected.len() > 1 {
                self.selected_starts(self.nodes.len())
            } else {
                seq![(node, self.nodes[node as int].at)]
            };
            MapState {
                focused_node: Some(node),
                drag: Some(DragView { pressed_ix: node, starts }),
                ..self
            }
        }
    }

    /// The state with the first `k` dragged nodes at the given places, or at
    /// the edge of the field.
    pub open spec fn dragged(
        self,
        starts: Seq<(usize, Position)>,
        places: Seq<Position>,
        k: nat,
    ) -> MapState
        decreases k,
    {
        if k == 0 {
            self
        } else {
            self.dragged(starts, places, (k - 1) as nat).with_node_at(
                starts[k - 1].0 as int,
                clamped(places[k - 1]),
            )
        }
    }

    /// The moves that the first `k` dragged nodes made, and the positions
    /// they give.
    pub open spec fn dropped(self, starts: Seq<(usize, Position)>, k: nat) -> (
        Map<Seq<char>, Position>,
        Moves,
    )
        decreases k,
    {
        if k == 0 {
            (self.positions, Seq::empty())
        } else {
            let (positions, moves) = self.dropped(starts, (k - 1) as nat);
            let ix = starts[k - 1].0 as int;
            let from = starts[k - 1].1;
            if ix >= self.nodes.len() || same_place(self.nodes[ix].at, from) {
                (positions, moves)
            } else {
                let id = self.node_id(ix);
                let at = self.nodes[ix].at;
                (positions.insert(id, at), moves.push((id, from, at)))
            }
        }
    }

    /// The state after a drag comes to rest, and the events that record it. A
    /// release that counts as a click moves nothing.
    pub open spec fn released(self, click: bool) -> (MapState, Seq<MapEventView>) {
        let rest = MapState { drag: None, ..self };
        match self.drag {
            Some(drag) => if drag.pressed_ix >= self.nodes.len() || click {
                (rest, Seq::empty())
            } else {
                let (positions, moves) = rest.dropped(drag.starts, drag.starts.len());
                MapState { positions, ..rest }.recorded(moves)
            },
            None => (rest, Seq::empty()),
        }
    }

    /// The ids of those of the first `k` nodes that meet a rectangle; `fars`
    /// are the bottom-right corners of the nodes.
    pub open spec fn ids_inside(self, rect: Rect, fars: Seq<Position>, k: nat) -> Set<Seq<char>>
        decreases k,
    {
        if k == 0 {
            Set::empty()
        } else {
            let before = self.ids_inside(rect, fars, (k - 1) as nat);
            if meets(self.nodes[k - 1].at, fars[k - 1], rect) {
                before.insert(self.node_id(k - 1))
            } else {
                before
            }
        }
    }

    /// The state after a rectangle selection from one corner to another. One
    /// that never grew past a click clears the selection.
    pub open spec fn rect_selected(
        self,
        click: bool,
        from: Position,
        to: Position,
        fars: Seq<Position>,
    ) -> MapState {
        if click {
            MapState { selected: Set::empty(), ..self }
        } else {
            let selected = self.ids_inside(spanned(from, to), fars, self.nodes.len());
            MapState { selected, ..self }.saying(decimal(selected.len()) + " selected"@)
        }
    }

    /// The state without focus, selection or lens naming.
    pub open spec fn unfocused(self) -> MapState {
        MapState { focused_node: None, selected: Set::empty(), naming_lens: false, ..self }
    }

    /// The item that the focused node shows.
    pub open spec fn focused_item(self) -> Option<ItemView> {
        match self.focused_node {
            Some(ix) => if ix < self.nodes.len() {
                Some(self.items[self.nodes[ix as int].item_ix as int])
            } else {
                None
            },
            None => None,
        }
    }
}

impl WorkcatMapView {
    /// The item that the focused node shows.
    pub fn focused_item(&self) -> (r: Option<&ItemMeta>)
        requires
            self@.well_formed(),
        ensures
            r is Some == self@.focused_item() is Some,
            r matches Some(item) ==> self@.focused_item() == Some(item@),
    {
        match self.focused_node {
            Some(ix) => if ix < self.nodes.len() {
                assert(self@.nodes[ix as int] == self.nodes@[ix as int]@);
                let item_ix = self.nodes[ix].item_ix;
                assert(self@.nodes[ix as int].item_ix < self@.items.len());
                assert(self@.items[item_ix as int] == self.items@[item_ix as int]@);
                Some(&self.items[item_ix])
            } else {
                None
            },
            None => None,
        }
    }

    /// Whether the item that a node shows is selected.
    pub fn node_selected(&self, node: usize) -> (r: bool)
        requires
            self@.well_formed(),
            node < self@.nodes.len(),
        ensures
            r == self@.selected.contains(self@.node_id(node as int)),
    {
        assert(self@.nodes[node as int] == self.nodes@[node as int]@);
        let item_ix = self.nodes[node].item_ix;
        assert(self@.nodes[node as int].item_ix < self@.items.len());
        assert(self@.items[item_ix as int] == self.items@[item_ix as int]@);
        self.selected.contains_key(self.items[item_ix].id.as_str())
    }

    fn collect_starts(&self) -> (r: Vec<(usize, Position)>)
        requires
            self@.well_formed(),
        ensures
            r@ == self@.selected_starts(self@.nodes.len()),
    {
        let mut out: Vec<(usize, Position)> = Vec::new();
        let mut k: usize = 0;
        while k < self.nodes.len()
            invariant
                k <= self.nodes@.len(),
                self@.well_formed(),
                out@ == self@.selected_starts(k as nat),
            decreases self.nodes@.len() - k,
        {
            assert(self@.nodes[k as int] == self.nodes@[k as int]@);
            if self.node_selected(k) {
                out.push((k, self.nodes[k].at));
            }
            k += 1;
        }
        out
    }

    /// Start dragging a node, or the selection it belongs to.
    pub fn begin_drag(&mut self, node_ix: usize)
        requires
            old(self)@.well_formed(),
        ensures
            final(self)@ == old(self)@.pressed(node_ix),
            final(self)@.well_formed(),
    {
        if node_ix >= self.nodes.len() {
            return;
        }
        assert(self@.nodes[node_ix as int] == self.nodes@[node_ix as int]@);
        let several = self.selected.len() > 1;
        let starts = if self.node_selected(node_ix) && several {
            self.collect_starts()
        } else {
            vec![(node_ix, self.nodes[node_ix].at)]
        };
        self.focused_node = Some(node_ix);
        self.drag = Some(DragState { pressed_ix: node_ix, starts });
        proof {
            lemma_same_scene(old(self)@, self@);
            assert(self@.drag->0.starts =~= old(self)@.pressed(node_ix).drag->0.starts);
        }
    }

    /// Move the dragged nodes to the given places, one for each in the order
    /// of the drag, but not out of the field.
    pub fn update_drag(&mut self, places: &Vec<Position>)
        requires
            old(self)@.well_formed(),
            old(self)@.drag matches Some(drag) ==> places@.len() == drag.starts.len(),
        ensures
            final(self)@ == (match old(self)@.drag {
                Some(drag) => old(self)@.dragged(drag.starts, places@, drag.starts.len()),
                None => old(self)@,
            }),
            final(self)@.well_formed(),
    {
        let ghost start = self@;
        let mut taken: Option<DragState> = None;
        std::mem::swap(&mut taken, &mut self.drag);
        if let Some(drag) = taken {
            let ghost without = self@;
            proof {
                lemma_same_scene(start, without);
            }
            let mut k: usize = 0;
            while k < drag.starts.len()
                invariant
                    k <= drag.starts@.len(),
                    places@.len() == drag.starts@.len(),
                    without == (MapState { drag: None, ..start }),
                    start.drag == Some(drag@),
                    self@.well_formed(),
                    self@ == without.dragged(drag.starts@, places@, k as nat),
                    self@ == (MapState {
                        drag: None,
                        ..start.dragged(drag.starts@, places@, k as nat)
                    }),
                decreases drag.starts@.len() - k,
            {
                let ix = drag.starts[k].0;
                if ix < self.nodes.len() {
                    self.set_node_at(ix, clamp_position(places[k]));
                }
                k += 1;
            }
            proof {
                lemma_dragged_keeps_drag(start, drag.starts@, places@, drag.starts@.len());
            }
            let ghost mid = self@;
            self.drag = Some(drag);
            proof {
                lemma_same_scene(mid, self@);
            }
        }
    }

    /// Where the pressed node started and where it stands now.
    pub fn drag_travel(&self) -> (r: Option<(Position, Position)>)
        requires
            self@.well_formed(),
        ensures
            r == self@.travel(),
    {
        match &self.drag {
            Some(drag) => {
                if drag.pressed_ix >= self.nodes.len() {
                    return None;
                }
                assert(self@.nodes[drag.pressed_ix as int] == self.nodes@[drag.pressed_ix as int]@);
                let now = self.nodes[drag.pressed_ix].at;
                let mut k: usize = 0;
                while k < drag.starts.len()
                    invariant
                        k <= drag.starts@.len(),
                        start_of(drag.starts@, drag.pressed_ix, k as int) == start_of(
                            drag.starts@,
                            drag.pressed_ix,
                            0,
                        ),
                        self.drag == Some(*drag),
                        drag.pressed_ix < self.nodes@.len(),
                        now == self@.nodes[drag.pressed_ix as int].at,
                    decreases drag.starts@.len() - k,
                {
                    if drag.starts[k].0 == drag.pressed_ix {
                        return Some((drag.starts[k].1, now));
                    }
                    k += 1;
                }
                Some((now, now))
            },
            None => None,
        }
    }

    /// Gesture rest: a real drag gives one `node_moved` event per
    /// moved node (commit happens at the next checkpoint) and records one
    /// undo step for the whole gesture. A release within the click slop of
    /// where the pressed node started only focuses; `dx` and `dy` are how far
    /// it went.
    pub fn end_drag(&mut self, dx: u64, dy: u64) -> (r: Vec<MapEvent>)
        requires
            old(self)@.well_formed(),
        ensures
            (final(self)@, event_views(r@)) == old(self)@.released(within_slop(dx, dy)),
            final(self)@.well_formed(),
    {
        let ghost start = self@;
        let mut taken: Option<DragState> = None;
        std::mem::swap(&mut taken, &mut self.drag);
        let ghost rest = self@;
        proof {
            lemma_same_scene(start, rest);
        }
        let none: Vec<MapEvent> = Vec::new();
        assert(event_views(none@) =~= Seq::empty());
        let drag = match taken {
            Some(drag) => drag,
            None => {
                return none;
            },
        };
        if drag.pressed_ix >= self.nodes.len() || is_click(dx, dy) {
            return none;
        }
        let mut moves: Vec<(String, Position, Position)> = Vec::new();
        let mut k: usize = 0;
        assert(move_views(moves@) =~= Seq::empty());
        while k < drag.starts.len()
            invariant
                k <= drag.starts@.len(),
                rest.well_formed(),
                self@ == (MapState { positions: self@.positions, ..rest }),
                (self@.positions, move_views(moves@)) == rest.dropped(drag.starts@, k as nat),
            decreases drag.starts@.len() - k,
        {
            let (ix, from) = drag.starts[k];
            if ix < self.nodes.len() {
                assert(self@.nodes[ix as int] == self.nodes@[ix as int]@);
                let at = self.nodes[ix].at;
                if !crate::map_edit::is_same_place(at, from) {
                    let item_ix = self.nodes[ix].item_ix;
                    assert(rest.nodes[ix as int].item_ix < rest.items.len());
                    assert(self@.items[item_ix as int] == self.items@[item_ix as int]@);
                    let id = self.items[item_ix].id.clone();
                    let ghost before = moves@;
                    self.positions.insert(id.clone(), at);
                    moves.push((id, from, at));
                    assert(move_views(moves@) =~= move_views(before).push((id@, from, at)));
                }
            }
            k += 1;
        }
        proof {
            lemma_same_scene(rest, self@);
        }
        self.record_moves(moves)
    }

    /// Start a gesture on the background, which clears the focus.
    pub fn begin_background_gesture(&mut self)
        requires
            old(self)@.well_formed(),
        ensures
            final(self)@ == (MapState { focused_node: None, ..old(self)@ }),
            final(self)@.well_formed(),
    {
        self.focused_node = None;
        proof {
            lemma_same_scene(old(self)@, self@);
        }
    }

    /// End a pan of the background that went so far; one within the click
    /// slop clears the selection.
    pub fn end_pan(&mut self, dx: u64, dy: u64)
        requires
            old(self)@.well_formed(),
        ensures
            final(self)@ == (if within_slop(dx, dy) {
                MapState { selected: Set::empty(), ..old(self)@ }
            } else {
                old(self)@
            }),
            final(self)@.well_formed(),
    {
        if is_click(dx, dy) {
            self.selected = TextMap::new();
            proof {
                assert(self@.selected =~= Set::empty());
                lemma_same_scene(old(self)@, self@);
            }
        }
    }

    /// Select the nodes that meet the rectangle from one corner to another,
    /// `dx` and `dy` apart; `fars` are the bottom-right corners of the nodes.
    pub fn finish_rect_select(
        &mut self,
        from: Position,
        to: Position,
        dx: u64,
        dy: u64,
        fars: &Vec<Position>,
    )
        requires
            old(self)@.well_formed(),
            fars@.len() == old(self)@.nodes.len(),
        ensures
            final(self)@ == old(self)@.rect_selected(within_slop(dx, dy), from, to, fars@),
            final(self)@.well_formed(),
    {
        let ghost start = self@;
        if is_click(dx, dy) {
            self.selected = TextMap::new();
            proof {
                assert(self@.selected =~= Set::empty());
                lemma_same_scene(start, self@);
            }
            return;
        }
        let rect = normalize_rect(from, to);
        let mut chosen: TextMap<()> = TextMap::new();
        let mut k: usize = 0;
        assert(chosen@.dom() =~= Set::empty());
        while k < self.nodes.len()
            invariant
                k <= self.nodes@.len(),
                self@ == start,
                start.well_formed(),
                fars@.len() == start.nodes.len(),
                rect == spanned(from, to),
                chosen@.dom() == start.ids_inside(rect, fars@, k as nat),
            decreases self.nodes@.len() - k,
        {
            assert(self@.nodes[k as int] == self.nodes@[k as int]@);
            if node_in_rect(self.nodes[k].at, fars[k], rect) {
                let item_ix = self.nodes[k].item_ix;
                assert(self@.nodes[k as int].item_ix < self@.items.len());
                assert(self@.items[item_ix as int] == self.items@[item_ix as int]@);
                let ghost before = chosen@;
                let id = self.items[item_ix].id.clone();
                chosen.insert(id, ());
                assert(chosen@.dom() =~= before.dom().insert(id@));
            }
            k += 1;
        }
        let count = chosen.len();
        self.selected = chosen;
        proof {
            lemma_same_scene(start, self@);
            assert(""@ + decimal(count as nat) =~= decimal(count as nat)) by {
                reveal_strlit("");
            }
        }
        self.say(counted_text("", count, " selected"));
    }

    /// Clear the focused node, the selection, and any pending lens naming.
    pub fn clear_focus(&mut self)
        requires
            old(self)@.well_formed(),
        ensures
            final(self)@ == old(self)@.unfocused(),
            final(self)@.well_formed(),
    {
        self.focused_node = None;
        self.selected = TextMap::new();
        self.naming_lens = false;
        proof {
            assert(self@.selected =~= Set::empty());
            lemma_same_scene(old(self)@, self@);
        }
    }

    /// Focus a node.
    pub fn focus_node(&mut self, node_ix: usize)
        requires
            old(self)@.well_formed(),
            node_ix < old(self)@.nodes.len(),
        ensures
            final(self)@ == (MapState { focused_node: Some(node_ix), ..old(self)@ }),
            final(self)@.well_formed(),
    {
        self.focused_node = Some(node_ix);
        proof {
            lemma_same_scene(old(self)@, self@);
        }
    }
}

impl MapState {
    /// Where the focused node stands.
    pub open spec fn focused_place(self) -> Option<Position> {
        match self.focused_node {
            Some(ix) => if ix < self.nodes.len() {
                Some(self.nodes[ix as int].at)
            } else {
                None
            },
            None => None,
        }
    }

    /// The corners of the nodes; `fars` are the bottom-right ones.
    pub open spec fn corners(self, fars: Seq<Position>) -> Seq<(Position, Position)> {
        Seq::new(self.nodes.len(), |i: int| (self.nodes[i].at, fars[i]))
    }
}

impl WorkcatMapView {
    /// The place of the focused node, for the window to center on.
    pub fn center_on_focused(&mut self) -> (r: Option<Position>)
        requires
            old(self)@.well_formed(),
        ensures
            r == old(self)@.focused_place(),
            final(self)@ == (if r is Some {
                old(self)@
            } else {
                old(self)@.saying("no focused item to locate"@)
            }),
            final(self)@.well_formed(),
    {
        if let Some(ix) = self.focused_node {
            if ix < self.nodes.len() {
                assert(self@.nodes[ix as int] == self.nodes@[ix as int]@);
                return Some(self.nodes[ix].at);
            }
        }
        self.say("no focused item to locate".to_owned());
        None
    }

    /// The bounding box of the visible nodes, for the window to center on;
    /// `fars` are the bottom-right corners of the nodes.
    pub fn fit(&mut self, fars: &Vec<Position>) -> (r: Option<Rect>)
        requires
            old(self)@.well_formed(),
            fars@.len() == old(self)@.nodes.len(),
        ensures
            r == bounds(old(self)@.corners(fars@)),
            final(self)@ == (if r is Some {
                old(self)@
            } else {
                old(self)@.saying("nothing to fit"@)
            }),
            final(self)@.well_formed(),
    {
        let ghost wanted = self@.corners(fars@);
        let mut corners: Vec<(Position, Position)> = Vec::new();
        let mut i: usize = 0;
        while i < self.nodes.len()
            invariant
                i <= self.nodes@.len(),
                fars@.len() == self@.nodes.len(),
                wanted == self@.corners(fars@),
                corners@ == wanted.take(i as int),
                self@ == old(self)@,
            decreases self.nodes@.len() - i,
        {
            assert(self@.nodes[i as int] == self.nodes@[i as int]@);
            corners.push((self.nodes[i].at, fars[i]));
            assert(wanted.take(i + 1) =~= wanted.take(i as int).push(wanted[i as int]));
            i += 1;
        }
        assert(wanted.take(wanted.len() as int) =~= wanted);
        let bbox = nodes_bbox(&corners);
        if bbox.is_none() {
            self.say("nothing to fit".to_owned());
        }
        bbox
    }
}

/// The start of the first drag entry at or after `from` for a node.
pub open spec fn start_of(starts: Seq<(usize, Position)>, node: usize, from: int) -> Option<
    Position,
>
    decreases starts.len() - from,
{
    if from >= starts.len() {
        None
    } else if starts[from].0 == node {
        Some(starts[from].1)
    } else {
        start_of(starts, node, from + 1)
    }
}

impl MapState {
    /// Where the pressed node started and where it stands now.
    pub open spec fn travel(self) -> Option<(Position, Position)> {
        match self.drag {
            Some(drag) => if drag.pressed_ix >= self.nodes.len() {
                None
            } else {
                let now = self.nodes[drag.pressed_ix as int].at;
                match start_of(drag.starts, drag.pressed_ix, 0) {
                    Some(start) => Some((start, now)),
                    None => Some((now, now)),
                }
            },
            None => None,
        }
    }
}

proof fn lemma_dragged_keeps_drag(
    state: MapState,
    starts: Seq<(usize, Position)>,
    places: Seq<Position>,
    k: nat,
)
    ensures
        state.dragged(starts, places, k).drag == state.drag,
    decreases k,
{
    if k > 0 {
        lemma_dragged_keeps_drag(state, starts, places, (k - 1) as nat);
    }
}

} // verus!
