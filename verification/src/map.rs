//! The workcat map: its state, and the scene of nodes and edges that the
//! state shows.

use crate::db::item_views;
use crate::events::lens_views;
use crate::geometry::{grid_position, grid_slot};
use crate::model::{
    has_id8, id8_of, FilterState, FilterView, ItemMeta, ItemView, Lens, LensView, Position,
    StackView, UndoStack,
};
use crate::order::{is_stable_order, key_of, key_views, stable_order, stable_order_of, text_key};
use crate::status::Status;
use crate::text::{chars_of, head, same_text, string_of, text_opt, texts};
use crate::textmap::TextMap;
use vstd::prelude::*;

verus! {

/// ~16 words: four wrapped lines of ~30 characters.
pub const MAX_LABEL_CHARS: usize = 118;

/// A lens with this name is applied automatically on load, so the last
/// saved arrangement is the startup view.
pub const DEFAULT_LENS: &'static str = "default";

/// One rendered node: an index into `items` plus owned geometry.
#[derive(Debug)]
pub struct MapNode {
    pub item_ix: usize,
    pub at: Position,
    pub label: String,
}

/// The mathematical value of a [`MapNode`].
pub struct NodeView {
    pub item_ix: usize,
    pub at: Position,
    pub label: Seq<char>,
}

impl View for MapNode {
    type V = NodeView;

    open spec fn view(&self) -> NodeView {
        NodeView { item_ix: self.item_ix, at: self.at, label: self.label@ }
    }
}

pub open spec fn node_views(v: Seq<MapNode>) -> Seq<NodeView> {
    v.map_values(|n: MapNode| n@)
}

/// An in-flight drag gesture: the pressed node plus (for a group
/// drag over a selection) every other node moving with it.
#[derive(Debug)]
pub struct DragState {
    /// The node the gesture started on.
    pub pressed_ix: usize,
    /// Every node moving in this gesture with its start position.
    pub starts: Vec<(usize, Position)>,
}

/// The mathematical value of a [`DragState`].
pub struct DragView {
    pub pressed_ix: usize,
    pub starts: Seq<(usize, Position)>,
}

impl View for DragState {
    type V = DragView;

    open spec fn view(&self) -> DragView {
        DragView { pressed_ix: self.pressed_ix, starts: self.starts@ }
    }
}

pub open spec fn drag_opt(drag: Option<DragState>) -> Option<DragView> {
    match drag {
        Some(drag) => Some(drag@),
        None => None,
    }
}

/// The state of the map view, apart from what only the window knows: scroll,
/// zoom and the pointer.
#[derive(Debug)]
pub struct WorkcatMapView {
    /// Every item parsed from briefs (all statuses, including hidden).
    pub items: Vec<ItemMeta>,
    /// Owned geometry, keyed by full item id. Persisted `node_moved`
    /// positions plus pinned initial-grid slots.
    pub positions: TextMap<Position>,
    /// Visible nodes (per the current filter).
    pub nodes: Vec<MapNode>,
    /// Dependency edges between visible nodes (dependent -> dependency).
    pub edges: Vec<(usize, usize)>,
    pub focused_node: Option<usize>,
    /// Multi-selection, keyed by item id (stable across rebuilds).
    pub selected: TextMap<()>,
    pub drag: Option<DragState>,
    /// The visibility filter (statuses + free-text query).
    pub filter: FilterState,
    /// Saved lenses folded from the event log.
    pub lenses: TextMap<Lens>,
    pub active_lens: Option<String>,
    /// When true, the header shows the lens-name input.
    pub naming_lens: bool,
    /// Session undo/redo.
    pub undo_stack: UndoStack,
    pub status: String,
    pub loading: bool,
    /// Events appended to the log but not yet committed.
    pub pending_events: usize,
    pub checkpoint_running: bool,
    /// Apply the "default" lens once, after the first load, to restore
    /// the saved startup arrangement.
    pub needs_default_lens: bool,
}

/// The mathematical value of a [`WorkcatMapView`].
pub struct MapState {
    pub items: Seq<ItemView>,
    pub positions: Map<Seq<char>, Position>,
    pub nodes: Seq<NodeView>,
    pub edges: Seq<(usize, usize)>,
    pub focused_node: Option<usize>,
    pub selected: Set<Seq<char>>,
    pub drag: Option<DragView>,
    pub filter: FilterView,
    pub lenses: Map<Seq<char>, LensView>,
    pub active_lens: Option<Seq<char>>,
    pub naming_lens: bool,
    pub undo_stack: StackView,
    pub status: Seq<char>,
    pub loading: bool,
    pub pending_events: nat,
    pub checkpoint_running: bool,
    pub needs_default_lens: bool,
}

impl View for WorkcatMapView {
    type V = MapState;

    open spec fn view(&self) -> MapState {
        MapState {
            items: item_views(self.items@),
            positions: self.positions@,
            nodes: node_views(self.nodes@),
            edges: self.edges@,
            focused_node: self.focused_node,
            selected: self.selected@.dom(),
            drag: drag_opt(self.drag),
            filter: self.filter@,
            lenses: lens_views(self.lenses@),
            active_lens: text_opt(self.active_lens),
            naming_lens: self.naming_lens,
            undo_stack: self.undo_stack@,
            status: self.status@,
            loading: self.loading,
            pending_events: self.pending_events as nat,
            checkpoint_running: self.checkpoint_running,
            needs_default_lens: self.needs_default_lens,
        }
    }
}

// ---------------------------------------------------------------------
// The scene
// ---------------------------------------------------------------------

/// The places of the items that a filter shows.
pub open spec fn shown(items: Seq<ItemView>, filter: FilterView) -> Seq<usize>
    decreases items.len(),
{
    if items.len() == 0 {
        Seq::empty()
    } else {
        let before = shown(items.drop_last(), filter);
        let item = items.last();
        if filter.shows(item.status, item.subject, item.reference) {
            before.push((items.len() - 1) as usize)
        } else {
            before
        }
    }
}

/// What an item is sorted by on the map: its status, then its subject.
pub open spec fn item_key(item: ItemView) -> Seq<u64> {
    seq![item.status.rank() as u64] + text_key(item.subject)
}

/// The sort keys of the items at the given places.
pub open spec fn item_keys(items: Seq<ItemView>, places: Seq<usize>) -> Seq<Seq<u64>> {
    places.map_values(|i: usize| item_key(items[i as int]))
}

/// The places of the shown items, in the order of the map.
pub open spec fn scene_order(items: Seq<ItemView>, filter: FilterView) -> Seq<usize> {
    let places = shown(items, filter);
    stable_order_of(item_keys(items, places)).map_values(|k: usize| places[k as int])
}

/// The ids of the items at the given places.
pub open spec fn ids_at(items: Seq<ItemView>, places: Seq<usize>) -> Seq<Seq<char>> {
    places.map_values(|i: usize| items[i as int].id)
}

/// Positions with a grid slot for each of the first `k` ids that had none.
pub open spec fn with_slots(
    ids: Seq<Seq<char>>,
    positions: Map<Seq<char>, Position>,
    k: nat,
) -> Map<Seq<char>, Position>
    decreases k,
{
    if k == 0 {
        positions
    } else {
        let before = with_slots(ids, positions, (k - 1) as nat);
        if before.dom().contains(ids[k - 1]) {
            before
        } else {
            before.insert(ids[k - 1], grid_slot(k - 1, ids.len() as int))
        }
    }
}

/// A text cut to `max` characters, with an ellipsis where it was longer.
pub open spec fn shortened(text: Seq<char>, max: int) -> Seq<char> {
    if text.len() <= max {
        text
    } else {
        text.take(max).push('\u{2026}')
    }
}

/// The nodes of the shown items.
pub open spec fn scene_nodes(
    items: Seq<ItemView>,
    order: Seq<usize>,
    positions: Map<Seq<char>, Position>,
) -> Seq<NodeView> {
    order.map_values(
        |i: usize|
            NodeView {
                item_ix: i,
                at: positions[items[i as int].id],
                label: shortened(items[i as int].subject, MAX_LABEL_CHARS as int),
            },
    )
}

/// The last of the ids whose short id is `id8`.
pub open spec fn last_with_id8(ids: Seq<Seq<char>>, id8: Seq<char>) -> Option<usize>
    decreases ids.len(),
{
    if ids.len() == 0 {
        None
    } else if id8_of(ids.last()) == id8 {
        Some((ids.len() - 1) as usize)
    } else {
        last_with_id8(ids.drop_last(), id8)
    }
}

/// The edges from a node to those of its dependencies that are shown.
pub open spec fn edges_from(ids: Seq<Seq<char>>, node: usize, deps: Seq<Seq<char>>) -> Seq<
    (usize, usize),
>
    decreases deps.len(),
{
    if deps.len() == 0 {
        Seq::empty()
    } else {
        let before = edges_from(ids, node, deps.drop_last());
        match last_with_id8(ids, deps.last()) {
            Some(dep) => before.push((node, dep)),
            None => before,
        }
    }
}

/// The edges of the first `k` nodes of the scene.
pub open spec fn scene_edges(items: Seq<ItemView>, order: Seq<usize>, k: nat) -> Seq<
    (usize, usize),
>
    decreases k,
{
    if k == 0 {
        Seq::empty()
    } else {
        scene_edges(items, order, (k - 1) as nat) + edges_from(
            ids_at(items, order),
            (k - 1) as usize,
            items[order[k - 1] as int].depends_on,
        )
    }
}

/// Whether the items of the visible statuses have short ids: the short ids
/// of the shown items are taken when a scene is made, whatever the search
/// text that narrows them down.
pub open spec fn short_ids_fit(items: Seq<ItemView>, visible: Set<Status>) -> bool {
    forall|i: int|
        0 <= i < items.len() && visible.contains((#[trigger] items[i]).status) ==> has_id8(
            items[i].id,
        )
}

impl MapState {
    /// Whether a scene can be made: the items that the filter can show have
    /// short ids, and so have those whose status an undo or redo changes. The
    /// undo stack is within its capacity.
    pub open spec fn sound(self) -> bool {
        &&& short_ids_fit(self.items, self.filter.visible)
        &&& self.undo_stack.well_formed()
        &&& self.undo_stack.ids_fit()
    }

    /// Whether the state holds together: nodes show items with short ids, and
    /// the focus is on a node.
    pub open spec fn well_formed(self) -> bool {
        &&& self.sound()
        &&& forall|i: int|
            0 <= i < self.nodes.len() ==> (#[trigger] self.nodes[i]).item_ix < self.items.len()
                && has_id8(self.items[self.nodes[i].item_ix as int].id)
        &&& self.focused_node matches Some(ix) ==> ix < self.nodes.len()
    }

    /// The state with its scene made anew from items, positions and filter.
    /// Items without a position get a grid slot, which stays theirs.
    pub open spec fn rebuilt(self) -> MapState {
        let order = scene_order(self.items, self.filter);
        let ids = ids_at(self.items, order);
        let positions = with_slots(ids, self.positions, ids.len());
        MapState {
            positions,
            nodes: scene_nodes(self.items, order, positions),
            edges: scene_edges(self.items, order, order.len()),
            focused_node: match self.focused_node {
                Some(ix) if ix < order.len() => Some(ix),
                _ => None,
            },
            selected: self.selected.filter(|id: Seq<char>| ids.contains(id)),
            ..self
        }
    }
}

/// A text cut to `max` characters, with an ellipsis where it was longer.
pub fn truncate_to(text: &str, max_chars: usize) -> (r: String)
    ensures
        r@ == shortened(text@, max_chars as int),
{
    let chars = chars_of(text);
    if chars.len() <= max_chars {
        string_of(chars.as_slice())
    } else {
        let mut out = string_of(head(chars.as_slice(), max_chars));
        out.push('\u{2026}');
        out
    }
}

fn places_shown(items: &Vec<ItemMeta>, filter: &FilterState) -> (r: Vec<usize>)
    ensures
        r@ == shown(item_views(items@), filter@),
{
    let ghost all = item_views(items@);
    let mut out: Vec<usize> = Vec::new();
    let mut i: usize = 0;
    while i < items.len()
        invariant
            i <= items@.len(),
            all == item_views(items@),
            out@ == shown(all.take(i as int), filter@),
        decreases items@.len() - i,
    {
        assert(all.take(i + 1).last() == items@[i as int]@);
        assert(all.take(i + 1).drop_last() == all.take(i as int));
        if filter.matches(&items[i]) {
            out.push(i);
        }
        i += 1;
    }
    assert(all.take(items@.len() as int) == all);
    out
}

pub(crate) proof fn lemma_shown_in_range(items: Seq<ItemView>, filter: FilterView)
    requires
        items.len() <= usize::MAX,
    ensures
        shown(items, filter).len() <= items.len(),
        forall|k: int|
            0 <= k < shown(items, filter).len() ==> (#[trigger] shown(items, filter)[k])
                < items.len() && filter.visible.contains(
                items[shown(items, filter)[k] as int].status,
            ),
    decreases items.len(),
{
    if items.len() > 0 {
        lemma_shown_in_range(items.drop_last(), filter);
    }
}

fn key_of_item(item: &ItemMeta) -> (r: Vec<u64>)
    ensures
        r@ == item_key(item@),
{
    let mut key: Vec<u64> = vec![item.status.layout_rank() as u64];
    let mut subject = key_of(chars_of(item.subject.as_str()).as_slice());
    let ghost start = key@;
    key.append(&mut subject);
    assert(key@ =~= item_key(item@));
    key
}

/// The places of the shown items, in the order of the map.
fn ordered_places(items: &Vec<ItemMeta>, filter: &FilterState) -> (r: Vec<usize>)
    ensures
        r@ == scene_order(item_views(items@), filter@),
        forall|k: int| 0 <= k < r@.len() ==> (#[trigger] r@[k]) < items@.len(),
        forall|k: int|
            0 <= k < r@.len() ==> filter@.visible.contains(
                items@[(#[trigger] r@[k]) as int].status,
            ),
{
    let ghost all = item_views(items@);
    let total: usize = items.len();
    let places = places_shown(items, filter);
    proof {
        lemma_shown_in_range(all, filter@);
    }
    let ghost wanted_keys = item_keys(all, places@);
    let mut keys: Vec<Vec<u64>> = Vec::new();
    let mut i: usize = 0;
    while i < places.len()
        invariant
            i <= places@.len(),
            all == item_views(items@),
            forall|k: int| 0 <= k < places@.len() ==> (#[trigger] places@[k]) < items@.len(),
            wanted_keys == item_keys(all, places@),
            key_views(keys@) == wanted_keys.take(i as int),
        decreases places@.len() - i,
    {
        let ghost before = keys@;
        let key = key_of_item(&items[places[i]]);
        assert(key@ == wanted_keys[i as int]);
        keys.push(key);
        assert(key_views(keys@) =~= key_views(before).push(wanted_keys[i as int]));
        i += 1;
    }
    assert(wanted_keys.take(places@.len() as int) == wanted_keys);
    let order = stable_order(&keys);
    let ghost wanted = scene_order(all, filter@);
    let mut out: Vec<usize> = Vec::new();
    let mut k: usize = 0;
    while k < order.len()
        invariant
            k <= order@.len(),
            all == item_views(items@),
            places@ == shown(all, filter@),
            order@.len() == places@.len(),
            forall|j: int| 0 <= j < places@.len() ==> (#[trigger] places@[j]) < items@.len(),
            is_stable_order(order@, item_keys(all, places@)),
            order@ == stable_order_of(item_keys(all, places@)),
            wanted == scene_order(all, filter@),
            out@ == wanted.take(k as int),
            forall|j: int| 0 <= j < k ==> (#[trigger] out@[j]) < items@.len(),
            forall|j: int|
                0 <= j < places@.len() ==> filter@.visible.contains(
                    all[(#[trigger] places@[j]) as int].status,
                ),
            forall|j: int|
                0 <= j < k ==> filter@.visible.contains(items@[(#[trigger] out@[j]) as int].status),
        decreases order@.len() - k,
    {
        out.push(places[order[k]]);
        assert(wanted.take(k + 1) =~= wanted.take(k as int).push(wanted[k as int]));
        k += 1;
    }
    assert(wanted.take(order@.len() as int) == wanted);
    out
}

/// Whether the items at the given places have short ids.
spec fn ids_fit_at(items: Seq<ItemMeta>, places: Seq<usize>) -> bool {
    forall|k: int| 0 <= k < places.len() ==> has_id8(items[(#[trigger] places[k]) as int].id@)
}

fn find_id8(items: &Vec<ItemMeta>, order: &Vec<usize>, id8: &str) -> (r: Option<usize>)
    requires
        forall|k: int| 0 <= k < order@.len() ==> (#[trigger] order@[k]) < items@.len(),
        ids_fit_at(items@, order@),
    ensures
        r == last_with_id8(ids_at(item_views(items@), order@), id8@),
        r matches Some(ix) ==> ix < order@.len(),
{
    let ghost ids = ids_at(item_views(items@), order@);
    let mut n: usize = order.len();
    assert(ids.take(n as int) == ids);
    while n > 0
        invariant
            n <= order@.len(),
            ids == ids_at(item_views(items@), order@),
            forall|k: int| 0 <= k < order@.len() ==> (#[trigger] order@[k]) < items@.len(),
            ids_fit_at(items@, order@),
            last_with_id8(ids.take(n as int), id8@) == last_with_id8(ids, id8@),
        decreases n,
    {
        let item = &items[order[n - 1]];
        assert(ids.take(n as int).last() == item.id@);
        if same_text(item.id8(), id8) {
            return Some(n - 1);
        }
        assert(ids.take(n as int).drop_last() == ids.take(n - 1));
        n -= 1;
    }
    None
}

fn collect_edges(items: &Vec<ItemMeta>, order: &Vec<usize>) -> (r: Vec<(usize, usize)>)
    requires
        forall|k: int| 0 <= k < order@.len() ==> (#[trigger] order@[k]) < items@.len(),
        ids_fit_at(items@, order@),
    ensures
        r@ == scene_edges(item_views(items@), order@, order@.len()),
{
    let ghost all = item_views(items@);
    let ghost ids = ids_at(all, order@);
    let mut out: Vec<(usize, usize)> = Vec::new();
    let mut k: usize = 0;
    while k < order.len()
        invariant
            k <= order@.len(),
            all == item_views(items@),
            ids == ids_at(all, order@),
            forall|j: int| 0 <= j < order@.len() ==> (#[trigger] order@[j]) < items@.len(),
            ids_fit_at(items@, order@),
            out@ == scene_edges(all, order@, k as nat),
        decreases order@.len() - k,
    {
        let item = &items[order[k]];
        let ghost before = out@;
        let ghost deps = texts(item.depends_on@);
        let mut d: usize = 0;
        assert(before + edges_from(ids, k, deps.take(0)) =~= before);
        while d < item.depends_on.len()
            invariant
                d <= item.depends_on@.len(),
                k < order@.len(),
                all == item_views(items@),
                ids == ids_at(all, order@),
                deps == texts(item.depends_on@),
                forall|j: int| 0 <= j < order@.len() ==> (#[trigger] order@[j]) < items@.len(),
                ids_fit_at(items@, order@),
                out@ == before + edges_from(ids, k, deps.take(d as int)),
            decreases item.depends_on@.len() - d,
        {
            assert(deps.take(d + 1).last() == item.depends_on@[d as int]@);
            assert(deps.take(d + 1).drop_last() == deps.take(d as int));
            if let Some(dep) = find_id8(items, order, item.depends_on[d].as_str()) {
                out.push((k, dep));
                assert(out@ =~= before + edges_from(ids, k, deps.take(d + 1)));
            }
            d += 1;
        }
        assert(deps.take(item.depends_on@.len() as int) == deps);
        assert(all[order@[k as int] as int] == item@);
        k += 1;
    }
    out
}

/// The selected ids that the scene still shows.
fn retained(selected: &TextMap<()>, items: &Vec<ItemMeta>, order: &Vec<usize>) -> (r: TextMap<()>)
    requires
        forall|k: int| 0 <= k < order@.len() ==> (#[trigger] order@[k]) < items@.len(),
    ensures
        r@.dom() == selected@.dom().filter(
            |id: Seq<char>| ids_at(item_views(items@), order@).contains(id),
        ),
{
    let ghost ids = ids_at(item_views(items@), order@);
    let mut out: TextMap<()> = TextMap::new();
    let mut k: usize = 0;
    while k < order.len()
        invariant
            k <= order@.len(),
            ids == ids_at(item_views(items@), order@),
            forall|j: int| 0 <= j < order@.len() ==> (#[trigger] order@[j]) < items@.len(),
            forall|id: Seq<char>| #[trigger]
                out@.dom().contains(id) == (selected@.dom().contains(id) && ids.take(
                    k as int,
                ).contains(id)),
        decreases order@.len() - k,
    {
        let item = &items[order[k]];
        let ghost before = out@;
        assert(ids[k as int] == item.id@);
        if selected.contains_key(item.id.as_str()) {
            out.insert(item.id.clone(), ());
        }
        proof {
            assert(ids.take(k + 1) =~= ids.take(k as int).push(ids[k as int]));
            assert forall|id: Seq<char>| #[trigger] out@.dom().contains(id) == (
            selected@.dom().contains(id) && ids.take(k + 1).contains(id)) by {
                let prior = ids.take(k as int);
                let now = ids.take(k + 1);
                assert(before.dom().contains(id) == (selected@.dom().contains(id)
                    && prior.contains(id)));
                if prior.contains(id) {
                    let j = choose|j: int| 0 <= j < prior.len() && prior[j] == id;
                    assert(now[j] == id);
                }
                assert(now[k as int] == ids[k as int]);
                if now.contains(id) && id != ids[k as int] {
                    let j = choose|j: int| 0 <= j < now.len() && now[j] == id;
                    assert(prior[j] == id);
                }
            }
        }
        k += 1;
    }
    assert(ids.take(order@.len() as int) == ids);
    assert(out@.dom() =~= selected@.dom().filter(|id: Seq<char>| ids.contains(id)));
    out
}

impl WorkcatMapView {
    /// Recompute visible nodes and edges from `items` + `positions`,
    /// gated by the current filter. Nodes without a position get a
    /// deterministic grid slot, which is then pinned into `positions`
    /// so later rebuilds keep it.
    pub fn rebuild_scene(&mut self)
        requires
            old(self)@.sound(),
        ensures
            final(self)@ == old(self)@.rebuilt(),
            final(self)@.well_formed(),
    {
        let ghost start = self@;
        let order = ordered_places(&self.items, &self.filter);
        let count: usize = order.len();
        let ghost ids = ids_at(start.items, order@);
        let ghost pinned = with_slots(ids, start.positions, count as nat);
        let mut nodes: Vec<MapNode> = Vec::new();
        let mut k: usize = 0;
        while k < count
            invariant
                k <= count,
                count == order@.len(),
                start.items == item_views(self.items@),
                ids == ids_at(start.items, order@),
                forall|j: int| 0 <= j < order@.len() ==> (#[trigger] order@[j]) < self.items@.len(),
                start.sound(),
                forall|j: int|
                    0 <= j < order@.len() ==> start.filter.visible.contains(
                        self.items@[(#[trigger] order@[j]) as int].status,
                    ),
                self.positions@ == with_slots(ids, start.positions, k as nat),
                self@.items == start.items,
                self@ == (MapState { positions: self.positions@, ..start }),
                nodes@.len() == k,
                forall|j: int|
                    0 <= j < k ==> (#[trigger] nodes@[j]).item_ix == order@[j]
                        && nodes@[j].label@ == shortened(
                        start.items[order@[j] as int].subject,
                        MAX_LABEL_CHARS as int,
                    ) && self.positions@.dom().contains(ids[j]) && nodes@[j].at
                        == self.positions@[ids[j]],
            decreases count - k,
        {
            let item_ix = order[k];
            let id = self.items[item_ix].id.clone();
            let label = truncate_to(self.items[item_ix].subject.as_str(), MAX_LABEL_CHARS);
            assert(ids[k as int] == id@);
            assert(start.items[item_ix as int] == self.items@[item_ix as int]@);
            let ghost before = self.positions@;
            let ghost old_nodes = nodes@;
            let found: Option<Position> = match self.positions.get(id.as_str()) {
                Some(at) => Some(*at),
                None => None,
            };
            let at = match found {
                Some(at) => at,
                None => {
                    let at = grid_position(k, count);
                    self.positions.insert(id, at);
                    at
                },
            };
            nodes.push(MapNode { item_ix, at, label });
            proof {
                assert forall|j: int| 0 <= j < k + 1 implies (#[trigger] nodes@[j]).item_ix
                    == order@[j] && nodes@[j].label@ == shortened(
                    start.items[order@[j] as int].subject,
                    MAX_LABEL_CHARS as int,
                ) && self.positions@.dom().contains(ids[j]) && nodes@[j].at
                    == self.positions@[ids[j]] by {
                    if j < k {
                        assert(nodes@[j] == old_nodes[j]);
                        assert(before.dom().contains(ids[j]));
                    }
                }
            }
            k += 1;
        }
        proof {
            assert forall|j: int| 0 <= j < order@.len() implies has_id8(
                self.items@[(#[trigger] order@[j]) as int].id@,
            ) by {
                assert(start.items[order@[j] as int] == self.items@[order@[j] as int]@);
            }
        }
        let edges = collect_edges(&self.items, &order);
        assert(node_views(nodes@) =~= scene_nodes(start.items, order@, pinned));
        self.nodes = nodes;
        self.edges = edges;
        let beyond = match self.focused_node {
            Some(ix) => ix >= count,
            None => false,
        };
        if beyond {
            self.focused_node = None;
        }
        let kept = retained(&self.selected, &self.items, &order);
        self.selected = kept;
        assert(self@.selected =~= start.rebuilt().selected);
    }
}

} // verus!
