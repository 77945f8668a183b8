//! What the scene of the map shows, told by items, statuses and dependencies.

use crate::log_laws::{parts_at, precedes, says_something};
use crate::map::{
    edges_from, ids_at, item_key, item_keys, last_with_id8, lemma_shown_in_range, scene_edges,
    scene_order, shown, with_slots, MapState,
};
use crate::map_laws::{lemma_order, lemma_with_slots};
use crate::model::{id8_of, lowercase, FilterView, ItemView, Position};
use crate::order::{
    key_lt, law_stable_order_exists, lemma_key_irreflexive, lemma_key_transitive, sorts_before,
    stable_order_of, text_key,
};
use crate::status::Status;
use crate::text::{has, is_space, trimmed};
use crate::textmap::text_lt;
use vstd::prelude::*;

verus! {

// ---------------------------------------------------------------------
// Edges
// ---------------------------------------------------------------------

proof fn lemma_last_with(ids: Seq<Seq<char>>, id8: Seq<char>, b: int)
    requires
        ids.len() <= usize::MAX,
        0 <= b < ids.len(),
        id8_of(ids[b]) == id8,
        forall|c: int| b < c < ids.len() ==> id8_of(#[trigger] ids[c]) != id8,
    ensures
        last_with_id8(ids, id8) == Some(b as usize),
    decreases ids.len(),
{
    if b < ids.len() - 1 {
        assert(id8_of(ids[ids.len() - 1]) != id8);
        let front = ids.drop_last();
        assert forall|c: int| b < c < front.len() implies id8_of(#[trigger] front[c]) != id8 by {
            assert(front[c] == ids[c]);
        }
        lemma_last_with(front, id8, b);
    }
}

proof fn lemma_edge_from(
    ids: Seq<Seq<char>>,
    node: usize,
    deps: Seq<Seq<char>>,
    d: int,
    b: usize,
)
    requires
        0 <= d < deps.len(),
        last_with_id8(ids, deps[d]) == Some(b),
    ensures
        edges_from(ids, node, deps).contains((node, b)),
    decreases deps.len(),
{
    let before = edges_from(ids, node, deps.drop_last());
    let all = edges_from(ids, node, deps);
    if d == deps.len() - 1 {
        assert(all[before.len() as int] == (node, b));
    } else {
        lemma_edge_from(ids, node, deps.drop_last(), d, b);
        let e = choose|e: int| 0 <= e < before.len() && before[e] == (node, b);
        assert(all[e] == (node, b));
    }
}

proof fn lemma_scene_edge(
    items: Seq<ItemView>,
    order: Seq<usize>,
    k: nat,
    a: int,
    d: int,
    b: usize,
)
    requires
        0 <= a < k <= order.len() <= usize::MAX,
        0 <= d < items[order[a] as int].depends_on.len(),
        last_with_id8(ids_at(items, order), items[order[a] as int].depends_on[d]) == Some(b),
    ensures
        scene_edges(items, order, k).contains((a as usize, b)),
    decreases k,
{
    let before = scene_edges(items, order, (k - 1) as nat);
    let own = edges_from(
        ids_at(items, order),
        (k - 1) as usize,
        items[order[k - 1] as int].depends_on,
    );
    let all = scene_edges(items, order, k);
    if a == k - 1 {
        lemma_edge_from(ids_at(items, order), a as usize, items[order[a] as int].depends_on, d, b);
        let e = choose|e: int| 0 <= e < own.len() && own[e] == (a as usize, b);
        assert(all[before.len() + e] == (a as usize, b));
    } else {
        lemma_scene_edge(items, order, (k - 1) as nat, a, d, b);
        let e = choose|e: int| 0 <= e < before.len() && before[e] == (a as usize, b);
        assert(all[e] == (a as usize, b));
    }
}

/// No dependency between shown items is lost: where a shown item depends on a
/// short id that the node `b` has, and no node after it, the scene has the
/// edge to it.
pub proof fn law_every_dependency_is_drawn(state: MapState, a: int, d: int, b: int)
    requires
        state.items.len() <= usize::MAX,
        0 <= a < state.rebuilt().nodes.len(),
        0 <= b < state.rebuilt().nodes.len(),
        0 <= d < state.items[state.rebuilt().nodes[a].item_ix as int].depends_on.len(),
        state.items[state.rebuilt().nodes[a].item_ix as int].depends_on[d] == id8_of(
            state.items[state.rebuilt().nodes[b].item_ix as int].id,
        ),
        forall|c: int|
            b < c < state.rebuilt().nodes.len() ==> id8_of(
                state.items[(#[trigger] state.rebuilt().nodes[c]).item_ix as int].id,
            ) != id8_of(state.items[state.rebuilt().nodes[b].item_ix as int].id),
    ensures
        state.rebuilt().edges.contains((a as usize, b as usize)),
{
    let order = scene_order(state.items, state.filter);
    let ids = ids_at(state.items, order);
    let nodes = state.rebuilt().nodes;
    lemma_order(state.items, state.filter);
    lemma_shown_in_range(state.items, state.filter);
    assert(nodes[a].item_ix == order[a]);
    assert(nodes[b].item_ix == order[b]);
    assert forall|c: int| b < c < ids.len() implies id8_of(#[trigger] ids[c]) != id8_of(ids[b]) by {
        assert(nodes[c].item_ix == order[c]);
    }
    lemma_last_with(ids, id8_of(ids[b]), b);
    lemma_scene_edge(state.items, order, order.len(), a, d, b as usize);
}

/// How many of the first `k` dependencies have a short id that one of the ids
/// has.
pub open spec fn drawn_of(ids: Seq<Seq<char>>, deps: Seq<Seq<char>>, k: nat) -> nat
    decreases k,
{
    if k == 0 {
        0
    } else {
        drawn_of(ids, deps, (k - 1) as nat) + if exists|c: int|
            0 <= c < ids.len() && id8_of(#[trigger] ids[c]) == deps[k - 1] {
            1nat
        } else {
            0nat
        }
    }
}

proof fn lemma_last_is_some(ids: Seq<Seq<char>>, id8: Seq<char>)
    ensures
        last_with_id8(ids, id8) is Some == exists|c: int|
            0 <= c < ids.len() && id8_of(#[trigger] ids[c]) == id8,
    decreases ids.len(),
{
    if ids.len() > 0 {
        let front = ids.drop_last();
        lemma_last_is_some(front, id8);
        if exists|c: int| 0 <= c < front.len() && id8_of(#[trigger] front[c]) == id8 {
            let c = choose|c: int| 0 <= c < front.len() && id8_of(#[trigger] front[c]) == id8;
            assert(id8_of(ids[c]) == id8);
        }
        if id8_of(ids.last()) == id8 {
            assert(id8_of(ids[ids.len() - 1]) == id8);
        }
        if exists|c: int| 0 <= c < ids.len() && id8_of(#[trigger] ids[c]) == id8 {
            let c = choose|c: int| 0 <= c < ids.len() && id8_of(#[trigger] ids[c]) == id8;
            if c < front.len() {
                assert(id8_of(front[c]) == id8);
            }
        }
    }
}

/// A node has as many edges as it lists dependencies that are shown.
pub proof fn law_edges_of_a_node_are_counted(
    ids: Seq<Seq<char>>,
    node: usize,
    deps: Seq<Seq<char>>,
)
    ensures
        edges_from(ids, node, deps).len() == drawn_of(ids, deps, deps.len()),
    decreases deps.len(),
{
    if deps.len() > 0 {
        let front = deps.drop_last();
        law_edges_of_a_node_are_counted(ids, node, front);
        lemma_last_is_some(ids, deps.last());
        lemma_drawn_in_front(ids, front, deps, front.len());
    }
}

proof fn lemma_drawn_in_front(
    ids: Seq<Seq<char>>,
    front: Seq<Seq<char>>,
    deps: Seq<Seq<char>>,
    k: nat,
)
    requires
        k <= front.len() <= deps.len(),
        forall|i: int| 0 <= i < front.len() ==> front[i] == deps[i],
    ensures
        drawn_of(ids, front, k) == drawn_of(ids, deps, k),
    decreases k,
{
    if k > 0 {
        lemma_drawn_in_front(ids, front, deps, (k - 1) as nat);
        assert(front[k - 1] == deps[k - 1]);
    }
}

proof fn lemma_edge_source(items: Seq<ItemView>, order: Seq<usize>, k: nat, e: int)
    requires
        k <= order.len() <= usize::MAX,
        0 <= e < scene_edges(items, order, k).len(),
    ensures
        scene_edges(items, order, k)[e].0 < k,
    decreases k,
{
    if k > 0 {
        let before = scene_edges(items, order, (k - 1) as nat);
        if e < before.len() {
            lemma_edge_source(items, order, (k - 1) as nat, e);
        } else {
            crate::map_laws::lemma_edges_from(
                ids_at(items, order),
                (k - 1) as usize,
                items[order[k - 1] as int].depends_on,
                e - before.len(),
            );
        }
    }
}

proof fn lemma_edges_ordered(items: Seq<ItemView>, order: Seq<usize>, k: nat, e: int, f: int)
    requires
        k <= order.len() <= usize::MAX,
        0 <= e < f < scene_edges(items, order, k).len(),
    ensures
        scene_edges(items, order, k)[e].0 <= scene_edges(items, order, k)[f].0,
    decreases k,
{
    if k > 0 {
        let before = scene_edges(items, order, (k - 1) as nat);
        if f < before.len() {
            lemma_edges_ordered(items, order, (k - 1) as nat, e, f);
        } else {
            crate::map_laws::lemma_edges_from(
                ids_at(items, order),
                (k - 1) as usize,
                items[order[k - 1] as int].depends_on,
                f - before.len(),
            );
            lemma_edge_source(items, order, k, e);
        }
    }
}

/// The edges of the scene go by the order of the nodes that they start from.
pub proof fn law_edges_go_by_node(state: MapState, e: int, f: int)
    requires
        state.items.len() <= usize::MAX,
        0 <= e < f < state.rebuilt().edges.len(),
    ensures
        state.rebuilt().edges[e].0 <= state.rebuilt().edges[f].0,
{
    let order = scene_order(state.items, state.filter);
    lemma_order(state.items, state.filter);
    lemma_shown_in_range(state.items, state.filter);
    lemma_edges_ordered(state.items, order, order.len(), e, f);
}

// ---------------------------------------------------------------------
// Nodes
// ---------------------------------------------------------------------

/// An item is shown just when its status is visible and the search text, but
/// for whitespace around it, stands in its subject or in its ref, whatever the
/// case.
pub proof fn law_filter_shows(filter: FilterView, status: Status, subject: Seq<char>, ref_: Seq<char>)
    ensures
        filter.shows(status, subject, ref_) == (filter.visible.contains(status) && (
        !says_something(filter.query) || has(
            lowercase(subject),
            lowercase(trimmed(filter.query)),
        ) || has(lowercase(ref_), lowercase(trimmed(filter.query))))),
{
    crate::log_laws::lemma_trim_empty(filter.query);
}

proof fn lemma_shown_distinct(items: Seq<ItemView>, filter: FilterView)
    requires
        items.len() <= usize::MAX,
    ensures
        forall|i: int, j: int|
            0 <= i < j < shown(items, filter).len() ==> (#[trigger] shown(items, filter)[i]) < (
            #[trigger] shown(items, filter)[j]),
    decreases items.len(),
{
    if items.len() > 0 {
        lemma_shown_distinct(items.drop_last(), filter);
        lemma_shown_in_range(items.drop_last(), filter);
    }
}

proof fn lemma_node_order(state: MapState, j: int, k: int)
    requires
        state.items.len() <= usize::MAX,
        0 <= j < k < state.rebuilt().nodes.len(),
    ensures
        ({
            let a = state.rebuilt().nodes[j].item_ix;
            let b = state.rebuilt().nodes[k].item_ix;
            &&& a < state.items.len() && b < state.items.len() && a != b
            &&& key_lt(item_key(state.items[a as int]), item_key(state.items[b as int])) || (
            item_key(state.items[a as int]) == item_key(state.items[b as int]) && a < b)
        }),
{
    let places = shown(state.items, state.filter);
    let keys = item_keys(state.items, places);
    let order = stable_order_of(keys);
    lemma_order(state.items, state.filter);
    lemma_shown_in_range(state.items, state.filter);
    lemma_shown_distinct(state.items, state.filter);
    law_stable_order_exists(keys);
    let x = order[j] as int;
    let y = order[k] as int;
    let nodes = state.rebuilt().nodes;
    assert(nodes[j].item_ix == scene_order(state.items, state.filter)[j]);
    assert(nodes[k].item_ix == scene_order(state.items, state.filter)[k]);
    assert(nodes[j].item_ix == places[x]);
    assert(nodes[k].item_ix == places[y]);
    assert(sorts_before(keys, x, y));
    assert(keys[x] == item_key(state.items[places[x] as int]));
    assert(keys[y] == item_key(state.items[places[y] as int]));
    lemma_key_irreflexive(keys[x]);
    if x == y {
        assert(sorts_before(keys, x, x));
    } else if x < y {
        assert(places[x] < places[y]);
    } else {
        assert(places[y] < places[x]);
    }
}

/// The nodes go by status, in lifecycle order, then by subject as text, then
/// in the order of the items; no item has two nodes.
pub proof fn law_nodes_go_by_status_and_subject(state: MapState, j: int, k: int)
    requires
        state.items.len() <= usize::MAX,
        0 <= j < k < state.rebuilt().nodes.len(),
    ensures
        ({
            let a = state.rebuilt().nodes[j].item_ix;
            let b = state.rebuilt().nodes[k].item_ix;
            let x = state.items[a as int];
            let y = state.items[b as int];
            &&& a != b
            &&& x.status.rank() <= y.status.rank()
            &&& x.status.rank() == y.status.rank() ==> !precedes(y.subject, x.subject)
            &&& x.status.rank() == y.status.rank() && x.subject == y.subject ==> a < b
        }),
{
    lemma_node_order(state, j, k);
    let a = state.rebuilt().nodes[j].item_ix;
    let b = state.rebuilt().nodes[k].item_ix;
    let x = state.items[a as int];
    let y = state.items[b as int];
    let p = item_key(x);
    let q = item_key(y);
    assert(p[0] == x.status.rank() as u64);
    assert(q[0] == y.status.rank() as u64);
    assert(p.skip(1) =~= text_key(x.subject));
    assert(q.skip(1) =~= text_key(y.subject));
    lemma_key_irreflexive(p);
    lemma_key_irreflexive(text_key(x.subject));
    if x.status.rank() == y.status.rank() {
        if precedes(y.subject, x.subject) {
            let n = choose|n: int| #[trigger] parts_at(y.subject, x.subject, n);
            crate::log_laws::lemma_parts(y.subject, x.subject, n);
            if key_lt(p, q) {
                lemma_key_transitive(
                    text_key(x.subject),
                    text_key(y.subject),
                    text_key(x.subject),
                );
            }
        }
    }
}

/// A node's label is its item's subject, cut to 118 characters with an
/// ellipsis where it is longer.
pub proof fn law_label_is_the_subject(state: MapState, k: int)
    requires
        state.items.len() <= usize::MAX,
        0 <= k < state.rebuilt().nodes.len(),
    ensures
        ({
            let node = state.rebuilt().nodes[k];
            let subject = state.items[node.item_ix as int].subject;
            node.label == if subject.len() <= 118 {
                subject
            } else {
                subject.take(118).push('…')
            }
        }),
{
}

/// A node without a known position stands in the grid slot of its place in
/// the scene, and its position is known from then on.
pub proof fn law_unknown_position_is_a_slot(state: MapState, k: int)
    requires
        state.items.len() <= usize::MAX,
        0 <= k < state.rebuilt().nodes.len(),
        !state.positions.dom().contains(
            state.items[state.rebuilt().nodes[k].item_ix as int].id,
        ),
        forall|j: int|
            0 <= j < k ==> state.items[(#[trigger] state.rebuilt().nodes[j]).item_ix as int].id
                != state.items[state.rebuilt().nodes[k].item_ix as int].id,
    ensures
        ({
            let scene = state.rebuilt();
            let id = state.items[scene.nodes[k].item_ix as int].id;
            &&& scene.nodes[k].at == crate::geometry::grid_slot(k, scene.nodes.len() as int)
            &&& scene.positions.dom().contains(id)
            &&& scene.positions[id] == scene.nodes[k].at
        }),
{
    let order = scene_order(state.items, state.filter);
    let ids = ids_at(state.items, order);
    let nodes = state.rebuilt().nodes;
    lemma_order(state.items, state.filter);
    assert forall|j: int| 0 <= j < k implies #[trigger] ids[j] != ids[k] by {
        assert(nodes[j].item_ix == order[j]);
    }
    assert(nodes[k].item_ix == order[k]);
    lemma_with_slots(ids, state.positions, k as nat, ids[k]);
    assert(!ids.take(k).contains(ids[k]));
    lemma_slot_stays(ids, state.positions, k as nat, ids.len());
}

proof fn lemma_slot_stays(
    ids: Seq<Seq<char>>,
    positions: Map<Seq<char>, Position>,
    k: nat,
    n: nat,
)
    requires
        k < n <= ids.len(),
        !with_slots(ids, positions, k).dom().contains(ids[k as int]),
    ensures
        with_slots(ids, positions, n).dom().contains(ids[k as int]),
        with_slots(ids, positions, n)[ids[k as int]] == crate::geometry::grid_slot(
            k as int,
            ids.len() as int,
        ),
    decreases n,
{
    if n > k + 1 {
        lemma_slot_stays(ids, positions, k, (n - 1) as nat);
    }
}

/// What was selected stays selected just when it is shown.
pub proof fn law_selection_keeps_what_is_shown(state: MapState, id: Seq<char>)
    requires
        state.items.len() <= usize::MAX,
    ensures
        state.rebuilt().selected.contains(id) == (state.selected.contains(id) && exists|k: int|
            0 <= k < state.rebuilt().nodes.len() && state.items[(
            #[trigger] state.rebuilt().nodes[k]).item_ix as int].id == id),
{
    let order = scene_order(state.items, state.filter);
    let ids = ids_at(state.items, order);
    let nodes = state.rebuilt().nodes;
    if ids.contains(id) {
        let k = choose|k: int| 0 <= k < ids.len() && ids[k] == id;
        assert(nodes[k].item_ix == order[k]);
    }
    if exists|k: int|
        0 <= k < nodes.len() && state.items[(#[trigger] nodes[k]).item_ix as int].id == id {
        let k = choose|k: int|
            0 <= k < nodes.len() && state.items[(#[trigger] nodes[k]).item_ix as int].id == id;
        assert(ids[k] == id);
    }
}

} // verus!
