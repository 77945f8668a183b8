//! The rows of a layered layout: dependencies sit on lower rows than their
//! dependents, and each row can be reordered by weight.

use crate::graph::{
    dependencies, dependency_list, group_views, lemma_dependencies_in_range, lemma_mark, neighbors,
    neighbor_list, open_count,
};
use crate::number::{order_rank, rank_of};
use crate::order::{
    is_stable_order, key_views, law_stable_order_exists, sorts_before, stable_order,
    stable_order_of,
};
use vstd::prelude::*;

verus! {

// ---------------------------------------------------------------------
// Depth
// ---------------------------------------------------------------------

/// The depth of a node, given the depths already known and the nodes whose
/// depth is being computed: one more than that of its deepest dependency. A
/// dependency that is being computed counts as depth 0, so that a cycle ends.
/// Gives the depths known afterwards, too.
pub open spec fn visit(
    deps: Seq<Seq<usize>>,
    node: int,
    known: Seq<Option<nat>>,
    busy: Seq<bool>,
) -> (nat, Seq<Option<nat>>)
    decreases open_count(busy), 0nat,
{
    if node < 0 || node >= deps.len() || busy.len() != deps.len() || known.len() != deps.len() {
        (0, known)
    } else {
        match known[node] {
            Some(depth) => (depth, known),
            None => if busy[node] {
                (0, known)
            } else {
                proof {
                    lemma_mark(busy, node);
                }
                let inner = visit_first(
                    deps,
                    node,
                    deps[node].len(),
                    known,
                    busy.update(node, true),
                );
                (inner.0, inner.1.update(node, Some(inner.0)))
            },
        }
    }
}

/// The depth that the first `k` dependencies of a node give it.
pub open spec fn visit_first(
    deps: Seq<Seq<usize>>,
    node: int,
    k: nat,
    known: Seq<Option<nat>>,
    busy: Seq<bool>,
) -> (nat, Seq<Option<nat>>)
    decreases open_count(busy), k + 1,
{
    if k == 0 {
        (0, known)
    } else {
        let before = visit_first(deps, node, (k - 1) as nat, known, busy);
        let last = visit(deps, deps[node][k - 1] as int, before.1, busy);
        (
            if before.0 > last.0 + 1 {
                before.0
            } else {
                last.0 + 1
            },
            last.1,
        )
    }
}

/// The depths known after visiting the first `n` nodes in turn.
pub open spec fn depths_after(deps: Seq<Seq<usize>>, n: nat) -> Seq<Option<nat>>
    decreases n,
{
    if n == 0 {
        Seq::new(deps.len(), |i: int| None)
    } else {
        visit(
            deps,
            n - 1,
            depths_after(deps, (n - 1) as nat),
            Seq::new(deps.len(), |i: int| false),
        ).1
    }
}

/// The depth of a node of the graph.
pub open spec fn depth_of(deps: Seq<Seq<usize>>, node: int) -> nat {
    match depths_after(deps, deps.len())[node] {
        Some(depth) => depth,
        None => 0,
    }
}

/// Whether every dependency is a node.
pub open spec fn in_range(deps: Seq<Seq<usize>>) -> bool {
    forall|a: int, i: int|
        0 <= a < deps.len() && 0 <= i < deps[a].len() ==> (#[trigger] deps[a][i]) < deps.len()
}

/// How many depths are known.
pub open spec fn known_count(known: Seq<Option<nat>>) -> nat
    decreases known.len(),
{
    if known.len() == 0 {
        0
    } else {
        known_count(known.drop_last()) + if known.last() is Some {
            1nat
        } else {
            0nat
        }
    }
}

proof fn lemma_known_count_bound(known: Seq<Option<nat>>)
    ensures
        known_count(known) <= known.len(),
    decreases known.len(),
{
    if known.len() > 0 {
        lemma_known_count_bound(known.drop_last());
    }
}

proof fn lemma_known_count_update(known: Seq<Option<nat>>, i: int, depth: nat)
    requires
        0 <= i < known.len(),
    ensures
        known_count(known.update(i, Some(depth))) == known_count(known) + (if known[i] is None {
            1nat
        } else {
            0nat
        }),
    decreases known.len(),
{
    let after = known.update(i, Some(depth));
    if i == known.len() - 1 {
        assert(after.drop_last() =~= known.drop_last());
    } else {
        assert(after.drop_last() =~= known.drop_last().update(i, Some(depth)));
        lemma_known_count_update(known.drop_last(), i, depth);
    }
}

/// Known depths are bounded by how many of them there are.
spec fn bounded(known: Seq<Option<nat>>) -> bool {
    forall|i: int|
        0 <= i < known.len() ==> (#[trigger] known[i] matches Some(d) ==> d <= known_count(known))
}

/// `after` knows all that `before` knows.
spec fn extends(before: Seq<Option<nat>>, after: Seq<Option<nat>>) -> bool {
    &&& before.len() == after.len()
    &&& forall|i: int|
        0 <= i < before.len() && (#[trigger] before[i]) is Some ==> after[i] == before[i]
}

proof fn lemma_extends_count(before: Seq<Option<nat>>, after: Seq<Option<nat>>)
    requires
        extends(before, after),
    ensures
        known_count(before) <= known_count(after),
    decreases before.len(),
{
    if before.len() > 0 {
        let b = before.drop_last();
        let a = after.drop_last();
        assert forall|i: int| 0 <= i < b.len() && (#[trigger] b[i]) is Some implies a[i]
            == b[i] by {
            assert(before[i] == b[i]);
            assert(after[i] == before[i]);
        }
        lemma_extends_count(b, a);
        assert(before[before.len() - 1] == before.last());
    }
}

/// A visit learns depths, forgets none, and touches no busy node; every depth
/// is bounded by how many are known.
proof fn lemma_visit(deps: Seq<Seq<usize>>, node: int, known: Seq<Option<nat>>, busy: Seq<bool>)
    requires
        in_range(deps),
        0 <= node < deps.len(),
        known.len() == deps.len(),
        busy.len() == deps.len(),
        bounded(known),
    ensures
        ({
            let r = visit(deps, node, known, busy);
            &&& extends(known, r.1)
            &&& bounded(r.1)
            &&& r.0 <= known_count(r.1)
            &&& !busy[node] ==> r.1[node] == Some(r.0)
            &&& forall|i: int|
                0 <= i < busy.len() && #[trigger] busy[i] ==> r.1[i] == known[i]
        }),
    decreases open_count(busy), 0nat,
{
    if known[node] is None && !busy[node] {
        lemma_mark(busy, node);
        let inner_busy = busy.update(node, true);
        lemma_visit_first(deps, node, deps[node].len(), known, inner_busy);
        let inner = visit_first(deps, node, deps[node].len(), known, inner_busy);
        assert(inner_busy[node]);
        assert(inner.1[node] is None);
        lemma_known_count_update(inner.1, node, inner.0);
        let after = inner.1.update(node, Some(inner.0));
        assert forall|i: int| 0 <= i < after.len() implies (#[trigger] after[i] matches Some(
            d,
        ) ==> d <= known_count(after)) by {
            if i != node {
                assert(after[i] == inner.1[i]);
            }
        }
        assert forall|i: int| 0 <= i < known.len() && (#[trigger] known[i]) is Some implies after[i]
            == known[i] by {
            assert(inner.1[i] == known[i]);
        }
        assert forall|i: int| 0 <= i < busy.len() && #[trigger] busy[i] implies after[i]
            == known[i] by {
            assert(inner_busy[i]);
        }
    } else if known[node] is Some {
        assert(known[node]->0 <= known_count(known));
    }
}

proof fn lemma_visit_first(
    deps: Seq<Seq<usize>>,
    node: int,
    k: nat,
    known: Seq<Option<nat>>,
    busy: Seq<bool>,
)
    requires
        in_range(deps),
        0 <= node < deps.len(),
        k <= deps[node].len(),
        known.len() == deps.len(),
        busy.len() == deps.len(),
        bounded(known),
    ensures
        ({
            let r = visit_first(deps, node, k, known, busy);
            &&& extends(known, r.1)
            &&& bounded(r.1)
            &&& r.0 <= known_count(r.1) + 1
            &&& forall|i: int|
                0 <= i < busy.len() && #[trigger] busy[i] ==> r.1[i] == known[i]
        }),
    decreases open_count(busy), k + 1,
{
    if k > 0 {
        lemma_visit_first(deps, node, (k - 1) as nat, known, busy);
        let before = visit_first(deps, node, (k - 1) as nat, known, busy);
        let next = deps[node][k - 1] as int;
        lemma_visit(deps, next, before.1, busy);
        let last = visit(deps, next, before.1, busy);
        lemma_extends_count(before.1, last.1);
        assert forall|i: int| 0 <= i < known.len() && (#[trigger] known[i]) is Some implies last.1[i]
            == known[i] by {
            assert(before.1[i] == known[i]);
        }
        assert forall|i: int| 0 <= i < busy.len() && #[trigger] busy[i] implies last.1[i]
            == known[i] by {
            assert(before.1[i] == known[i]);
        }
    }
}

spec fn depth_views(v: Seq<Option<usize>>) -> Seq<Option<nat>> {
    v.map_values(
        |d: Option<usize>|
            match d {
                Some(d) => Some(d as nat),
                None => None,
            },
    )
}

fn visit_node(
    deps: &Vec<Vec<usize>>,
    node: usize,
    known: &mut Vec<Option<usize>>,
    busy: &mut Vec<bool>,
) -> (r: usize)
    requires
        in_range(group_views(deps@)),
        node < deps@.len(),
        old(known)@.len() == deps@.len(),
        old(busy)@.len() == deps@.len(),
        bounded(depth_views(old(known)@)),
    ensures
        final(busy)@ == old(busy)@,
        (r as nat, depth_views(final(known)@)) == visit(
            group_views(deps@),
            node as int,
            depth_views(old(known)@),
            old(busy)@,
        ),
    decreases open_count(old(busy)@),
{
    let ghost ds = group_views(deps@);
    let ghost known0 = depth_views(known@);
    let ghost busy0 = busy@;
    assert(known0[node as int] == (match known@[node as int] {
        Some(d) => Some(d as nat),
        None => None,
    }));
    if let Some(depth) = known[node] {
        return depth;
    }
    if busy[node] {
        return 0;
    }
    busy.set(node, true);
    let ghost inner_busy = busy@;
    proof {
        lemma_mark(busy0, node as int);
    }
    let total: usize = deps.len();
    let mut depth: usize = 0;
    let mut k: usize = 0;
    assert(ds[node as int] == deps@[node as int]@);
    while k < deps[node].len()
        invariant
            ds == group_views(deps@),
            in_range(ds),
            node < deps@.len(),
            ds[node as int] == deps@[node as int]@,
            k <= deps@[node as int]@.len(),
            known0.len() == deps@.len(),
            bounded(known0),
            known@.len() == deps@.len(),
            busy@ == inner_busy,
            inner_busy.len() == deps@.len(),
            inner_busy[node as int],
            known0[node as int] is None,
            total == deps@.len(),
            open_count(inner_busy) < open_count(old(busy)@),
            (depth as nat, depth_views(known@)) == visit_first(
                ds,
                node as int,
                k as nat,
                known0,
                inner_busy,
            ),
        decreases deps@[node as int]@.len() - k,
    {
        let dep = deps[node][k];
        assert(ds[node as int][k as int] == dep);
        proof {
            lemma_visit_first(ds, node as int, k as nat, known0, inner_busy);
            lemma_visit(ds, dep as int, depth_views(known@), inner_busy);
            let next = visit(ds, dep as int, depth_views(known@), inner_busy);
            lemma_known_count_bound(next.1);
            // A node that is busy is not known, so a depth is short of the
            // number of nodes.
            lemma_visit_first(ds, node as int, (k + 1) as nat, known0, inner_busy);
            lemma_one_unknown(next.1, node as int);
        }
        let below = visit_node(deps, dep, known, busy);
        assert(depth_views(known@).len() == known@.len());
        if depth <= below {
            depth = below + 1;
        }
        k += 1;
    }
    busy.set(node, false);
    assert(busy@ =~= busy0);
    let ghost known1 = known@;
    known.set(node, Some(depth));
    assert(depth_views(known@) =~= depth_views(known1).update(node as int, Some(depth as nat)));
    depth
}

proof fn lemma_one_unknown(known: Seq<Option<nat>>, i: int)
    requires
        0 <= i < known.len(),
        known[i] is None,
    ensures
        known_count(known) < known.len(),
{
    lemma_known_count_update(known, i, 0);
    lemma_known_count_bound(known.update(i, Some(0)));
}

proof fn lemma_depths(deps: Seq<Seq<usize>>, n: nat)
    requires
        in_range(deps),
        n <= deps.len(),
    ensures
        depths_after(deps, n).len() == deps.len(),
        bounded(depths_after(deps, n)),
        forall|i: int| 0 <= i < n ==> (#[trigger] depths_after(deps, n)[i]) is Some,
    decreases n,
{
    if n > 0 {
        lemma_depths(deps, (n - 1) as nat);
        let before = depths_after(deps, (n - 1) as nat);
        let idle = Seq::new(deps.len(), |i: int| false);
        lemma_visit(deps, n - 1, before, idle);
        let after = depths_after(deps, n);
        assert forall|i: int| 0 <= i < n implies (#[trigger] after[i]) is Some by {
            if i < n - 1 {
                assert(before[i] is Some);
            }
        }
    }
}

/// The depth of each node: the longest dependency chain below it. A cycle is
/// cut where a visit comes back to a node that it passed.
pub fn depths(deps: &Vec<Vec<usize>>) -> (r: Vec<usize>)
    requires
        in_range(group_views(deps@)),
    ensures
        r@.len() == deps@.len(),
        forall|i: int|
            0 <= i < deps@.len() ==> (#[trigger] r@[i]) == depth_of(group_views(deps@), i),
{
    let ghost ds = group_views(deps@);
    let count: usize = deps.len();
    let mut known: Vec<Option<usize>> = Vec::new();
    let mut busy: Vec<bool> = Vec::new();
    let mut i: usize = 0;
    while i < count
        invariant
            i <= count,
            known@.len() == i,
            busy@.len() == i,
            forall|k: int| 0 <= k < i ==> (#[trigger] known@[k]) is None,
            forall|k: int| 0 <= k < i ==> !(#[trigger] busy@[k]),
        decreases count - i,
    {
        known.push(None);
        busy.push(false);
        i += 1;
    }
    let ghost idle = Seq::new(ds.len(), |k: int| false);
    assert(busy@ =~= idle);
    assert(depth_views(known@) =~= depths_after(ds, 0));
    let mut n: usize = 0;
    while n < count
        invariant
            n <= count,
            count == deps@.len(),
            ds == group_views(deps@),
            in_range(ds),
            idle == Seq::new(ds.len(), |k: int| false),
            busy@ == idle,
            known@.len() == count,
            depth_views(known@) == depths_after(ds, n as nat),
        decreases count - n,
    {
        proof {
            lemma_depths(ds, n as nat);
            lemma_depths(ds, (n + 1) as nat);
        }
        let _ = visit_node(deps, n, &mut known, &mut busy);
        assert(depth_views(known@).len() == known@.len());
        n += 1;
    }
    proof {
        lemma_depths(ds, ds.len());
    }
    let mut out: Vec<usize> = Vec::new();
    let mut k: usize = 0;
    while k < count
        invariant
            k <= count,
            count == deps@.len(),
            count == known@.len(),
            ds == group_views(deps@),
            out@.len() == k,
            depth_views(known@) == depths_after(ds, ds.len()),
            forall|j: int| 0 <= j < count ==> (#[trigger] depths_after(ds, ds.len())[j]) is Some,
            forall|j: int| 0 <= j < k ==> (#[trigger] out@[j]) == depth_of(ds, j),
        decreases count - k,
    {
        assert(depth_views(known@)[k as int] is Some);
        out.push(known[k].unwrap());
        k += 1;
    }
    out
}

// ---------------------------------------------------------------------
// Rows
// ---------------------------------------------------------------------

/// The greatest of some depths; 0 when there are none.
pub open spec fn deepest(depths: Seq<usize>) -> nat
    decreases depths.len(),
{
    if depths.len() == 0 {
        0
    } else {
        let before = deepest(depths.drop_last());
        if depths.last() > before {
            depths.last() as nat
        } else {
            before
        }
    }
}

/// The nodes of a depth, in ascending order.
pub open spec fn nodes_at(depths: Seq<usize>, depth: int) -> Seq<usize>
    decreases depths.len(),
{
    if depths.len() == 0 {
        Seq::empty()
    } else {
        let before = nodes_at(depths.drop_last(), depth);
        if depths.last() == depth {
            before.push((depths.len() - 1) as usize)
        } else {
            before
        }
    }
}

/// The rows from top to bottom, the deepest nodes on top.
pub open spec fn layer_rows(depths: Seq<usize>) -> Seq<Seq<usize>> {
    Seq::new(deepest(depths) + 1, |r: int| nodes_at(depths, deepest(depths) - r))
}

fn greatest(depths: &Vec<usize>) -> (r: usize)
    ensures
        r == deepest(depths@),
{
    let mut top: usize = 0;
    let mut i: usize = 0;
    while i < depths.len()
        invariant
            i <= depths@.len(),
            top == deepest(depths@.take(i as int)),
        decreases depths@.len() - i,
    {
        assert(depths@.take(i + 1).last() == depths@[i as int]);
        assert(depths@.take(i + 1).drop_last() == depths@.take(i as int));
        if depths[i] > top {
            top = depths[i];
        }
        i += 1;
    }
    assert(depths@.take(depths@.len() as int) == depths@);
    top
}

fn row_at(depths: &Vec<usize>, depth: usize) -> (r: Vec<usize>)
    ensures
        r@ == nodes_at(depths@, depth as int),
{
    let mut out: Vec<usize> = Vec::new();
    let mut i: usize = 0;
    while i < depths.len()
        invariant
            i <= depths@.len(),
            out@ == nodes_at(depths@.take(i as int), depth as int),
        decreases depths@.len() - i,
    {
        assert(depths@.take(i + 1).last() == depths@[i as int]);
        assert(depths@.take(i + 1).drop_last() == depths@.take(i as int));
        if depths[i] == depth {
            out.push(i);
        }
        i += 1;
    }
    assert(depths@.take(depths@.len() as int) == depths@);
    out
}

/// Rows top-to-bottom: dependents (deepest chains) on top, each row in the
/// order of the nodes.
pub fn rows_of(depths: &Vec<usize>) -> (r: Vec<Vec<usize>>)
    ensures
        group_views(r@) == layer_rows(depths@),
{
    let top = greatest(depths);
    let ghost wanted = layer_rows(depths@);
    let mut out: Vec<Vec<usize>> = Vec::new();
    let mut depth: usize = top;
    while depth > 0
        invariant
            depth <= top,
            top == deepest(depths@),
            wanted == layer_rows(depths@),
            out@.len() == top - depth,
            group_views(out@) == wanted.take(top - depth),
        decreases depth,
    {
        let ghost before = out@;
        out.push(row_at(depths, depth));
        assert(group_views(out@) =~= group_views(before).push(wanted[top - depth]));
        assert(wanted.take(top - depth + 1) =~= wanted.take(top - depth).push(
            wanted[top - depth],
        ));
        depth -= 1;
    }
    let ghost before = out@;
    out.push(row_at(depths, 0));
    assert(group_views(out@) =~= group_views(before).push(wanted[top as int]));
    assert(group_views(out@) =~= wanted);
    out
}

// ---------------------------------------------------------------------
// Layers
// ---------------------------------------------------------------------

/// The sort keys of a row: the weight of each of its nodes.
pub open spec fn weight_keys(row: Seq<usize>, weights: Seq<u64>) -> Seq<Seq<u64>> {
    row.map_values(|node: usize| seq![rank_of(weights[node as int])])
}

/// A row in the stable order of the weights of its nodes, as floating-point
/// values.
pub open spec fn reordered(row: Seq<usize>, weights: Seq<u64>) -> Seq<usize> {
    stable_order_of(weight_keys(row, weights)).map_values(|k: usize| row[k as int])
}

/// A graph laid out in rows.
pub struct Layers {
    count: usize,
    deps: Vec<Vec<usize>>,
    links: Vec<Vec<usize>>,
    rows: Vec<Vec<usize>>,
}

/// The mathematical value of [`Layers`].
pub struct LayersView {
    pub count: nat,
    /// The dependencies of each node.
    pub deps: Seq<Seq<usize>>,
    /// The neighbors of each node, whichever way the edge points.
    pub links: Seq<Seq<usize>>,
    /// The rows from top to bottom.
    pub rows: Seq<Seq<usize>>,
}

impl View for Layers {
    type V = LayersView;

    closed spec fn view(&self) -> LayersView {
        LayersView {
            count: self.count as nat,
            deps: group_views(self.deps@),
            links: group_views(self.links@),
            rows: group_views(self.rows@),
        }
    }
}

impl LayersView {
    /// Whether the rows and lists name nodes of the graph.
    pub open spec fn well_formed(self) -> bool {
        &&& self.deps.len() == self.count
        &&& self.links.len() == self.count
        &&& forall|r: int, i: int|
            0 <= r < self.rows.len() && 0 <= i < self.rows[r].len() ==> (
            #[trigger] self.rows[r][i]) < self.count
    }
}

/// Whether a node stands in a row below the given one.
pub open spec fn below(rows: Seq<Seq<usize>>, row: int, node: usize) -> bool {
    exists|h: int| row < h < rows.len() && (#[trigger] rows[h]).contains(node)
}

/// Those of some nodes that stand in a row below the given one.
pub open spec fn children_below(nodes: Seq<usize>, rows: Seq<Seq<usize>>, row: int) -> Seq<usize>
    decreases nodes.len(),
{
    if nodes.len() == 0 {
        Seq::empty()
    } else {
        let before = children_below(nodes.drop_last(), rows, row);
        if below(rows, row, nodes.last()) {
            before.push(nodes.last())
        } else {
            before
        }
    }
}

/// The dependencies of each node of a graph.
pub open spec fn dependency_lists(count: int, edges: Seq<(usize, usize)>) -> Seq<Seq<usize>> {
    Seq::new(count as nat, |a: int| dependency_list(count, edges, a))
}

/// The neighbors of each node of a graph.
pub open spec fn neighbor_lists(count: int, edges: Seq<(usize, usize)>) -> Seq<Seq<usize>> {
    Seq::new(count as nat, |a: int| neighbor_list(count, edges, a))
}

/// The depth of each node of a graph.
pub open spec fn graph_depths(count: int, edges: Seq<(usize, usize)>) -> Seq<usize> {
    Seq::new(count as nat, |a: int| depth_of(dependency_lists(count, edges), a) as usize)
}

proof fn lemma_dependency_lists_in_range(count: int, edges: Seq<(usize, usize)>)
    requires
        0 <= count,
    ensures
        in_range(dependency_lists(count, edges)),
{
    let deps = dependency_lists(count, edges);
    assert forall|a: int, i: int| 0 <= a < deps.len() && 0 <= i < deps[a].len() implies (
    #[trigger] deps[a][i]) < deps.len() by {
        lemma_dependencies_in_range(count, edges, a, i);
    }
}

pub(crate) proof fn lemma_nodes_at_in_range(depths: Seq<usize>, depth: int, i: int)
    requires
        0 <= i < nodes_at(depths, depth).len(),
        depths.len() <= usize::MAX,
    ensures
        nodes_at(depths, depth)[i] < depths.len(),
    decreases depths.len(),
{
    let before = nodes_at(depths.drop_last(), depth);
    if i < before.len() {
        lemma_nodes_at_in_range(depths.drop_last(), depth, i);
    }
}

proof fn lemma_reordered_contains(row: Seq<usize>, weights: Seq<u64>, x: usize)
    requires
        row.len() <= usize::MAX,
    ensures
        reordered(row, weights).len() == row.len(),
        reordered(row, weights).contains(x) == row.contains(x),
{
    let keys = weight_keys(row, weights);
    let order = stable_order_of(keys);
    let out = reordered(row, weights);
    law_stable_order_exists(keys);
    if row.contains(x) {
        let i = choose|i: int| 0 <= i < row.len() && row[i] == x;
        assert(order.contains(i as usize));
        let k = choose|k: int| 0 <= k < order.len() && order[k] == i as usize;
        assert(out[k] == x);
    }
    if out.contains(x) {
        let k = choose|k: int| 0 <= k < out.len() && out[k] == x;
        assert(row[order[k] as int] == x);
    }
}

/// A row in the stable order of the weights of its nodes.
fn reorder_row(row: &Vec<usize>, weights: &Vec<u64>) -> (r: Vec<usize>)
    requires
        forall|i: int| 0 <= i < row@.len() ==> (#[trigger] row@[i]) < weights@.len(),
    ensures
        r@ == reordered(row@, weights@),
{
    let mut keys: Vec<Vec<u64>> = Vec::new();
    let ghost wanted_keys = weight_keys(row@, weights@);
    let mut i: usize = 0;
    while i < row.len()
        invariant
            i <= row@.len(),
            forall|k: int| 0 <= k < row@.len() ==> (#[trigger] row@[k]) < weights@.len(),
            wanted_keys == weight_keys(row@, weights@),
            key_views(keys@) == wanted_keys.take(i as int),
        decreases row@.len() - i,
    {
        let ghost before = keys@;
        let key = vec![order_rank(weights[row[i]])];
        assert(key@ =~= wanted_keys[i as int]);
        keys.push(key);
        assert(key_views(keys@) =~= key_views(before).push(wanted_keys[i as int]));
        i += 1;
    }
    assert(wanted_keys.take(row@.len() as int) == wanted_keys);
    let order = stable_order(&keys);
    let ghost wanted = reordered(row@, weights@);
    let mut out: Vec<usize> = Vec::new();
    let mut k: usize = 0;
    while k < order.len()
        invariant
            k <= order@.len(),
            order@.len() == row@.len(),
            is_stable_order(order@, weight_keys(row@, weights@)),
            order@ == stable_order_of(weight_keys(row@, weights@)),
            wanted == reordered(row@, weights@),
            out@ == wanted.take(k as int),
        decreases order@.len() - k,
    {
        out.push(row[order[k]]);
        assert(wanted.take(k + 1) =~= wanted.take(k as int).push(wanted[k as int]));
        k += 1;
    }
    assert(wanted.take(order@.len() as int) == wanted);
    out
}

impl Layers {
    /// Lay a graph out in rows. Edges are `(dependent, dependency)`; those
    /// that name no node are ignored.
    pub fn new(count: usize, edges: &[(usize, usize)]) -> (r: Layers)
        ensures
            r@.count == count,
            r@.deps == dependency_lists(count as int, edges@),
            r@.links == neighbor_lists(count as int, edges@),
            r@.rows == layer_rows(graph_depths(count as int, edges@)),
            r@.well_formed(),
    {
        let deps = dependencies(count, edges);
        let links = neighbors(count, edges);
        let ghost ds = dependency_lists(count as int, edges@);
        proof {
            lemma_dependency_lists_in_range(count as int, edges@);
            assert(group_views(deps@) =~= ds);
            assert(group_views(links@) =~= neighbor_lists(count as int, edges@));
        }
        let all = depths(&deps);
        assert(all@ =~= graph_depths(count as int, edges@));
        let rows = rows_of(&all);
        proof {
            let lists = layer_rows(all@);
            assert forall|r: int, i: int| 0 <= r < lists.len() && 0 <= i < lists[r].len() implies (
            #[trigger] lists[r][i]) < count by {
                lemma_nodes_at_in_range(all@, deepest(all@) - r, i);
            }
        }
        Layers { count, deps, links, rows }
    }

    /// Order every row by the weights of its nodes, floating-point values
    /// given by their bits; nodes of equal weight keep their order.
    pub fn reorder(&mut self, weights: &Vec<u64>)
        requires
            old(self)@.well_formed(),
            weights@.len() == old(self)@.count,
        ensures
            final(self)@.well_formed(),
            final(self)@.count == old(self)@.count,
            final(self)@.deps == old(self)@.deps,
            final(self)@.links == old(self)@.links,
            final(self)@.rows == old(self)@.rows.map_values(
                |row: Seq<usize>| reordered(row, weights@),
            ),
    {
        let ghost before = self@.rows;
        let ghost wanted = before.map_values(|row: Seq<usize>| reordered(row, weights@));
        let mut out: Vec<Vec<usize>> = Vec::new();
        let mut r: usize = 0;
        while r < self.rows.len()
            invariant
                r <= self.rows@.len(),
                before == group_views(self.rows@),
                before == self@.rows,
                self@.well_formed(),
                *self == *old(self),
                weights@.len() == self@.count,
                wanted == before.map_values(|row: Seq<usize>| reordered(row, weights@)),
                group_views(out@) == wanted.take(r as int),
                forall|q: int, i: int|
                    0 <= q < r && 0 <= i < wanted[q].len() ==> (#[trigger] wanted[q][i])
                        < self@.count,
            decreases self.rows@.len() - r,
        {
            let row = &self.rows[r];
            let row_len: usize = row.len();
            proof {
                assert(before[r as int] == row@);
                assert forall|i: int| 0 <= i < row@.len() implies (#[trigger] row@[i])
                    < weights@.len() by {
                    assert(before[r as int][i] < self@.count);
                }
            }
            let sorted = reorder_row(row, weights);
            proof {
                assert forall|i: int| 0 <= i < wanted[r as int].len() implies (
                #[trigger] wanted[r as int][i]) < self@.count by {
                    let x = wanted[r as int][i];
                    assert(wanted[r as int].contains(x));
                    assert(row_len == row@.len());
                    lemma_reordered_contains(row@, weights@, x);
                    let k = choose|k: int| 0 <= k < row@.len() && row@[k] == x;
                    assert(before[r as int][k] == x);
                }
            }
            let ghost old_out = out@;
            out.push(sorted);
            assert(group_views(out@) =~= group_views(old_out).push(wanted[r as int]));
            assert(wanted.take(r + 1) =~= wanted.take(r as int).push(wanted[r as int]));
            r += 1;
        }
        assert(wanted.take(before.len() as int) =~= wanted);
        self.rows = out;
    }

    /// The rows from top to bottom.
    pub fn rows(&self) -> (r: &Vec<Vec<usize>>)
        ensures
            group_views(r@) == self@.rows,
    {
        &self.rows
    }

    /// The dependencies of each node.
    pub fn deps(&self) -> (r: &Vec<Vec<usize>>)
        ensures
            group_views(r@) == self@.deps,
    {
        &self.deps
    }

    /// Those dependencies of a node that stand in a row below the given one,
    /// in their order.
    pub fn children(&self, node: usize, row: usize) -> (r: Vec<usize>)
        requires
            self@.well_formed(),
            node < self@.count,
        ensures
            r@ == children_below(self@.deps[node as int], self@.rows, row as int),
    {
        let deps = &self.deps[node];
        assert(self@.deps[node as int] == deps@);
        let mut out: Vec<usize> = Vec::new();
        let mut i: usize = 0;
        while i < deps.len()
            invariant
                i <= deps@.len(),
                out@ == children_below(deps@.take(i as int), self@.rows, row as int),
            decreases deps@.len() - i,
        {
            assert(deps@.take(i + 1).last() == deps@[i as int]);
            assert(deps@.take(i + 1).drop_last() == deps@.take(i as int));
            if self.is_below(deps[i], row) {
                out.push(deps[i]);
            }
            i += 1;
        }
        assert(deps@.take(deps@.len() as int) == deps@);
        out
    }

    fn is_below(&self, node: usize, row: usize) -> (r: bool)
        ensures
            r == below(self@.rows, row as int, node),
    {
        let mut q: usize = self.rows.len();
        while q > 0 && q - 1 > row
            invariant
                q <= self.rows@.len(),
                forall|h: int| q <= h < self.rows@.len() ==> !(#[trigger] self@.rows[h]).contains(node),
            decreases q,
        {
            let list = &self.rows[q - 1];
            assert(self@.rows[q - 1] == list@);
            let mut i: usize = 0;
            while i < list.len()
                invariant
                    i <= list@.len(),
                    row < q - 1 < self.rows@.len(),
                    self@.rows[q - 1] == list@,
                    forall|k: int| 0 <= k < i ==> list@[k] != node,
                decreases list@.len() - i,
            {
                if list[i] == node {
                    assert(self@.rows[q - 1].contains(node));
                    return true;
                }
                i += 1;
            }
            q -= 1;
        }
        false
    }

    /// The neighbors of each node, whichever way the edge points.
    pub fn links(&self) -> (r: &Vec<Vec<usize>>)
        ensures
            group_views(r@) == self@.links,
    {
        &self.links
    }
}

// ---------------------------------------------------------------------
// Laws
// ---------------------------------------------------------------------

/// One more than the greatest depth of the first `k` nodes of a list.
spec fn above(list: Seq<usize>, known: Seq<Option<nat>>, k: nat) -> nat
    decreases k,
{
    if k == 0 {
        0
    } else {
        let before = above(list, known, (k - 1) as nat);
        let last = known[list[k - 1] as int]->0 + 1;
        if before > last {
            before
        } else {
            last
        }
    }
}

/// Whether the first `k` nodes of a list have known depths.
spec fn all_known(list: Seq<usize>, known: Seq<Option<nat>>, k: nat) -> bool {
    forall|i: int| 0 <= i < k ==> known[(#[trigger] list[i]) as int] is Some
}

/// Whether every known depth is the right one.
#[verifier::opaque]
spec fn correct(deps: Seq<Seq<usize>>, known: Seq<Option<nat>>) -> bool {
    forall|a: int|
        0 <= a < deps.len() && (#[trigger] known[a]) is Some ==> all_known(
            deps[a],
            known,
            deps[a].len(),
        ) && known[a] == Some(above(deps[a], known, deps[a].len()))
}

/// Whether every node ranks above its dependencies: the graph has no cycle.
pub open spec fn ranked(deps: Seq<Seq<usize>>, rank: spec_fn(int) -> nat) -> bool {
    forall|a: int, i: int|
        0 <= a < deps.len() && 0 <= i < deps[a].len() ==> rank((#[trigger] deps[a][i]) as int)
            < rank(a)
}

proof fn lemma_above_extends(
    deps: Seq<Seq<usize>>,
    a: int,
    before: Seq<Option<nat>>,
    after: Seq<Option<nat>>,
    k: nat,
)
    requires
        in_range(deps),
        0 <= a < deps.len(),
        before.len() == deps.len(),
        extends(before, after),
        k <= deps[a].len(),
        all_known(deps[a], before, k),
    ensures
        all_known(deps[a], after, k),
        above(deps[a], before, k) == above(deps[a], after, k),
    decreases k,
{
    if k > 0 {
        let list = deps[a];
        assert(all_known(list, before, (k - 1) as nat));
        lemma_above_extends(deps, a, before, after, (k - 1) as nat);
        assert(before[list[k - 1] as int] is Some);
        assert(deps[a][k - 1] < deps.len());
        assert forall|i: int| 0 <= i < k implies after[(#[trigger] list[i]) as int] is Some by {
            assert(before[list[i] as int] is Some);
            assert(deps[a][i] < deps.len());
        }
    }
}

#[verifier::rlimit(40)]
proof fn lemma_visit_ranked(
    deps: Seq<Seq<usize>>,
    node: int,
    known: Seq<Option<nat>>,
    busy: Seq<bool>,
    rank: spec_fn(int) -> nat,
)
    requires
        in_range(deps),
        ranked(deps, rank),
        0 <= node < deps.len(),
        known.len() == deps.len(),
        busy.len() == deps.len(),
        bounded(known),
        correct(deps, known),
        forall|i: int| 0 <= i < busy.len() && #[trigger] busy[i] ==> rank(i) > rank(node),
    ensures
        correct(deps, visit(deps, node, known, busy).1),
    decreases open_count(busy), 0nat,
{
    lemma_visit(deps, node, known, busy);
    if known[node] is None {
        assert(!busy[node]);
        lemma_mark(busy, node);
        let inner_busy = busy.update(node, true);
        let n = deps[node].len();
        assert forall|i: int| 0 <= i < inner_busy.len() && #[trigger] inner_busy[i] implies rank(i)
            >= rank(node) by {
            if i != node {
                assert(busy[i]);
            }
        }
        lemma_visit_first(deps, node, n, known, inner_busy);
        lemma_visit_first_ranked(deps, node, n, known, inner_busy, rank);
        reveal(correct);
        let inner = visit_first(deps, node, n, known, inner_busy);
        let after = inner.1.update(node, Some(inner.0));
        assert(inner_busy[node]);
        assert(inner.1[node] is None);
        assert(extends(inner.1, after));
        assert forall|a: int|
            0 <= a < deps.len() && (#[trigger] after[a]) is Some implies all_known(
            deps[a],
            after,
            deps[a].len(),
        ) && after[a] == Some(above(deps[a], after, deps[a].len())) by {
            if a != node {
                assert(inner.1[a] is Some);
            }
            lemma_above_extends(deps, a, inner.1, after, deps[a].len());
        }
    }
}

#[verifier::rlimit(40)]
proof fn lemma_visit_first_ranked(
    deps: Seq<Seq<usize>>,
    node: int,
    k: nat,
    known: Seq<Option<nat>>,
    busy: Seq<bool>,
    rank: spec_fn(int) -> nat,
)
    requires
        in_range(deps),
        ranked(deps, rank),
        0 <= node < deps.len(),
        k <= deps[node].len(),
        known.len() == deps.len(),
        busy.len() == deps.len(),
        bounded(known),
        correct(deps, known),
        forall|i: int| 0 <= i < busy.len() && #[trigger] busy[i] ==> rank(i) >= rank(node),
    ensures
        ({
            let r = visit_first(deps, node, k, known, busy);
            &&& correct(deps, r.1)
            &&& all_known(deps[node], r.1, k)
            &&& r.0 == above(deps[node], r.1, k)
        }),
    decreases open_count(busy), k + 1,
{
    if k > 0 {
        let m = (k - 1) as nat;
        lemma_visit_first(deps, node, m, known, busy);
        lemma_visit_first_ranked(deps, node, m, known, busy, rank);
        let before = visit_first(deps, node, m, known, busy);
        let next = deps[node][k - 1] as int;
        assert(rank(next) < rank(node));
        assert forall|i: int| 0 <= i < busy.len() && #[trigger] busy[i] implies rank(i) > rank(
            next,
        ) by {
            assert(rank(i) >= rank(node));
        }
        lemma_visit(deps, next, before.1, busy);
        lemma_visit_ranked(deps, next, before.1, busy, rank);
        let last = visit(deps, next, before.1, busy);
        lemma_above_extends(deps, node, before.1, last.1, m);
        assert(!busy[next]);
        assert(last.1[next] == Some(last.0));
        let list = deps[node];
        assert forall|i: int| 0 <= i < k implies last.1[(#[trigger] list[i]) as int] is Some by {
            if i < m {
                assert(all_known(list, last.1, m));
            }
        }
    }
}

proof fn lemma_depths_ranked(deps: Seq<Seq<usize>>, n: nat, rank: spec_fn(int) -> nat)
    requires
        in_range(deps),
        ranked(deps, rank),
        n <= deps.len(),
    ensures
        correct(deps, depths_after(deps, n)),
    decreases n,
{
    if n > 0 {
        lemma_depths(deps, (n - 1) as nat);
        lemma_depths_ranked(deps, (n - 1) as nat, rank);
        let idle = Seq::new(deps.len(), |i: int| false);
        lemma_visit_ranked(deps, n - 1, depths_after(deps, (n - 1) as nat), idle, rank);
    } else {
        reveal(correct);
    }
}

proof fn lemma_above_is_greatest(list: Seq<usize>, known: Seq<Option<nat>>, k: nat)
    requires
        k <= list.len(),
    ensures
        forall|i: int|
            0 <= i < k ==> known[(#[trigger] list[i]) as int]->0 + 1 <= above(list, known, k),
        k > 0 ==> exists|i: int|
            0 <= i < k && known[(#[trigger] list[i]) as int]->0 + 1 == above(list, known, k),
    decreases k,
{
    if k > 0 {
        lemma_above_is_greatest(list, known, (k - 1) as nat);
        let before = above(list, known, (k - 1) as nat);
        if before > known[list[k - 1] as int]->0 + 1 {
            let i = choose|i: int|
                0 <= i < k - 1 && known[(#[trigger] list[i]) as int]->0 + 1 == before;
            assert(known[list[i] as int]->0 + 1 == above(list, known, k));
        } else {
            assert(known[list[k - 1] as int]->0 + 1 == above(list, known, k));
        }
    }
}

/// In a graph without cycles the depth of a node is the length of the longest
/// dependency chain below it: 0 without dependencies, else one more than that
/// of its deepest dependency. So every dependency lies lower.
pub proof fn law_depth_is_longest_chain(
    deps: Seq<Seq<usize>>,
    rank: spec_fn(int) -> nat,
    node: int,
)
    requires
        in_range(deps),
        ranked(deps, rank),
        0 <= node < deps.len(),
    ensures
        deps[node].len() == 0 ==> depth_of(deps, node) == 0,
        forall|i: int|
            0 <= i < deps[node].len() ==> depth_of(deps, (#[trigger] deps[node][i]) as int)
                < depth_of(deps, node),
        deps[node].len() > 0 ==> exists|i: int|
            0 <= i < deps[node].len() && depth_of(deps, (#[trigger] deps[node][i]) as int) + 1
                == depth_of(deps, node),
{
    let known = depths_after(deps, deps.len());
    let list = deps[node];
    lemma_depths(deps, deps.len());
    lemma_depths_ranked(deps, deps.len(), rank);
    reveal(correct);
    lemma_above_is_greatest(list, known, list.len());
    assert(known[node] is Some);
    assert forall|i: int| 0 <= i < list.len() implies depth_of(deps, (#[trigger] list[i]) as int)
        == known[list[i] as int]->0 by {
        assert(deps[node][i] < deps.len());
        assert(known[list[i] as int] is Some);
    }
    if list.len() > 0 {
        let i = choose|i: int|
            0 <= i < list.len() && known[(#[trigger] list[i]) as int]->0 + 1 == above(
                list,
                known,
                list.len(),
            );
        assert(depth_of(deps, deps[node][i] as int) + 1 == depth_of(deps, node));
    }
}

proof fn lemma_nodes_at_contains(depths: Seq<usize>, depth: int, node: int)
    requires
        0 <= node < depths.len() <= usize::MAX,
    ensures
        nodes_at(depths, depth).contains(node as usize) == (depths[node] == depth),
    decreases depths.len(),
{
    let before = nodes_at(depths.drop_last(), depth);
    let last = (depths.len() - 1) as usize;
    if node < depths.len() - 1 {
        lemma_nodes_at_contains(depths.drop_last(), depth, node);
        if before.contains(node as usize) {
            let k = choose|k: int| 0 <= k < before.len() && before[k] == node as usize;
            assert(before.push(last)[k] == node as usize);
        }
        if before.push(last).contains(node as usize) {
            let k = choose|k: int|
                0 <= k < before.push(last).len() && before.push(last)[k] == node as usize;
            assert(before[k] == node as usize);
        }
    } else {
        if before.contains(last) {
            let k = choose|k: int| 0 <= k < before.len() && before[k] == last;
            lemma_nodes_at_in_range(depths.drop_last(), depth, k);
        }
        assert(before.push(last)[before.len() as int] == last);
    }
}

proof fn lemma_deepest(depths: Seq<usize>, node: int)
    requires
        0 <= node < depths.len(),
    ensures
        depths[node] <= deepest(depths),
    decreases depths.len(),
{
    if node < depths.len() - 1 {
        lemma_deepest(depths.drop_last(), node);
    }
}

/// Every node stands in exactly one row: the deeper it is, the higher.
pub proof fn law_every_node_has_one_row(depths: Seq<usize>, node: int, r: int)
    requires
        0 <= node < depths.len() <= usize::MAX,
        0 <= r < layer_rows(depths).len(),
    ensures
        0 <= deepest(depths) - depths[node] < layer_rows(depths).len(),
        layer_rows(depths)[r].contains(node as usize) == (r == deepest(depths) - depths[node]),
{
    lemma_deepest(depths, node);
    lemma_nodes_at_contains(depths, deepest(depths) - r, node);
}

/// Reordering a row moves its nodes about and changes which they are no more
/// than how many.
pub proof fn law_reorder_keeps_the_row(row: Seq<usize>, weights: Seq<u64>, node: usize)
    requires
        row.len() <= usize::MAX,
    ensures
        reordered(row, weights).len() == row.len(),
        reordered(row, weights).contains(node) == row.contains(node),
{
    lemma_reordered_contains(row, weights, node);
}

/// After reordering, the weights of a row ascend from left to right, as
/// floating-point values in their total order.
pub proof fn law_reordered_row_is_sorted(row: Seq<usize>, weights: Seq<u64>, i: int, j: int)
    requires
        0 <= i < j < row.len() <= usize::MAX,
    ensures
        rank_of(weights[reordered(row, weights)[i] as int]) <= rank_of(
            weights[reordered(row, weights)[j] as int],
        ),
{
    let keys = weight_keys(row, weights);
    law_stable_order_exists(keys);
    let order = stable_order_of(keys);
    let a = order[i] as int;
    let b = order[j] as int;
    assert(sorts_before(keys, a, b));
    assert(keys[a].len() == 1 && keys[b].len() == 1);
}

/// In a graph without cycles every node stands above the nodes it depends on,
/// so they are its children.
pub proof fn law_dependencies_lie_below(
    count: int,
    edges: Seq<(usize, usize)>,
    rank: spec_fn(int) -> nat,
    node: int,
    i: int,
)
    requires
        0 <= count <= usize::MAX,
        ranked(dependency_lists(count, edges), rank),
        0 <= node < count,
        0 <= i < dependency_lists(count, edges)[node].len(),
    ensures
        ({
            let depths = graph_depths(count, edges);
            below(
                layer_rows(depths),
                deepest(depths) - depths[node],
                dependency_lists(count, edges)[node][i],
            )
        }),
{
    let deps = dependency_lists(count, edges);
    let depths = graph_depths(count, edges);
    let dep = deps[node][i];
    lemma_dependency_lists_in_range(count, edges);
    assert(dep < count);
    law_depth_is_longest_chain(deps, rank, node);
    lemma_depths(deps, deps.len());
    let known = depths_after(deps, deps.len());
    lemma_known_count_bound(known);
    assert(known[node] is Some && known[dep as int] is Some);
    law_every_node_has_one_row(depths, node, 0);
    law_every_node_has_one_row(depths, dep as int, 0);
    let h = deepest(depths) - depths[dep as int];
    law_every_node_has_one_row(depths, dep as int, h);
    assert(layer_rows(depths)[h].contains(dep));
}

} // verus!
