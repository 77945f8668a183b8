//! What the graph behind the map gives, told edge by edge and group by group.

use crate::graph::{dependency_list, neighbor_list};
use crate::layers::{
    children_below, layer_rows, lemma_nodes_at_in_range, nodes_at, reordered, weight_keys,
};
use crate::number::rank_of;
use crate::order::{
    key_lt, law_stable_order_exists, lemma_key_irreflexive, sorts_before, stable_order_of,
};
use crate::squeeze::{
    blocks_among, local_edges, pack_keys, place_of, reverse_rank, singles_among, ComponentView,
};
use vstd::prelude::*;

verus! {

// ---------------------------------------------------------------------
// Lists of neighbors
// ---------------------------------------------------------------------

/// Every edge that leaves a node adds its end to the dependencies of the node,
/// and no other edge does; the ends keep the order of the edges.
pub proof fn law_every_edge_is_a_dependency(
    count: int,
    first: Seq<(usize, usize)>,
    second: Seq<(usize, usize)>,
    from: usize,
    to: usize,
    node: int,
)
    requires
        from < count,
        to < count,
    ensures
        dependency_list(count, first + second, node) == dependency_list(count, first, node)
            + dependency_list(count, second, node),
        from == node ==> dependency_list(count, seq![(from, to)], node) == seq![to],
        from != node ==> dependency_list(count, seq![(from, to)], node).len() == 0,
    decreases second.len(),
{
    let one = seq![(from, to)];
    assert(one.last() == (from, to));
    assert(one.drop_last() =~= Seq::<(usize, usize)>::empty());
    assert(dependency_list(count, one.drop_last(), node) =~= Seq::<usize>::empty());
    assert(from == node ==> dependency_list(count, one, node) =~= seq![to]);
    if second.len() == 0 {
        assert(first + second =~= first);
    } else {
        law_every_edge_is_a_dependency(count, first, second.drop_last(), from, to, node);
        assert((first + second).last() == second.last());
        assert((first + second).drop_last() =~= first + second.drop_last());
    }
    assert(dependency_list(count, first + second, node) =~= dependency_list(count, first, node)
        + dependency_list(count, second, node));
}

/// Every edge makes its two ends neighbors of each other, and of no other
/// node; the neighbors keep the order of the edges.
pub proof fn law_every_edge_makes_neighbors(
    count: int,
    first: Seq<(usize, usize)>,
    second: Seq<(usize, usize)>,
    from: usize,
    to: usize,
    node: int,
)
    requires
        from < count,
        to < count,
        from != to,
    ensures
        neighbor_list(count, first + second, node) == neighbor_list(count, first, node)
            + neighbor_list(count, second, node),
        from == node ==> neighbor_list(count, seq![(from, to)], node) == seq![to],
        to == node ==> neighbor_list(count, seq![(from, to)], node) == seq![from],
        from != node && to != node ==> neighbor_list(count, seq![(from, to)], node).len() == 0,
    decreases second.len(),
{
    let one = seq![(from, to)];
    assert(one.last() == (from, to));
    assert(one.drop_last() =~= Seq::<(usize, usize)>::empty());
    assert(neighbor_list(count, one.drop_last(), node) =~= Seq::<usize>::empty());
    assert(from == node ==> neighbor_list(count, one, node) =~= seq![to]);
    assert(to == node ==> neighbor_list(count, one, node) =~= seq![from]);
    if second.len() == 0 {
        assert(first + second =~= first);
    } else {
        law_every_edge_makes_neighbors(count, first, second.drop_last(), from, to, node);
        assert((first + second).last() == second.last());
        assert((first + second).drop_last() =~= first + second.drop_last());
    }
    assert(neighbor_list(count, first + second, node) =~= neighbor_list(count, first, node)
        + neighbor_list(count, second, node));
}

/// An edge to or from what is no node adds to no list.
pub proof fn law_stray_edge_is_dropped(count: int, from: usize, to: usize, node: int)
    requires
        from >= count || to >= count,
    ensures
        dependency_list(count, seq![(from, to)], node).len() == 0,
        neighbor_list(count, seq![(from, to)], node).len() == 0,
{
    let one = seq![(from, to)];
    assert(one.last() == (from, to));
    assert(one.drop_last() =~= Seq::<(usize, usize)>::empty());
    assert(dependency_list(count, one.drop_last(), node) =~= Seq::<usize>::empty());
    assert(neighbor_list(count, one.drop_last(), node) =~= Seq::<usize>::empty());
}

// ---------------------------------------------------------------------
// Rows
// ---------------------------------------------------------------------

/// A dependency is a child exactly when some lower row has it; the children
/// keep the order of the dependencies.
pub proof fn law_children_are_the_lower_dependencies(
    first: Seq<usize>,
    second: Seq<usize>,
    node: usize,
    rows: Seq<Seq<usize>>,
    row: int,
)
    ensures
        children_below(first + second, rows, row) == children_below(first, rows, row)
            + children_below(second, rows, row),
        (exists|h: int| row < h < rows.len() && (#[trigger] rows[h]).contains(node))
            ==> children_below(seq![node], rows, row) == seq![node],
        (forall|h: int| row < h < rows.len() ==> !(#[trigger] rows[h]).contains(node))
            ==> children_below(seq![node], rows, row).len() == 0,
    decreases second.len(),
{
    let one = seq![node];
    assert(one.last() == node);
    assert(one.drop_last() =~= Seq::<usize>::empty());
    assert(children_below(one.drop_last(), rows, row) =~= Seq::<usize>::empty());
    assert(crate::layers::below(rows, row, node) ==> children_below(one, rows, row) =~= seq![node]);
    if second.len() == 0 {
        assert(first + second =~= first);
    } else {
        law_children_are_the_lower_dependencies(first, second.drop_last(), node, rows, row);
        assert((first + second).last() == second.last());
        assert((first + second).drop_last() =~= first + second.drop_last());
    }
    assert(children_below(first + second, rows, row) =~= children_below(first, rows, row)
        + children_below(second, rows, row));
}

proof fn lemma_nodes_ascend(depths: Seq<usize>, depth: int, i: int, j: int)
    requires
        depths.len() <= usize::MAX,
        0 <= i < j < nodes_at(depths, depth).len(),
    ensures
        nodes_at(depths, depth)[i] < nodes_at(depths, depth)[j],
    decreases depths.len(),
{
    let before = nodes_at(depths.drop_last(), depth);
    if j < before.len() {
        lemma_nodes_ascend(depths.drop_last(), depth, i, j);
    } else {
        lemma_nodes_at_in_range(depths.drop_last(), depth, i);
    }
}

/// A row lists its nodes in ascending order, each once.
pub proof fn law_rows_ascend(depths: Seq<usize>, r: int, i: int, j: int)
    requires
        depths.len() <= usize::MAX,
        0 <= r < layer_rows(depths).len(),
        0 <= i < j < layer_rows(depths)[r].len(),
    ensures
        layer_rows(depths)[r][i] < layer_rows(depths)[r][j],
{
    lemma_nodes_ascend(depths, crate::layers::deepest(depths) - r, i, j);
}

/// Nodes of equal weight keep their order when a row is reordered.
pub proof fn law_equal_weights_keep_their_order(
    row: Seq<usize>,
    weights: Seq<u64>,
    p: int,
    q: int,
    i: int,
    j: int,
)
    requires
        row.len() <= usize::MAX,
        row.no_duplicates(),
        0 <= p < q < row.len(),
        weights[row[p] as int] == weights[row[q] as int],
        0 <= i < row.len(),
        0 <= j < row.len(),
        reordered(row, weights)[i] == row[p],
        reordered(row, weights)[j] == row[q],
    ensures
        i < j,
{
    let keys = weight_keys(row, weights);
    law_stable_order_exists(keys);
    let order = stable_order_of(keys);
    assert(row[order[i] as int] == row[p] && row[order[j] as int] == row[q]);
    assert(order[i] == p && order[j] == q);
    assert(keys[p] =~= keys[q]);
    lemma_key_irreflexive(keys[p]);
    if j < i {
        assert(sorts_before(keys, order[j] as int, order[i] as int));
    }
}

// ---------------------------------------------------------------------
// Blocks
// ---------------------------------------------------------------------

proof fn lemma_place(members: Seq<usize>, i: int)
    requires
        0 <= i < members.len(),
        members.no_duplicates(),
    ensures
        place_of(members, members[i]) == i,
    decreases members.len(),
{
    if i > 0 {
        assert(members[0] != members[i]);
        let rest = members.skip(1);
        assert(rest[i - 1] == members[i]);
        lemma_place(rest, i - 1);
    }
}

proof fn lemma_no_place(members: Seq<usize>, node: usize)
    requires
        !members.contains(node),
    ensures
        place_of(members, node) == members.len(),
    decreases members.len(),
{
    if members.len() > 0 {
        assert(members.contains(members[0]));
        let rest = members.skip(1);
        if rest.contains(node) {
            let k = choose|k: int| 0 <= k < rest.len() && rest[k] == node;
            assert(members[k + 1] == node);
        }
        lemma_no_place(rest, node);
    }
}

/// Every edge between two members of a block stands in the block, by the
/// places of its ends; the edges keep their order.
pub proof fn law_block_has_the_edges_inside(
    members: Seq<usize>,
    first: Seq<(usize, usize)>,
    second: Seq<(usize, usize)>,
    a: int,
    b: int,
)
    requires
        members.no_duplicates(),
        members.len() <= usize::MAX,
        0 <= a < members.len(),
        0 <= b < members.len(),
    ensures
        local_edges(members, first + second) == local_edges(members, first) + local_edges(
            members,
            second,
        ),
        local_edges(members, seq![(members[a], members[b])]) == seq![(a as usize, b as usize)],
    decreases second.len(),
{
    let one = seq![(members[a], members[b])];
    lemma_place(members, a);
    lemma_place(members, b);
    assert(one.last() == (members[a], members[b]));
    assert(one.drop_last() =~= Seq::<(usize, usize)>::empty());
    assert(local_edges(members, one.drop_last()) =~= Seq::<(usize, usize)>::empty());
    assert(local_edges(members, one) =~= seq![(a as usize, b as usize)]);
    if second.len() == 0 {
        assert(first + second =~= first);
    } else {
        law_block_has_the_edges_inside(members, first, second.drop_last(), a, b);
        assert((first + second).last() == second.last());
        assert((first + second).drop_last() =~= first + second.drop_last());
    }
    assert(local_edges(members, first + second) =~= local_edges(members, first) + local_edges(
        members,
        second,
    ));
}

/// An edge that leaves the block, or lies outside it, does not stand in it.
pub proof fn law_block_has_no_other_edges(members: Seq<usize>, from: usize, to: usize)
    requires
        !members.contains(from) || !members.contains(to),
    ensures
        local_edges(members, seq![(from, to)]).len() == 0,
{
    let one = seq![(from, to)];
    if !members.contains(from) {
        lemma_no_place(members, from);
    } else {
        lemma_no_place(members, to);
    }
    assert(one.last() == (from, to));
    assert(one.drop_last() =~= Seq::<(usize, usize)>::empty());
    assert(local_edges(members, one.drop_last()) =~= Seq::<(usize, usize)>::empty());
}

/// A node without edges is listed as isolated, any other group becomes a
/// block, and both keep the order of the groups.
pub proof fn law_groups_become_blocks_or_isolated_nodes(
    first: Seq<Seq<usize>>,
    second: Seq<Seq<usize>>,
    group: Seq<usize>,
    edges: Seq<(usize, usize)>,
)
    requires
        group.len() > 0,
    ensures
        singles_among(first + second) == singles_among(first) + singles_among(second),
        blocks_among(first + second, edges) == blocks_among(first, edges) + blocks_among(
            second,
            edges,
        ),
        group.len() == 1 ==> singles_among(seq![group]) == group && blocks_among(
            seq![group],
            edges,
        ).len() == 0,
        group.len() > 1 ==> singles_among(seq![group]).len() == 0 && blocks_among(
            seq![group],
            edges,
        ) == seq![ComponentView { members: group, edges: local_edges(group, edges) }],
    decreases second.len(),
{
    let one = seq![group];
    assert(one.last() == group);
    assert(one.drop_last() =~= Seq::<Seq<usize>>::empty());
    assert(singles_among(one.drop_last()) =~= Seq::<usize>::empty());
    assert(blocks_among(one.drop_last(), edges) =~= Seq::<ComponentView>::empty());
    assert(group.len() == 1 ==> singles_among(one) =~= group);
    assert(group.len() > 1 ==> blocks_among(one, edges) =~= seq![
        ComponentView { members: group, edges: local_edges(group, edges) },
    ]);
    if second.len() == 0 {
        assert(first + second =~= first);
    } else {
        law_groups_become_blocks_or_isolated_nodes(first, second.drop_last(), group, edges);
        assert((first + second).last() == second.last());
        assert((first + second).drop_last() =~= first + second.drop_last());
    }
    assert(singles_among(first + second) =~= singles_among(first) + singles_among(second));
    assert(blocks_among(first + second, edges) =~= blocks_among(first, edges) + blocks_among(
        second,
        edges,
    ));
}

// ---------------------------------------------------------------------
// Packing
// ---------------------------------------------------------------------

/// Values that are not negative rank as their bits do, and above every
/// negative one; negative values rank the other way round.
pub proof fn law_rank_goes_by_the_bits(a: u64, b: u64)
    ensures
        a < 0x8000_0000_0000_0000 && b < 0x8000_0000_0000_0000 ==> (rank_of(a) < rank_of(b)) == (a
            < b),
        a >= 0x8000_0000_0000_0000 && b >= 0x8000_0000_0000_0000 ==> (rank_of(a) < rank_of(b)) == (a
            > b),
        a >= 0x8000_0000_0000_0000 && b < 0x8000_0000_0000_0000 ==> rank_of(a) < rank_of(b),
{
}

/// Blocks are packed tallest first, equally tall ones widest first, and those
/// of one size in their order.
pub proof fn law_blocks_are_packed_by_size(
    heights: Seq<u64>,
    widths: Seq<u64>,
    i: int,
    j: int,
)
    requires
        heights.len() == widths.len(),
        heights.len() <= usize::MAX,
        forall|k: int| 0 <= k < heights.len() ==> #[trigger] heights[k] < 0x8000_0000_0000_0000,
        forall|k: int| 0 <= k < widths.len() ==> #[trigger] widths[k] < 0x8000_0000_0000_0000,
        0 <= i < j < heights.len(),
    ensures
        ({
            let order = stable_order_of(pack_keys(heights, widths));
            let a = order[i] as int;
            let b = order[j] as int;
            &&& order.len() == heights.len()
            &&& a < heights.len() && b < heights.len()
            &&& heights[a] >= heights[b]
            &&& heights[a] == heights[b] ==> widths[a] >= widths[b]
            &&& heights[a] == heights[b] && widths[a] == widths[b] ==> a < b
        }),
{
    let keys = pack_keys(heights, widths);
    law_stable_order_exists(keys);
    let order = stable_order_of(keys);
    let a = order[i] as int;
    let b = order[j] as int;
    assert(sorts_before(keys, a, b));
    assert(keys[a] == seq![reverse_rank(heights[a]), reverse_rank(widths[a])]);
    assert(keys[b] == seq![reverse_rank(heights[b]), reverse_rank(widths[b])]);
    if key_lt(keys[a], keys[b]) {
        reveal_with_fuel(key_lt, 3);
        assert(keys[a].skip(1)[0] == reverse_rank(widths[a]));
        assert(keys[b].skip(1)[0] == reverse_rank(widths[b]));
        assert(keys[a].skip(1).skip(1).len() == 0 && keys[b].skip(1).skip(1).len() == 0);
    } else {
        assert(keys[a][0] == keys[b][0] && keys[a][1] == keys[b][1]);
    }
}

} // verus!
