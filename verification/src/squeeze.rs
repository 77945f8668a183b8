//! Squeezing the map: which nodes form a block, the dense block of isolated
//! nodes, the order in which blocks are packed onto shelves, and the choice
//! among the packings tried.

use crate::geometry::{CELL_HEIGHT, CELL_WIDTH, GRID_MARGIN, NODE_HEIGHT, NODE_WIDTH};
use crate::graph::{
    are_components, components_of, connected_components, group_views, grouped,
};
use crate::number::{double_bits, is_less, is_number, less, order_rank, rank_of, whole};
use crate::order::{is_stable_order, key_views, stable_order, stable_order_of};
use vstd::prelude::*;

verus! {

/// A component with more than one node.
pub struct Component {
    /// The nodes, in ascending order.
    pub members: Vec<usize>,
    /// The edges between them, by their places in `members`.
    pub edges: Vec<(usize, usize)>,
}

/// The mathematical value of a [`Component`].
pub struct ComponentView {
    pub members: Seq<usize>,
    pub edges: Seq<(usize, usize)>,
}

impl View for Component {
    type V = ComponentView;

    open spec fn view(&self) -> ComponentView {
        ComponentView { members: self.members@, edges: self.edges@ }
    }
}

pub open spec fn component_views(v: Seq<Component>) -> Seq<ComponentView> {
    v.map_values(|c: Component| c@)
}

/// The place of a node among the members; their number when it is not one.
pub open spec fn place_of(members: Seq<usize>, node: usize) -> nat
    decreases members.len(),
{
    if members.len() == 0 || members[0] == node {
        0
    } else {
        1 + place_of(members.skip(1), node)
    }
}

/// The edges between members, by their places.
pub open spec fn local_edges(members: Seq<usize>, edges: Seq<(usize, usize)>) -> Seq<
    (usize, usize),
>
    decreases edges.len(),
{
    if edges.len() == 0 {
        Seq::empty()
    } else {
        let before = local_edges(members, edges.drop_last());
        let a = place_of(members, edges.last().0);
        let b = place_of(members, edges.last().1);
        if a < members.len() && b < members.len() {
            before.push((a as usize, b as usize))
        } else {
            before
        }
    }
}

/// The groups with more than one node, each with the edges inside it.
pub open spec fn blocks_among(groups: Seq<Seq<usize>>, edges: Seq<(usize, usize)>) -> Seq<
    ComponentView,
>
    decreases groups.len(),
{
    if groups.len() == 0 {
        Seq::empty()
    } else {
        let before = blocks_among(groups.drop_last(), edges);
        let group = groups.last();
        if group.len() == 1 {
            before
        } else {
            before.push(ComponentView { members: group, edges: local_edges(group, edges) })
        }
    }
}

/// The nodes that are a group of their own.
pub open spec fn singles_among(groups: Seq<Seq<usize>>) -> Seq<usize>
    decreases groups.len(),
{
    if groups.len() == 0 {
        Seq::empty()
    } else {
        let before = singles_among(groups.drop_last());
        let group = groups.last();
        if group.len() == 1 {
            before.push(group[0])
        } else {
            before
        }
    }
}

fn find_place(members: &Vec<usize>, node: usize) -> (r: usize)
    ensures
        r == place_of(members@, node),
        r <= members@.len(),
{
    let mut i: usize = 0;
    assert(members@.skip(0) == members@);
    while i < members.len()
        invariant
            i <= members@.len(),
            i + place_of(members@.skip(i as int), node) == place_of(members@, node),
        decreases members@.len() - i,
    {
        assert(members@.skip(i as int)[0] == members@[i as int]);
        if members[i] == node {
            return i;
        }
        assert(members@.skip(i as int).skip(1) == members@.skip(i + 1));
        i += 1;
    }
    i
}

fn edges_within(members: &Vec<usize>, edges: &[(usize, usize)]) -> (r: Vec<(usize, usize)>)
    ensures
        r@ == local_edges(members@, edges@),
{
    let mut out: Vec<(usize, usize)> = Vec::new();
    let mut i: usize = 0;
    while i < edges.len()
        invariant
            i <= edges@.len(),
            out@ == local_edges(members@, edges@.take(i as int)),
        decreases edges@.len() - i,
    {
        assert(edges@.take(i + 1).last() == edges@[i as int]);
        assert(edges@.take(i + 1).drop_last() == edges@.take(i as int));
        let a = find_place(members, edges[i].0);
        let b = find_place(members, edges[i].1);
        if a < members.len() && b < members.len() {
            out.push((a, b));
        }
        i += 1;
    }
    assert(edges@.take(edges@.len() as int) == edges@);
    out
}

/// What a squeeze lays out: one block for each component with more than one
/// node, and the isolated nodes.
pub struct SqueezePlan {
    pub blocks: Vec<Component>,
    pub singles: Vec<usize>,
}

/// The blocks and isolated nodes of a map.
pub fn squeeze_plan(node_count: usize, edges: &[(usize, usize)]) -> (r: SqueezePlan)
    ensures
        component_views(r.blocks@) == blocks_among(
            components_of(node_count as int, edges@),
            edges@,
        ),
        r.singles@ == singles_among(components_of(node_count as int, edges@)),
        are_components(components_of(node_count as int, edges@), node_count as int, edges@),
{
    let groups = connected_components(node_count, edges);
    let ghost all = group_views(groups@);
    let mut blocks: Vec<Component> = Vec::new();
    let mut singles: Vec<usize> = Vec::new();
    let mut i: usize = 0;
    assert(component_views(blocks@) == blocks_among(all.take(0), edges@));
    while i < groups.len()
        invariant
            i <= groups@.len(),
            all == group_views(groups@),
            component_views(blocks@) == blocks_among(all.take(i as int), edges@),
            singles@ == singles_among(all.take(i as int)),
        decreases groups@.len() - i,
    {
        let group = &groups[i];
        assert(all.take(i + 1).last() == group@);
        assert(all.take(i + 1).drop_last() == all.take(i as int));
        if group.len() == 1 {
            singles.push(group[0]);
        } else {
            let ghost before = blocks@;
            let inside = edges_within(group, edges);
            let members = vstd::slice::slice_to_vec(group.as_slice());
            let block = Component { members, edges: inside };
            assert(block@ == ComponentView {
                members: group@,
                edges: local_edges(group@, edges@),
            });
            blocks.push(block);
            assert(component_views(blocks@) =~= component_views(before).push(block@));
        }
        i += 1;
    }
    assert(all.take(groups@.len() as int) == all);
    SqueezePlan { blocks, singles }
}

proof fn lemma_group_is_laid_out(groups: Seq<Seq<usize>>, edges: Seq<(usize, usize)>, g: int)
    requires
        0 <= g < groups.len(),
    ensures
        groups[g].len() == 1 ==> singles_among(groups).contains(groups[g][0]),
        groups[g].len() != 1 ==> exists|b: int|
            0 <= b < blocks_among(groups, edges).len() && (#[trigger] blocks_among(
                groups,
                edges,
            )[b]).members == groups[g],
    decreases groups.len(),
{
    let last = groups.last();
    let singles = singles_among(groups.drop_last());
    let blocks = blocks_among(groups.drop_last(), edges);
    if g == groups.len() - 1 {
        if last.len() == 1 {
            assert(singles_among(groups)[singles.len() as int] == last[0]);
        } else {
            assert(blocks_among(groups, edges)[blocks.len() as int].members == last);
        }
    } else {
        lemma_group_is_laid_out(groups.drop_last(), edges, g);
        if groups[g].len() == 1 {
            let k = choose|k: int| 0 <= k < singles.len() && singles[k] == groups[g][0];
            assert(singles_among(groups)[k] == groups[g][0]);
        } else {
            let b = choose|b: int|
                0 <= b < blocks.len() && (#[trigger] blocks[b]).members == groups[g];
            assert(blocks_among(groups, edges)[b].members == groups[g]);
        }
    }
}

/// No node is left out of a squeeze: it is isolated, or a member of a block.
pub proof fn law_squeeze_covers_nodes(
    groups: Seq<Seq<usize>>,
    count: int,
    edges: Seq<(usize, usize)>,
    node: int,
)
    requires
        are_components(groups, count, edges),
        0 <= node < count,
    ensures
        singles_among(groups).contains(node as usize) || exists|b: int|
            0 <= b < blocks_among(groups, edges).len() && (#[trigger] blocks_among(
                groups,
                edges,
            )[b]).members.contains(node as usize),
{
    assert(grouped(groups, node));
    let g = choose|g: int| 0 <= g < groups.len() && (#[trigger] groups[g]).contains(node as usize);
    lemma_group_is_laid_out(groups, edges, g);
    let i = choose|i: int| 0 <= i < groups[g].len() && groups[g][i] == node as usize;
    if groups[g].len() == 1 {
        assert(groups[g][0] == node as usize);
    } else {
        let b = choose|b: int|
            0 <= b < blocks_among(groups, edges).len() && (#[trigger] blocks_among(
                groups,
                edges,
            )[b]).members == groups[g];
        assert(blocks_among(groups, edges)[b].members.contains(node as usize));
    }
}

// ---------------------------------------------------------------------
// Isolated nodes
// ---------------------------------------------------------------------

/// The least number of columns that makes a grid of `count` cells no taller
/// than it is wide.
pub open spec fn is_square_columns(cols: int, count: int) -> bool {
    &&& cols >= 1
    &&& cols * cols >= count
    &&& cols > 1 ==> (cols - 1) * (cols - 1) < count
}

pub fn square_columns(count: usize) -> (r: usize)
    requires
        count > 0,
    ensures
        is_square_columns(r as int, count as int),
        r <= count,
{
    let mut cols: usize = 1;
    while (cols as u128) * (cols as u128) < count as u128
        invariant
            1 <= cols <= count,
            count > 0,
            cols > 1 ==> (cols - 1) * (cols - 1) < count,
            cols * cols <= u128::MAX,
        decreases count - cols,
    {
        proof {
            assert(cols * cols >= cols) by (nonlinear_arith)
                requires
                    cols >= 1,
            ;
        }
        cols += 1;
        proof {
            assert(cols * cols <= 0x1_0000_0000_0000_0000 * 0xffff_ffff_ffff_ffff)
                by (nonlinear_arith)
                requires
                    0 <= cols <= 0xffff_ffff_ffff_ffff,
            ;
        }
    }
    cols
}

/// A block of nodes on a grid: its size, and each node with its offset.
pub struct GridBlock {
    pub width: u128,
    pub height: u128,
    pub members: Vec<(usize, u128, u128)>,
}

/// Whether a member is `node` in the `i`-th cell of a grid, row-major.
pub open spec fn in_cell(member: (usize, u128, u128), node: usize, i: int, cols: int) -> bool {
    &&& member.0 == node
    &&& member.1 == (i % cols) * CELL_WIDTH
    &&& member.2 == (i / cols) * CELL_HEIGHT
}

/// The dense, roughly square grid block of isolated nodes, in their order.
pub fn singles_block(singles: &Vec<usize>) -> (r: GridBlock)
    requires
        singles@.len() > 0,
    ensures
        exists|cols: int|
            #![trigger is_square_columns(cols, singles@.len() as int)]
            is_square_columns(cols, singles@.len() as int) && r.members@.len() == singles@.len() && (
            forall|i: int|
                0 <= i < singles@.len() ==> in_cell(
                    #[trigger] r.members@[i],
                    singles@[i],
                    i,
                    cols,
                )) && r.width == (cols - 1) * CELL_WIDTH + NODE_WIDTH && r.height == ((
            singles@.len() - 1) / cols) * CELL_HEIGHT + NODE_HEIGHT,
{
    let total: usize = singles.len();
    let cols = square_columns(total);
    let mut members: Vec<(usize, u128, u128)> = Vec::new();
    let mut i: usize = 0;
    while i < total
        invariant
            i <= total,
            total == singles@.len(),
            cols >= 1,
            members@.len() == i,
            forall|k: int|
                0 <= k < i ==> in_cell(#[trigger] members@[k], singles@[k], k, cols as int),
        decreases total - i,
    {
        let col = i % cols;
        let row = i / cols;
        proof {
            assert(row <= i) by (nonlinear_arith)
                requires
                    row == i / cols,
                    cols >= 1,
            ;
            assert(col * 240 <= 240 * 0x1_0000_0000_0000_0000);
            assert(row * 90 <= 90 * 0x1_0000_0000_0000_0000);
        }
        members.push(
            (singles[i], col as u128 * CELL_WIDTH as u128, row as u128 * CELL_HEIGHT as u128),
        );
        i += 1;
    }
    let last = (total - 1) / cols;
    proof {
        assert(last <= total) by (nonlinear_arith)
            requires
                last == (total - 1) / cols as int,
                cols >= 1,
                total >= 1,
        ;
        assert((cols - 1) * 240 <= 240 * 0x1_0000_0000_0000_0000);
        assert(last * 90 <= 90 * 0x1_0000_0000_0000_0000);
    }
    GridBlock {
        width: (cols - 1) as u128 * CELL_WIDTH as u128 + NODE_WIDTH as u128,
        height: last as u128 * CELL_HEIGHT as u128 + NODE_HEIGHT as u128,
        members,
    }
}

// ---------------------------------------------------------------------
// Packing order
// ---------------------------------------------------------------------

/// The sort keys of blocks: taller first, then wider.
pub open spec fn pack_keys(heights: Seq<u64>, widths: Seq<u64>) -> Seq<Seq<u64>> {
    Seq::new(heights.len(), |i: int| seq![reverse_rank(heights[i]), reverse_rank(widths[i])])
}

/// The place of a value in the order of floating-point values, greatest
/// first.
pub open spec fn reverse_rank(bits: u64) -> u64 {
    (u64::MAX - rank_of(bits)) as u64
}

/// The packing order of blocks, tallest first and widest first among equally
/// tall ones; sizes are floating-point values given by their bits.
pub fn pack_order(heights: &Vec<u64>, widths: &Vec<u64>) -> (r: Vec<usize>)
    requires
        heights@.len() == widths@.len(),
    ensures
        r@ == stable_order_of(pack_keys(heights@, widths@)),
        is_stable_order(r@, pack_keys(heights@, widths@)),
{
    let ghost wanted = pack_keys(heights@, widths@);
    let mut keys: Vec<Vec<u64>> = Vec::new();
    let mut i: usize = 0;
    while i < heights.len()
        invariant
            i <= heights@.len(),
            heights@.len() == widths@.len(),
            wanted == pack_keys(heights@, widths@),
            key_views(keys@) == wanted.take(i as int),
        decreases heights@.len() - i,
    {
        let ghost before = keys@;
        let by_height: u64 = u64::MAX - order_rank(heights[i]);
        let by_width: u64 = u64::MAX - order_rank(widths[i]);
        let key = vec![by_height, by_width];
        assert(key@ =~= wanted[i as int]);
        keys.push(key);
        assert(key_views(keys@) =~= key_views(before).push(wanted[i as int]));
        i += 1;
    }
    assert(wanted.take(heights@.len() as int) == wanted);
    stable_order(&keys)
}

/// Whether a block opens a new shelf: it is not the first on its shelf, whose
/// next free place is `x`, and its right edge would lie past `limit`.
pub open spec fn overflows(x: u64, right: u64, limit: u64) -> bool {
    is_less(double_bits(GRID_MARGIN as nat) as u64, x) && is_less(limit, right)
}

pub fn opens_shelf(x: u64, right: u64, limit: u64) -> (r: bool)
    ensures
        r == overflows(x, right, limit),
{
    let margin = whole(GRID_MARGIN as u128);
    less(margin, x) && less(limit, right)
}

/// The first candidate that scores less than every one before it and is
/// beaten by none after it.
pub open spec fn best_of(scores: Seq<u64>) -> Option<nat>
    decreases scores.len(),
{
    if scores.len() == 0 {
        None
    } else {
        match best_of(scores.drop_last()) {
            Some(b) => if is_less(scores.last(), scores[b as int]) {
                Some((scores.len() - 1) as nat)
            } else {
                Some(b)
            },
            None => Some(0),
        }
    }
}

/// The candidate with the least score; the first of equals.
pub fn best_candidate(scores: &Vec<u64>) -> (r: Option<usize>)
    ensures
        match r {
            Some(b) => b < scores@.len() && best_of(scores@) == Some(b as nat),
            None => best_of(scores@) is None,
        },
{
    let mut best: Option<usize> = None;
    let mut i: usize = 0;
    while i < scores.len()
        invariant
            i <= scores@.len(),
            match best {
                Some(b) => b < i && best_of(scores@.take(i as int)) == Some(b as nat),
                None => i == 0,
            },
        decreases scores@.len() - i,
    {
        assert(scores@.take(i + 1).last() == scores@[i as int]);
        assert(scores@.take(i + 1).drop_last() == scores@.take(i as int));
        best = match best {
            Some(b) => if less(scores[i], scores[b]) {
                Some(i)
            } else {
                Some(b)
            },
            None => Some(0),
        };
        i += 1;
    }
    assert(scores@.take(scores@.len() as int) == scores@);
    best
}

/// No candidate scores less than the chosen one, and none before it scores as
/// little.
pub proof fn law_best_candidate_is_least(scores: Seq<u64>, i: int)
    requires
        0 <= i < scores.len(),
        forall|k: int| 0 <= k < scores.len() ==> is_number(#[trigger] scores[k]),
    ensures
        best_of(scores) matches Some(b) && b < scores.len() && !is_less(scores[i], scores[b as int])
            && (i < b ==> is_less(scores[b as int], scores[i])),
    decreases scores.len(),
{
    let before = scores.drop_last();
    if before.len() > 0 {
        assert forall|k: int| 0 <= k < before.len() implies is_number(#[trigger] before[k]) by {
            assert(before[k] == scores[k]);
        }
        law_best_candidate_is_least(before, if i < before.len() { i } else { 0 });
    } else {
        assert(best_of(before) is None);
    }
}

} // verus!
