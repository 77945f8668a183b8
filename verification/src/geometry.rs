//! The map field: the grid that places nodes without a position, the bounds
//! of drags, clicks, and rectangles of the field.

use crate::model::Position;
use crate::number::{
    double_bits, greater, held, hold, is_less, is_number, is_single, law_small_whole_is_single,
    less, lesser, magnitude, maximum, minimum, nearest_single, round_single, top_exponent,
    top_power, whole, SIGN,
};
use vstd::prelude::*;

verus! {

/// Node size in logical pixels. Sized for ~16 words of subject: four
/// wrapped lines of ~30 characters, with tight margins.
pub const NODE_WIDTH: u64 = 224;

pub const NODE_HEIGHT: u64 = 76;

/// The field the layout scatters nodes across. Layouts center content in
/// it (growing from the middle out).
pub const FIELD_WIDTH: u64 = 4800;

pub const FIELD_HEIGHT: u64 = 19200;

/// The nominal width of the "home" layout region centered in the
/// field: grid layouts wrap at this width rather than sprawling the
/// full canvas.
pub const HOME_WIDTH: u64 = 1600;

/// Grid cell size (node size plus tight gutters).
pub const CELL_WIDTH: u64 = NODE_WIDTH + 16;

pub const CELL_HEIGHT: u64 = NODE_HEIGHT + 14;

/// Top-left padding before the first grid cell.
pub const GRID_MARGIN: u64 = 16;

/// How far apart a mouse-up and a mouse-down may be to count as a click.
pub const CLICK_SLOP: u64 = 3;

/// Gap between packed blocks.
pub const PACK_GUTTER: u64 = 28;

/// Row spacing for the layered layout, roomier than the grid so the
/// dependency edges between rows read clearly.
pub const LAYER_ROW_HEIGHT: u64 = NODE_HEIGHT + 44;

// ---------------------------------------------------------------------
// Grid
// ---------------------------------------------------------------------

/// How many cells fit side by side in the home region.
pub open spec fn columns_spec() -> nat {
    ((HOME_WIDTH - 2 * GRID_MARGIN) / CELL_WIDTH as int) as nat
}

pub fn columns() -> (r: usize)
    ensures
        r == columns_spec(),
        r == 6,
{
    ((HOME_WIDTH - 2 * GRID_MARGIN) / CELL_WIDTH) as usize
}

/// The number of rows of a grid of `count` nodes.
pub open spec fn grid_rows(count: int) -> int {
    (count + columns_spec() - 1) / (columns_spec() as int)
}

/// Where an extent is placed to stand in the middle of a field, but not
/// before the margin.
pub open spec fn centered(field: int, extent: int) -> int {
    if (field - extent) / 2 > GRID_MARGIN {
        (field - extent) / 2
    } else {
        GRID_MARGIN as int
    }
}

/// Top-left of a centered grid of `count` nodes.
pub open spec fn grid_corner(count: int) -> (int, int) {
    let count = if count < 1 {
        1
    } else {
        count
    };
    let cols = if count < columns_spec() {
        count
    } else {
        columns_spec() as int
    };
    (
        centered(FIELD_WIDTH as int, cols * CELL_WIDTH - (CELL_WIDTH - NODE_WIDTH)),
        centered(
            FIELD_HEIGHT as int,
            grid_rows(count) * CELL_HEIGHT - (CELL_HEIGHT - NODE_HEIGHT),
        ),
    )
}

/// The cell of the `ix`-th node of a grid: row-major, and computed in single
/// precision.
pub open spec fn grid_cell(ix: int, count: int) -> (nat, nat) {
    let corner = grid_corner(count);
    let col = ix % (columns_spec() as int);
    let row = ix / (columns_spec() as int);
    (
        (corner.0 + col * CELL_WIDTH) as nat,
        nearest_single(
            (corner.1 + nearest_single((nearest_single(row as nat) * CELL_HEIGHT) as nat)) as nat,
        ),
    )
}

/// The position of the `ix`-th node of a grid.
pub open spec fn grid_slot(ix: int, count: int) -> Position {
    let cell = grid_cell(ix, count);
    Position { x: double_bits(cell.0) as u64, y: double_bits(cell.1) as u64 }
}

/// Top-left of a centered grid of `count` nodes.
fn grid_origin(count: usize) -> (r: (u64, u64))
    ensures
        r.0 == grid_corner(count as int).0,
        r.1 == grid_corner(count as int).1,
        r.0 <= FIELD_WIDTH,
        r.1 <= FIELD_HEIGHT,
{
    let count: usize = if count < 1 {
        1
    } else {
        count
    };
    let cols: u64 = if count < columns() {
        count as u64
    } else {
        columns() as u64
    };
    let full = count / columns();
    let rows: u128 = if count % columns() == 0 {
        full as u128
    } else {
        full as u128 + 1
    };
    assert(rows == grid_rows(count as int));
    assert(rows * 90 <= 90 * 0x1_0000_0000_0000_0000);
    let width = cols * CELL_WIDTH - (CELL_WIDTH - NODE_WIDTH);
    let height = rows * CELL_HEIGHT as u128 - (CELL_HEIGHT - NODE_HEIGHT) as u128;
    let x = (FIELD_WIDTH - width) / 2;
    let y: u64 = if height < FIELD_HEIGHT as u128 {
        (FIELD_HEIGHT - height as u64) / 2
    } else {
        0
    };
    (
        if x > GRID_MARGIN {
            x
        } else {
            GRID_MARGIN
        },
        if y > GRID_MARGIN {
            y
        } else {
            GRID_MARGIN
        },
    )
}

/// Deterministic grid slot for the `ix`-th node in a `count`-node
/// grid, centered in the field. Row-major, `columns()` per row.
pub fn grid_position(ix: usize, count: usize) -> (r: Position)
    ensures
        r == grid_slot(ix as int, count as int),
{
    let (origin_x, origin_y) = grid_origin(count);
    let cols = columns();
    let col = (ix % cols) as u64;
    let row = ix / cols;
    let x = origin_x + col * CELL_WIDTH;
    let rounded = round_single(row as u128);
    assert(rounded <= 2 * 0xffff_ffff_ffff_ffff);
    assert(rounded * 90 <= 180 * 0xffff_ffff_ffff_ffff);
    let below = round_single(rounded * CELL_HEIGHT as u128);
    let y = round_single(origin_y as u128 + below);
    Position { x: whole(x as u128), y: whole(y) }
}

/// Nodes of a grid stand inside the field, as long as the grid has no more
/// rows than fit between the margins.
pub proof fn law_grid_stays_in_field(ix: int, count: int)
    requires
        0 <= ix < count,
        grid_rows(count) <= 213,
    ensures
        GRID_MARGIN <= grid_cell(ix, count).0,
        grid_cell(ix, count).0 + NODE_WIDTH <= FIELD_WIDTH,
        GRID_MARGIN <= grid_cell(ix, count).1,
        grid_cell(ix, count).1 + NODE_HEIGHT <= FIELD_HEIGHT,
{
    let row = ix / 6;
    assert(columns_spec() == 6);
    assert(grid_rows(count) == (count + 5) / 6);
    assert(row < grid_rows(count));
    assert(grid_corner(count).0 + (ix % 6) * CELL_WIDTH + NODE_WIDTH <= FIELD_WIDTH);
}

/// Nodes of one grid do not share a cell.
pub proof fn law_grid_cells_differ(a: int, b: int, count: int)
    requires
        0 <= a < b < count,
        grid_rows(count) <= 213,
    ensures
        grid_cell(a, count) != grid_cell(b, count),
{
    assert(columns_spec() == 6);
    assert(grid_rows(count) == (count + 5) / 6);
    assert(a / 6 < grid_rows(count) && b / 6 < grid_rows(count));
    if a / 6 == b / 6 {
        assert(a % 6 != b % 6);
    }
}

/// Grid slots are single-precision values, so that the log gives them back as
/// they were written.
pub proof fn law_grid_slots_are_single(ix: int, count: int)
    requires
        0 <= ix < count,
        grid_rows(count) <= 213,
    ensures
        is_single(grid_slot(ix, count).x),
        is_single(grid_slot(ix, count).y),
{
    law_grid_stays_in_field(ix, count);
    law_small_whole_is_single(grid_cell(ix, count).0);
    law_small_whole_is_single(grid_cell(ix, count).1);
}

// ---------------------------------------------------------------------
// Drags, clicks and rectangles
// ---------------------------------------------------------------------

/// The rightmost place of a node in the field.
pub open spec fn right_limit() -> u64 {
    double_bits((FIELD_WIDTH - NODE_WIDTH) as nat) as u64
}

/// The lowest place of a node in the field.
pub open spec fn bottom_limit() -> u64 {
    double_bits((FIELD_HEIGHT - NODE_HEIGHT) as nat) as u64
}

/// A place moved into the field.
pub open spec fn clamped(at: Position) -> Position {
    Position { x: held(at.x, 0, right_limit()), y: held(at.y, 0, bottom_limit()) }
}

/// Clamp a dragged position so the node cannot be lost at negative
/// coords or beyond the field.
pub fn clamp_position(at: Position) -> (r: Position)
    ensures
        r == clamped(at),
{
    let right = whole((FIELD_WIDTH - NODE_WIDTH) as u128);
    let bottom = whole((FIELD_HEIGHT - NODE_HEIGHT) as u128);
    Position { x: hold(at.x, 0, right), y: hold(at.y, 0, bottom) }
}

pub(crate) proof fn lemma_limits()
    ensures
        right_limit() == 0x40b1_e000_0000_0000,
        bottom_limit() == 0x40d2_ad00_0000_0000,
{
    reveal_with_fuel(top_power, 16);
    reveal_with_fuel(top_exponent, 16);
    assert(top_power(4576) == 4096);
    assert(top_exponent(4576) == 12);
    assert(top_power(19124) == 16384);
    assert(top_exponent(19124) == 14);
}

/// Wherever a node is dragged, it stays inside the field, and inside the
/// field it goes where it is dragged.
pub proof fn law_clamp_keeps_nodes_reachable(at: Position)
    requires
        is_number(at.x),
        is_number(at.y),
    ensures
        !is_less(clamped(at).x, 0) && !is_less(right_limit(), clamped(at).x),
        !is_less(clamped(at).y, 0) && !is_less(bottom_limit(), clamped(at).y),
        !is_less(at.x, 0) && !is_less(right_limit(), at.x) ==> clamped(at).x == at.x,
        !is_less(at.y, 0) && !is_less(bottom_limit(), at.y) ==> clamped(at).y == at.y,
        clamped(clamped(at)) == clamped(at),
{
    lemma_limits();
}

/// Whether a pointer came to rest within the click slop: neither distance,
/// whatever its sign, is greater.
pub open spec fn within_slop(dx: u64, dy: u64) -> bool {
    magnitude(dx) <= double_bits(CLICK_SLOP as nat) && magnitude(dy) <= double_bits(
        CLICK_SLOP as nat,
    )
}

/// Whether a mouse-up this far from the mouse-down still counts as a
/// click (focus) rather than a drag (move event).
pub fn is_click(dx: u64, dy: u64) -> (r: bool)
    ensures
        r == within_slop(dx, dy),
{
    let slop = whole(CLICK_SLOP as u128);
    let far_x = if dx >= SIGN {
        dx - SIGN
    } else {
        dx
    };
    let far_y = if dy >= SIGN {
        dy - SIGN
    } else {
        dy
    };
    far_x <= slop && far_y <= slop
}

/// A rectangle of the field, by its corners.
#[derive(Debug, Clone, Copy, PartialEq, Eq, Structural)]
pub struct Rect {
    pub min: Position,
    pub max: Position,
}

/// The rectangle that two corners span.
pub open spec fn spanned(a: Position, b: Position) -> Rect {
    Rect {
        min: Position { x: lesser(a.x, b.x), y: lesser(a.y, b.y) },
        max: Position { x: greater(a.x, b.x), y: greater(a.y, b.y) },
    }
}

/// Normalize two drag corners into a rectangle.
pub fn normalize_rect(a: Position, b: Position) -> (r: Rect)
    ensures
        r == spanned(a, b),
{
    Rect {
        min: Position { x: minimum(a.x, b.x), y: minimum(a.y, b.y) },
        max: Position { x: maximum(a.x, b.x), y: maximum(a.y, b.y) },
    }
}

/// A rectangle spanned by numbers has its lesser corner first.
pub proof fn law_rect_is_ordered(a: Position, b: Position)
    requires
        is_number(a.x) && is_number(a.y),
        is_number(b.x) && is_number(b.y),
    ensures
        !is_less(spanned(a, b).max.x, spanned(a, b).min.x),
        !is_less(spanned(a, b).max.y, spanned(a, b).min.y),
{
}

/// Whether a node meets a rectangle. `corner` and `far` are its top-left and
/// bottom-right corners.
pub open spec fn meets(corner: Position, far: Position, rect: Rect) -> bool {
    &&& is_less(corner.x, rect.max.x)
    &&& is_less(rect.min.x, far.x)
    &&& is_less(corner.y, rect.max.y)
    &&& is_less(rect.min.y, far.y)
}

/// Whether a node intersects the normalized selection rectangle. `corner` and
/// `far` are its top-left and bottom-right corners.
pub fn node_in_rect(corner: Position, far: Position, rect: Rect) -> (r: bool)
    ensures
        r == meets(corner, far, rect),
{
    less(corner.x, rect.max.x) && less(rect.min.x, far.x) && less(corner.y, rect.max.y) && less(
        rect.min.y,
        far.y,
    )
}

/// The rectangle around some nodes, each given by its top-left and
/// bottom-right corners.
pub open spec fn bounds(nodes: Seq<(Position, Position)>) -> Option<Rect>
    decreases nodes.len(),
{
    if nodes.len() == 0 {
        None
    } else {
        let (corner, far) = nodes.last();
        match bounds(nodes.drop_last()) {
            Some(b) => Some(
                Rect {
                    min: Position { x: lesser(b.min.x, corner.x), y: lesser(b.min.y, corner.y) },
                    max: Position { x: greater(b.max.x, far.x), y: greater(b.max.y, far.y) },
                },
            ),
            None => Some(Rect { min: corner, max: far }),
        }
    }
}

/// Bounding box of a set of nodes, each given by its top-left and
/// bottom-right corners.
pub fn nodes_bbox(nodes: &Vec<(Position, Position)>) -> (r: Option<Rect>)
    ensures
        r == bounds(nodes@),
{
    let mut found: Option<Rect> = None;
    let mut i: usize = 0;
    while i < nodes.len()
        invariant
            i <= nodes@.len(),
            found == bounds(nodes@.take(i as int)),
        decreases nodes@.len() - i,
    {
        let (corner, far) = nodes[i];
        assert(nodes@.take(i + 1).last() == nodes@[i as int]);
        assert(nodes@.take(i + 1).drop_last() == nodes@.take(i as int));
        found = match found {
            Some(b) => Some(
                Rect {
                    min: Position { x: minimum(b.min.x, corner.x), y: minimum(b.min.y, corner.y) },
                    max: Position { x: maximum(b.max.x, far.x), y: maximum(b.max.y, far.y) },
                },
            ),
            None => Some(Rect { min: corner, max: far }),
        };
        i += 1;
    }
    assert(nodes@.take(nodes@.len() as int) == nodes@);
    found
}

/// Whether the corners of some nodes are numbers.
pub open spec fn placed(nodes: Seq<(Position, Position)>) -> bool {
    forall|i: int|
        0 <= i < nodes.len() ==> {
            let (corner, far) = #[trigger] nodes[i];
            is_number(corner.x) && is_number(corner.y) && is_number(far.x) && is_number(far.y)
        }
}

/// The bounding box of nodes holds each of them.
pub proof fn law_bbox_spans_nodes(nodes: Seq<(Position, Position)>, i: int)
    requires
        0 <= i < nodes.len(),
        placed(nodes),
    ensures
        bounds(nodes) matches Some(b) && {
            &&& is_number(b.min.x) && is_number(b.min.y) && is_number(b.max.x) && is_number(b.max.y)
            &&& !is_less(nodes[i].0.x, b.min.x) && !is_less(nodes[i].0.y, b.min.y)
            &&& !is_less(b.max.x, nodes[i].1.x) && !is_less(b.max.y, nodes[i].1.y)
        },
    decreases nodes.len(),
{
    let before = nodes.drop_last();
    if before.len() > 0 {
        assert forall|k: int| 0 <= k < before.len() implies {
            let (corner, far) = #[trigger] before[k];
            is_number(corner.x) && is_number(corner.y) && is_number(far.x) && is_number(far.y)
        } by {
            assert(before[k] == nodes[k]);
        }
        law_bbox_spans_nodes(before, if i < before.len() { i } else { 0 });
    } else {
        assert(bounds(before) is None);
    }
    assert(nodes.last() == nodes[nodes.len() - 1]);
}

} // verus!
