//! What numbers, places and rectangles are, told by the bits of numbers.

use crate::geometry::{
    bounds, clamped, lemma_limits, meets, placed, spanned, within_slop, Rect,
};
use crate::model::Position;
use crate::number::{
    double_bits, equal_numbers, is_less, is_number, lemma_double_bits_range, lemma_single_settles,
    narrowed, nearest_quotient, nearest_single,
    top_exponent, top_power,
};
use crate::squeeze::{in_cell, overflows};
use vstd::arithmetic::div_mod::{
    lemma_div_multiples_vanish, lemma_fundamental_div_mod, lemma_fundamental_div_mod_converse,
};
use vstd::arithmetic::power2::{
    lemma2_to64, lemma2_to64_rest, lemma_pow2_adds, lemma_pow2_pos, lemma_pow2_unfold, pow2,
};
use vstd::prelude::*;

verus! {

// ---------------------------------------------------------------------
// Comparing
// ---------------------------------------------------------------------

/// Numbers that are not negative compare as their bits do, negative ones the
/// other way round, and a negative one is less than one that is not, unless
/// both are zero.
pub proof fn law_numbers_go_by_the_bits(a: u64, b: u64)
    requires
        a <= 0x7ff0_0000_0000_0000,
        b <= 0x7ff0_0000_0000_0000,
    ensures
        ({
            let sign: u64 = 0x8000_0000_0000_0000;
            let minus_a = (a + sign) as u64;
            let minus_b = (b + sign) as u64;
            &&& is_less(a, b) == (a < b)
            &&& is_less(minus_a, minus_b) == (b < a)
            &&& is_less(minus_a, b) == (a > 0 || b > 0)
            &&& !is_less(a, minus_b)
            &&& equal_numbers(a, b) == (a == b)
            &&& equal_numbers(minus_a, minus_b) == (a == b)
            &&& equal_numbers(a, minus_b) == (a == 0 && b == 0)
        }),
{
}

/// What is no number is neither less than, nor greater than, nor equal to
/// anything.
pub proof fn law_no_number_compares(a: u64, b: u64)
    requires
        0x7ff0_0000_0000_0000 < a < 0x8000_0000_0000_0000 || a > 0xfff0_0000_0000_0000,
    ensures
        !is_less(a, b),
        !is_less(b, a),
        !equal_numbers(a, b),
        !is_number(a),
{
}

// ---------------------------------------------------------------------
// Whole numbers
// ---------------------------------------------------------------------

proof fn lemma_top(n: nat, k: nat)
    requires
        pow2(k) <= n < pow2(k + 1),
    ensures
        top_power(n) == pow2(k),
        top_exponent(n) == k,
    decreases k,
{
    lemma2_to64();
    if k == 0 {
        lemma_pow2_unfold(1);
    } else {
        lemma_pow2_unfold(k);
        lemma_pow2_unfold(k + 1);
        lemma_pow2_pos((k - 1) as nat);
        lemma_top(n / 2, (k - 1) as nat);
    }
}

/// The bits of a whole number are its exponent, from 1023 on, above 52 bits
/// for how far it lies past its power of two.
pub proof fn law_whole_is_exponent_and_rest(n: nat, k: nat)
    requires
        k <= 52,
        pow2(k) <= n < pow2(k + 1),
    ensures
        double_bits(n) == (1023 + k) * 0x10_0000_0000_0000 + (n - pow2(k)) * pow2((52 - k) as nat),
        double_bits(0) == 0,
{
    lemma_top(n, k);
    lemma_pow2_pos(k);
    lemma_pow2_adds(k, (52 - k) as nat);
    lemma2_to64();
    lemma2_to64_rest();
    let rest = (n - pow2(k)) as nat;
    let d = pow2((52 - k) as nat);
    let power = pow2(k);
    assert(pow2(52) == 0x10_0000_0000_0000);
    assert(rest * 0x10_0000_0000_0000 == power * (rest * d)) by (nonlinear_arith)
        requires
            power * d == 0x10_0000_0000_0000,
    ;
    lemma_div_multiples_vanish((rest * d) as int, power as int);
}

proof fn lemma_nearest(n: nat, d: nat)
    requires
        d > 0,
    ensures
        -(d as int) <= 2 * (nearest_quotient(n, d) * d - n) <= d,
        2 * (nearest_quotient(n, d) * d - n) == d || 2 * (nearest_quotient(n, d) * d - n) == -(
        d as int) ==> nearest_quotient(n, d) % 2 == 0,
{
    lemma_fundamental_div_mod(n as int, d as int);
    let below = n / d;
    assert(d * below == below * d) by (nonlinear_arith);
    assert((below + 1) * d == below * d + d) by (nonlinear_arith);
}

/// Below two to the power of 24 a whole number is its own single-precision
/// value. Above, with `k + 24` binary digits, it is the nearest multiple of two
/// to the power of `k`, and of two that are equally near the even one.
pub proof fn law_single_keeps_24_digits(n: nat, k: nat)
    requires
        k >= 1,
        pow2(k + 23) <= n < pow2(k + 24),
    ensures
        forall|small: nat| small < 0x100_0000 ==> nearest_single(small) == small,
        ({
            let unit = pow2(k) as int;
            let r = nearest_single(n) as int;
            &&& exists|q: nat|
                r == #[trigger] (q * unit) && (2 * (r - n) == unit || 2 * (r - n) == -unit ==> q % 2
                    == 0)
            &&& -unit <= 2 * (r - n) <= unit
        }),
{
    lemma_top(n, k + 23);
    lemma_pow2_pos(k);
    lemma_pow2_adds(k, 23);
    lemma_pow2_adds((k - 1) as nat, 24);
    lemma_pow2_pos((k - 1) as nat);
    lemma2_to64();
    lemma2_to64_rest();
    let unit = pow2(k);
    lemma_div_multiples_vanish(unit as int, 0x80_0000);
    assert(top_power(n) / 0x80_0000 == unit);
    assert(pow2(k + 23) >= 0x100_0000) by (nonlinear_arith)
        requires
            pow2(k + 23) == pow2((k - 1) as nat) * 0x100_0000,
            pow2((k - 1) as nat) >= 1,
    ;
    lemma_nearest(n, unit);
    assert(nearest_single(n) == nearest_quotient(n, unit) * unit);
}

// ---------------------------------------------------------------------
// Single precision
// ---------------------------------------------------------------------

/// In the range of single precision the narrowed value is the nearest one
/// whose last 29 bits are clear, and of two that are equally near the one with
/// the bit before them clear too. From halfway past the greatest such value on
/// it is infinite, and near zero it is zero.
pub proof fn law_narrowing_is_to_the_nearest(bits: u64)
    requires
        bits < 0x8000_0000_0000_0000,
    ensures
        0x3810_0000_0000_0000 <= bits < 0x47ef_ffff_f000_0000 ==> ({
            let r = narrowed(bits) as int;
            &&& r % 0x2000_0000 == 0
            &&& -0x1000_0000 <= r - bits <= 0x1000_0000
            &&& r - bits == 0x1000_0000 || bits - r == 0x1000_0000 ==> r % 0x4000_0000 == 0
        }),
        0x47ef_ffff_f000_0000 <= bits <= 0x7ff0_0000_0000_0000 ==> narrowed(bits)
            == 0x7ff0_0000_0000_0000,
        bits > 0x7ff0_0000_0000_0000 ==> narrowed(bits) == bits,
        bits < 0x3690_0000_0000_0000 ==> narrowed(bits) == 0,
{
    let q = nearest_quotient(bits as nat, 0x2000_0000);
    lemma_nearest(bits as nat, 0x2000_0000);
    if 0x3810_0000_0000_0000 <= bits < 0x7ff0_0000_0000_0000 {
        assert(bits / 0x10_0000_0000_0000 >= 897);
        if bits >= 0x47ef_ffff_f000_0000 {
            assert(q * 0x2000_0000 >= 0x47f0_0000_0000_0000);
        } else {
            assert(q * 0x2000_0000 < 0x47f0_0000_0000_0000);
            assert(narrowed(bits) == q * 0x2000_0000);
            assert((q * 0x2000_0000) % 0x4000_0000 == (q % 2) * 0x2000_0000);
        }
    }
}

/// Narrowing keeps the sign.
pub proof fn law_narrowing_keeps_the_sign(bits: u64)
    requires
        bits < 0x8000_0000_0000_0000,
    ensures
        narrowed(bits) < 0x8000_0000_0000_0000,
        narrowed((bits + 0x8000_0000_0000_0000) as u64) == narrowed(bits) + 0x8000_0000_0000_0000,
{
    lemma_single_settles(bits as nat);
}

/// Just above zero the narrowed value is the nearest multiple of the least
/// single-precision value, two to the power of -149, and of two that are
/// equally near the even one. A value of exponent field `field` is `whole`
/// times two to the power of `field - 1075`.
pub proof fn law_narrowing_near_zero(bits: u64, field: nat, whole: nat)
    requires
        873 <= field < 897,
        0x10_0000_0000_0000 <= whole < 0x20_0000_0000_0000,
        bits == (field - 1) * 0x10_0000_0000_0000 + whole,
    ensures
        exists|k: nat|
            #![trigger double_bits(k)]
            {
                let unit = pow2((926 - field) as nat) as int;
                &&& -unit <= 2 * (k * unit - whole) <= unit
                &&& 2 * (k * unit - whole) == unit || 2 * (k * unit - whole) == -unit ==> k % 2 == 0
                &&& k == 0 ==> narrowed(bits) == 0
                &&& k > 0 ==> narrowed(bits) == double_bits(k) - 149 * 0x10_0000_0000_0000
            },
{
    let unit = pow2((926 - field) as nat);
    let k = nearest_quotient(whole, unit);
    lemma_pow2_pos((926 - field) as nat);
    lemma_nearest(whole, unit);
    lemma_single_settles(bits as nat);
    assert(bits / 0x10_0000_0000_0000 == field);
    assert(0x10_0000_0000_0000 + bits % 0x10_0000_0000_0000 == whole);
    assert(k > 0 ==> narrowed(bits) == (double_bits(k) - 149 * 0x10_0000_0000_0000) as nat);
    if k > 0 {
        lemma_double_bits_range(k);
    }
    assert(double_bits(k) >= 0);
}

// ---------------------------------------------------------------------
// Places
// ---------------------------------------------------------------------

/// A place outside the field goes to its nearest edge, one coordinate at a
/// time: 0, or 4576 across and 19124 down. A place inside stays.
pub proof fn law_clamp_goes_to_the_edge(at: Position)
    requires
        is_number(at.x),
        is_number(at.y),
    ensures
        at.x > 0x8000_0000_0000_0000 ==> clamped(at).x == 0,
        0x40b1_e000_0000_0000 < at.x < 0x8000_0000_0000_0000 ==> clamped(at).x
            == 0x40b1_e000_0000_0000,
        at.x <= 0x40b1_e000_0000_0000 ==> clamped(at).x == at.x,
        at.y > 0x8000_0000_0000_0000 ==> clamped(at).y == 0,
        0x40d2_ad00_0000_0000 < at.y < 0x8000_0000_0000_0000 ==> clamped(at).y
            == 0x40d2_ad00_0000_0000,
        at.y <= 0x40d2_ad00_0000_0000 ==> clamped(at).y == at.y,
{
    lemma_limits();
}

/// A click may stray by three across and by three down, either way.
pub proof fn law_click_strays_by_three(dx: u64, dy: u64)
    requires
        dx < 0x8000_0000_0000_0000,
        dy < 0x8000_0000_0000_0000,
    ensures
        ({
            let small = dx <= 0x4008_0000_0000_0000 && dy <= 0x4008_0000_0000_0000;
            let left = (dx + 0x8000_0000_0000_0000) as u64;
            let up = (dy + 0x8000_0000_0000_0000) as u64;
            &&& within_slop(dx, dy) == small
            &&& within_slop(left, dy) == small
            &&& within_slop(dx, up) == small
            &&& within_slop(left, up) == small
        }),
{
    reveal_with_fuel(top_power, 4);
    reveal_with_fuel(top_exponent, 4);
    assert(top_power(3) == 2);
    assert(top_exponent(3) == 1);
    assert(double_bits(3) == 0x4008_0000_0000_0000);
}

/// Two corners span the rectangle from the lesser to the greater coordinates.
pub proof fn law_rectangle_spans_its_corners(a: Position, b: Position)
    requires
        is_number(a.x) && is_number(a.y) && is_number(b.x) && is_number(b.y),
    ensures
        is_less(a.x, b.x) ==> spanned(a, b).min.x == a.x && spanned(a, b).max.x == b.x,
        is_less(b.x, a.x) ==> spanned(a, b).min.x == b.x && spanned(a, b).max.x == a.x,
        is_less(a.y, b.y) ==> spanned(a, b).min.y == a.y && spanned(a, b).max.y == b.y,
        is_less(b.y, a.y) ==> spanned(a, b).min.y == b.y && spanned(a, b).max.y == a.y,
        a.x == b.x ==> spanned(a, b).min.x == a.x && spanned(a, b).max.x == a.x,
        a.y == b.y ==> spanned(a, b).min.y == a.y && spanned(a, b).max.y == a.y,
{
}

/// A node meets a rectangle unless it lies wholly to one side of it; to touch
/// is not to meet.
pub proof fn law_node_meets_unless_beside(corner: Position, far: Position, rect: Rect)
    requires
        is_number(corner.x) && is_number(corner.y) && is_number(far.x) && is_number(far.y),
        is_number(rect.min.x) && is_number(rect.min.y),
        is_number(rect.max.x) && is_number(rect.max.y),
    ensures
        ({
            let left = is_less(far.x, rect.min.x) || equal_numbers(far.x, rect.min.x);
            let right = is_less(rect.max.x, corner.x) || equal_numbers(rect.max.x, corner.x);
            let over = is_less(far.y, rect.min.y) || equal_numbers(far.y, rect.min.y);
            let under = is_less(rect.max.y, corner.y) || equal_numbers(rect.max.y, corner.y);
            meets(corner, far, rect) == !(left || right || over || under)
        }),
{
}

/// Every side of a bounding box touches one of the nodes.
pub proof fn law_bbox_is_tight(nodes: Seq<(Position, Position)>)
    requires
        nodes.len() > 0,
        placed(nodes),
    ensures
        bounds(nodes) is Some,
        exists|i: int| 0 <= i < nodes.len() && (#[trigger] nodes[i]).0.x == bounds(nodes)->0.min.x,
        exists|i: int| 0 <= i < nodes.len() && (#[trigger] nodes[i]).0.y == bounds(nodes)->0.min.y,
        exists|i: int| 0 <= i < nodes.len() && (#[trigger] nodes[i]).1.x == bounds(nodes)->0.max.x,
        exists|i: int| 0 <= i < nodes.len() && (#[trigger] nodes[i]).1.y == bounds(nodes)->0.max.y,
    decreases nodes.len(),
{
    let front = nodes.drop_last();
    let last = nodes.len() - 1;
    assert(nodes.last() == nodes[last]);
    if front.len() > 0 {
        assert forall|i: int| 0 <= i < front.len() implies ({
            let (corner, far) = #[trigger] front[i];
            is_number(corner.x) && is_number(corner.y) && is_number(far.x) && is_number(far.y)
        }) by {
            assert(front[i] == nodes[i]);
        }
        law_bbox_is_tight(front);
        let b = bounds(front)->0;
        let i = choose|i: int| 0 <= i < front.len() && (#[trigger] front[i]).0.x == b.min.x;
        let j = choose|i: int| 0 <= i < front.len() && (#[trigger] front[i]).0.y == b.min.y;
        let k = choose|i: int| 0 <= i < front.len() && (#[trigger] front[i]).1.x == b.max.x;
        let l = choose|i: int| 0 <= i < front.len() && (#[trigger] front[i]).1.y == b.max.y;
        assert(nodes[i] == front[i] && nodes[j] == front[j]);
        assert(nodes[k] == front[k] && nodes[l] == front[l]);
    } else {
        assert(bounds(front) is None);
    }
}

/// Without nodes there is no bounding box.
pub proof fn law_no_nodes_no_bbox()
    ensures
        bounds(Seq::empty()) is None,
{
}

// ---------------------------------------------------------------------
// Shelves and cells
// ---------------------------------------------------------------------

/// A block opens a new shelf when the shelf holds one already, so that the
/// next place lies past 16, and the block would stick out.
pub proof fn law_full_shelf_is_left(x: u64, right: u64, limit: u64)
    requires
        x <= 0x7ff0_0000_0000_0000,
        right <= 0x7ff0_0000_0000_0000,
        limit <= 0x7ff0_0000_0000_0000,
    ensures
        overflows(x, right, limit) == (x > 0x4030_0000_0000_0000 && right > limit),
{
    reveal_with_fuel(top_power, 6);
    reveal_with_fuel(top_exponent, 6);
    assert(top_power(16) == 16);
    assert(top_exponent(16) == 4);
    assert(double_bits(16) == 0x4030_0000_0000_0000);
}

/// Cells are 240 wide and 90 high, and filled row by row.
pub proof fn law_cells_fill_rows(
    member: (usize, u128, u128),
    node: usize,
    row: int,
    col: int,
    cols: int,
)
    requires
        0 <= col < cols,
        0 <= row,
    ensures
        in_cell(member, node, row * cols + col, cols) == (member.0 == node && member.1 == 240 * col
            && member.2 == 90 * row),
{
    lemma_fundamental_div_mod_converse(row * cols + col, cols, row, col);
}

} // verus!
