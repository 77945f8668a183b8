//! Coordinates as numbers: the bit patterns of double-precision values, their
//! order and equality, and whole numbers among them.

use vstd::arithmetic::power2::{
    lemma2_to64, lemma2_to64_rest, lemma_pow2_adds, lemma_pow2_pos, lemma_pow2_strictly_increases,
    lemma_pow2_unfold, pow2,
};
use vstd::prelude::*;

verus! {

/// The bit that marks a negative value, as a number.
pub const SIGN: u64 = 0x8000_0000_0000_0000;

/// The bits of positive infinity; what lies above, the sign aside, is not a
/// number.
pub const INFINITY: u64 = 0x7ff0_0000_0000_0000;

/// The value without its sign.
pub open spec fn magnitude(bits: u64) -> int {
    if bits >= SIGN {
        bits - SIGN
    } else {
        bits as int
    }
}

/// Whether two values compare equal: the same bits or both zero, and a
/// number.
pub open spec fn equal_numbers(a: u64, b: u64) -> bool {
    magnitude(a) <= INFINITY && (a == b || (magnitude(a) == 0 && magnitude(b) == 0))
}

pub fn same_number(a: u64, b: u64) -> (r: bool)
    ensures
        r == equal_numbers(a, b),
{
    let abs_a = if a >= SIGN {
        a - SIGN
    } else {
        a
    };
    let abs_b = if b >= SIGN {
        b - SIGN
    } else {
        b
    };
    abs_a <= INFINITY && (a == b || (abs_a == 0 && abs_b == 0))
}

/// The place of a value in the total order of floating-point values: negative
/// ones first, the greatest magnitude first among them.
pub open spec fn rank_of(bits: u64) -> u64 {
    if bits >= SIGN {
        (u64::MAX - bits) as u64
    } else {
        (bits + SIGN) as u64
    }
}

pub fn order_rank(bits: u64) -> (r: u64)
    ensures
        r == rank_of(bits),
{
    if bits >= SIGN {
        u64::MAX - bits
    } else {
        bits + SIGN
    }
}

/// Values of different bits have different places.
pub proof fn law_rank_is_injective(a: u64, b: u64)
    requires
        rank_of(a) == rank_of(b),
    ensures
        a == b,
{
}

/// Whether the bits are those of a number; infinities are.
pub open spec fn is_number(bits: u64) -> bool {
    magnitude(bits) <= INFINITY
}

/// A value on a scale that keeps the order of numbers; both zeros stand at 0.
pub open spec fn scale(bits: u64) -> int {
    if bits >= SIGN {
        SIGN - bits
    } else {
        bits as int
    }
}

/// Whether one number is less than another. What is not a number is neither
/// less nor greater.
pub open spec fn is_less(a: u64, b: u64) -> bool {
    is_number(a) && is_number(b) && scale(a) < scale(b)
}

pub fn number(bits: u64) -> (r: bool)
    ensures
        r == is_number(bits),
{
    if bits >= SIGN {
        bits - SIGN <= INFINITY
    } else {
        bits <= INFINITY
    }
}

pub fn less(a: u64, b: u64) -> (r: bool)
    ensures
        r == is_less(a, b),
{
    if !number(a) || !number(b) {
        false
    } else if a >= SIGN {
        if b >= SIGN {
            b < a
        } else {
            a > SIGN || b > 0
        }
    } else {
        b < SIGN && a < b
    }
}

/// Of two numbers, one is less than the other or they are equal, and only one
/// of the three.
pub proof fn law_numbers_compare(a: u64, b: u64)
    requires
        is_number(a),
        is_number(b),
    ensures
        is_less(a, b) || is_less(b, a) || equal_numbers(a, b),
        !(is_less(a, b) && is_less(b, a)),
        equal_numbers(a, b) ==> !is_less(a, b) && !is_less(b, a),
{
}

/// The lesser of two values; of a number and what is none, the number.
pub open spec fn lesser(a: u64, b: u64) -> u64 {
    if !is_number(a) || is_less(b, a) {
        b
    } else {
        a
    }
}

/// The greater of two values; of a number and what is none, the number.
pub open spec fn greater(a: u64, b: u64) -> u64 {
    if !is_number(a) || is_less(a, b) {
        b
    } else {
        a
    }
}

pub fn minimum(a: u64, b: u64) -> (r: u64)
    ensures
        r == lesser(a, b),
{
    if !number(a) || less(b, a) {
        b
    } else {
        a
    }
}

pub fn maximum(a: u64, b: u64) -> (r: u64)
    ensures
        r == greater(a, b),
{
    if !number(a) || less(a, b) {
        b
    } else {
        a
    }
}

/// A value held between two numbers; what is no number stays.
pub open spec fn held(x: u64, low: u64, high: u64) -> u64 {
    if is_less(x, low) {
        low
    } else if is_less(high, x) {
        high
    } else {
        x
    }
}

pub fn hold(x: u64, low: u64, high: u64) -> (r: u64)
    ensures
        r == held(x, low, high),
{
    if less(x, low) {
        low
    } else if less(high, x) {
        high
    } else {
        x
    }
}

// ---------------------------------------------------------------------
// Whole numbers
// ---------------------------------------------------------------------

/// The greatest power of two up to `n`.
pub open spec fn top_power(n: nat) -> nat
    decreases n,
{
    if n < 2 {
        1
    } else {
        2 * top_power(n / 2)
    }
}

/// The exponent of the greatest power of two up to `n`.
pub open spec fn top_exponent(n: nat) -> nat
    decreases n,
{
    if n < 2 {
        0
    } else {
        1 + top_exponent(n / 2)
    }
}

/// The single-precision value nearest to a whole number; of two that are
/// equally near, the one with an even significand.
pub open spec fn nearest_single(n: nat) -> nat {
    if n < 0x100_0000 {
        n
    } else {
        let unit = top_power(n) / 0x80_0000;
        let below = n / unit;
        let over = n % unit;
        if 2 * over > unit || (2 * over == unit && below % 2 == 1) {
            (below + 1) * unit
        } else {
            below * unit
        }
    }
}

/// The double-precision bits of a whole number.
pub open spec fn double_bits(n: nat) -> nat {
    if n == 0 {
        0
    } else {
        (1023 + top_exponent(n)) * 0x10_0000_0000_0000 + (n - top_power(n)) as nat
            * 0x10_0000_0000_0000 / top_power(n)
    }
}

proof fn lemma_top_power(n: nat)
    requires
        n >= 1,
    ensures
        top_power(n) <= n < 2 * top_power(n),
    decreases n,
{
    if n >= 2 {
        lemma_top_power(n / 2);
    }
}

fn top(n: u128) -> (r: u128)
    requires
        n >= 1,
    ensures
        r == top_power(n as nat),
        1 <= r <= n,
    decreases n,
{
    proof {
        lemma_top_power(n as nat);
    }
    if n < 2 {
        1
    } else {
        2 * top(n / 2)
    }
}

fn exponent(n: u128) -> (r: u64)
    ensures
        r == top_exponent(n as nat),
        r <= n,
        r <= 127,
    decreases n,
{
    proof {
        if n >= 1 {
            lemma2_to64();
            lemma_pow2_adds(64, 64);
            lemma_exponent_bound(n as nat, 128);
        }
    }
    if n < 2 {
        0
    } else {
        1 + exponent(n / 2)
    }
}

proof fn lemma_exponent_bound(n: nat, k: nat)
    requires
        1 <= n,
        n < pow2(k),
    ensures
        top_exponent(n) < k,
    decreases k,
{
    if k == 0 {
        lemma2_to64();
    } else {
        lemma_pow2_unfold(k);
        if n >= 2 {
            lemma_exponent_bound(n / 2, (k - 1) as nat);
        }
    }
}

/// The single-precision value nearest to a whole number.
pub fn round_single(n: u128) -> (r: u128)
    requires
        n < 0x1000_0000_0000_0000_0000,
    ensures
        r == nearest_single(n as nat),
        r <= 2 * n,
{
    if n < 0x100_0000 {
        return n;
    }
    proof {
        lemma_top_power(n as nat);
    }
    let unit = top(n) / 0x80_0000;
    let below = n / unit;
    let over = n % unit;
    proof {
        vstd::arithmetic::div_mod::lemma_fundamental_div_mod(n as int, unit as int);
        assert(below * unit == unit * (n as int / unit as int)) by (nonlinear_arith)
            requires
                below == n as int / unit as int,
        ;
        assert((below + 1) * unit == below * unit + unit) by (nonlinear_arith);
    }
    if 2 * over > unit || (2 * over == unit && below % 2 == 1) {
        (below + 1) * unit
    } else {
        below * unit
    }
}

/// The double-precision bits of a whole number.
pub fn whole(n: u128) -> (r: u64)
    requires
        n < 0x1000_0000_0000_0000_0000,
    ensures
        r == double_bits(n as nat),
{
    if n == 0 {
        return 0;
    }
    proof {
        lemma_top_power(n as nat);
    }
    let t = top(n);
    let above = n - t;
    let e = exponent(n);
    proof {
        assert(above * 0x10_0000_0000_0000 / t as int <= 0x10_0000_0000_0000) by (nonlinear_arith)
            requires
                0 <= above < t,
        {
            vstd::arithmetic::div_mod::lemma_div_is_ordered(
                above * 0x10_0000_0000_0000,
                t * 0x10_0000_0000_0000,
                t as int,
            );
            vstd::arithmetic::div_mod::lemma_div_multiples_vanish(
                0x10_0000_0000_0000,
                t as int,
            );
        }
    }
    let fraction = (above * 0x10_0000_0000_0000 / t) as u64;
    (1023 + e) * 0x10_0000_0000_0000 + fraction
}

// ---------------------------------------------------------------------
// Single precision
// ---------------------------------------------------------------------

/// How far apart the bits of neighboring powers of two are.
pub const OCTAVE: u64 = 0x10_0000_0000_0000;

/// How far apart the bits of neighboring single-precision values are, but for
/// the least ones.
pub const SINGLE_STEP: u64 = 0x2000_0000;

/// The bits of the least power of two that is too great for single precision.
pub const SINGLE_LIMIT: u64 = 0x47f0_0000_0000_0000;

/// The whole number nearest to `n / d`; of two that are equally near, the
/// even one.
pub open spec fn nearest_quotient(n: nat, d: nat) -> nat {
    let below = n / d;
    let over = n % d;
    if 2 * over > d || (2 * over == d && below % 2 == 1) {
        below + 1
    } else {
        below
    }
}

/// The bits of the single-precision value nearest to a value without sign, of
/// two that are equally near the even one. Below the normal range such values
/// are the multiples of two to the power of -149; what is too great becomes
/// infinite.
pub open spec fn single_magnitude(m: nat) -> nat {
    let octave = m / (OCTAVE as nat);
    if m >= INFINITY {
        m
    } else if octave >= 897 {
        let r = nearest_quotient(m, SINGLE_STEP as nat) * SINGLE_STEP as nat;
        if r >= SINGLE_LIMIT {
            INFINITY as nat
        } else {
            r
        }
    } else if octave < 873 {
        0
    } else {
        let k = nearest_quotient(
            OCTAVE as nat + m % (OCTAVE as nat),
            pow2((926 - octave) as nat),
        );
        if k == 0 {
            0
        } else {
            (double_bits(k) - 149 * OCTAVE) as nat
        }
    }
}

/// The bits of the single-precision value nearest to a value. What is no
/// number stays.
pub open spec fn narrowed(bits: u64) -> u64 {
    if bits >= SIGN {
        (SIGN + single_magnitude((bits - SIGN) as nat)) as u64
    } else {
        single_magnitude(bits as nat) as u64
    }
}

fn divide_nearest(n: u64, d: u64) -> (r: u64)
    requires
        0 < d <= 0x4000_0000_0000_0000,
        n <= 0x7fff_ffff_ffff_ffff,
    ensures
        r == nearest_quotient(n as nat, d as nat),
        r <= n / d + 1,
{
    let below = n / d;
    let over = n % d;
    proof {
        assert(below <= n) by (nonlinear_arith)
            requires
                below == n / d,
                d > 0,
        ;
    }
    if 2 * over > d || (2 * over == d && below % 2 == 1) {
        below + 1
    } else {
        below
    }
}

fn narrow_magnitude(m: u64) -> (r: u64)
    requires
        m < SIGN,
    ensures
        r == single_magnitude(m as nat),
        r < SIGN,
{
    let octave = m / OCTAVE;
    if m >= INFINITY {
        m
    } else if octave >= 897 {
        let steps = divide_nearest(m, SINGLE_STEP);
        let r = steps * SINGLE_STEP;
        if r >= SINGLE_LIMIT {
            INFINITY
        } else {
            r
        }
    } else if octave < 873 {
        0
    } else {
        let shift: u64 = 926 - octave;
        proof {
            lemma2_to64();
            lemma2_to64_rest();
            lemma_pow2_strictly_increases(29, shift as nat);
            lemma_pow2_strictly_increases(shift as nat, 62);
            vstd::bits::lemma_u64_shl_is_mul(1, shift);
        }
        let d: u64 = 1u64 << shift;
        let k = divide_nearest(OCTAVE + m % OCTAVE, d);
        if k == 0 {
            0
        } else {
            let bits = whole(k as u128);
            proof {
                assert((OCTAVE + m % OCTAVE) / d as int <= 0x80_0000) by (nonlinear_arith)
                    requires
                        m % OCTAVE < 0x10_0000_0000_0000,
                        OCTAVE == 0x10_0000_0000_0000,
                        d >= 0x4000_0000,
                ;
                lemma_exponent_bound(k as nat, 24);
                lemma_double_bits_range(k as nat);
            }
            bits - 149 * OCTAVE
        }
    }
}

pub(crate) proof fn lemma_double_bits_range(k: nat)
    requires
        k >= 1,
    ensures
        (1023 + top_exponent(k)) * OCTAVE <= double_bits(k) < (1024 + top_exponent(k)) * OCTAVE,
{
    let t = top_power(k) as int;
    let above = k - t;
    lemma_top_power(k);
    vstd::arithmetic::div_mod::lemma_div_pos_is_pos(above * 0x10_0000_0000_0000, t);
    assert(above * 0x10_0000_0000_0000 / t < 0x10_0000_0000_0000) by (nonlinear_arith)
        requires
            0 <= above < t,
    {
        vstd::arithmetic::div_mod::lemma_multiply_divide_lt(
            above * 0x10_0000_0000_0000,
            t,
            0x10_0000_0000_0000,
        );
    }
}

/// The bits of the single-precision value nearest to a value.
pub fn narrow(bits: u64) -> (r: u64)
    ensures
        r == narrowed(bits),
{
    if bits >= SIGN {
        SIGN + narrow_magnitude(bits - SIGN)
    } else {
        narrow_magnitude(bits)
    }
}

/// Whether a value is one of single precision, or no number.
pub open spec fn is_single(bits: u64) -> bool {
    narrowed(bits) == bits
}

proof fn lemma_top_power_is_pow2(n: nat)
    ensures
        top_power(n) == pow2(top_exponent(n)),
    decreases n,
{
    if n < 2 {
        lemma2_to64();
    } else {
        lemma_top_power_is_pow2(n / 2);
        lemma_pow2_unfold(top_exponent(n));
    }
}

proof fn lemma_exact_quotient(q: nat, d: nat)
    requires
        d > 0,
    ensures
        nearest_quotient(q * d, d) == q,
{
    vstd::arithmetic::div_mod::lemma_mod_multiples_basic(q as int, d as int);
    vstd::arithmetic::div_mod::lemma_div_by_multiple(q as int, d as int);
}

/// The least single-precision values: the bits of `k` times two to the power
/// of -149 are those that narrowing gives back.
proof fn lemma_least_singles(k: nat)
    requires
        1 <= k <= 0x80_0000,
    ensures
        single_magnitude((double_bits(k) - 149 * OCTAVE) as nat) == double_bits(k) - 149 * OCTAVE,
        double_bits(k) - 149 * OCTAVE < SIGN,
{
    let t = top_exponent(k);
    let r = (double_bits(k) - 149 * OCTAVE) as nat;
    lemma2_to64();
    lemma2_to64_rest();
    lemma_top_power(k);
    lemma_top_power_is_pow2(k);
    lemma_exponent_bound(k, 24);
    lemma_double_bits_range(k);
    let power = top_power(k);
    let rest = (k - power) as nat;
    lemma_pow2_adds(t, (52 - t) as nat);
    let d = pow2((52 - t) as nat);
    lemma_pow2_pos((52 - t) as nat);
    assert(power * d == OCTAVE);
    assert(rest * OCTAVE / power as int == rest * d) by {
        assert(rest * OCTAVE == (rest * d) * power) by (nonlinear_arith)
            requires
                power * d == OCTAVE,
        ;
        vstd::arithmetic::div_mod::lemma_div_by_multiple((rest * d) as int, power as int);
    }
    assert(r == (874 + t) * OCTAVE + rest * d);
    assert(rest * d < OCTAVE) by (nonlinear_arith)
        requires
            power * d == OCTAVE,
            rest < power,
            d > 0,
    ;
    vstd::arithmetic::div_mod::lemma_fundamental_div_mod_converse(
        r as int,
        OCTAVE as int,
        874 + t as int,
        (rest * d) as int,
    );
    if t == 23 {
        assert(k == 0x80_0000);
        assert(rest * d == 0) by (nonlinear_arith)
            requires
                rest == 0,
        ;
        assert(r == 897 * OCTAVE);
        lemma_exact_quotient((r / SINGLE_STEP as nat) as nat, SINGLE_STEP as nat);
    } else {
        assert(OCTAVE + rest * d == k * d) by (nonlinear_arith)
            requires
                power * d == OCTAVE,
                rest == k - power,
        ;
        lemma_exact_quotient(k, d);
    }
}

pub(crate) proof fn lemma_single_settles(m: nat)
    requires
        m < SIGN,
    ensures
        single_magnitude(m) < SIGN,
        single_magnitude(single_magnitude(m)) == single_magnitude(m),
{
    let octave = m / (OCTAVE as nat);
    if m >= INFINITY || octave < 873 {
    } else if octave >= 897 {
        let q = nearest_quotient(m, SINGLE_STEP as nat);
        lemma_exact_quotient(q, SINGLE_STEP as nat);
        assert(q * SINGLE_STEP >= 897 * OCTAVE);
    } else {
        let s = (926 - octave) as nat;
        lemma2_to64();
        lemma2_to64_rest();
        lemma_pow2_strictly_increases(29, s);
        lemma_pow2_strictly_increases(s, 62);
        let n = OCTAVE as nat + m % (OCTAVE as nat);
        let d = pow2(s);
        assert(n / d < 0x80_0000) by (nonlinear_arith)
            requires
                n < 0x20_0000_0000_0000,
                d >= 0x4000_0000,
        ;
        let k = nearest_quotient(n, d);
        if k > 0 {
            lemma_least_singles(k);
        }
    }
}

/// Narrowing gives a single-precision value: narrowing it again changes
/// nothing.
pub proof fn law_narrowing_settles(bits: u64)
    ensures
        is_single(narrowed(bits)),
{
    lemma_single_settles(
        if bits >= SIGN {
            (bits - SIGN) as nat
        } else {
            bits as nat
        },
    );
}

/// A whole number below two to the power of 24 is a single-precision value.
pub proof fn law_small_whole_is_single(n: nat)
    requires
        n < 0x100_0000,
    ensures
        double_bits(n) < SIGN,
        is_single(double_bits(n) as u64),
{
    if n > 0 {
        let t = top_exponent(n);
        lemma2_to64();
        lemma2_to64_rest();
        lemma_top_power(n);
        lemma_top_power_is_pow2(n);
        lemma_exponent_bound(n, 24);
        lemma_double_bits_range(n);
        let power = top_power(n);
        let rest = (n - power) as nat;
        lemma_pow2_adds(t, (52 - t) as nat);
        lemma_pow2_adds((23 - t) as nat, 29);
        let d = pow2((23 - t) as nat);
        assert(power * (d * SINGLE_STEP) == OCTAVE);
        assert(rest * OCTAVE / power as int == rest * d * SINGLE_STEP) by {
            assert(rest * OCTAVE == (rest * d * SINGLE_STEP) * power) by (nonlinear_arith)
                requires
                    power * (d * SINGLE_STEP) == OCTAVE,
            ;
            vstd::arithmetic::div_mod::lemma_div_by_multiple(
                (rest * d * SINGLE_STEP) as int,
                power as int,
            );
        }
        let q = ((1023 + t) * 0x80_0000 + rest * d) as nat;
        assert(double_bits(n) == q * SINGLE_STEP) by (nonlinear_arith)
            requires
                double_bits(n) == (1023 + t) * OCTAVE + rest * d * SINGLE_STEP,
                q == (1023 + t) * 0x80_0000 + rest * d,
                OCTAVE == 0x80_0000 * SINGLE_STEP,
        ;
        lemma_exact_quotient(q, SINGLE_STEP as nat);
    }
}

} // verus!
