//! What the bits of a double stand for, and rounding to the nearest double.
//!
//! The bits of a non-negative double, read as an integer, number the doubles in
//! increasing order: 0 is zero, 1 the smallest positive double, and
//! `INFINITY_BITS` the infinity. Every finite double is a whole multiple of
//! 2^-1074, the unit in which magnitudes are given here.

use vstd::arithmetic::power2::{lemma_pow2_adds, lemma_pow2_pos, lemma_pow2_unfold, pow2};
use vstd::prelude::*;

verus! {

/// The bit that makes a double negative.
pub const SIGN_BIT: u64 = 0x8000_0000_0000_0000;

/// The bits of positive infinity.
pub const INFINITY_BITS: u64 = 0x7ff0_0000_0000_0000;

/// The weight of the exponent's lowest bit.
pub const EXPONENT_ONE: u64 = 0x0010_0000_0000_0000;

/// The magnitude, in units of 2^-1074, of the non-negative double with these
/// bits. Infinity counts as 2^1024, the next value of the grid.
pub open spec fn magnitude(bits: nat) -> nat {
    let exponent = bits / 0x0010_0000_0000_0000;
    let fraction = bits % 0x0010_0000_0000_0000;
    if exponent == 0 {
        fraction
    } else {
        (0x0010_0000_0000_0000 + fraction) * pow2((exponent - 1) as nat)
    }
}

/// `numerator / denominator` units lie above the middle between the doubles
/// `bits - 1` and `bits`, or exactly in that middle with `bits` even.
pub open spec fn reaches(numerator: nat, denominator: nat, bits: nat) -> bool {
    let middle = denominator * (magnitude((bits - 1) as nat) + magnitude(bits));
    bits == 0 || 2 * numerator > middle || (2 * numerator == middle && bits % 2 == 0)
}

/// The largest double up to `bits` that the quotient reaches.
pub open spec fn nearest_up_to(numerator: nat, denominator: nat, bits: nat) -> nat
    decreases bits,
{
    if bits == 0 || reaches(numerator, denominator, bits) {
        bits
    } else {
        nearest_up_to(numerator, denominator, (bits - 1) as nat)
    }
}

/// The bits of the double nearest to `numerator / denominator` units, the even
/// one of two equally near; infinity from half a step above the largest double.
pub open spec fn nearest(numerator: nat, denominator: nat) -> nat {
    nearest_up_to(numerator, denominator, INFINITY_BITS as nat)
}

/// A significand and a power of two give the magnitude of consecutive bits.
pub proof fn lemma_magnitude_of(shift: nat, significand: nat)
    requires
        significand <= 0x0020_0000_0000_0000,
        shift == 0 || significand >= 0x0010_0000_0000_0000,
    ensures
        magnitude(shift * 0x0010_0000_0000_0000 + significand) == significand * pow2(shift),
{
    let bits = shift * 0x0010_0000_0000_0000 + significand;
    vstd::arithmetic::power2::lemma2_to64();
    if significand < 0x0010_0000_0000_0000 {
        assert(bits / 0x0010_0000_0000_0000 == 0);
        assert(bits % 0x0010_0000_0000_0000 == significand);
    } else if significand < 0x0020_0000_0000_0000 {
        assert(bits / 0x0010_0000_0000_0000 == shift + 1);
        assert(bits % 0x0010_0000_0000_0000 == significand - 0x0010_0000_0000_0000);
    } else {
        assert(bits / 0x0010_0000_0000_0000 == shift + 2);
        assert(bits % 0x0010_0000_0000_0000 == 0);
        lemma_pow2_unfold(shift + 1);
        assert(0x0010_0000_0000_0000 * pow2(shift + 1) == 0x0020_0000_0000_0000 * pow2(shift))
            by (nonlinear_arith)
            requires
                pow2(shift + 1) == 2 * pow2(shift),
        ;
    }
}

/// Consecutive doubles have increasing magnitudes.
pub proof fn lemma_magnitude_step(bits: nat)
    ensures
        magnitude(bits) < magnitude(bits + 1),
{
    let exponent = bits / 0x0010_0000_0000_0000;
    let fraction = bits % 0x0010_0000_0000_0000;
    let shift: nat = if exponent == 0 { 0 } else { (exponent - 1) as nat };
    let significand: nat = if exponent == 0 { fraction } else { 0x0010_0000_0000_0000 + fraction };
    assert(bits == shift * 0x0010_0000_0000_0000 + significand);
    lemma_magnitude_of(shift, significand);
    lemma_magnitude_of(shift, significand + 1);
    lemma_pow2_pos(shift);
    assert(significand * pow2(shift) < (significand + 1) * pow2(shift)) by (nonlinear_arith)
        requires
            pow2(shift) > 0,
    ;
}

/// The magnitudes of doubles have the order of their bits.
pub proof fn lemma_magnitude_increases(low: nat, high: nat)
    requires
        low <= high,
    ensures
        magnitude(low) <= magnitude(high),
        low < high ==> magnitude(low) < magnitude(high),
    decreases high - low,
{
    if low < high {
        lemma_magnitude_step(low);
        lemma_magnitude_increases(low + 1, high);
    }
}

/// A double that is reached, while the next one is not, is the nearest.
pub proof fn lemma_nearest_is(numerator: nat, denominator: nat, bits: nat)
    requires
        denominator > 0,
        bits <= INFINITY_BITS,
        reaches(numerator, denominator, bits),
        bits < INFINITY_BITS ==> !reaches(numerator, denominator, bits + 1),
    ensures
        nearest(numerator, denominator) == bits,
{
    lemma_nearest_from(numerator, denominator, bits, INFINITY_BITS as nat);
}

proof fn lemma_nearest_from(numerator: nat, denominator: nat, bits: nat, top: nat)
    requires
        denominator > 0,
        bits <= top <= INFINITY_BITS,
        reaches(numerator, denominator, bits),
        bits < INFINITY_BITS ==> !reaches(numerator, denominator, bits + 1),
    ensures
        nearest_up_to(numerator, denominator, top) == bits,
    decreases top,
{
    if top > bits {
        if top > bits + 1 {
            lemma_magnitude_increases(bits, (top - 1) as nat);
            lemma_magnitude_increases(bits + 1, top);
            let near = magnitude(bits) + magnitude(bits + 1);
            let far = magnitude((top - 1) as nat) + magnitude(top);
            assert(denominator * near < denominator * far) by (nonlinear_arith)
                requires
                    near < far,
                    denominator > 0,
            ;
        }
        lemma_nearest_from(numerator, denominator, bits, (top - 1) as nat);
    }
}

/// Between two consecutive doubles the nearest is one of them: the upper one
/// exactly if it is reached.
pub proof fn lemma_nearest_between(numerator: nat, denominator: nat, bits: nat)
    requires
        denominator > 0,
        bits < INFINITY_BITS,
        denominator * magnitude(bits) <= numerator < denominator * magnitude(bits + 1),
    ensures
        nearest(numerator, denominator) == if reaches(numerator, denominator, bits + 1) {
            bits + 1
        } else {
            bits
        },
{
    let here = magnitude(bits);
    let next = magnitude(bits + 1);
    if bits > 0 {
        lemma_magnitude_step((bits - 1) as nat);
        let before = magnitude((bits - 1) as nat);
        assert(denominator * (before + here) < 2 * (denominator * here)) by (nonlinear_arith)
            requires
                before < here,
                denominator > 0,
        ;
    }
    if reaches(numerator, denominator, bits + 1) {
        lemma_magnitude_step(bits + 1);
        let after = magnitude(bits + 2);
        assert(2 * (denominator * next) < denominator * (next + after)) by (nonlinear_arith)
            requires
                next < after,
                denominator > 0,
        ;
        lemma_nearest_is(numerator, denominator, bits + 1);
    } else {
        lemma_nearest_is(numerator, denominator, bits);
    }
}

proof fn lemma_nearest_reached(numerator: nat, denominator: nat, top: nat)
    ensures
        nearest_up_to(numerator, denominator, top) <= top,
        reaches(numerator, denominator, nearest_up_to(numerator, denominator, top)),
        nearest_up_to(numerator, denominator, top) < top ==> !reaches(
            numerator,
            denominator,
            nearest_up_to(numerator, denominator, top) + 1,
        ),
    decreases top,
{
    if top > 0 && !reaches(numerator, denominator, top) {
        lemma_nearest_reached(numerator, denominator, (top - 1) as nat);
    }
}

/// The nearest double is reached.
pub proof fn nearest_is_reached(numerator: nat, denominator: nat)
    ensures
        reaches(numerator, denominator, nearest(numerator, denominator)),
{
    lemma_nearest_reached(numerator, denominator, INFINITY_BITS as nat);
}

/// The nearest double is no lower than any that is reached.
pub proof fn reached_is_a_bound(numerator: nat, denominator: nat, bits: nat)
    requires
        bits <= INFINITY_BITS,
        reaches(numerator, denominator, bits),
    ensures
        bits <= nearest(numerator, denominator),
{
    lemma_reached_up_to(numerator, denominator, bits, INFINITY_BITS as nat);
}

proof fn lemma_reached_up_to(numerator: nat, denominator: nat, bits: nat, top: nat)
    requires
        bits <= top,
        reaches(numerator, denominator, bits),
    ensures
        bits <= nearest_up_to(numerator, denominator, top),
    decreases top,
{
    if bits < top {
        lemma_reached_up_to(numerator, denominator, bits, (top - 1) as nat);
    }
}

/// A quotient below the middle between a double and the next rounds to at most that
/// double.
pub proof fn unreached_is_a_bound(numerator: nat, denominator: nat, bits: nat)
    requires
        bits < INFINITY_BITS,
        2 * numerator < denominator * (magnitude(bits) + magnitude(bits + 1)),
    ensures
        nearest(numerator, denominator) <= bits,
{
    let found = nearest(numerator, denominator);
    lemma_nearest_reached(numerator, denominator, INFINITY_BITS as nat);
    if found > bits {
        lemma_magnitude_increases(bits, (found - 1) as nat);
        lemma_magnitude_increases(bits + 1, found);
        let near = magnitude(bits) + magnitude(bits + 1);
        let far = magnitude((found - 1) as nat) + magnitude(found);
        assert(denominator * near <= denominator * far) by (nonlinear_arith)
            requires
                near <= far,
        ;
    }
}

/// Two different doubles lie apart by more than a 2^53rd of the lower, and by at least a
/// 2^53rd of the higher.
pub proof fn doubles_lie_apart(low: nat, high: nat)
    requires
        low < high,
    ensures
        0x0020_0000_0000_0000 * (magnitude(high) - magnitude(low)) > magnitude(low),
        0x0020_0000_0000_0000 * (magnitude(high) - magnitude(low)) >= magnitude(high),
{
    lemma_step_size(low);
    lemma_step_size((high - 1) as nat);
    lemma_magnitude_increases(low + 1, high);
    lemma_magnitude_increases(low, (high - 1) as nat);
}

/// A step to the next double is more than a 2^53rd of the lower one, and at least a 2^53rd
/// of the higher one.
proof fn lemma_step_size(bits: nat)
    ensures
        0x0020_0000_0000_0000 * (magnitude(bits + 1) - magnitude(bits)) > magnitude(bits),
        0x0020_0000_0000_0000 * (magnitude(bits + 1) - magnitude(bits)) >= magnitude(bits + 1),
{
    let exponent = bits / 0x0010_0000_0000_0000;
    let fraction = bits % 0x0010_0000_0000_0000;
    let shift: nat = if exponent == 0 { 0 } else { (exponent - 1) as nat };
    let significand: nat = if exponent == 0 { fraction } else { 0x0010_0000_0000_0000 + fraction };
    assert(bits == shift * 0x0010_0000_0000_0000 + significand);
    lemma_magnitude_of(shift, significand);
    lemma_magnitude_of(shift, significand + 1);
    lemma_pow2_pos(shift);
    let unit = pow2(shift);
    assert((significand + 1) * unit == significand * unit + unit) by (nonlinear_arith);
    assert(significand * unit < 0x0020_0000_0000_0000 * unit) by (nonlinear_arith)
        requires
            significand < 0x0020_0000_0000_0000,
            unit > 0,
    ;
    assert((significand + 1) * unit <= 0x0020_0000_0000_0000 * unit) by (nonlinear_arith)
        requires
            significand + 1 <= 0x0020_0000_0000_0000,
    ;
}

/// Rounding gives at most infinity.
pub(crate) proof fn lemma_nearest_bound(numerator: nat, denominator: nat)
    ensures
        nearest(numerator, denominator) <= INFINITY_BITS,
{
    lemma_nearest_reached(numerator, denominator, INFINITY_BITS as nat);
}

/// Rounding keeps to the side of every double: a quotient up to a double rounds to
/// at most that double, and one from a double up to at least that double.
pub proof fn rounding_keeps_sides(numerator: nat, denominator: nat, bits: nat)
    requires
        denominator > 0,
        bits <= INFINITY_BITS,
    ensures
        numerator <= denominator * magnitude(bits) ==> nearest(numerator, denominator) <= bits,
        denominator * magnitude(bits) <= numerator ==> bits <= nearest(numerator, denominator),
{
    let found = nearest(numerator, denominator);
    lemma_nearest_reached(numerator, denominator, INFINITY_BITS as nat);
    if found > bits {
        lemma_magnitude_increases(bits, (found - 1) as nat);
        lemma_magnitude_increases(bits, found);
        let low = magnitude((found - 1) as nat);
        let high = magnitude(found);
        let here = magnitude(bits);
        assert(denominator * (low + high) > 2 * (denominator * here)) by (nonlinear_arith)
            requires
                here <= low,
                here < high,
                denominator > 0,
        ;
    }
    if found < bits {
        lemma_magnitude_increases(found, bits);
        lemma_magnitude_increases(found + 1, bits);
        let low = magnitude(found);
        let high = magnitude(found + 1);
        let here = magnitude(bits);
        assert(denominator * (low + high) < 2 * (denominator * here)) by (nonlinear_arith)
            requires
                low < here,
                high <= here,
                denominator > 0,
        ;
    }
}

/// A double rounds to itself.
pub proof fn doubles_round_to_themselves(denominator: nat, bits: nat)
    requires
        denominator > 0,
        bits <= INFINITY_BITS,
    ensures
        nearest(denominator * magnitude(bits), denominator) == bits,
{
    rounding_keeps_sides(denominator * magnitude(bits), denominator, bits);
}

/// No double lies nearer to a quotient than the one it rounds to.
pub proof fn rounding_is_closest(numerator: nat, denominator: nat, other: nat)
    requires
        denominator > 0,
        nearest(numerator, denominator) < INFINITY_BITS,
        other < INFINITY_BITS,
    ensures
        ({
            let found = denominator * magnitude(nearest(numerator, denominator));
            let candidate = denominator * magnitude(other);
            let gap = if found <= numerator { numerator - found } else { found - numerator };
            let other_gap = if candidate <= numerator {
                numerator - candidate
            } else {
                candidate - numerator
            };
            gap <= other_gap
        }),
{
    let found = nearest(numerator, denominator);
    lemma_nearest_reached(numerator, denominator, INFINITY_BITS as nat);
    let here = magnitude(found);
    let there = magnitude(other);
    if other < found {
        lemma_magnitude_increases(other, (found - 1) as nat);
        lemma_magnitude_increases(other, found);
        let low = magnitude((found - 1) as nat);
        assert(denominator * (low + here) >= denominator * there + denominator * here)
            by (nonlinear_arith)
            requires
                there <= low,
        ;
        assert(denominator * there <= denominator * here) by (nonlinear_arith)
            requires
                there <= here,
        ;
    }
    if other > found {
        lemma_magnitude_increases(found + 1, other);
        lemma_magnitude_increases(found, other);
        let high = magnitude(found + 1);
        assert(denominator * (here + high) <= denominator * there + denominator * here)
            by (nonlinear_arith)
            requires
                high <= there,
        ;
        assert(denominator * here <= denominator * there) by (nonlinear_arith)
            requires
                here <= there,
        ;
    }
}

/// A quotient below half a unit rounds to zero.
pub proof fn lemma_nearest_zero(numerator: nat, denominator: nat)
    requires
        2 * numerator < denominator,
    ensures
        nearest(numerator, denominator) == 0,
{
    assert(magnitude(0) == 0);
    assert(magnitude(1) == 1);
    assert(denominator * (magnitude(0) + magnitude(1)) == denominator) by (nonlinear_arith)
        requires
            magnitude(0) == 0,
            magnitude(1) == 1,
    ;
    lemma_nearest_is(numerator, denominator, 0);
}

/// A quotient from infinity's magnitude up rounds to infinity.
pub proof fn lemma_nearest_infinite(numerator: nat, denominator: nat)
    requires
        denominator > 0,
        denominator * magnitude(INFINITY_BITS as nat) <= numerator,
    ensures
        nearest(numerator, denominator) == INFINITY_BITS,
{
    let top = INFINITY_BITS as nat;
    lemma_magnitude_step((top - 1) as nat);
    let before = magnitude((top - 1) as nat);
    let here = magnitude(top);
    assert(denominator * (before + here) < 2 * (denominator * here)) by (nonlinear_arith)
        requires
            before < here,
            denominator > 0,
    ;
    lemma_nearest_is(numerator, denominator, top);
}

/// `significand` steps of 2^`scale` units fall short of the quotient by less
/// than one step, and by nothing exactly if not `inexact`.
pub open spec fn brackets(
    numerator: nat,
    denominator: nat,
    significand: nat,
    scale: int,
    inexact: bool,
) -> bool {
    let whole = if scale < 0 { numerator * pow2((-scale) as nat) } else { numerator };
    let step = if scale < 0 { denominator } else { denominator * pow2(scale as nat) };
    &&& step * significand <= whole < step * (significand + 1)
    &&& inexact == (whole != step * significand)
}

/// A power of two as a shifted one.
pub proof fn lemma_one_shifted(shift: u32)
    requires
        shift < 128,
    ensures
        (1u128 << shift) == pow2(shift as nat),
        (1u128 << shift) >= 1,
    decreases shift,
{
    if shift == 0 {
        assert((1u128 << 0u32) == 1u128) by (bit_vector);
        vstd::arithmetic::power2::lemma2_to64();
    } else {
        let less: u32 = (shift - 1) as u32;
        lemma_one_shifted(less);
        assert((1u128 << shift) == 2 * (1u128 << less)) by (bit_vector)
            requires
                0 < shift < 128,
                less == shift - 1,
        ;
        lemma_pow2_unfold(shift as nat);
    }
}

/// 2 to the power of `shift`.
pub(crate) fn power_of_two(shift: u32) -> (power: u128)
    requires
        shift < 128,
    ensures
        power == pow2(shift as nat),
        power >= 1,
{
    proof {
        lemma_one_shifted(shift);
    }
    1u128 << shift
}

/// Some powers of two.
pub(crate) proof fn lemma_powers()
    ensures
        pow2(0) == 1,
        pow2(1) == 2,
        pow2(52) == 0x0010_0000_0000_0000,
        pow2(53) == 0x0020_0000_0000_0000,
        pow2(54) == 0x0040_0000_0000_0000,
        pow2(64) == 0x1_0000_0000_0000_0000,
        pow2(127) == 0x8000_0000_0000_0000_0000_0000_0000_0000,
{
    vstd::arithmetic::power2::lemma2_to64();
    vstd::arithmetic::power2::lemma2_to64_rest();
    lemma_pow2_adds(63, 64);
}

/// The number of bits that `value` needs.
fn bit_length(value: u128) -> (length: u32)
    requires
        value < pow2(127),
    ensures
        length <= 127,
        value < pow2(length as nat),
        length > 0 ==> value >= pow2((length - 1) as nat),
{
    let mut length: u32 = 0;
    let mut power: u128 = 1;
    proof {
        lemma_powers();
    }
    while length < 127 && power <= value
        invariant
            length <= 127,
            power == pow2(length as nat),
            length > 0 ==> value >= pow2((length - 1) as nat),
            length == 0 ==> power == 1,
            value < pow2(127),
            pow2(127) == 0x8000_0000_0000_0000_0000_0000_0000_0000,
        decreases 127 - length,
    {
        proof {
            lemma_pow2_unfold((length + 1) as nat);
            if length + 1 < 127 {
                vstd::arithmetic::power2::lemma_pow2_strictly_increases((length + 1) as nat, 127);
            }
        }
        power = power * 2;
        length = length + 1;
    }
    length
}

/// The parts of a finite magnitude: it is the first times 2 to the second.
pub(crate) fn parts(bits: u64) -> (result: (u64, u32))
    requires
        bits < INFINITY_BITS,
    ensures
        magnitude(bits as nat) == result.0 * pow2(result.1 as nat),
        result.0 < 0x0020_0000_0000_0000,
        result.1 <= 2045,
        result.1 == 0 || result.0 >= 0x0010_0000_0000_0000,
        result.0 == 0 <==> bits == 0,
        bits == result.1 * 0x0010_0000_0000_0000 + result.0,
{
    proof {
        lemma_powers();
    }
    let exponent: u64 = bits / EXPONENT_ONE;
    let fraction: u64 = bits % EXPONENT_ONE;
    if exponent == 0 {
        assert(fraction * pow2(0) == fraction) by (nonlinear_arith)
            requires
                pow2(0) == 1,
        ;
        (fraction, 0)
    } else {
        (EXPONENT_ONE + fraction, (exponent - 1) as u32)
    }
}

/// What dropping the low bits of a bracketing significand says of the quotient:
/// `kept` of the larger steps bracket it too, and `dropped` against half of a
/// larger step decides on which side of the middle it lies.
proof fn lemma_drop_bits(
    numerator: nat,
    denominator: nat,
    scaling: nat,
    step: nat,
    significand: nat,
    inexact: bool,
    kept: nat,
    dropped: nat,
    half: nat,
    unit: nat,
)
    requires
        scaling > 0,
        step > 0,
        denominator > 0,
        step * (2 * half) == denominator * unit * scaling,
        step * significand <= numerator * scaling < step * (significand + 1),
        inexact == (numerator * scaling != step * significand),
        significand == kept * (2 * half) + dropped,
        dropped < 2 * half,
    ensures
        denominator * (kept * unit) <= numerator < denominator * ((kept + 1) * unit),
        2 * numerator > denominator * ((2 * kept + 1) * unit) <==> dropped > half || (dropped
            == half && inexact),
        2 * numerator == denominator * ((2 * kept + 1) * unit) <==> dropped == half && !inexact,
{
    let whole = numerator * scaling;
    let low = denominator * (kept * unit);
    let middle = denominator * ((2 * kept + 1) * unit);
    let high = denominator * ((kept + 1) * unit);
    assert(low * scaling == step * (kept * (2 * half))) by (nonlinear_arith)
        requires
            low == denominator * (kept * unit),
            step * (2 * half) == denominator * unit * scaling,
    ;
    assert(high * scaling == step * ((kept + 1) * (2 * half))) by (nonlinear_arith)
        requires
            high == denominator * ((kept + 1) * unit),
            step * (2 * half) == denominator * unit * scaling,
    ;
    assert(middle * scaling == 2 * (step * (kept * (2 * half) + half))) by (nonlinear_arith)
        requires
            middle == denominator * ((2 * kept + 1) * unit),
            step * (2 * half) == denominator * unit * scaling,
    ;
    assert(step * (kept * (2 * half)) <= step * significand) by (nonlinear_arith)
        requires
            significand >= kept * (2 * half),
            step > 0,
    ;
    assert((kept + 1) * (2 * half) == kept * (2 * half) + 2 * half) by (nonlinear_arith);
    assert(step * (significand + 1) <= step * ((kept + 1) * (2 * half))) by (nonlinear_arith)
        requires
            significand + 1 <= (kept + 1) * (2 * half),
            step > 0,
    ;
    assert(low <= numerator) by (nonlinear_arith)
        requires
            low * scaling <= numerator * scaling,
            scaling > 0,
    ;
    assert(numerator < high) by (nonlinear_arith)
        requires
            numerator * scaling < high * scaling,
            scaling > 0,
    ;
    let boundary = kept * (2 * half) + half;
    let twice = 2 * numerator;
    assert(twice * scaling == 2 * whole) by (nonlinear_arith)
        requires
            twice == 2 * numerator,
            whole == numerator * scaling,
    ;
    if dropped > half {
        assert(step * (boundary + 1) <= step * significand) by (nonlinear_arith)
            requires
                boundary + 1 <= significand,
                step > 0,
        ;
        assert(step * (boundary + 1) > step * boundary) by (nonlinear_arith)
            requires
                step > 0,
        ;
        assert(twice > middle) by (nonlinear_arith)
            requires
                twice * scaling > middle * scaling,
                scaling > 0,
        ;
    } else if dropped < half {
        assert(step * (significand + 1) <= step * boundary) by (nonlinear_arith)
            requires
                significand + 1 <= boundary,
                step > 0,
        ;
        assert(twice < middle) by (nonlinear_arith)
            requires
                twice * scaling < middle * scaling,
                scaling > 0,
        ;
    } else if inexact {
        assert(twice > middle) by (nonlinear_arith)
            requires
                twice * scaling > middle * scaling,
                scaling > 0,
        ;
    } else {
        assert(twice == middle) by (nonlinear_arith)
            requires
                twice * scaling == middle * scaling,
                scaling > 0,
        ;
    }
}

/// The double nearest to a quotient that `significand` steps of 2^`scale` units
/// bracket.
pub(crate) fn round_scaled(
    significand: u128,
    scale: i32,
    inexact: bool,
    Ghost(numerator): Ghost<nat>,
    Ghost(denominator): Ghost<nat>,
) -> (bits: u64)
    requires
        denominator > 0,
        brackets(numerator, denominator, significand as nat, scale as int, inexact),
        significand < pow2(127),
        inexact ==> significand >= pow2(54),
        -5000 <= scale <= 5000,
    ensures
        bits == nearest(numerator, denominator),
        bits <= INFINITY_BITS,
{
    let length: u32 = bit_length(significand);
    let above: i32 = length as i32 + scale - 53;
    let shift: i32 = if above > 0 { above } else { 0 };
    let drop: i32 = shift - scale;
    let ghost scaling: nat = if scale < 0 { pow2((-scale) as nat) } else { 1 };
    let ghost step: nat = if scale < 0 { denominator } else { denominator * pow2(scale as nat) };
    proof {
        lemma_powers();
        if scale < 0 {
            lemma_pow2_pos((-scale) as nat);
        } else {
            lemma_pow2_pos(scale as nat);
            assert(step > 0) by (nonlinear_arith)
                requires
                    step == denominator * pow2(scale as nat),
                    denominator > 0,
                    pow2(scale as nat) > 0,
            ;
        }
        assert(numerator * 1 == numerator);
    }
    if significand == 0 {
        proof {
            assert(numerator == 0) by (nonlinear_arith)
                requires
                    numerator * scaling == step * 0,
                    scaling > 0,
            ;
            lemma_nearest_zero(numerator, denominator);
        }
        return 0;
    }
    if drop >= 128 {
        proof {
            assert(shift == 0) by {
                if shift > 0 {
                    assert(drop == length - 53);
                }
            }
            let power = pow2((-scale) as nat);
            lemma_pow2_adds(128, (-scale - 128) as nat);
            lemma_pow2_pos((-scale - 128) as nat);
            lemma_pow2_unfold(128);
            assert(power >= 2 * pow2(127)) by (nonlinear_arith)
                requires
                    power == pow2(128) * pow2((-scale - 128) as nat),
                    pow2(128) == 2 * pow2(127),
                    pow2((-scale - 128) as nat) >= 1,
            ;
            assert(2 * numerator < denominator) by (nonlinear_arith)
                requires
                    numerator * power < denominator * (significand + 1),
                    significand + 1 <= pow2(127),
                    power >= 2 * pow2(127),
                    pow2(127) > 0,
            ;
            lemma_nearest_zero(numerator, denominator);
        }
        return 0;
    }
    if shift >= 2046 {
        proof {
            lemma_overflow(
                numerator,
                denominator,
                significand as nat,
                scale as int,
                length as nat,
                scaling,
                step,
            );
            lemma_nearest_infinite(numerator, denominator);
        }
        return INFINITY_BITS;
    }
    if drop <= 0 {
        assert(scale >= 0);
        let factor: u128 = power_of_two((-drop) as u32);
        proof {
            lemma_pow2_adds(length as nat, (-drop) as nat);
            if length as int - drop < 53 {
                vstd::arithmetic::power2::lemma_pow2_strictly_increases(
                    (length - drop) as nat,
                    53,
                );
            }
            assert(significand * factor < 0x0020_0000_0000_0000) by (nonlinear_arith)
                requires
                    significand < pow2(length as nat),
                    factor == pow2((-drop) as nat),
                    pow2((length - drop) as nat) == pow2(length as nat) * pow2((-drop) as nat),
                    pow2((length - drop) as nat) <= 0x0020_0000_0000_0000,
                    factor >= 1,
            ;
            if shift > 0 {
                lemma_pow2_adds((length - 1) as nat, (-drop) as nat);
                assert(length - 1 - drop == 52);
                assert(significand * factor >= 0x0010_0000_0000_0000) by (nonlinear_arith)
                    requires
                        significand >= pow2((length - 1) as nat),
                        factor == pow2((-drop) as nat),
                        pow2((length - 1) as nat) * pow2((-drop) as nat) == 0x0010_0000_0000_0000,
                        factor >= 1,
                ;
            }
            lemma_pow2_adds(shift as nat, (-drop) as nat);
            if length < 54 {
                vstd::arithmetic::power2::lemma_pow2_strictly_increases(length as nat, 54);
            }
            assert(!inexact);
        }
        let kept: u128 = significand * factor;
        let bits: u64 = shift as u64 * EXPONENT_ONE + kept as u64;
        proof {
            lemma_magnitude_of(shift as nat, kept as nat);
            lemma_magnitude_step(bits as nat);
            assert(numerator == denominator * magnitude(bits as nat)) by (nonlinear_arith)
                requires
                    numerator == denominator * pow2(scale as nat) * significand,
                    pow2(scale as nat) == pow2(shift as nat) * pow2((-drop) as nat),
                    kept == significand * pow2((-drop) as nat),
                    magnitude(bits as nat) == kept * pow2(shift as nat),
            ;
            let here = magnitude(bits as nat);
            let next = magnitude((bits + 1) as nat);
            assert(2 * (denominator * here) < denominator * (here + next)) by (nonlinear_arith)
                requires
                    here < next,
                    denominator > 0,
            ;
            assert(denominator * here < denominator * next) by (nonlinear_arith)
                requires
                    here < next,
                    denominator > 0,
            ;
            lemma_nearest_between(numerator, denominator, bits as nat);
        }
        return bits;
    }
    let full: u128 = power_of_two(drop as u32);
    let half: u128 = power_of_two((drop - 1) as u32);
    proof {
        lemma_pow2_unfold(drop as nat);
    }
    let kept: u128 = significand / full;
    let dropped: u128 = significand % full;
    proof {
        assert(significand == kept * full + dropped) by (nonlinear_arith)
            requires
                kept == significand / full,
                dropped == significand % full,
                full > 0,
        ;
        lemma_pow2_adds(drop as nat, 53);
        if length < drop + 53 {
            vstd::arithmetic::power2::lemma_pow2_strictly_increases(
                length as nat,
                (drop + 53) as nat,
            );
        }
        assert(kept < 0x0020_0000_0000_0000) by (nonlinear_arith)
            requires
                significand == kept * full + dropped,
                significand < full * 0x0020_0000_0000_0000,
                full > 0,
        ;
        if shift > 0 {
            lemma_pow2_adds(drop as nat, 52);
            assert(length - 1 == drop + 52);
            assert(kept >= 0x0010_0000_0000_0000) by (nonlinear_arith)
                requires
                    significand == kept * full + dropped,
                    significand >= full * 0x0010_0000_0000_0000,
                    dropped < full,
                    full > 0,
            ;
        }
        let unit = pow2(shift as nat);
        if scale >= 0 {
            lemma_pow2_adds(scale as nat, drop as nat);
            assert(step * full == denominator * unit * scaling) by (nonlinear_arith)
                requires
                    step == denominator * pow2(scale as nat),
                    full == pow2(drop as nat),
                    unit == pow2(scale as nat) * pow2(drop as nat),
                    scaling == 1,
            ;
        } else {
            lemma_pow2_adds(shift as nat, (-scale) as nat);
            assert(step * full == denominator * unit * scaling) by (nonlinear_arith)
                requires
                    step == denominator,
                    full == unit * scaling,
            ;
        }
        lemma_drop_bits(
            numerator,
            denominator,
            scaling,
            step,
            significand as nat,
            inexact,
            kept as nat,
            dropped as nat,
            half as nat,
            unit,
        );
    }
    let floor: u64 = shift as u64 * EXPONENT_ONE + kept as u64;
    let up: bool = dropped > half || (dropped == half && (inexact || kept % 2 == 1));
    proof {
        let unit = pow2(shift as nat);
        lemma_magnitude_of(shift as nat, kept as nat);
        lemma_magnitude_of(shift as nat, (kept + 1) as nat);
        assert(floor % 2 == kept % 2);
        assert(magnitude(floor as nat) + magnitude((floor + 1) as nat) == (2 * kept + 1) * unit)
            by (nonlinear_arith)
            requires
                magnitude(floor as nat) == kept * unit,
                magnitude((floor + 1) as nat) == (kept + 1) * unit,
        ;
        lemma_nearest_between(numerator, denominator, floor as nat);
    }
    if up {
        floor + 1
    } else {
        floor
    }
}

/// A significand whose leading bit stands at or above infinity's magnitude.
proof fn lemma_overflow(
    numerator: nat,
    denominator: nat,
    significand: nat,
    scale: int,
    length: nat,
    scaling: nat,
    step: nat,
)
    requires
        scaling == if scale < 0 { pow2((-scale) as nat) } else { 1 },
        step == if scale < 0 { denominator } else { denominator * pow2(scale as nat) },
        step * significand <= numerator * scaling,
        0 < length <= 127,
        significand >= pow2((length - 1) as nat),
        length + scale >= 2099,
    ensures
        denominator * magnitude(INFINITY_BITS as nat) <= numerator,
{
    lemma_powers();
    lemma_magnitude_of(2046, 0x0010_0000_0000_0000);
    assert(2046 * 0x0010_0000_0000_0000 + 0x0010_0000_0000_0000 == INFINITY_BITS);
    assert(scale >= 0);
    lemma_pow2_adds(52, 2046);
    lemma_pow2_adds((length - 1) as nat, scale as nat);
    if length - 1 + scale > 2098 {
        vstd::arithmetic::power2::lemma_pow2_strictly_increases(
            2098,
            (length - 1 + scale) as nat,
        );
    }
    assert(denominator * magnitude(INFINITY_BITS as nat) <= numerator) by (nonlinear_arith)
        requires
            denominator * pow2(scale as nat) * significand <= numerator,
            significand >= pow2((length - 1) as nat),
            magnitude(INFINITY_BITS as nat) <= pow2((length - 1) as nat) * pow2(scale as nat),
    ;
}

} // verus!
