//! The double as a value: classification, order and rounded operations.

use vstd::arithmetic::power2::{lemma_pow2_adds, lemma_pow2_pos, lemma_pow2_unfold, pow2};
use vstd::prelude::*;

use crate::float::round::{
    brackets, lemma_magnitude_increases, lemma_powers, magnitude, nearest, parts, power_of_two,
    round_scaled, rounding_keeps_sides, INFINITY_BITS, SIGN_BIT,
};

verus! {

/// The bits of the quiet not-a-number that invalid operations give.
pub const NAN_BITS: u64 = 0x7ff8_0000_0000_0000;

/// A double-precision number, held by its IEEE 754 bits.
#[derive(Clone, Copy, Debug, PartialEq, Eq, Structural)]
pub struct Binary64 {
    /// Sign bit, exponent and fraction, as in the interchange format.
    pub bits: u64,
}

/// The double with the given sign and magnitude bits.
pub open spec fn with_sign(negative: bool, magnitude_bits: nat) -> Binary64 {
    Binary64 {
        bits: if negative {
            (SIGN_BIT + magnitude_bits) as u64
        } else {
            magnitude_bits as u64
        },
    }
}

/// The double nearest to `value` units; a zero value is negative zero exactly if
/// `negative_zero`.
pub open spec fn rounded(value: int, negative_zero: bool) -> Binary64 {
    if value == 0 {
        with_sign(negative_zero, 0)
    } else if value < 0 {
        with_sign(true, nearest((-value) as nat, 1))
    } else {
        with_sign(false, nearest(value as nat, 1))
    }
}

/// The not-a-number of invalid operations.
pub open spec fn not_a_number() -> Binary64 {
    Binary64 { bits: NAN_BITS }
}

/// The number of units of 2^-1074 in one.
pub open spec fn one_in_units() -> nat {
    pow2(1074)
}

impl Binary64 {
    /// The sign bit is set.
    pub open spec fn negative(self) -> bool {
        self.bits >= SIGN_BIT
    }

    /// The bits without the sign bit.
    pub open spec fn magnitude_bits(self) -> nat {
        if self.bits >= SIGN_BIT {
            (self.bits - SIGN_BIT) as nat
        } else {
            self.bits as nat
        }
    }

    /// Not a number.
    pub open spec fn nan(self) -> bool {
        self.magnitude_bits() > INFINITY_BITS
    }

    /// Positive or negative infinity.
    pub open spec fn infinite(self) -> bool {
        self.magnitude_bits() == INFINITY_BITS
    }

    /// Zero, subnormal or normal.
    pub open spec fn finite(self) -> bool {
        self.magnitude_bits() < INFINITY_BITS
    }

    /// The magnitude in units of 2^-1074.
    pub open spec fn size(self) -> nat {
        magnitude(self.magnitude_bits())
    }

    /// The value in units of 2^-1074; an infinity stands beyond all finite values.
    pub open spec fn units(self) -> int {
        if self.negative() {
            -(self.size() as int)
        } else {
            self.size() as int
        }
    }

    /// `self < other`.
    pub open spec fn below(self, other: Binary64) -> bool {
        !self.nan() && !other.nan() && self.units() < other.units()
    }

    /// `self <= other`.
    pub open spec fn at_most(self, other: Binary64) -> bool {
        !self.nan() && !other.nan() && self.units() <= other.units()
    }

    /// `self == other` as numbers: both zeros are equal, no number equals NaN.
    pub open spec fn equals(self, other: Binary64) -> bool {
        !self.nan() && !other.nan() && self.units() == other.units()
    }

    /// A finite number above zero.
    pub open spec fn positive_finite(self) -> bool {
        0 < self.bits < INFINITY_BITS
    }

    /// The position of the double in the total order of IEEE 754: the negative
    /// numbers from the largest magnitude down, negative zero, zero, the rest.
    pub open spec fn total_position(self) -> int {
        if self.negative() {
            -(self.magnitude_bits() as int) - 1
        } else {
            self.magnitude_bits() as int
        }
    }

    /// The number with the other sign.
    pub open spec fn negated_spec(self) -> Binary64 {
        with_sign(!self.negative(), self.magnitude_bits())
    }

    /// The number without its sign.
    pub open spec fn absolute_spec(self) -> Binary64 {
        with_sign(false, self.magnitude_bits())
    }

    /// The rounded sum.
    pub open spec fn plus_spec(self, other: Binary64) -> Binary64 {
        if self.nan() || other.nan() {
            not_a_number()
        } else if self.infinite() && other.infinite() && self.negative() != other.negative() {
            not_a_number()
        } else if self.infinite() {
            self
        } else if other.infinite() {
            other
        } else {
            rounded(self.units() + other.units(), self.negative() && other.negative())
        }
    }

    /// The rounded difference.
    pub open spec fn minus_spec(self, other: Binary64) -> Binary64 {
        self.plus_spec(other.negated_spec())
    }

    /// The rounded product.
    pub open spec fn times_spec(self, other: Binary64) -> Binary64 {
        let negative = self.negative() != other.negative();
        if self.nan() || other.nan() {
            not_a_number()
        } else if self.infinite() || other.infinite() {
            if self.size() == 0 || other.size() == 0 {
                not_a_number()
            } else {
                with_sign(negative, INFINITY_BITS as nat)
            }
        } else {
            with_sign(negative, nearest(self.size() * other.size(), one_in_units()))
        }
    }

    /// The rounded quotient.
    pub open spec fn over_spec(self, other: Binary64) -> Binary64 {
        let negative = self.negative() != other.negative();
        if self.nan() || other.nan() {
            not_a_number()
        } else if self.infinite() {
            if other.infinite() {
                not_a_number()
            } else {
                with_sign(negative, INFINITY_BITS as nat)
            }
        } else if other.infinite() {
            with_sign(negative, 0)
        } else if other.size() == 0 {
            if self.size() == 0 {
                not_a_number()
            } else {
                with_sign(negative, INFINITY_BITS as nat)
            }
        } else {
            with_sign(negative, nearest(self.size() * one_in_units(), other.size()))
        }
    }

    /// The double nearest to the middle between two non-negative finite numbers.
    pub open spec fn midpoint_spec(self, other: Binary64) -> Binary64 {
        with_sign(false, nearest(self.size() + other.size(), 2))
    }

    /// The double nearest to a whole number.
    pub open spec fn whole_spec(value: nat) -> Binary64 {
        with_sign(false, nearest(value * one_in_units(), 1))
    }

    /// The bits without the sign bit.
    fn unsigned_bits(self) -> (bits: u64)
        ensures
            bits == self.magnitude_bits(),
            bits < SIGN_BIT,
    {
        if self.bits >= SIGN_BIT {
            self.bits - SIGN_BIT
        } else {
            self.bits
        }
    }

    /// Whether the number is neither infinite nor NaN.
    pub fn is_finite(self) -> (result: bool)
        ensures
            result == self.finite(),
    {
        self.unsigned_bits() < INFINITY_BITS
    }

    /// Whether the number is finite and above zero.
    pub fn is_positive_finite(self) -> (result: bool)
        ensures
            result == self.positive_finite(),
    {
        0 < self.bits && self.bits < INFINITY_BITS
    }

    /// A position that orders numbers as their values do.
    fn position(self) -> (position: i64)
        ensures
            position == if self.negative() {
                -(self.magnitude_bits() as int)
            } else {
                self.magnitude_bits() as int
            },
    {
        let size: u64 = self.unsigned_bits();
        if self.bits >= SIGN_BIT {
            -(size as i64)
        } else {
            size as i64
        }
    }

    /// `self < other`.
    pub fn is_below(self, other: Binary64) -> (result: bool)
        ensures
            result == self.below(other),
    {
        proof {
            lemma_position_orders(self, other);
        }
        self.unsigned_bits() <= INFINITY_BITS && other.unsigned_bits() <= INFINITY_BITS
            && self.position() < other.position()
    }

    /// `self <= other`.
    pub fn is_at_most(self, other: Binary64) -> (result: bool)
        ensures
            result == self.at_most(other),
    {
        proof {
            lemma_position_orders(self, other);
        }
        self.unsigned_bits() <= INFINITY_BITS && other.unsigned_bits() <= INFINITY_BITS
            && self.position() <= other.position()
    }

    /// `self == other` as numbers.
    pub fn is_equal(self, other: Binary64) -> (result: bool)
        ensures
            result == self.equals(other),
    {
        proof {
            lemma_position_orders(self, other);
        }
        self.unsigned_bits() <= INFINITY_BITS && other.unsigned_bits() <= INFINITY_BITS
            && self.position() == other.position()
    }

    /// The number's place in the total order.
    pub fn total_order(self) -> (position: i64)
        ensures
            position == self.total_position(),
    {
        let size: u64 = self.unsigned_bits();
        if self.bits >= SIGN_BIT {
            -(size as i64) - 1
        } else {
            size as i64
        }
    }

    /// The number with the other sign.
    pub fn negated(self) -> (result: Binary64)
        ensures
            result == self.negated_spec(),
    {
        if self.bits >= SIGN_BIT {
            Binary64 { bits: self.bits - SIGN_BIT }
        } else {
            Binary64 { bits: self.bits + SIGN_BIT }
        }
    }

    /// The number without its sign.
    pub fn absolute(self) -> (result: Binary64)
        ensures
            result == self.absolute_spec(),
    {
        Binary64 { bits: self.unsigned_bits() }
    }
}

/// The order of signed bits is the order of values.
pub proof fn lemma_position_orders(left: Binary64, right: Binary64)
    ensures
        ({
            let low = if left.negative() {
                -(left.magnitude_bits() as int)
            } else {
                left.magnitude_bits() as int
            };
            let high = if right.negative() {
                -(right.magnitude_bits() as int)
            } else {
                right.magnitude_bits() as int
            };
            &&& low < high <==> left.units() < right.units()
            &&& low == high <==> left.units() == right.units()
        }),
{
    let low = left.magnitude_bits();
    let high = right.magnitude_bits();
    assert(magnitude(0) == 0);
    lemma_magnitude_increases(0, low);
    lemma_magnitude_increases(0, high);
    if low <= high {
        lemma_magnitude_increases(low, high);
    } else {
        lemma_magnitude_increases(high, low);
    }
}

/// An exact alignment: the combined significand in steps of 2^(`shift` - 64) is
/// the combined magnitude.
proof fn lemma_aligned_exactly(combined: nat, significand: nat, shift: nat, halving: nat)
    requires
        combined * pow2(64) == significand * pow2(shift),
        halving <= 1,
    ensures
        brackets(combined, pow2(halving), significand, shift - 64 - halving, false),
{
    lemma_powers();
    let scale = shift - 64 - halving;
    let denominator = pow2(halving);
    lemma_pow2_pos(halving);
    if shift <= 64 {
        let up = pow2((64 - shift) as nat);
        lemma_pow2_adds((64 - shift) as nat, shift);
        lemma_pow2_pos(shift);
        assert(combined * up == significand) by (nonlinear_arith)
            requires
                combined * pow2(64) == significand * pow2(shift),
                pow2(64) == up * pow2(shift),
                pow2(shift) > 0,
        ;
        if scale < 0 {
            lemma_pow2_adds((64 - shift) as nat, halving);
            assert(combined * pow2((-scale) as nat) == denominator * significand)
                by (nonlinear_arith)
                requires
                    pow2((-scale) as nat) == up * denominator,
                    combined * up == significand,
            ;
            assert(denominator * significand < denominator * (significand + 1))
                by (nonlinear_arith)
                requires
                    denominator > 0,
            ;
        } else {
            assert(halving == 0 && shift == 64);
            assert(combined * 1 == combined);
            assert(1 * pow2(0) == 1);
            assert(denominator * pow2(scale as nat) == 1);
        }
    } else {
        let down = pow2((shift - 64) as nat);
        lemma_pow2_adds(64, (shift - 64) as nat);
        lemma_pow2_pos((shift - 64) as nat);
        assert(combined == significand * down) by (nonlinear_arith)
            requires
                combined * pow2(64) == significand * pow2(shift),
                pow2(shift) == pow2(64) * down,
                pow2(64) > 0,
        ;
        assert(scale >= 0);
        lemma_pow2_adds(halving, scale as nat);
        assert(denominator * pow2(scale as nat) == down);
        assert(down * significand == combined && down * significand < down * (significand + 1))
            by (nonlinear_arith)
            requires
                combined == significand * down,
                down > 0,
        ;
    }
}

/// The sum or the difference of two magnitudes.
pub open spec fn combined(high: nat, low: nat, subtract: bool) -> nat {
    if subtract {
        (high - low) as nat
    } else {
        high + low
    }
}

/// The smaller significand reaches into the step of the larger one: the exact
/// combination, in steps of 2^(`shift` - 64).
fn combine_near(
    large: u64,
    shift: u32,
    small: u64,
    small_shift: u32,
    subtract: bool,
) -> (significand: u128)
    requires
        large < 0x0020_0000_0000_0000,
        small < 0x0020_0000_0000_0000,
        small_shift <= shift <= small_shift + 64,
        small * pow2(small_shift as nat) <= large * pow2(shift as nat),
    ensures
        significand < pow2(127),
        combined(
            large as nat * pow2(shift as nat),
            small as nat * pow2(small_shift as nat),
            subtract,
        ) * pow2(64)
            == significand * pow2(shift as nat),
{
    let gap: u32 = shift - small_shift;
    let top: u128 = large as u128 * 0x1_0000_0000_0000_0000u128;
    let factor: u128 = power_of_two(64 - gap);
    let ghost high = large * pow2(shift as nat);
    let ghost low = small * pow2(small_shift as nat);
    proof {
        lemma_powers();
        if gap > 0 {
            vstd::arithmetic::power2::lemma_pow2_strictly_increases((64 - gap) as nat, 64);
        }
        assert(small * factor <= 0x0020_0000_0000_0000 * 0x1_0000_0000_0000_0000)
            by (nonlinear_arith)
            requires
                small < 0x0020_0000_0000_0000,
                factor <= 0x1_0000_0000_0000_0000,
        ;
    }
    let part: u128 = small as u128 * factor;
    let ghost step = pow2(shift as nat);
    proof {
        lemma_pow2_adds(small_shift as nat, 64);
        lemma_pow2_adds((64 - gap) as nat, shift as nat);
        assert(high * pow2(64) == top * step) by (nonlinear_arith)
            requires
                high == large * step,
                top == large * pow2(64),
        ;
        assert(low * pow2(64) == part * step) by (nonlinear_arith)
            requires
                low == small * pow2(small_shift as nat),
                part == small * pow2((64 - gap) as nat),
                pow2(small_shift as nat) * pow2(64) == pow2((64 - gap) as nat) * step,
        ;
        lemma_pow2_pos(shift as nat);
        assert(part <= top) by (nonlinear_arith)
            requires
                low * pow2(64) == part * step,
                high * pow2(64) == top * step,
                low <= high,
                step > 0,
        ;
    }
    if subtract {
        assert((high - low) * pow2(64) == (top - part) * step) by (nonlinear_arith)
            requires
                low * pow2(64) == part * step,
                high * pow2(64) == top * step,
        ;
        top - part
    } else {
        assert((high + low) * pow2(64) == (top + part) * step) by (nonlinear_arith)
            requires
                low * pow2(64) == part * step,
                high * pow2(64) == top * step,
        ;
        top + part
    }
}

/// The smaller significand lies below the step of the larger one: the steps of
/// 2^(`shift` - 64) that bracket the combination, and whether they fall short.
fn combine_far(
    large: u64,
    shift: u32,
    small: u64,
    small_shift: u32,
    subtract: bool,
) -> (result: (u128, bool))
    requires
        0x0010_0000_0000_0000 <= large < 0x0020_0000_0000_0000,
        small < 0x0020_0000_0000_0000,
        small_shift + 64 < shift,
    ensures
        pow2(54) <= result.0 < pow2(127),
        ({
            let value = combined(
                large as nat * pow2(shift as nat),
                small as nat * pow2(small_shift as nat),
                subtract,
            );
            let step = pow2((shift - 64) as nat);
            &&& step * result.0 <= value < step * (result.0 + 1)
            &&& result.1 == (value != step * result.0)
        }),
{
    let excess: u32 = shift - small_shift - 64;
    let top: u128 = large as u128 * 0x1_0000_0000_0000_0000u128;
    let (part, lost): (u128, bool) = if excess < 128 {
        let divisor: u128 = power_of_two(excess);
        (small as u128 / divisor, small as u128 % divisor != 0)
    } else {
        (0, small != 0)
    };
    let ghost step = pow2((shift - 64) as nat);
    let ghost divisor = pow2(excess as nat);
    let ghost fine = pow2(small_shift as nat);
    let ghost left = small as nat % divisor;
    let ghost high = large * pow2(shift as nat);
    let ghost low = small * fine;
    proof {
        lemma_powers();
        lemma_pow2_pos(excess as nat);
        lemma_pow2_pos(small_shift as nat);
        lemma_pow2_pos((shift - 64) as nat);
        if excess >= 128 {
            vstd::arithmetic::power2::lemma_pow2_strictly_increases(127, excess as nat);
            vstd::arithmetic::div_mod::lemma_basic_div(small as int, divisor as int);
            vstd::arithmetic::div_mod::lemma_small_mod(small as nat, divisor);
        }
        lemma_pow2_adds(small_shift as nat, excess as nat);
        assert(step == fine * divisor);
        vstd::arithmetic::div_mod::lemma_fundamental_div_mod(small as int, divisor as int);
        vstd::arithmetic::div_mod::lemma_mod_bound(small as int, divisor as int);
        assert(low == step * part + left * fine) by (nonlinear_arith)
            requires
                low == small * fine,
                small == divisor * part + left,
                step == fine * divisor,
        ;
        assert(left * fine < step) by (nonlinear_arith)
            requires
                left < divisor,
                step == fine * divisor,
                fine > 0,
        ;
        assert(left * fine == 0 <==> left == 0) by (nonlinear_arith)
            requires
                fine > 0,
        ;
        lemma_pow2_adds(64, (shift - 64) as nat);
        assert(high == step * top) by (nonlinear_arith)
            requires
                high == large * pow2(shift as nat),
                pow2(shift as nat) == pow2(64) * step,
                top == large * pow2(64),
        ;
        assert(part <= small) by (nonlinear_arith)
            requires
                small == divisor * part + left,
                divisor >= 1,
                part >= 0,
                left >= 0,
        ;
    }
    if !subtract {
        assert(step * (top + part) == step * top + step * part) by (nonlinear_arith);
        assert(step * (top + part + 1) == step * (top + part) + step) by (nonlinear_arith);
        (top + part, lost)
    } else if lost {
        assert(step * (top - part - 1) == step * top - step * part - step) by (nonlinear_arith);
        assert(step * (top - part) == step * top - step * part) by (nonlinear_arith);
        (top - part - 1, lost)
    } else {
        assert(step * (top - part) == step * top - step * part) by (nonlinear_arith);
        assert(step * (top - part + 1) == step * (top - part) + step) by (nonlinear_arith);
        (top - part, lost)
    }
}

/// The nearest double to the sum or the difference of two finite magnitudes, or
/// to half of it.
fn combine(high: u64, low: u64, subtract: bool, halve: bool) -> (bits: u64)
    requires
        low <= high < INFINITY_BITS,
    ensures
        bits == nearest(
            combined(magnitude(high as nat), magnitude(low as nat), subtract),
            if halve {
                2
            } else {
                1
            },
        ),
        bits <= INFINITY_BITS,
{
    let (large, shift) = parts(high);
    let (small, small_shift) = parts(low);
    let halvings: i32 = if halve { 1 } else { 0 };
    let scale: i32 = shift as i32 - 64 - halvings;
    let ghost halving = halvings as nat;
    let ghost value = combined(magnitude(high as nat), magnitude(low as nat), subtract);
    proof {
        lemma_powers();
        lemma_magnitude_increases(low as nat, high as nat);
        assert(small_shift <= shift);
    }
    if shift - small_shift <= 64 {
        let significand: u128 = combine_near(large, shift, small, small_shift, subtract);
        proof {
            lemma_aligned_exactly(value, significand as nat, shift as nat, halving);
        }
        round_scaled(significand, scale, false, Ghost(value), Ghost(pow2(halving)))
    } else {
        let (significand, lost) = combine_far(large, shift, small, small_shift, subtract);
        proof {
            lemma_pow2_adds(halving, scale as nat);
        }
        round_scaled(significand, scale, lost, Ghost(value), Ghost(pow2(halving)))
    }
}

impl Binary64 {
    /// The double with the given sign and magnitude bits.
    fn signed(negative: bool, bits: u64) -> (result: Binary64)
        requires
            bits <= INFINITY_BITS,
        ensures
            result == with_sign(negative, bits as nat),
    {
        if negative {
            Binary64 { bits: SIGN_BIT + bits }
        } else {
            Binary64 { bits }
        }
    }

    /// The rounded sum.
    pub fn plus(self, other: Binary64) -> (result: Binary64)
        ensures
            result == self.plus_spec(other),
    {
        let left: u64 = self.unsigned_bits();
        let right: u64 = other.unsigned_bits();
        let left_negative: bool = self.bits >= SIGN_BIT;
        let right_negative: bool = other.bits >= SIGN_BIT;
        if left > INFINITY_BITS || right > INFINITY_BITS {
            return Binary64 { bits: NAN_BITS };
        }
        if left == INFINITY_BITS {
            return if right == INFINITY_BITS && left_negative != right_negative {
                Binary64 { bits: NAN_BITS }
            } else {
                self
            };
        }
        if right == INFINITY_BITS {
            return other;
        }
        proof {
            assert(magnitude(0) == 0);
            lemma_magnitude_increases(0, left as nat);
            lemma_magnitude_increases(0, right as nat);
            if left <= right {
                lemma_magnitude_increases(left as nat, right as nat);
            } else {
                lemma_magnitude_increases(right as nat, left as nat);
            }
        }
        if left_negative == right_negative {
            let bits: u64 = if left >= right {
                combine(left, right, false, false)
            } else {
                combine(right, left, false, false)
            };
            if left == 0 && right == 0 {
                proof {
                    crate::float::round::lemma_nearest_zero(0, 1);
                }
            }
            Binary64::signed(left_negative, bits)
        } else if left == right {
            Binary64 { bits: 0 }
        } else if left > right {
            Binary64::signed(left_negative, combine(left, right, true, false))
        } else {
            Binary64::signed(right_negative, combine(right, left, true, false))
        }
    }

    /// The rounded difference.
    pub fn minus(self, other: Binary64) -> (result: Binary64)
        ensures
            result == self.minus_spec(other),
    {
        self.plus(other.negated())
    }

    /// The double nearest to the middle between two numbers.
    pub fn midpoint(self, other: Binary64) -> (result: Binary64)
        requires
            self.bits < INFINITY_BITS,
            other.bits < INFINITY_BITS,
        ensures
            result == self.midpoint_spec(other),
    {
        if self.bits >= other.bits {
            Binary64 { bits: combine(self.bits, other.bits, false, true) }
        } else {
            Binary64 { bits: combine(other.bits, self.bits, false, true) }
        }
    }

    /// The double nearest to a whole number.
    pub fn from_u64(value: u64) -> (result: Binary64)
        ensures
            result == Binary64::whole_spec(value as nat),
    {
        let ghost numerator: nat = value as nat * one_in_units();
        proof {
            lemma_powers();
            lemma_pow2_pos(1074);
            assert(1 * pow2(1074) == pow2(1074));
            assert(pow2(1074) * value == numerator) by (nonlinear_arith)
                requires
                    numerator == value as nat * pow2(1074),
            ;
            assert(pow2(1074) * value < pow2(1074) * (value + 1)) by (nonlinear_arith)
                requires
                    pow2(1074) > 0,
            ;
        }
        Binary64 { bits: round_scaled(value as u128, 1074, false, Ghost(numerator), Ghost(1)) }
    }
}

/// A division of scaled significands brackets the quotient of the magnitudes.
proof fn lemma_quotient(
    whole: nat,
    step: nat,
    dividend: nat,
    divisor: nat,
    quotient: nat,
    left: nat,
    common: nat,
    factor: nat,
)
    requires
        common > 0,
        factor > 0,
        whole * common == dividend * factor,
        step * common == divisor * factor,
        dividend == divisor * quotient + left,
        left < divisor,
    ensures
        step * quotient <= whole < step * (quotient + 1),
        whole == step * quotient <==> left == 0,
{
    assert((step * quotient) * common == (divisor * quotient) * factor) by (nonlinear_arith)
        requires
            step * common == divisor * factor,
    ;
    assert(whole * common == (step * quotient) * common + left * factor) by (nonlinear_arith)
        requires
            whole * common == dividend * factor,
            (step * quotient) * common == (divisor * quotient) * factor,
            dividend == divisor * quotient + left,
    ;
    assert(step * quotient <= whole) by (nonlinear_arith)
        requires
            whole * common == (step * quotient) * common + left * factor,
            common > 0,
            left >= 0,
            factor >= 0,
    ;
    assert(whole < step * quotient + step) by (nonlinear_arith)
        requires
            whole * common == (step * quotient) * common + left * factor,
            step * common == divisor * factor,
            left < divisor,
            factor > 0,
            common > 0,
    ;
    assert(step * (quotient + 1) == step * quotient + step) by (nonlinear_arith);
    assert(whole == step * quotient <==> left == 0) by (nonlinear_arith)
        requires
            whole * common == (step * quotient) * common + left * factor,
            factor > 0,
            common > 0,
    ;
}

/// The nearest double to the product of two finite magnitudes.
fn product(left: u64, right: u64) -> (bits: u64)
    requires
        left < INFINITY_BITS,
        right < INFINITY_BITS,
    ensures
        bits == nearest(magnitude(left as nat) * magnitude(right as nat), one_in_units()),
        bits <= INFINITY_BITS,
{
    let (first, first_shift) = parts(left);
    let (second, second_shift) = parts(right);
    proof {
        lemma_powers();
        lemma_pow2_adds(53, 53);
        vstd::arithmetic::power2::lemma_pow2_strictly_increases(106, 127);
        assert(first * second <= 0x0020_0000_0000_0000 * 0x0020_0000_0000_0000)
            by (nonlinear_arith)
            requires
                first < 0x0020_0000_0000_0000,
                second < 0x0020_0000_0000_0000,
        ;
    }
    let significand: u128 = first as u128 * second as u128;
    let scale: i32 = first_shift as i32 + second_shift as i32 - 1074;
    let ghost numerator = magnitude(left as nat) * magnitude(right as nat);
    let ghost denominator = one_in_units();
    let ghost step = pow2((first_shift + second_shift) as nat);
    proof {
        lemma_pow2_pos(1074);
        lemma_pow2_adds(first_shift as nat, second_shift as nat);
        lemma_pow2_pos((first_shift + second_shift) as nat);
        assert(numerator == significand * step) by (nonlinear_arith)
            requires
                numerator == (first * pow2(first_shift as nat)) * (second * pow2(
                    second_shift as nat,
                )),
                significand == first * second,
                step == pow2(first_shift as nat) * pow2(second_shift as nat),
        ;
        if scale < 0 {
            lemma_pow2_adds((first_shift + second_shift) as nat, (-scale) as nat);
            assert(numerator * pow2((-scale) as nat) == denominator * significand)
                by (nonlinear_arith)
                requires
                    numerator == significand * step,
                    denominator == step * pow2((-scale) as nat),
            ;
            assert(denominator * significand < denominator * (significand + 1))
                by (nonlinear_arith)
                requires
                    denominator > 0,
            ;
        } else {
            lemma_pow2_adds(1074, scale as nat);
            assert(step * significand == numerator && step * significand < step * (significand
                + 1)) by (nonlinear_arith)
                requires
                    numerator == significand * step,
                    step > 0,
            ;
        }
    }
    round_scaled(significand, scale, false, Ghost(numerator), Ghost(denominator))
}

/// A positive significand moved up to 53 bits, and by how far.
pub(crate) fn normalized(significand: u64) -> (result: (u64, u32))
    requires
        0 < significand < 0x0020_0000_0000_0000,
    ensures
        0x0010_0000_0000_0000 <= result.0 < 0x0020_0000_0000_0000,
        result.1 <= 52,
        result.0 == significand * pow2(result.1 as nat),
{
    let mut moved: u64 = significand;
    let mut places: u32 = 0;
    proof {
        lemma_powers();
    }
    while moved < 0x0010_0000_0000_0000
        invariant
            0 < significand,
            0 < moved < 0x0020_0000_0000_0000,
            places <= 52,
            moved == significand * pow2(places as nat),
            pow2(52) == 0x0010_0000_0000_0000,
        decreases 0x0020_0000_0000_0000 - moved,
    {
        proof {
            lemma_pow2_unfold((places + 1) as nat);
            assert(2 * (significand * pow2(places as nat)) == significand * (2 * pow2(
                places as nat,
            ))) by (nonlinear_arith);
            if places == 52 {
                assert(significand * pow2(52) >= pow2(52)) by (nonlinear_arith)
                    requires
                        significand > 0,
                ;
            }
        }
        moved = moved * 2;
        places = places + 1;
    }
    (moved, places)
}

/// The nearest double to the quotient of two finite, positive magnitudes.
fn quotient(left: u64, right: u64) -> (bits: u64)
    requires
        0 < left < INFINITY_BITS,
        0 < right < INFINITY_BITS,
    ensures
        bits == nearest(magnitude(left as nat) * one_in_units(), magnitude(right as nat)),
        bits <= INFINITY_BITS,
{
    let (first, first_shift) = parts(left);
    let (second, second_shift) = parts(right);
    let (moved, places) = normalized(first);
    let dividend: u128 = moved as u128 * 0x1_0000_0000_0000_0000u128;
    let significand: u128 = dividend / second as u128;
    let left_over: u128 = dividend % second as u128;
    let scale: i32 = first_shift as i32 - places as i32 - second_shift as i32 + 1010;
    let ghost numerator = magnitude(left as nat) * one_in_units();
    let ghost denominator = magnitude(right as nat);
    proof {
        lemma_powers();
        vstd::arithmetic::div_mod::lemma_fundamental_div_mod(dividend as int, second as int);
        vstd::arithmetic::div_mod::lemma_mod_bound(dividend as int, second as int);
        lemma_pow2_pos(second_shift as nat);
        assert(denominator > 0) by (nonlinear_arith)
            requires
                denominator == second * pow2(second_shift as nat),
                second > 0,
                pow2(second_shift as nat) > 0,
        ;
        assert(significand <= dividend) by (nonlinear_arith)
            requires
                dividend == second * significand + left_over,
                second >= 1,
                left_over >= 0,
        ;
        assert(significand >= 0x0040_0000_0000_0000) by (nonlinear_arith)
            requires
                dividend == second * significand + left_over,
                left_over < second,
                second < 0x0020_0000_0000_0000,
                dividend >= 0x0010_0000_0000_0000 * 0x1_0000_0000_0000_0000,
        ;
        let common = pow2(places as nat);
        lemma_pow2_pos(places as nat);
        let base = pow2((first_shift + 1010) as nat);
        lemma_pow2_pos((first_shift + 1010) as nat);
        lemma_pow2_adds(first_shift as nat, 1074);
        lemma_pow2_adds((first_shift + 1010) as nat, 64);
        assert(numerator * common == dividend * base) by (nonlinear_arith)
            requires
                numerator == (first * pow2(first_shift as nat)) * pow2(1074),
                pow2(first_shift as nat) * pow2(1074) == base * pow2(64),
                moved == first * common,
                dividend == moved * pow2(64),
        ;
        if scale < 0 {
            let up = pow2((-scale) as nat);
            lemma_pow2_pos((-scale) as nat);
            let factor = pow2((places + second_shift) as nat);
            lemma_pow2_pos((places + second_shift) as nat);
            lemma_pow2_adds((first_shift + 1010) as nat, (-scale) as nat);
            lemma_pow2_adds(places as nat, second_shift as nat);
            let whole = numerator * up;
            assert(whole * common == dividend * factor) by (nonlinear_arith)
                requires
                    whole == numerator * up,
                    numerator * common == dividend * base,
                    factor == base * up,
            ;
            assert(denominator * common == second * factor) by (nonlinear_arith)
                requires
                    denominator == second * pow2(second_shift as nat),
                    factor == common * pow2(second_shift as nat),
            ;
            lemma_quotient(
                whole,
                denominator,
                dividend as nat,
                second as nat,
                significand as nat,
                left_over as nat,
                common,
                factor,
            );
        } else {
            let down = pow2(scale as nat);
            lemma_pow2_adds(second_shift as nat, scale as nat);
            lemma_pow2_adds((second_shift + scale) as nat, places as nat);
            let step = denominator * down;
            assert(step * common == second * base) by (nonlinear_arith)
                requires
                    step == (second * pow2(second_shift as nat)) * down,
                    pow2((second_shift + scale) as nat) == pow2(second_shift as nat) * down,
                    base == pow2((second_shift + scale) as nat) * common,
            ;
            lemma_quotient(
                numerator,
                step,
                dividend as nat,
                second as nat,
                significand as nat,
                left_over as nat,
                common,
                base,
            );
        }
    }
    round_scaled(significand, scale, left_over != 0, Ghost(numerator), Ghost(denominator))
}

impl Binary64 {
    /// The rounded product.
    pub fn times(self, other: Binary64) -> (result: Binary64)
        ensures
            result == self.times_spec(other),
    {
        let left: u64 = self.unsigned_bits();
        let right: u64 = other.unsigned_bits();
        let negative: bool = (self.bits >= SIGN_BIT) != (other.bits >= SIGN_BIT);
        proof {
            lemma_size_zero(left as nat);
            lemma_size_zero(right as nat);
        }
        if left > INFINITY_BITS || right > INFINITY_BITS {
            Binary64 { bits: NAN_BITS }
        } else if left == INFINITY_BITS || right == INFINITY_BITS {
            if left == 0 || right == 0 {
                Binary64 { bits: NAN_BITS }
            } else {
                Binary64::signed(negative, INFINITY_BITS)
            }
        } else {
            Binary64::signed(negative, product(left, right))
        }
    }

    /// The rounded quotient.
    pub fn over(self, other: Binary64) -> (result: Binary64)
        ensures
            result == self.over_spec(other),
    {
        let left: u64 = self.unsigned_bits();
        let right: u64 = other.unsigned_bits();
        let negative: bool = (self.bits >= SIGN_BIT) != (other.bits >= SIGN_BIT);
        proof {
            lemma_size_zero(left as nat);
            lemma_size_zero(right as nat);
        }
        if left > INFINITY_BITS || right > INFINITY_BITS {
            Binary64 { bits: NAN_BITS }
        } else if left == INFINITY_BITS {
            if right == INFINITY_BITS {
                Binary64 { bits: NAN_BITS }
            } else {
                Binary64::signed(negative, INFINITY_BITS)
            }
        } else if right == INFINITY_BITS {
            Binary64::signed(negative, 0)
        } else if right == 0 {
            if left == 0 {
                Binary64 { bits: NAN_BITS }
            } else {
                Binary64::signed(negative, INFINITY_BITS)
            }
        } else if left == 0 {
            proof {
                assert(magnitude(left as nat) * one_in_units() == 0) by (nonlinear_arith)
                    requires
                        magnitude(left as nat) == 0,
                ;
                crate::float::round::lemma_nearest_zero(0, magnitude(right as nat));
            }
            Binary64::signed(negative, 0)
        } else {
            Binary64::signed(negative, quotient(left, right))
        }
    }
}

/// Only zero has magnitude zero.
pub proof fn lemma_size_zero(bits: nat)
    ensures
        magnitude(bits) == 0 <==> bits == 0,
{
    assert(magnitude(0) == 0);
    lemma_magnitude_increases(0, bits);
}

/// A positive whole number below 2^64 is a positive finite double.
pub proof fn whole_numbers_are_finite(value: nat)
    requires
        0 < value <= 0xffff_ffff_ffff_ffff,
    ensures
        Binary64::whole_spec(value).positive_finite(),
{
    let one: nat = 1023 * 0x0010_0000_0000_0000;
    let large: nat = 1087 * 0x0010_0000_0000_0000;
    lemma_powers();
    assert(one / 0x0010_0000_0000_0000 == 1023 && one % 0x0010_0000_0000_0000 == 0);
    assert(large / 0x0010_0000_0000_0000 == 1087 && large % 0x0010_0000_0000_0000 == 0);
    lemma_pow2_adds(52, 1022);
    lemma_pow2_adds(52, 1086);
    lemma_pow2_adds(64, 1074);
    assert(magnitude(one) == pow2(1074));
    assert(magnitude(large) == pow2(1138));
    let units = value * one_in_units();
    assert(pow2(1074) <= units <= pow2(64) * pow2(1074)) by (nonlinear_arith)
        requires
            0 < value < pow2(64),
            units == value * pow2(1074),
    ;
    rounding_keeps_sides(units, 1, one);
    rounding_keeps_sides(units, 1, large);
}

} // verus!
