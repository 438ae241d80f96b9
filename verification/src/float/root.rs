//! The correctly rounded square root.

use vstd::arithmetic::power2::{lemma_pow2_adds, lemma_pow2_pos, lemma_pow2_unfold, pow2};
use vstd::prelude::*;

use crate::float::arithmetic::{
    lemma_size_zero, normalized, not_a_number, one_in_units, with_sign, Binary64, NAN_BITS,
};
use crate::float::round::{
    lemma_magnitude_increases, lemma_magnitude_of, lemma_magnitude_step, lemma_powers, magnitude,
    parts, EXPONENT_ONE, INFINITY_BITS, SIGN_BIT,
};

verus! {

/// The square root of `radicand` units squared lies above the middle between the
/// doubles `bits - 1` and `bits`, or exactly in that middle with `bits` even.
pub open spec fn root_reaches(radicand: nat, bits: nat) -> bool {
    let twice_middle = magnitude((bits - 1) as nat) + magnitude(bits);
    bits == 0 || 4 * radicand > twice_middle * twice_middle || (4 * radicand == twice_middle
        * twice_middle && bits % 2 == 0)
}

/// The largest double up to `bits` that the square root reaches.
pub open spec fn nearest_root_up_to(radicand: nat, bits: nat) -> nat
    decreases bits,
{
    if bits == 0 || root_reaches(radicand, bits) {
        bits
    } else {
        nearest_root_up_to(radicand, (bits - 1) as nat)
    }
}

/// The bits of the double nearest to the square root of `radicand` units squared.
pub open spec fn nearest_root(radicand: nat) -> nat {
    nearest_root_up_to(radicand, INFINITY_BITS as nat)
}

proof fn lemma_root_from(radicand: nat, bits: nat, top: nat)
    requires
        bits <= top <= INFINITY_BITS,
        root_reaches(radicand, bits),
        bits < INFINITY_BITS ==> !root_reaches(radicand, bits + 1),
    ensures
        nearest_root_up_to(radicand, top) == bits,
    decreases top,
{
    if top > bits {
        if top > bits + 1 {
            lemma_magnitude_increases(bits, (top - 1) as nat);
            lemma_magnitude_increases(bits + 1, top);
            let near = magnitude(bits) + magnitude(bits + 1);
            let far = magnitude((top - 1) as nat) + magnitude(top);
            assert(near * near < far * far) by (nonlinear_arith)
                requires
                    0 <= near < far,
            ;
        }
        lemma_root_from(radicand, bits, (top - 1) as nat);
    }
}

/// The whole square root of a number below 2^106.
fn whole_root(value: u128) -> (root: u64)
    requires
        value < pow2(106),
    ensures
        root < pow2(53),
        root * root <= value < (root + 1) * (root + 1),
{
    let mut root: u64 = 0;
    let mut step: u64 = 0x0010_0000_0000_0000;
    let mut left: u32 = 53;
    proof {
        lemma_powers();
        lemma_pow2_adds(53, 53);
        assert(pow2(53) * pow2(53) == (0 + pow2(53)) * (0 + pow2(53)));
    }
    while left > 0
        invariant
            left <= 53,
            left > 0 ==> step == pow2((left - 1) as nat),
            root + pow2(left as nat) <= pow2(53),
            pow2(53) == 0x0020_0000_0000_0000,
            pow2(0) == 1,
            root * root <= value,
            value < (root + pow2(left as nat)) * (root + pow2(left as nat)),
        decreases left,
    {
        proof {
            lemma_pow2_unfold(left as nat);
        }
        let next: u64 = root + step;
        proof {
            assert(next * next <= 0x0020_0000_0000_0000 * 0x0020_0000_0000_0000)
                by (nonlinear_arith)
                requires
                    next <= 0x0020_0000_0000_0000,
            ;
        }
        if next as u128 * next as u128 <= value {
            root = next;
        }
        left = left - 1;
        proof {
            if left > 0 {
                lemma_pow2_unfold(left as nat);
            }
        }
        step = step / 2;
    }
    root
}

/// The nearest double to the square root of a finite, positive magnitude.
fn root_bits(bits: u64) -> (result: u64)
    requires
        0 < bits < INFINITY_BITS,
    ensures
        result == nearest_root(magnitude(bits as nat) * one_in_units()),
        result < INFINITY_BITS,
{
    let (first, shift) = parts(bits);
    let (moved, places) = normalized(first);
    let exponent: u32 = shift + 1074 - places;
    let odd: bool = exponent % 2 == 1;
    let half_exponent: u32 = if odd { (exponent - 53) / 2 } else { (exponent - 52) / 2 };
    let value: u128 = if odd {
        moved as u128 * 0x0020_0000_0000_0000u128
    } else {
        moved as u128 * 0x0010_0000_0000_0000u128
    };
    let ghost radicand = magnitude(bits as nat) * one_in_units();
    let ghost unit = pow2(half_exponent as nat);
    proof {
        lemma_powers();
        lemma_pow2_adds(53, 53);
        lemma_pow2_pos(half_exponent as nat);
        let lifted: nat = if odd { 53 } else { 52 };
        assert(exponent == lifted + half_exponent + half_exponent);
        lemma_pow2_adds(half_exponent as nat, half_exponent as nat);
        lemma_pow2_adds(lifted, (half_exponent + half_exponent) as nat);
        lemma_pow2_adds(shift as nat, 1074);
        lemma_pow2_adds(exponent as nat, places as nat);
        let common = pow2(places as nat);
        let tail = pow2(exponent as nat);
        lemma_pow2_pos(places as nat);
        assert(radicand == moved * tail) by (nonlinear_arith)
            requires
                radicand == (first * pow2(shift as nat)) * pow2(1074),
                pow2(shift as nat) * pow2(1074) == tail * common,
                moved == first * common,
        ;
        assert(radicand == value * (unit * unit)) by (nonlinear_arith)
            requires
                radicand == moved * tail,
                tail == pow2(lifted) * (unit * unit),
                value == moved * pow2(lifted),
        ;
    }
    let root: u64 = whole_root(value);
    proof {
        assert(root >= 0x0010_0000_0000_0000) by (nonlinear_arith)
            requires
                value < (root + 1) * (root + 1),
                value >= 0x0010_0000_0000_0000 * 0x0010_0000_0000_0000,
        ;
        assert(root * root <= 0x0020_0000_0000_0000 * 0x0020_0000_0000_0000)
            by (nonlinear_arith)
            requires
                root <= 0x0020_0000_0000_0000,
        ;
    }
    let floor: u64 = half_exponent as u64 * EXPONENT_ONE + root;
    let up: bool = value - root as u128 * root as u128 > root as u128;
    proof {
        lemma_magnitude_of(half_exponent as nat, root as nat);
        lemma_magnitude_of(half_exponent as nat, (root + 1) as nat);
        lemma_magnitude_step((floor - 1) as nat);
        lemma_magnitude_step((floor + 1) as nat);
        let here = magnitude(floor as nat);
        let next = magnitude((floor + 1) as nat);
        let before = magnitude((floor - 1) as nat);
        let after = magnitude((floor + 2) as nat);
        // The floor is reached, and the double after the next is not.
        assert(4 * radicand >= (2 * here) * (2 * here)) by (nonlinear_arith)
            requires
                radicand == value * (unit * unit),
                here == root * unit,
                value >= root * root,
        ;
        assert((2 * here) * (2 * here) > (before + here) * (before + here)) by (nonlinear_arith)
            requires
                0 <= before < here,
        ;
        assert(4 * radicand < (2 * next) * (2 * next)) by (nonlinear_arith)
            requires
                radicand == value * (unit * unit),
                next == (root + 1) * unit,
                value < (root + 1) * (root + 1),
                unit > 0,
        ;
        assert((2 * next) * (2 * next) < (next + after) * (next + after)) by (nonlinear_arith)
            requires
                0 <= next < after,
        ;
        // The middle is an odd number of half units, so it is never hit.
        let odd_sum = 2 * root + 1;
        assert(here + next == odd_sum * unit) by (nonlinear_arith)
            requires
                here == root * unit,
                next == (root + 1) * unit,
                odd_sum == 2 * root + 1,
        ;
        assert(odd_sum * odd_sum == 4 * (root * root + root) + 1) by (nonlinear_arith)
            requires
                odd_sum == 2 * root + 1,
        ;
        if up {
            assert(4 * radicand > (here + next) * (here + next)) by (nonlinear_arith)
                requires
                    radicand == value * (unit * unit),
                    here + next == odd_sum * unit,
                    4 * value > odd_sum * odd_sum,
                    unit > 0,
            ;
            lemma_root_from(radicand, (floor + 1) as nat, INFINITY_BITS as nat);
        } else {
            assert(4 * radicand < (here + next) * (here + next)) by (nonlinear_arith)
                requires
                    radicand == value * (unit * unit),
                    here + next == odd_sum * unit,
                    4 * value < odd_sum * odd_sum,
                    unit > 0,
            ;
            lemma_root_from(radicand, floor as nat, INFINITY_BITS as nat);
        }
    }
    if up {
        floor + 1
    } else {
        floor
    }
}

impl Binary64 {
    /// The rounded square root.
    pub open spec fn root_spec(self) -> Binary64 {
        if self.nan() {
            not_a_number()
        } else if self.size() == 0 {
            self
        } else if self.negative() {
            not_a_number()
        } else if self.infinite() {
            self
        } else {
            with_sign(false, nearest_root(self.size() * one_in_units()))
        }
    }

    /// The rounded square root.
    pub fn root(self) -> (result: Binary64)
        ensures
            result == self.root_spec(),
    {
        proof {
            lemma_size_zero(self.magnitude_bits());
        }
        if self.bits == 0 || self.bits == SIGN_BIT {
            self
        } else if self.bits > INFINITY_BITS {
            Binary64 { bits: NAN_BITS }
        } else if self.bits == INFINITY_BITS {
            self
        } else {
            Binary64 { bits: root_bits(self.bits) }
        }
    }
}

proof fn lemma_root_between(radicand: nat, top: nat)
    ensures
        nearest_root_up_to(radicand, top) <= top,
        root_reaches(radicand, nearest_root_up_to(radicand, top)),
        forall|bits: nat|
            nearest_root_up_to(radicand, top) < bits <= top ==> !#[trigger] root_reaches(
                radicand,
                bits,
            ),
    decreases top,
{
    if top > 0 && !root_reaches(radicand, top) {
        lemma_root_between(radicand, (top - 1) as nat);
    }
}

proof fn lemma_root_is_finite(size: nat)
    requires
        0 < size <= magnitude(INFINITY_BITS as nat),
    ensures
        0 < nearest_root(size * one_in_units()) < INFINITY_BITS,
{
    let one = one_in_units();
    let radicand = size * one;
    let top = magnitude(INFINITY_BITS as nat);
    lemma_root_between(radicand, INFINITY_BITS as nat);
    lemma_powers();
    lemma_pow2_pos(1074);
    lemma_pow2_pos(972);
    lemma_pow2_adds(1074, 972);
    lemma_magnitude_of(2046, 0x0010_0000_0000_0000);
    assert(INFINITY_BITS == 2046 * 0x0010_0000_0000_0000 + 0x0010_0000_0000_0000);
    let spare = pow2(972);
    assert(top >= 5 * one) by (nonlinear_arith)
        requires
            top == 0x0010_0000_0000_0000 * (one * spare),
            spare >= 1,
            one >= 1,
    ;
    let before = magnitude((INFINITY_BITS - 1) as nat);
    assert(4 * radicand < (before + top) * (before + top)) by (nonlinear_arith)
        requires
            radicand == size * one,
            0 < size <= top,
            top >= 5 * one,
            one >= 1,
            before >= 0,
    ;
    lemma_size_zero(0);
    lemma_magnitude_of(0, 1);
    lemma_pow2_unfold(1074);
    lemma_pow2_pos(1073);
    assert(4 * radicand > 1) by (nonlinear_arith)
        requires
            radicand == size * one,
            size >= 1,
            one >= 1,
    ;
    assert(root_reaches(radicand, 1));
    assert(!root_reaches(radicand, INFINITY_BITS as nat));
}

/// No double lies nearer to the square root of a positive number than the rounded root:
/// the square root does not lie beyond the middle between the two.
pub proof fn roots_are_nearest(value: Binary64, other: Binary64)
    requires
        value.positive_finite(),
        other.finite(),
        !other.negative(),
    ensures
        ({
            let root = value.root_spec();
            let middle = root.units() + other.units();
            &&& root.finite() && !root.negative() && root.units() > 0
            &&& other.units() > root.units() ==> 4 * (value.units() * one_in_units()) <= middle
                * middle
            &&& other.units() < root.units() ==> 4 * (value.units() * one_in_units()) >= middle
                * middle
        }),
{
    lemma_size_zero(value.magnitude_bits());
    lemma_magnitude_increases(value.magnitude_bits(), INFINITY_BITS as nat);
    lemma_root_is_finite(value.size());
    let radicand = value.size() * one_in_units();
    let found = nearest_root(radicand);
    let far = other.magnitude_bits();
    let root = value.root_spec();
    lemma_size_zero(found);
    lemma_root_between(radicand, INFINITY_BITS as nat);
    assert(root.magnitude_bits() == found);
    if other.units() > root.units() {
        if far <= found {
            lemma_magnitude_rises(far, found);
        }
        lemma_magnitude_rises(found + 1, far);
        assert(!root_reaches(radicand, found + 1));
        let near = magnitude(found) + magnitude(found + 1);
        let wide = magnitude(found) + magnitude(far);
        assert(near * near <= wide * wide) by (nonlinear_arith)
            requires
                0 <= near <= wide,
        ;
    }
    if other.units() < root.units() {
        if far >= found {
            lemma_magnitude_rises(found, far);
        }
        lemma_magnitude_rises(far, (found - 1) as nat);
        assert(root_reaches(radicand, found));
        let near = magnitude((found - 1) as nat) + magnitude(found);
        let wide = magnitude(far) + magnitude(found);
        assert(wide * wide <= near * near) by (nonlinear_arith)
            requires
                0 <= wide <= near,
        ;
    }
}

proof fn lemma_magnitude_rises(low: nat, high: nat)
    requires
        low <= high,
    ensures
        magnitude(low) <= magnitude(high),
{
    if low < high {
        lemma_magnitude_increases(low, high);
    }
}

/// The root of a square is the number squared, where that is a double.
pub proof fn roots_undo_squares(value: Binary64, side: Binary64)
    requires
        value.positive_finite(),
        side.finite(),
        !side.negative(),
        value.units() * one_in_units() == side.units() * side.units(),
    ensures
        value.root_spec().units() == side.units(),
{
    roots_are_nearest(value, side);
    let root = value.root_spec().units();
    let length = side.units();
    let square = value.units() * one_in_units();
    assert(root == length) by (nonlinear_arith)
        requires
            square == length * length,
            root > 0,
            length >= 0,
            length > root ==> 4 * square <= (root + length) * (root + length),
            length < root ==> 4 * square >= (root + length) * (root + length),
    ;
}

} // verus!
