//! The double nearest to a decimal number.

use vstd::arithmetic::power2::{lemma_pow2_adds, lemma_pow2_pos, lemma_pow2_unfold, pow2};
use vstd::prelude::*;

use crate::float::arithmetic::one_in_units;
use crate::float::natural::Natural;
use crate::float::round::{
    lemma_magnitude_increases, lemma_magnitude_of, lemma_nearest_infinite, lemma_nearest_is,
    lemma_nearest_zero, lemma_powers, magnitude, nearest, parts, reaches, INFINITY_BITS,
};

verus! {

/// Ten to a power.
pub open spec fn ten_to(exponent: nat) -> nat
    decreases exponent,
{
    if exponent == 0 {
        1
    } else {
        10 * ten_to((exponent - 1) as nat)
    }
}

/// The bits of the double nearest to `digits` times ten to `exponent`.
pub open spec fn decimal_bits(digits: nat, exponent: int) -> nat {
    if exponent >= 0 {
        nearest(digits * ten_to(exponent as nat) * one_in_units(), 1)
    } else {
        nearest(digits * one_in_units(), ten_to((-exponent) as nat))
    }
}

proof fn lemma_ten_to_adds(left: nat, right: nat)
    ensures
        ten_to(left + right) == ten_to(left) * ten_to(right),
    decreases left,
{
    if left == 0 {
        assert(1 * ten_to(right) == ten_to(right));
    } else {
        lemma_ten_to_adds((left - 1) as nat, right);
        assert((left + right - 1) as nat == (left - 1) as nat + right);
        assert(10 * (ten_to((left - 1) as nat) * ten_to(right)) == (10 * ten_to(
            (left - 1) as nat,
        )) * ten_to(right)) by (nonlinear_arith);
    }
}

/// Ten is above eight.
pub(crate) proof fn lemma_ten_beats_eight(exponent: nat)
    ensures
        ten_to(exponent) >= pow2(3 * exponent),
        ten_to(exponent) >= 1,
    decreases exponent,
{
    lemma_powers();
    if exponent > 0 {
        let less = (exponent - 1) as nat;
        lemma_ten_beats_eight(less);
        lemma_pow2_adds(3, 3 * less);
        vstd::arithmetic::power2::lemma2_to64();
        assert(3 * exponent == 3 + 3 * less);
    }
}

/// Whether the quotient reaches the double `bits`; `twice` is twice the numerator.
fn reached(twice: &Natural, denominator: &Natural, bits: u64, Ghost(numerator): Ghost<nat>) -> (
result: bool)
    requires
        0 < bits <= INFINITY_BITS,
        twice@ == 2 * numerator,
        denominator@ > 0,
    ensures
        result == reaches(numerator, denominator@, bits as nat),
{
    let (significand, shift) = parts(bits - 1);
    let middle: Natural = denominator.scaled(2 * significand + 1, 0).shifted(shift);
    let (above, equal) = twice.against(&middle);
    proof {
        lemma_magnitude_of(shift as nat, significand as nat);
        lemma_magnitude_of(shift as nat, (significand + 1) as nat);
        let unit = pow2(shift as nat);
        let sum = magnitude((bits - 1) as nat) + magnitude(bits as nat);
        assert(sum == (2 * significand + 1) * unit) by (nonlinear_arith)
            requires
                sum == significand * unit + (significand + 1) * unit,
        ;
        assert(middle@ == denominator@ * sum) by (nonlinear_arith)
            requires
                middle@ == (denominator@ * (2 * significand + 1)) * unit,
                sum == (2 * significand + 1) * unit,
        ;
    }
    above || (equal && bits % 2 == 0)
}

/// The bits of the double nearest to a quotient; `twice` is twice the numerator.
fn nearest_to(twice: &Natural, denominator: &Natural, Ghost(numerator): Ghost<nat>) -> (bits: u64)
    requires
        twice@ == 2 * numerator,
        denominator@ > 0,
    ensures
        bits == nearest(numerator, denominator@),
        bits <= INFINITY_BITS,
{
    let mut low: u64 = 0;
    let mut high: u64 = INFINITY_BITS + 1;
    while high - low > 1
        invariant
            low < high <= INFINITY_BITS + 1,
            twice@ == 2 * numerator,
            denominator@ > 0,
            reaches(numerator, denominator@, low as nat),
            high <= INFINITY_BITS ==> !reaches(numerator, denominator@, high as nat),
        decreases high - low,
    {
        let middle: u64 = low + (high - low) / 2;
        if reached(twice, denominator, middle, Ghost(numerator)) {
            low = middle;
        } else {
            high = middle;
        }
    }
    proof {
        lemma_nearest_is(numerator, denominator@, low as nat);
    }
    low
}

/// The number times a power of ten.
fn times_ten_to(number: &Natural, exponent: u128) -> (result: Natural)
    ensures
        result@ == number@ * ten_to(exponent as nat),
{
    let mut result: Natural = number.scaled(1, 0);
    let mut count: u128 = 0;
    proof {
        assert(number@ * 1 == number@);
    }
    while count < exponent
        invariant
            count <= exponent,
            result@ == number@ * ten_to(count as nat),
        decreases exponent - count,
    {
        proof {
            assert((number@ * ten_to(count as nat)) * 10 == number@ * (10 * ten_to(count as nat)))
                by (nonlinear_arith);
        }
        result = result.scaled(10, 0);
        count = count + 1;
    }
    result
}

/// A positive whole number that ends in 800 zeros is infinite.
pub(crate) proof fn lemma_huge(digits: nat, exponent: nat)
    requires
        digits > 0,
        exponent >= 800,
    ensures
        decimal_bits(digits, exponent as int) == INFINITY_BITS,
{
    lemma_powers();
    lemma_ten_beats_eight(exponent);
    if 3 * exponent > 2400 {
        vstd::arithmetic::power2::lemma_pow2_strictly_increases(2400, 3 * exponent);
    }
    vstd::arithmetic::power2::lemma_pow2_strictly_increases(2098, 2400);
    lemma_magnitude_of(2046, 0x0010_0000_0000_0000);
    assert(2046 * 0x0010_0000_0000_0000 + 0x0010_0000_0000_0000 == INFINITY_BITS);
    lemma_pow2_adds(52, 2046);
    lemma_pow2_pos(1074);
    let top = magnitude(INFINITY_BITS as nat);
    let value = digits * ten_to(exponent) * one_in_units();
    assert(value >= top) by (nonlinear_arith)
        requires
            value == digits * ten_to(exponent) * one_in_units(),
            digits >= 1,
            one_in_units() >= 1,
            ten_to(exponent) >= top,
    ;
    assert(1 * top == top);
    lemma_nearest_infinite(value, 1);
}

/// A number that starts 400 decimal places behind the point is zero.
pub(crate) proof fn lemma_tiny(digits: nat, places: nat, exponent: int)
    requires
        digits < ten_to(places),
        places + exponent <= -400,
    ensures
        decimal_bits(digits, exponent) == 0,
{
    let behind = (-exponent) as nat;
    let spare = (behind - places) as nat;
    lemma_ten_to_adds(places, spare);
    lemma_ten_beats_eight(spare);
    lemma_ten_beats_eight(places);
    vstd::arithmetic::power2::lemma_pow2_strictly_increases(1075, 3 * spare);
    lemma_pow2_unfold(1075);
    assert(2 * (digits * one_in_units()) < ten_to(behind)) by (nonlinear_arith)
        requires
            digits < ten_to(places),
            ten_to(behind) == ten_to(places) * ten_to(spare),
            ten_to(spare) > 2 * one_in_units(),
    ;
    lemma_nearest_zero(digits * one_in_units(), ten_to(behind));
}

/// The bits of the double nearest to `digits` times ten to `exponent`, where the
/// digits fill at most `places` decimal places.
pub(crate) fn nearest_decimal(digits: &Natural, places: u64, exponent: i128) -> (bits: u64)
    requires
        digits@ < ten_to(places as nat),
    ensures
        bits == decimal_bits(digits@, exponent as int),
        bits <= INFINITY_BITS,
{
    let zero: Natural = Natural::from_u64(0);
    let (positive, _) = digits.against(&zero);
    if !positive {
        proof {
            lemma_zero(exponent as int);
        }
        return 0;
    }
    if exponent >= 800 {
        proof {
            lemma_huge(digits@, exponent as nat);
        }
        return INFINITY_BITS;
    }
    if exponent <= -400 && exponent + places as i128 <= -400 {
        proof {
            lemma_tiny(digits@, places as nat, exponent as int);
        }
        return 0;
    }
    let one: Natural = Natural::from_u64(1);
    let ghost unit = one_in_units();
    if exponent >= 0 {
        let whole: Natural = times_ten_to(digits, exponent as u128);
        let twice: Natural = whole.shifted(1075);
        let ghost numerator = digits@ * ten_to(exponent as nat) * unit;
        proof {
            lemma_pow2_unfold(1075);
            assert(whole@ * pow2(1075) == 2 * (whole@ * unit)) by (nonlinear_arith)
                requires
                    pow2(1075) == 2 * unit,
            ;
        }
        nearest_to(&twice, &one, Ghost(numerator))
    } else {
        let twice: Natural = digits.shifted(1075);
        let denominator: Natural = times_ten_to(&one, (-exponent) as u128);
        let ghost numerator = digits@ * unit;
        proof {
            lemma_pow2_unfold(1075);
            assert(digits@ * pow2(1075) == 2 * (digits@ * unit)) by (nonlinear_arith)
                requires
                    pow2(1075) == 2 * unit,
            ;
            lemma_ten_beats_eight((-exponent) as nat);
            assert(1 * ten_to((-exponent) as nat) == ten_to((-exponent) as nat));
        }
        nearest_to(&twice, &denominator, Ghost(numerator))
    }
}

/// Zero is zero at any scale.
pub(crate) proof fn lemma_zero(exponent: int)
    ensures
        decimal_bits(0, exponent) == 0,
{
    if exponent >= 0 {
        assert(0 * ten_to(exponent as nat) * one_in_units() == 0) by (nonlinear_arith);
        lemma_nearest_zero(0, 1);
    } else {
        lemma_ten_beats_eight((-exponent) as nat);
        assert(0 * one_in_units() == 0);
        lemma_nearest_zero(0, ten_to((-exponent) as nat));
    }
}

} // verus!
