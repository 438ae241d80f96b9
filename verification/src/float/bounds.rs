//! How large the results of rounded operations can be.

use vstd::arithmetic::power2::{lemma_pow2_adds, lemma_pow2_strictly_increases, pow2};
use vstd::prelude::*;

use crate::float::arithmetic::{lemma_size_zero, one_in_units, Binary64};
use crate::float::round::{
    doubles_round_to_themselves, lemma_magnitude_increases, lemma_magnitude_of,
    lemma_nearest_bound, lemma_powers, magnitude, nearest, nearest_is_reached, reached_is_a_bound,
    rounding_is_closest, rounding_keeps_sides, unreached_is_a_bound, INFINITY_BITS,
};

verus! {

/// The bits of 2^`exponent`.
pub open spec fn power_bits(exponent: nat) -> nat {
    (1023 + exponent) * 0x0010_0000_0000_0000
}

/// A power of two in units, and the step to the next double.
pub proof fn lemma_power(exponent: nat)
    ensures
        magnitude(power_bits(exponent)) == pow2(1074 + exponent),
        magnitude(power_bits(exponent) + 1) == pow2(1074 + exponent) + pow2(1022 + exponent),
{
    let unit = pow2(1022 + exponent);
    lemma_powers();
    lemma_magnitude_of(1022 + exponent, 0x0010_0000_0000_0000);
    lemma_magnitude_of(1022 + exponent, 0x0010_0000_0000_0001);
    assert((1022 + exponent) * 0x0010_0000_0000_0000 + 0x0010_0000_0000_0000 == power_bits(
        exponent,
    ));
    lemma_pow2_adds(52, 1022 + exponent);
    assert(0x0010_0000_0000_0001 * unit == 0x0010_0000_0000_0000 * unit + unit)
        by (nonlinear_arith);
}

/// A sum up to 2^`exponent` in size stays so, however often terms of up to
/// 2^(`exponent` - 54) are added: above that each is less than half a step.
pub proof fn sums_stay_within(sum: Binary64, term: Binary64, exponent: nat)
    requires
        54 <= exponent < 1024,
        sum.magnitude_bits() <= power_bits(exponent),
        term.magnitude_bits() <= power_bits((exponent - 54) as nat),
    ensures
        sum.plus_spec(term).magnitude_bits() <= power_bits(exponent),
{
    let limit = power_bits(exponent);
    let small = power_bits((exponent - 54) as nat);
    lemma_power(exponent);
    lemma_power((exponent - 54) as nat);
    lemma_magnitude_increases(sum.magnitude_bits(), limit);
    lemma_magnitude_increases(term.magnitude_bits(), small);
    assert(1074 + (exponent - 54) as nat == 1020 + exponent);
    lemma_pow2_adds(1, 1020 + exponent);
    lemma_powers();
    lemma_pow2_strictly_increases(1021 + exponent, 1022 + exponent);
    let value = sum.units() + term.units();
    let size: nat = if value < 0 { (-value) as nat } else { value as nat };
    unreached_is_a_bound(size, 1, limit);
}

/// A difference of numbers up to two powers of two in size, the second not below the
/// first, is at most twice the second in size.
pub proof fn differences_stay_within(
    value: Binary64,
    other: Binary64,
    first: nat,
    second: nat,
)
    requires
        first <= second < 1023,
        value.magnitude_bits() <= power_bits(first),
        other.magnitude_bits() <= power_bits(second),
    ensures
        value.minus_spec(other).magnitude_bits() <= power_bits(second + 1),
{
    let limit = power_bits(second + 1);
    lemma_power(first);
    lemma_power(second);
    lemma_power(second + 1);
    lemma_magnitude_increases(value.magnitude_bits(), power_bits(first));
    lemma_magnitude_increases(power_bits(first), power_bits(second));
    lemma_magnitude_increases(other.magnitude_bits(), power_bits(second));
    lemma_pow2_adds(1, 1074 + second);
    lemma_powers();
    let difference = value.units() - other.units();
    let size: nat = if difference < 0 { (-difference) as nat } else { difference as nat };
    rounding_keeps_sides(size, 1, limit);
}

/// The product of two numbers up to a power of two in size is at most its square in size.
pub proof fn products_stay_within(left: Binary64, right: Binary64, exponent: nat)
    requires
        2 * exponent < 1024,
        left.magnitude_bits() <= power_bits(exponent),
        right.magnitude_bits() <= power_bits(exponent),
    ensures
        left.times_spec(right).magnitude_bits() <= power_bits(2 * exponent),
{
    let limit = power_bits(2 * exponent);
    lemma_power(exponent);
    lemma_power(2 * exponent);
    lemma_magnitude_increases(left.magnitude_bits(), power_bits(exponent));
    lemma_magnitude_increases(right.magnitude_bits(), power_bits(exponent));
    lemma_pow2_adds(1074 + exponent, 1074 + exponent);
    lemma_pow2_adds(1074, 1074 + 2 * exponent);
    vstd::arithmetic::power2::lemma_pow2_pos(1074);
    let most = pow2(1074 + exponent);
    assert(left.size() * right.size() <= most * most) by (nonlinear_arith)
        requires
            left.size() <= most,
            right.size() <= most,
    ;
    rounding_keeps_sides(left.size() * right.size(), one_in_units(), limit);
}

/// A positive whole number is a number not below one.
pub proof fn lemma_whole(value: nat)
    requires
        value > 0,
    ensures
        !Binary64::whole_spec(value).negative(),
        !Binary64::whole_spec(value).nan(),
        Binary64::whole_spec(value).size() >= one_in_units(),
{
    let units = value * one_in_units();
    lemma_power(0);
    assert(units >= one_in_units()) by (nonlinear_arith)
        requires
            units == value * one_in_units(),
            value >= 1,
    ;
    rounding_keeps_sides(units, 1, power_bits(0));
    lemma_nearest_bound(units, 1);
    lemma_magnitude_increases(power_bits(0), nearest(units, 1));
}

/// A quotient by a positive whole number is no larger in size than the dividend.
pub proof fn quotients_stay_within(value: Binary64, divisor: nat, bits: nat)
    requires
        divisor > 0,
        bits < INFINITY_BITS,
        value.magnitude_bits() <= bits,
    ensures
        value.over_spec(Binary64::whole_spec(divisor)).magnitude_bits() <= bits,
{
    let count = Binary64::whole_spec(divisor);
    lemma_whole(divisor);
    vstd::arithmetic::power2::lemma_pow2_pos(1074);
    lemma_magnitude_increases(value.magnitude_bits(), bits);
    assert(value.size() * one_in_units() <= count.size() * magnitude(bits)) by (nonlinear_arith)
        requires
            value.size() <= magnitude(bits),
            one_in_units() <= count.size(),
    ;
    rounding_keeps_sides(value.size() * one_in_units(), count.size(), bits);
}

/// A quotient by a positive whole number of what is not finite is not a number or an
/// infinity of the same sign.
pub proof fn lemma_quotient_not_finite(value: Binary64, divisor: nat)
    requires
        divisor > 0,
        !value.finite(),
    ensures
        ({
            let quotient = value.over_spec(Binary64::whole_spec(divisor));
            quotient.nan() || (quotient.infinite() && value.infinite() && quotient.negative()
                == value.negative())
        }),
{
    lemma_whole(divisor);
}

/// A finite number over one that differs from zero is a number.
pub proof fn quotients_are_numbers(value: Binary64, divisor: Binary64)
    requires
        value.finite(),
        !divisor.nan(),
        divisor.size() > 0,
    ensures
        !value.over_spec(divisor).nan(),
{
    lemma_size_zero(divisor.magnitude_bits());
    lemma_nearest_bound(value.size() * one_in_units(), divisor.size());
}

/// A whole number with fewer than 54 bits, moved up to 53 bits.
proof fn lemma_normal(value: nat) -> (places: nat)
    requires
        0 < value < 0x0020_0000_0000_0000,
    ensures
        0x0010_0000_0000_0000 <= value * pow2(places) < 0x0020_0000_0000_0000,
        places <= 52,
    decreases 0x0020_0000_0000_0000 - value,
{
    lemma_powers();
    if value >= 0x0010_0000_0000_0000 {
        assert(value * pow2(0) == value) by (nonlinear_arith)
            requires
                pow2(0) == 1,
        ;
        0
    } else {
        let more = lemma_normal(2 * value);
        vstd::arithmetic::power2::lemma_pow2_unfold(more + 1);
        assert(value * pow2(more + 1) == (2 * value) * pow2(more)) by (nonlinear_arith)
            requires
                pow2(more + 1) == 2 * pow2(more),
        ;
        if more + 1 > 52 {
            assert(more >= 52);
            assert((2 * value) * pow2(more) >= 2 * pow2(52)) by (nonlinear_arith)
                requires
                    value >= 1,
                    pow2(more) >= pow2(52),
            ;
        }
        more + 1
    }
}

/// Whole numbers below 2^53 are doubles.
pub proof fn whole_numbers_are_exact(value: nat)
    requires
        value < 0x0020_0000_0000_0000,
    ensures
        Binary64::whole_spec(value).finite(),
        !Binary64::whole_spec(value).negative(),
        Binary64::whole_spec(value).units() == value * one_in_units(),
{
    let units = value * one_in_units();
    lemma_size_zero(0);
    if value == 0 {
        assert(units == 0) by (nonlinear_arith)
            requires
                units == value * one_in_units(),
                value == 0,
        ;
        rounding_keeps_sides(0, 1, 0);
    } else {
        let places = lemma_normal(value);
        let shift = (1074 - places) as nat;
        let significand = value * pow2(places);
        let bits = shift * 0x0010_0000_0000_0000 + significand;
        lemma_magnitude_of(shift, significand);
        lemma_pow2_adds(places, shift);
        assert(significand * pow2(shift) == units) by (nonlinear_arith)
            requires
                significand == value * pow2(places),
                pow2(places) * pow2(shift) == one_in_units(),
                units == value * one_in_units(),
        ;
        assert(shift * 0x0010_0000_0000_0000 <= 1074 * 0x0010_0000_0000_0000);
        doubles_round_to_themselves(1, bits);
        assert(1 * magnitude(bits) == units);
    }
}

/// The bits of numbers of the same size are the same.
proof fn lemma_same_size(left: nat, right: nat)
    requires
        magnitude(left) == magnitude(right),
    ensures
        left == right,
{
    if left < right {
        lemma_magnitude_increases(left, right);
    } else {
        lemma_magnitude_increases(right, left);
    }
}

/// A sum that is a double is not rounded.
pub proof fn sums_are_exact(left: Binary64, right: Binary64, sum: Binary64)
    requires
        left.finite(),
        right.finite(),
        sum.finite(),
        sum.units() == left.units() + right.units(),
    ensures
        left.plus_spec(right).finite(),
        left.plus_spec(right).units() == sum.units(),
{
    lemma_size_zero(0);
    doubles_round_to_themselves(1, sum.magnitude_bits());
}

/// A quotient by a whole number that is a double is not rounded.
pub proof fn whole_quotients_are_exact(value: Binary64, divisor: nat, quotient: Binary64)
    requires
        0 < divisor < 0x0020_0000_0000_0000,
        value.finite(),
        quotient.finite(),
        value.units() == divisor * quotient.units(),
    ensures
        value.over_spec(Binary64::whole_spec(divisor)).finite(),
        value.over_spec(Binary64::whole_spec(divisor)).units() == quotient.units(),
{
    let count = Binary64::whole_spec(divisor);
    let one = one_in_units();
    whole_numbers_are_exact(divisor);
    lemma_whole(divisor);
    vstd::arithmetic::power2::lemma_pow2_pos(1074);
    lemma_size_zero(0);
    lemma_size_zero(value.magnitude_bits());
    lemma_size_zero(quotient.magnitude_bits());
    let size = quotient.size();
    assert(value.size() == divisor * size) by {
        let units = quotient.units();
        assert(divisor * units >= 0 <==> units >= 0) by (nonlinear_arith)
            requires
                divisor > 0,
        ;
        assert(divisor * units == 0 <==> units == 0) by (nonlinear_arith)
            requires
                divisor > 0,
        ;
        assert(divisor * (-units) == -(divisor * units)) by (nonlinear_arith);
    }
    assert(value.size() * one == count.size() * size) by (nonlinear_arith)
        requires
            value.size() == divisor * size,
            count.size() == divisor * one,
    ;
    doubles_round_to_themselves(count.size(), quotient.magnitude_bits());
    assert(divisor * quotient.units() < 0 <==> quotient.units() < 0) by (nonlinear_arith)
        requires
            divisor > 0,
    ;
    assert(divisor * size == 0 <==> size == 0) by (nonlinear_arith)
        requires
            divisor > 0,
    ;
    let found = value.over_spec(count);
    assert(found.magnitude_bits() == quotient.magnitude_bits());
    if size > 0 {
        assert(value.negative() == quotient.negative());
        assert(found.negative() == value.negative());
    }
}

/// The size of a difference.
pub open spec fn gap(left: int, right: int) -> int {
    if left < right {
        right - left
    } else {
        left - right
    }
}

/// No double lies nearer to the sum of two than the rounded sum.
pub proof fn sums_are_nearest(left: Binary64, right: Binary64, other: Binary64)
    requires
        left.finite(),
        right.finite(),
        other.finite(),
        left.plus_spec(right).finite(),
    ensures
        gap(left.plus_spec(right).units(), left.units() + right.units()) <= gap(
            other.units(),
            left.units() + right.units(),
        ),
{
    let exact = left.units() + right.units();
    let size: nat = if exact < 0 { (-exact) as nat } else { exact as nat };
    lemma_size_zero(0);
    if exact != 0 {
        lemma_nearest_bound(size, 1);
        rounding_is_closest(size, 1, other.magnitude_bits());
    }
}

/// A difference is the sum with the other sign.
pub proof fn differences_are_sums(left: Binary64, right: Binary64)
    ensures
        left.minus_spec(right) == left.plus_spec(right.negated_spec()),
        right.negated_spec().nan() == right.nan(),
        right.negated_spec().units() == -right.units(),
        right.absolute_spec().nan() == right.nan(),
        right.absolute_spec().units() == right.size(),
        right.units() == right.size() || right.units() == -right.size(),
        !right.absolute_spec().negative(),
{
    lemma_size_zero(right.magnitude_bits());
}

/// No double lies nearer to the product of two than the rounded product.
pub proof fn products_are_nearest(left: Binary64, right: Binary64, other: Binary64)
    requires
        left.finite(),
        right.finite(),
        other.finite(),
        left.times_spec(right).finite(),
    ensures
        gap(left.times_spec(right).units() * one_in_units(), left.units() * right.units()) <= gap(
            other.units() * one_in_units(),
            left.units() * right.units(),
        ),
{
    let one = one_in_units();
    let product = left.size() * right.size();
    vstd::arithmetic::power2::lemma_pow2_pos(1074);
    lemma_nearest_bound(product, one);
    rounding_is_closest(product, one, other.magnitude_bits());
    let found = left.times_spec(right);
    assert(left.units() * right.units() == if left.negative() != right.negative() {
        -(product as int)
    } else {
        product as int
    }) by (nonlinear_arith)
        requires
            left.units() == if left.negative() { -(left.size() as int) } else { left.size() as int },
            right.units() == if right.negative() {
                -(right.size() as int)
            } else {
                right.size() as int
            },
            product == left.size() * right.size(),
    ;
    lemma_signed_gap(found.size(), found.negative(), other, product, one);
}

/// No double lies nearer to the quotient of two than the rounded quotient.
pub proof fn quotients_are_nearest(left: Binary64, right: Binary64, other: Binary64)
    requires
        left.finite(),
        right.finite(),
        right.size() > 0,
        other.finite(),
        left.over_spec(right).finite(),
    ensures
        gap(left.over_spec(right).units() * right.units(), left.units() * one_in_units()) <= gap(
            other.units() * right.units(),
            left.units() * one_in_units(),
        ),
{
    let one = one_in_units();
    let numerator = left.size() * one;
    lemma_nearest_bound(numerator, right.size());
    rounding_is_closest(numerator, right.size(), other.magnitude_bits());
    let found = left.over_spec(right);
    lemma_signed_gap(found.size(), found.negative(), other, numerator, right.size());
    let flipped = right.negative();
    assert(left.units() * one == if left.negative() {
        -(numerator as int)
    } else {
        numerator as int
    }) by (nonlinear_arith)
        requires
            left.units() == if left.negative() { -(left.size() as int) } else { left.size() as int },
            numerator == left.size() * one,
    ;
    let signed: int = if flipped { -(right.size() as int) } else { right.size() as int };
    assert(found.units() * signed == if flipped {
        -(found.units() * right.size())
    } else {
        found.units() * right.size()
    }) by (nonlinear_arith)
        requires
            signed == if flipped { -(right.size() as int) } else { right.size() as int },
    ;
    assert(other.units() * signed == if flipped {
        -(other.units() * right.size())
    } else {
        other.units() * right.size()
    }) by (nonlinear_arith)
        requires
            signed == if flipped { -(right.size() as int) } else { right.size() as int },
    ;
}

/// What is nearest in size is nearest with its sign.
proof fn lemma_signed_gap(
    size: nat,
    negative: bool,
    other: Binary64,
    numerator: nat,
    denominator: nat,
)
    requires
        gap((denominator * size) as int, numerator as int) <= gap(
            (denominator * other.size()) as int,
            numerator as int,
        ),
    ensures
        ({
            let found: int = if negative { -(size as int) } else { size as int };
            let exact: int = if negative { -(numerator as int) } else { numerator as int };
            gap(found * denominator, exact) <= gap(other.units() * denominator, exact)
        }),
{
    let found: int = if negative { -(size as int) } else { size as int };
    assert(found * denominator == if negative {
        -(denominator * size)
    } else {
        (denominator * size) as int
    }) by (nonlinear_arith)
        requires
            found == if negative { -(size as int) } else { size as int },
    ;
    let far = other.size();
    assert(other.units() * denominator == if other.negative() {
        -(denominator * far)
    } else {
        (denominator * far) as int
    }) by (nonlinear_arith)
        requires
            other.units() == if other.negative() { -(far as int) } else { far as int },
    ;
    assert(denominator * far >= 0) by (nonlinear_arith);
}

/// Sums and products do not depend on the order of two numbers.
pub proof fn order_does_not_matter(left: Binary64, right: Binary64)
    ensures
        left.plus_spec(right) == right.plus_spec(left),
        left.times_spec(right) == right.times_spec(left),
{
    assert(left.size() * right.size() == right.size() * left.size()) by (nonlinear_arith);
    if left.infinite() && right.infinite() && left.negative() == right.negative() {
        assert(left.bits == right.bits);
    }
}

/// Of two numbers exactly one is below the other, or they are equal; both zeros are equal,
/// what is not a number is neither, and every finite number lies between the infinities.
pub proof fn numbers_are_ordered(left: Binary64, right: Binary64)
    ensures
        left.nan() || right.nan() ==> !left.below(right) && !left.equals(right) && !left.at_most(
            right,
        ),
        !left.nan() && !right.nan() ==> {
            &&& left.below(right) || right.below(left) || left.equals(right)
            &&& !(left.below(right) && right.below(left))
            &&& !(left.below(right) && left.equals(right))
            &&& left.at_most(right) <==> left.below(right) || left.equals(right)
        },
        left.equals(right) ==> left.bits == right.bits || (left.magnitude_bits() == 0
            && right.magnitude_bits() == 0),
        left.positive_finite() <==> left.finite() && left.units() > 0,
        left.finite() ==> left.below(Binary64 { bits: INFINITY_BITS }),
{
    lemma_size_zero(left.magnitude_bits());
    lemma_size_zero(right.magnitude_bits());
    if left.equals(right) {
        lemma_same_size(left.magnitude_bits(), right.magnitude_bits());
    }
    if left.finite() {
        lemma_magnitude_increases(left.magnitude_bits(), INFINITY_BITS as nat);
    }
}

/// A larger quotient does not round to a smaller double.
pub proof fn rounding_keeps_order(smaller: nat, larger: nat, denominator: nat)
    requires
        smaller <= larger,
    ensures
        nearest(smaller, denominator) <= nearest(larger, denominator),
{
    lemma_nearest_bound(smaller, denominator);
    nearest_is_reached(smaller, denominator);
    reached_is_a_bound(larger, denominator, nearest(smaller, denominator));
}

/// A product that is a double is not rounded.
pub proof fn products_are_exact(left: Binary64, right: Binary64, product: Binary64)
    requires
        left.finite(),
        right.finite(),
        product.finite(),
        left.units() * right.units() == product.units() * one_in_units(),
    ensures
        left.times_spec(right).finite(),
        left.times_spec(right).units() == product.units(),
{
    let one = one_in_units();
    vstd::arithmetic::power2::lemma_pow2_pos(1074);
    lemma_size_zero(0);
    lemma_size_zero(product.magnitude_bits());
    doubles_round_to_themselves(one, product.magnitude_bits());
    let flipped = left.negative() != right.negative();
    let size = left.size() * right.size();
    assert(left.units() * right.units() == if flipped {
        -(size as int)
    } else {
        size as int
    }) by (nonlinear_arith)
        requires
            left.units() == if left.negative() { -(left.size() as int) } else { left.size() as int },
            right.units() == if right.negative() {
                -(right.size() as int)
            } else {
                right.size() as int
            },
            size == left.size() * right.size(),
            flipped == (left.negative() != right.negative()),
    ;
    let signed = product.units();
    assert(signed * one >= 0 <==> signed >= 0) by (nonlinear_arith)
        requires
            one > 0,
    ;
    assert(signed * one == 0 <==> signed == 0) by (nonlinear_arith)
        requires
            one > 0,
    ;
    assert((-signed) * one == -(signed * one)) by (nonlinear_arith);
    assert(size == one * product.size()) by (nonlinear_arith)
        requires
            size == product.size() * one,
    ;
    let found = left.times_spec(right);
    assert(found.magnitude_bits() == product.magnitude_bits());
}

/// The double is the whole number.
pub open spec fn is_whole(value: Binary64, number: int) -> bool {
    value.finite() && value.units() == number * one_in_units()
}

/// Every whole number of fewer than 54 bits is a double.
pub proof fn whole_numbers_are_doubles(number: int) -> (value: Binary64)
    requires
        -0x0020_0000_0000_0000 < number < 0x0020_0000_0000_0000,
    ensures
        is_whole(value, number),
{
    let one = one_in_units();
    if number >= 0 {
        whole_numbers_are_exact(number as nat);
        Binary64::whole_spec(number as nat)
    } else {
        let size = (-number) as nat;
        whole_numbers_are_exact(size);
        let value = Binary64::whole_spec(size);
        differences_are_sums(value, value);
        assert(-(size * one) == number * one) by (nonlinear_arith)
            requires
                size == -number,
        ;
        value.negated_spec()
    }
}

/// Sums, differences and products of whole numbers are exact while they have fewer than
/// 54 bits.
pub proof fn whole_arithmetic_is_exact(left: Binary64, right: Binary64, first: int, second: int)
    requires
        is_whole(left, first),
        is_whole(right, second),
    ensures
        -0x0020_0000_0000_0000 < first + second < 0x0020_0000_0000_0000 ==> is_whole(
            left.plus_spec(right),
            first + second,
        ),
        -0x0020_0000_0000_0000 < first - second < 0x0020_0000_0000_0000 ==> is_whole(
            left.minus_spec(right),
            first - second,
        ),
        -0x0020_0000_0000_0000 < first * second < 0x0020_0000_0000_0000 ==> is_whole(
            left.times_spec(right),
            first * second,
        ),
{
    let one = one_in_units();
    if -0x0020_0000_0000_0000 < first + second < 0x0020_0000_0000_0000 {
        let sum = whole_numbers_are_doubles(first + second);
        assert((first + second) * one == first * one + second * one) by (nonlinear_arith);
        sums_are_exact(left, right, sum);
    }
    if -0x0020_0000_0000_0000 < first - second < 0x0020_0000_0000_0000 {
        let difference = whole_numbers_are_doubles(first - second);
        assert((first - second) * one == first * one - second * one) by (nonlinear_arith);
        differences_are_sums(left, right);
        sums_are_exact(left, right.negated_spec(), difference);
    }
    if -0x0020_0000_0000_0000 < first * second < 0x0020_0000_0000_0000 {
        let product = whole_numbers_are_doubles(first * second);
        assert((first * one) * (second * one) == ((first * second) * one) * one)
            by (nonlinear_arith);
        products_are_exact(left, right, product);
    }
}

/// Every whole number of fewer than 54 bits, halved up to a thousand times, is a double.
pub proof fn halves_are_doubles(number: nat, halvings: nat) -> (value: Binary64)
    requires
        number < 0x0020_0000_0000_0000,
        halvings <= 1_000,
    ensures
        value.finite(),
        !value.negative(),
        value.units() == number * pow2((1074 - halvings) as nat),
{
    lemma_size_zero(0);
    let unit = pow2((1074 - halvings) as nat);
    if number == 0 {
        assert(number * unit == 0) by (nonlinear_arith)
            requires
                number == 0,
        ;
        Binary64 { bits: 0 }
    } else {
        let places = lemma_normal(number);
        let shift = (1074 - halvings - places) as nat;
        let significand = number * pow2(places);
        let bits = shift * 0x0010_0000_0000_0000 + significand;
        lemma_magnitude_of(shift, significand);
        lemma_pow2_adds(places, shift);
        assert(significand * pow2(shift) == number * unit) by (nonlinear_arith)
            requires
                significand == number * pow2(places),
                pow2(places) * pow2(shift) == unit,
        ;
        assert(shift * 0x0010_0000_0000_0000 <= 1074 * 0x0010_0000_0000_0000);
        Binary64 { bits: bits as u64 }
    }
}

} // verus!
