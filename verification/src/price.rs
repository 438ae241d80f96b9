//! Prices as exchanges write them.

use vstd::prelude::*;

use crate::float::decimal::{decimal_bits, nearest_decimal, ten_to};
use crate::float::arithmetic::one_in_units;
use crate::float::bounds::gap;
use crate::float::natural::Natural;
use crate::float::round::{
    magnitude, reached_is_a_bound, rounding_is_closest, rounding_keeps_sides, INFINITY_BITS,
};
use crate::float::Binary64;
use crate::text::{
    all_digits, between, characters, decimal, decimals_read_back, digits_value, find, find_from,
    is_digit, searches_find_the_first_place, signed_decimal, splits_part_at_the_first_separator,
};

verus! {

/// Where the exponent's letter stands, or the length.
pub open spec fn exponent_mark(text: Seq<char>) -> int {
    let lower = find_from(text, 'e', 0);
    let upper = find_from(text, 'E', 0);
    if lower <= upper {
        lower
    } else {
        upper
    }
}

/// The exponent that a text with an optional sign and at least one digit writes.
pub open spec fn exponent_value(text: Seq<char>) -> Option<int> {
    let signed = text.len() > 0 && (text[0] == '-' || text[0] == '+');
    let digits = if signed { text.subrange(1, text.len() as int) } else { text };
    if digits.len() == 0 || !all_digits(digits) {
        None
    } else if signed && text[0] == '-' {
        Some(-(digits_value(digits) as int))
    } else {
        Some(digits_value(digits) as int)
    }
}

/// The non-negative decimal number that a text writes, as digits and a power of
/// ten: an optional plus sign, digits with or without a point, and an optional
/// exponent. There is at least one digit before or behind the point.
pub open spec fn decimal_number(text: Seq<char>) -> Option<(nat, int)> {
    let body = if text.len() > 0 && text[0] == '+' {
        text.subrange(1, text.len() as int)
    } else {
        text
    };
    let mark = exponent_mark(body);
    let mantissa = body.subrange(0, mark);
    let exponent = if mark < body.len() {
        exponent_value(body.subrange(mark + 1, body.len() as int))
    } else {
        Some(0int)
    };
    let point = find_from(mantissa, '.', 0);
    let whole = mantissa.subrange(0, point);
    let fraction = if point < mantissa.len() {
        mantissa.subrange(point + 1, mantissa.len() as int)
    } else {
        Seq::empty()
    };
    let digits = whole + fraction;
    if exponent is None || digits.len() == 0 || !all_digits(digits) {
        None
    } else {
        Some((digits_value(digits), exponent->Some_0 - fraction.len()))
    }
}

/// The price that a text writes: the double nearest to its number, if that is
/// positive and finite.
pub open spec fn parse_price_spec(text: Seq<char>) -> Option<Binary64> {
    match decimal_number(text) {
        Some((digits, exponent)) => {
            let bits = decimal_bits(digits, exponent);
            if 0 < bits < INFINITY_BITS {
                Some(Binary64 { bits: bits as u64 })
            } else {
                None
            }
        },
        None => None,
    }
}

/// A number taken as a price, if it is positive and finite.
pub fn valid_price(value: Binary64) -> (result: Option<Binary64>)
    ensures
        result == if value.positive_finite() {
            Some(value)
        } else {
            None
        },
{
    if value.is_positive_finite() {
        Some(value)
    } else {
        None
    }
}

/// Digits write a number below ten to their count.
proof fn lemma_digits_bound(text: Seq<char>)
    requires
        all_digits(text),
    ensures
        digits_value(text) < ten_to(text.len()),
    decreases text.len(),
{
    if text.len() > 0 {
        assert forall|i: int| 0 <= i < text.drop_last().len() implies is_digit(
            #[trigger] text.drop_last()[i],
        ) by {
            assert(is_digit(text[i]));
        }
        lemma_digits_bound(text.drop_last());
        assert(is_digit(text[text.len() - 1]));
    }
}

/// The number that decimal digits write, if all are digits.
fn read_digits(text: &[char]) -> (result: Option<Natural>)
    ensures
        match result {
            Some(number) => all_digits(text@) && number@ == digits_value(text@),
            None => !all_digits(text@),
        },
{
    let mut number: Natural = Natural::from_u64(0);
    let mut index: usize = 0;
    while index < text.len()
        invariant
            index <= text.len(),
            all_digits(text@.take(index as int)),
            number@ == digits_value(text@.take(index as int)),
        decreases text.len() - index,
    {
        let character: char = text[index];
        if character < '0' || character > '9' {
            proof {
                assert(!is_digit(text@[index as int]));
            }
            return None;
        }
        number = number.scaled(10, (character as u32 - '0' as u32) as u64);
        proof {
            let seen = text@.take(index + 1);
            assert(seen.drop_last() =~= text@.take(index as int));
            assert forall|i: int| 0 <= i < seen.len() implies is_digit(#[trigger] seen[i]) by {
                if i < index {
                    assert(text@.take(index as int)[i] == seen[i]);
                }
            }
        }
        index = index + 1;
    }
    proof {
        assert(text@.take(text@.len() as int) =~= text@);
    }
    Some(number)
}

/// An exponent with absolute value up to this is read exactly; a larger one stays
/// larger.
const EXPONENT_CAP: i128 = 0x1_0000_0000_0000_0000_0000_0000;

/// The number that decimal digits write, cut off at the cap.
spec fn capped_value(digits: Seq<char>) -> int {
    if digits_value(digits) > EXPONENT_CAP {
        EXPONENT_CAP as int
    } else {
        digits_value(digits) as int
    }
}

/// The value of one more digit.
proof fn lemma_one_more_digit(digits: Seq<char>, length: int)
    requires
        0 <= length < digits.len(),
        all_digits(digits.take(length)),
        is_digit(digits[length]),
    ensures
        all_digits(digits.take(length + 1)),
        digits_value(digits.take(length + 1)) == 10 * digits_value(digits.take(length))
            + (digits[length] as int - '0' as int),
{
    let seen = digits.take(length + 1);
    assert(seen.drop_last() =~= digits.take(length));
    assert forall|i: int| 0 <= i < seen.len() implies is_digit(#[trigger] seen[i]) by {
        if i < length {
            assert(digits.take(length)[i] == seen[i]);
        }
    }
}

/// The exponent that a text writes, cut off at the cap on either side.
fn read_exponent(text: &[char]) -> (result: Option<i128>)
    ensures
        result is Some <==> exponent_value(text@) is Some,
        result matches Some(value) ==> {
            let exact = exponent_value(text@)->Some_0;
            &&& -EXPONENT_CAP <= value <= EXPONENT_CAP
            &&& value == exact || (value == EXPONENT_CAP && exact > EXPONENT_CAP) || (value
                == -EXPONENT_CAP && exact < -EXPONENT_CAP)
        },
{
    let negative: bool = text.len() > 0 && text[0] == '-';
    let signed: bool = negative || (text.len() > 0 && text[0] == '+');
    let start: usize = if signed { 1 } else { 0 };
    let ghost digits = if signed { text@.subrange(1, text@.len() as int) } else { text@ };
    proof {
        assert(text@.subrange(0, text@.len() as int) =~= text@);
    }
    if start == text.len() {
        return None;
    }
    let mut value: i128 = 0;
    let mut index: usize = start;
    while index < text.len()
        invariant
            start <= index <= text.len(),
            digits == text@.subrange(start as int, text@.len() as int),
            digits == if signed { text@.subrange(1, text@.len() as int) } else { text@ },
            signed == (text@.len() > 0 && (text@[0] == '-' || text@[0] == '+')),
            0 <= value <= EXPONENT_CAP,
            all_digits(digits.take(index - start)),
            value == capped_value(digits.take(index - start)),
        decreases text.len() - index,
    {
        let character: char = text[index];
        proof {
            assert(digits[index - start] == character);
        }
        if character < '0' || character > '9' {
            proof {
                assert(!is_digit(digits[index - start]));
            }
            return None;
        }
        proof {
            lemma_one_more_digit(digits, index - start);
        }
        let next: i128 = value * 10 + (character as u32 - '0' as u32) as i128;
        value = if next > EXPONENT_CAP { EXPONENT_CAP } else { next };
        index = index + 1;
    }
    proof {
        assert(digits.take(digits.len() as int) =~= digits);
    }
    Some(if negative { -value } else { value })
}

/// Beyond the cap an exponent makes every text of digits infinite or zero, as the
/// cap itself does.
proof fn lemma_cap_decides(digits: nat, places: nat, fraction: nat, exponent: int, capped: int)
    requires
        digits < ten_to(places),
        fraction <= places <= u64::MAX,
        (capped == EXPONENT_CAP && exponent > EXPONENT_CAP) || (capped == -EXPONENT_CAP && exponent
            < -EXPONENT_CAP),
    ensures
        decimal_bits(digits, exponent - fraction) == decimal_bits(digits, capped - fraction),
{
    if digits == 0 {
        crate::float::decimal::lemma_zero(exponent - fraction);
        crate::float::decimal::lemma_zero(capped - fraction);
    } else if capped > 0 {
        crate::float::decimal::lemma_huge(digits, (exponent - fraction) as nat);
        crate::float::decimal::lemma_huge(digits, (capped - fraction) as nat);
    } else {
        crate::float::decimal::lemma_tiny(digits, places, exponent - fraction);
        crate::float::decimal::lemma_tiny(digits, places, capped - fraction);
    }
}

/// The price that a text writes, if it is positive and finite.
pub fn parse_price(text: &str) -> (result: Option<Binary64>)
    ensures
        result == parse_price_spec(text@),
{
    let all: Vec<char> = characters(text);
    let start: usize = if all.len() > 0 && all[0] == '+' { 1 } else { 0 };
    let body: Vec<char> = between(&all, start, all.len());
    proof {
        assert(all@.subrange(0, all@.len() as int) =~= all@);
    }
    let lower: usize = find(&body, 'e', 0);
    let upper: usize = find(&body, 'E', 0);
    let mark: usize = if lower <= upper { lower } else { upper };
    let mantissa: Vec<char> = between(&body, 0, mark);
    let exponent: i128 = if mark < body.len() {
        match read_exponent(&between(&body, mark + 1, body.len())) {
            Some(value) => value,
            None => {
                return None;
            },
        }
    } else {
        0
    };
    let ghost exact = if mark < body@.len() {
        exponent_value(body@.subrange(mark + 1, body@.len() as int))->Some_0
    } else {
        0int
    };
    let point: usize = find(&mantissa, '.', 0);
    let mut digits: Vec<char> = between(&mantissa, 0, point);
    let ghost whole = digits@;
    let mut fraction: Vec<char> = if point < mantissa.len() {
        between(&mantissa, point + 1, mantissa.len())
    } else {
        Vec::new()
    };
    let fraction_length: usize = fraction.len();
    let ghost tail = fraction@;
    digits.append(&mut fraction);
    proof {
        assert(digits@ == whole + tail);
        assert(point < mantissa@.len() || tail =~= Seq::<char>::empty());
    }
    if digits.len() == 0 {
        return None;
    }
    let number: Natural = match read_digits(&digits) {
        Some(number) => number,
        None => {
            return None;
        },
    };
    proof {
        lemma_digits_bound(digits@);
        if exponent != exact {
            lemma_cap_decides(
                number@,
                digits@.len(),
                fraction_length as nat,
                exact,
                exponent as int,
            );
        }
    }
    let bits: u64 = nearest_decimal(
        &number,
        digits.len() as u64,
        exponent - fraction_length as i128,
    );
    if 0 < bits && bits < INFINITY_BITS {
        Some(Binary64 { bits })
    } else {
        None
    }
}

/// A character stands nowhere in a text, so a search for it reaches the end.
proof fn lemma_absent(text: Seq<char>, wanted: char)
    requires
        forall|i: int| 0 <= i < text.len() ==> #[trigger] text[i] != wanted,
    ensures
        find_from(text, wanted, 0) == text.len(),
{
    searches_find_the_first_place(text, wanted, 0);
}

/// A text of digits and a point, without an exponent.
spec fn plain(whole: Seq<char>, fraction: Seq<char>) -> Seq<char> {
    whole + seq!['.'] + fraction
}

proof fn lemma_plain_parts(whole: Seq<char>, fraction: Seq<char>)
    requires
        all_digits(whole),
        all_digits(fraction),
    ensures
        all_digits(whole + fraction),
        find_from(plain(whole, fraction), '.', 0) == whole.len(),
        find_from(whole, '.', 0) == whole.len(),
        forall|i: int|
            0 <= i < plain(whole, fraction).len() ==> ({
                let character = #[trigger] plain(whole, fraction)[i];
                character != 'e' && character != 'E' && character != '+' && character != '-'
            }),
        forall|i: int|
            0 <= i < whole.len() ==> ({
                let character = #[trigger] whole[i];
                character != 'e' && character != 'E' && character != '+' && character != '-'
            }),
{
    let text = plain(whole, fraction);
    assert forall|i: int| 0 <= i < (whole + fraction).len() implies is_digit(
        #[trigger] (whole + fraction)[i],
    ) by {
        if i < whole.len() {
            assert(is_digit(whole[i]));
        } else {
            assert(is_digit(fraction[i - whole.len()]));
        }
    }
    assert(!whole.contains('.')) by {
        if whole.contains('.') {
            let i = choose|i: int| 0 <= i < whole.len() && whole[i] == '.';
            assert(is_digit(whole[i]));
        }
    }
    splits_part_at_the_first_separator(whole, '.', fraction);
    assert forall|i: int| 0 <= i < text.len() implies ({
        let character = #[trigger] text[i];
        character != 'e' && character != 'E' && character != '+' && character != '-'
    }) by {
        if i < whole.len() {
            assert(is_digit(whole[i]));
        } else if i > whole.len() {
            assert(is_digit(fraction[i - whole.len() - 1]));
        }
    }
    assert forall|i: int| 0 <= i < whole.len() implies ({
        let character = #[trigger] whole[i];
        character != 'e' && character != 'E' && character != '+' && character != '-'
    }) by {
        assert(is_digit(whole[i]));
    }
}

/// Digits with a point among them write the number of all digits, divided by ten for each
/// digit behind the point; without a point they write a whole number. An exponent behind
/// either multiplies it by so many tens, and a plus sign before it changes nothing.
pub proof fn decimals_write_numbers(
    whole: Seq<char>,
    fraction: Seq<char>,
    letter: char,
    exponent: int,
)
    requires
        all_digits(whole),
        all_digits(fraction),
        whole.len() + fraction.len() > 0,
        letter == 'e' || letter == 'E',
    ensures
        ({
            let text = whole + seq!['.'] + fraction;
            let digits = digits_value(whole + fraction);
            &&& decimal_number(text) == Some((digits, -(fraction.len() as int)))
            &&& decimal_number(seq!['+'] + text) == decimal_number(text)
            &&& decimal_number(text + seq![letter] + signed_decimal(exponent)) == Some(
                (digits, exponent - fraction.len()),
            )
            &&& whole.len() > 0 ==> decimal_number(whole) == Some((digits_value(whole), 0int))
            &&& whole.len() > 0 ==> decimal_number(whole + seq![letter] + signed_decimal(exponent))
                == Some((digits_value(whole), exponent))
        }),
{
    let text = plain(whole, fraction);
    lemma_plain_parts(whole, fraction);
    lemma_absent(text, 'e');
    lemma_absent(text, 'E');
    assert(text.subrange(0, text.len() as int) =~= text);
    assert(text.subrange(0, whole.len() as int) =~= whole);
    assert(text.subrange(whole.len() as int + 1, text.len() as int) =~= fraction);
    let led = seq!['+'] + text;
    assert(led.subrange(1, led.len() as int) =~= text);
    assert(text[0] != '+');
    lemma_with_exponent(text, letter, exponent);
    if whole.len() > 0 {
        lemma_absent(whole, 'e');
        lemma_absent(whole, 'E');
        assert(whole.subrange(0, whole.len() as int) =~= whole);
        assert(whole + Seq::<char>::empty() =~= whole);
        lemma_with_exponent(whole, letter, exponent);
    }
}

/// What an exponent adds to a text without one.
proof fn lemma_with_exponent(mantissa: Seq<char>, letter: char, exponent: int)
    requires
        letter == 'e' || letter == 'E',
        mantissa.len() > 0,
        mantissa[0] != '+',
        forall|i: int|
            0 <= i < mantissa.len() ==> #[trigger] mantissa[i] != 'e' && mantissa[i] != 'E',
    ensures
        decimal_number(mantissa + seq![letter] + signed_decimal(exponent)) == match decimal_number(
            mantissa,
        ) {
            Some((digits, places)) => Some((digits, places + exponent)),
            None => None,
        },
{
    let written = signed_decimal(exponent);
    let text = mantissa + seq![letter] + written;
    let size: nat = if exponent < 0 { (-exponent) as nat } else { exponent as nat };
    decimals_read_back(size);
    let digits = decimal(size);
    assert(is_digit(digits[0]));
    let minus = seq!['-'] + digits;
    assert(minus.subrange(1, minus.len() as int) =~= digits);
    assert(exponent_value(written) == Some(exponent));
    assert(!mantissa.contains(letter)) by {
        if mantissa.contains(letter) {
            let i = choose|i: int| 0 <= i < mantissa.len() && mantissa[i] == letter;
            assert(mantissa[i] != letter);
        }
    }
    splits_part_at_the_first_separator(mantissa, letter, written);
    let other = if letter == 'e' { 'E' } else { 'e' };
    assert forall|i: int| 0 <= i < text.len() implies #[trigger] text[i] != other by {
        if i < mantissa.len() {
            assert(text[i] == mantissa[i]);
        } else if i > mantissa.len() {
            let place = i - mantissa.len() - 1;
            assert(text[i] == written[place]);
            if exponent < 0 {
                if place > 0 {
                    assert(is_digit(digits[place - 1]));
                }
            } else {
                assert(is_digit(digits[place]));
            }
        }
    }
    lemma_absent(text, other);
    lemma_absent(mantissa, 'e');
    lemma_absent(mantissa, 'E');
    assert(exponent_mark(text) == mantissa.len());
    assert(text[0] == mantissa[0]);
    assert(text.subrange(0, mantissa.len() as int) =~= mantissa);
    assert(text.subrange(mantissa.len() as int + 1, text.len() as int) =~= written);
    assert(mantissa.subrange(0, mantissa.len() as int) =~= mantissa);
}

/// The price that a text writes is the double that no other is nearer to its number:
/// `digits` times ten to `exponent`. A text that writes no number, or zero, writes no
/// price.
pub proof fn prices_are_nearest_to_what_is_written(text: Seq<char>, other: Binary64)
    requires
        other.positive_finite(),
    ensures
        parse_price_spec(text) matches Some(price) ==> {
            let (digits, exponent) = decimal_number(text)->Some_0;
            &&& decimal_number(text) is Some
            &&& price.positive_finite()
            &&& digits > 0
            &&& exponent >= 0 ==> {
                let exact = (digits * ten_to(exponent as nat) * one_in_units()) as int;
                gap(price.units(), exact) <= gap(other.units(), exact)
            }
            &&& exponent < 0 ==> {
                let parts = ten_to((-exponent) as nat);
                let exact = (digits * one_in_units()) as int;
                gap(price.units() * parts, exact) <= gap(other.units() * parts, exact)
            }
        },
        decimal_number(text) is None ==> parse_price_spec(text) is None,
{
    if let Some(price) = parse_price_spec(text) {
        let (digits, exponent) = decimal_number(text)->Some_0;
        if digits == 0 {
            crate::float::decimal::lemma_zero(exponent);
        }
        if exponent >= 0 {
            let exact = digits * ten_to(exponent as nat) * one_in_units();
            rounding_is_closest(exact, 1, other.bits as nat);
        } else {
            let parts = ten_to((-exponent) as nat);
            crate::float::decimal::lemma_ten_beats_eight((-exponent) as nat);
            rounding_is_closest(digits * one_in_units(), parts, other.bits as nat);
            assert(parts * price.size() == price.units() * parts) by (nonlinear_arith)
                requires
                    price.units() == price.size(),
            ;
            assert(parts * other.size() == other.units() * parts) by (nonlinear_arith)
                requires
                    other.units() == other.size(),
            ;
        }
    }
}

/// A power of ten is ten times the one before.
pub proof fn tens_multiply(exponent: nat)
    ensures
        ten_to(0) == 1,
        ten_to(exponent + 1) == 10 * ten_to(exponent),
{
}

/// A text with a minus sign before its number writes no price.
pub proof fn negative_texts_write_no_price(text: Seq<char>)
    requires
        text.len() > 0,
        text[0] == '-',
    ensures
        parse_price_spec(text) is None,
{
    let mark = exponent_mark(text);
    searches_find_the_first_place(text, 'e', 0);
    searches_find_the_first_place(text, 'E', 0);
    let mantissa = text.subrange(0, mark);
    searches_find_the_first_place(mantissa, '.', 0);
    let point = find_from(mantissa, '.', 0);
    assert(mark > 0);
    assert(mantissa[0] == '-');
    assert(point > 0);
    let whole = mantissa.subrange(0, point);
    let fraction = if point < mantissa.len() {
        mantissa.subrange(point + 1, mantissa.len() as int)
    } else {
        Seq::empty()
    };
    assert((whole + fraction)[0] == '-');
    assert(!is_digit((whole + fraction)[0]));
}

/// A number that is written, above half the least double and not above the largest, is
/// always a price.
pub proof fn written_numbers_are_prices(text: Seq<char>)
    requires
        decimal_number(text) is Some,
    ensures
        ({
            let (digits, exponent) = decimal_number(text)->Some_0;
            let units = digits * one_in_units();
            let largest = magnitude((INFINITY_BITS - 1) as nat);
            &&& exponent >= 0 && 1 <= units * ten_to(exponent as nat) <= largest
                ==> parse_price_spec(text) is Some
            &&& exponent < 0 && 2 * units > ten_to((-exponent) as nat) && units <= largest
                * ten_to((-exponent) as nat) ==> parse_price_spec(text) is Some
        }),
{
    let (digits, exponent) = decimal_number(text)->Some_0;
    let units = digits * one_in_units();
    let largest = magnitude((INFINITY_BITS - 1) as nat);
    assert(magnitude(0) == 0 && magnitude(1) == 1);
    if exponent >= 0 {
        let power = ten_to(exponent as nat);
        assert(digits * power * one_in_units() == units * power) by (nonlinear_arith)
            requires
                units == digits * one_in_units(),
        ;
        rounding_keeps_sides(units * power, 1, (INFINITY_BITS - 1) as nat);
        rounding_keeps_sides(units * power, 1, 1);
    } else {
        let parts = ten_to((-exponent) as nat);
        crate::float::decimal::lemma_ten_beats_eight((-exponent) as nat);
        assert(parts * largest == largest * parts) by (nonlinear_arith);
        rounding_keeps_sides(units, parts, (INFINITY_BITS - 1) as nat);
        if 2 * units > parts {
            assert(parts * (magnitude(0) + magnitude(1)) == parts) by (nonlinear_arith)
                requires
                    magnitude(0) == 0,
                    magnitude(1) == 1,
            ;
            reached_is_a_bound(units, parts, 1);
        }
    }
}

} // verus!
