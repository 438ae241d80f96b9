//! RFC 3339 timestamps as Unix time.

use vstd::prelude::*;

use crate::text::{
    all_digits, between, characters, digits_value, find, find_from, is_digit, parse_i64,
    parse_i64_spec, split_once, split_once_spec, splits_part_at_the_first_separator, strip_suffix,
    strip_suffix_spec, stripping_undoes_adding,
};

verus! {

/// A date and a time of day, as written.
#[derive(Clone, Copy, Debug, PartialEq, Eq, Structural)]
pub struct CivilTime {
    /// The year.
    pub year: i64,
    /// The month, from 1.
    pub month: i64,
    /// The day of the month, from 1.
    pub day: i64,
    /// The hour.
    pub hour: i64,
    /// The minute.
    pub minute: i64,
    /// The second.
    pub second: i64,
    /// The millisecond.
    pub milli: i64,
}

/// The first three parts between separators; what follows a third separator is
/// left out.
pub open spec fn three_parts(text: Seq<char>, separator: char) -> Option<
    (Seq<char>, Seq<char>, Seq<char>),
> {
    match split_once_spec(text, separator) {
        Some((first, rest)) => match split_once_spec(rest, separator) {
            Some((second, last)) => Some(
                (first, second, last.subrange(0, find_from(last, separator, 0))),
            ),
            None => None,
        },
        None => None,
    }
}

fn split_in_three(text: &[char], separator: char) -> (result: Option<
    (Vec<char>, Vec<char>, Vec<char>),
>)
    ensures
        match result {
            Some((first, second, third)) => three_parts(text@, separator) == Some(
                (first@, second@, third@),
            ),
            None => three_parts(text@, separator) is None,
        },
{
    match split_once(text, separator) {
        Some((first, rest)) => match split_once(&rest, separator) {
            Some((second, last)) => {
                let end: usize = find(&last, separator, 0);
                Some((first, second, between(&last, 0, end)))
            },
            None => None,
        },
        None => None,
    }
}

/// The digits among the characters from `from` on, at most `count` of them, as a
/// number with `count` places.
pub open spec fn leading_digits(text: Seq<char>, from: int, count: nat) -> nat
    decreases text.len() - from, count,
{
    if count == 0 || from >= text.len() {
        0
    } else if is_digit(text[from]) {
        (text[from] as nat - '0' as nat) as nat * place((count - 1) as nat) + leading_digits(
            text,
            from + 1,
            (count - 1) as nat,
        )
    } else {
        leading_digits(text, from + 1, count)
    }
}

/// The weight of a decimal place.
pub open spec fn place(count: nat) -> nat
    decreases count,
{
    if count == 0 {
        1
    } else {
        10 * place((count - 1) as nat)
    }
}

fn read_millis(text: &[char]) -> (millis: i64)
    ensures
        millis == leading_digits(text@, 0, 3),
        0 <= millis <= 999,
{
    let mut millis: i64 = 0;
    let mut weight: i64 = 100;
    let mut left: u8 = 3;
    let mut index: usize = 0;
    proof {
        reveal_with_fuel(place, 4);
    }
    while index < text.len() && left > 0
        invariant
            index <= text.len(),
            left <= 3,
            left > 0 ==> weight == place((left - 1) as nat),
            left == 3 ==> weight == 100,
            left == 2 ==> weight == 10,
            left == 1 ==> weight == 1,
            0 <= millis,
            left == 3 ==> millis == 0,
            left == 2 ==> millis <= 900,
            left == 1 ==> millis <= 990,
            left == 0 ==> millis <= 999,
            leading_digits(text@, 0, 3) == millis + leading_digits(
                text@,
                index as int,
                left as nat,
            ),
        decreases text.len() - index,
    {
        proof {
            reveal_with_fuel(place, 4);
        }
        let character: char = text[index];
        if '0' <= character && character <= '9' {
            let digit: i64 = (character as u32 - '0' as u32) as i64;
            proof {
                assert(weight == 100 || weight == 10 || weight == 1);
                assert(digit * weight == if weight == 100 {
                    digit * 100
                } else if weight == 10 {
                    digit * 10
                } else {
                    digit as int
                });
            }
            millis = millis + digit * weight;
            weight = weight / 10;
            left = left - 1;
        }
        index = index + 1;
    }
    millis
}

/// The date and time that a text `YYYY-MM-DDTHH:MM:SS.fffZ` writes.
pub open spec fn read_civil_spec(text: Seq<char>) -> Option<CivilTime> {
    match strip_suffix_spec(text, "Z"@) {
        None => None,
        Some(body) => match split_once_spec(body, 'T') {
            None => None,
            Some((date, time)) => match (three_parts(date, '-'), three_parts(time, ':')) {
                (Some((year, month, day)), Some((hour, minute, seconds))) => {
                    let (second, fraction) = match split_once_spec(seconds, '.') {
                        Some(parts) => parts,
                        None => (seconds, Seq::empty()),
                    };
                    match (
                        (parse_i64_spec(year), parse_i64_spec(month), parse_i64_spec(day)),
                        (parse_i64_spec(hour), parse_i64_spec(minute), parse_i64_spec(second)),
                    ) {
                        (
                            (Some(year), Some(month), Some(day)),
                            (Some(hour), Some(minute), Some(second)),
                        ) => Some(
                            CivilTime {
                                year,
                                month,
                                day,
                                hour,
                                minute,
                                second,
                                milli: leading_digits(fraction, 0, 3) as i64,
                            },
                        ),
                        _ => None,
                    }
                },
                _ => None,
            },
        },
    }
}

/// The date and time that a text writes, if it writes one.
pub fn read_civil(text: &str) -> (result: Option<CivilTime>)
    ensures
        result == read_civil_spec(text@),
        result matches Some(civil) ==> 0 <= civil.milli <= 999,
{
    let body: Vec<char> = match strip_suffix(&characters(text), "Z") {
        Some(body) => body,
        None => {
            return None;
        },
    };
    let (date, time): (Vec<char>, Vec<char>) = match split_once(&body, 'T') {
        Some(parts) => parts,
        None => {
            return None;
        },
    };
    let (year, month, day): (Vec<char>, Vec<char>, Vec<char>) = match split_in_three(&date, '-') {
        Some(parts) => parts,
        None => {
            return None;
        },
    };
    let (hour, minute, seconds): (Vec<char>, Vec<char>, Vec<char>) = match split_in_three(
        &time,
        ':',
    ) {
        Some(parts) => parts,
        None => {
            return None;
        },
    };
    let (second, fraction): (Vec<char>, Vec<char>) = match split_once(&seconds, '.') {
        Some(parts) => parts,
        None => {
            let nothing: Vec<char> = Vec::new();
            proof {
                assert(nothing@ =~= Seq::<char>::empty());
            }
            (seconds, nothing)
        },
    };
    let milli: i64 = read_millis(&fraction);
    match (
        (parse_i64(&year), parse_i64(&month), parse_i64(&day)),
        (parse_i64(&hour), parse_i64(&minute), parse_i64(&second)),
    ) {
        ((Some(year), Some(month), Some(day)), (Some(hour), Some(minute), Some(second))) => Some(
            CivilTime { year, month, day, hour, minute, second, milli },
        ),
        _ => None,
    }
}

/// Division that rounds towards zero.
pub open spec fn truncated(dividend: int, divisor: int) -> int {
    if dividend < 0 {
        -((-dividend) / divisor)
    } else {
        dividend / divisor
    }
}

/// The year in which a date lies if years begin in March.
pub open spec fn march_year(year: int, month: int) -> int {
    if month <= 2 {
        year - 1
    } else {
        year
    }
}

/// 153 times the month's place in a year that begins in March, plus two.
pub open spec fn month_scale(month: int) -> int {
    153 * (if month > 2 {
        month - 3
    } else {
        month + 9
    }) + 2
}

/// The day of a year that begins in March, from zero.
pub open spec fn day_of_year(month: int, day: int) -> int {
    truncated(month_scale(month), 5) + day - 1
}

/// The day of a span of 400 years, from zero.
pub open spec fn day_of_era(year_of_era: int, month: int, day: int) -> int {
    year_of_era * 365 + year_of_era / 4 - year_of_era / 100 + day_of_year(month, day)
}

/// The days from 1970-01-01 to a date.
pub open spec fn days_from_civil(year: int, month: int, day: int) -> int {
    let shifted = march_year(year, month);
    let era = shifted / 400;
    era * 146_097 + day_of_era(shifted - era * 400, month, day) - 719_468
}

/// The Unix time in seconds of a date and time.
pub open spec fn unix_seconds_of(civil: CivilTime) -> int {
    days_from_civil(civil.year as int, civil.month as int, civil.day as int) * 86_400 + civil.hour
        * 3_600 + civil.minute * 60 + civil.second
}

/// The Unix time in milliseconds of a date and time.
pub open spec fn unix_millis_of(civil: CivilTime) -> int {
    unix_seconds_of(civil) * 1_000 + civil.milli
}

/// A number that a 64-bit integer can hold.
pub open spec fn fits(value: int) -> bool {
    i64::MIN <= value <= i64::MAX
}

/// Every step of the computation stays within 64 bits.
pub open spec fn civil_fits(civil: CivilTime) -> bool {
    let (month, day) = (civil.month as int, civil.day as int);
    let shifted = march_year(civil.year as int, month);
    let era = shifted / 400;
    let scaled = month_scale(month);
    let days = days_from_civil(civil.year as int, month, day);
    &&& fits(shifted)
    &&& fits(era * 400)
    &&& fits(if month > 2 { month - 3 } else { month + 9 })
    &&& fits(scaled - 2)
    &&& fits(scaled)
    &&& fits(day_of_year(month, day) + 1)
    &&& fits(day_of_year(month, day))
    &&& fits(day_of_era(shifted - era * 400, month, day))
    &&& fits(era * 146_097)
    &&& fits(days + 719_468)
    &&& fits(days)
    &&& fits(days * 86_400)
    &&& fits(civil.hour * 3_600)
    &&& fits(days * 86_400 + civil.hour * 3_600)
    &&& fits(civil.minute * 60)
    &&& fits(days * 86_400 + civil.hour * 3_600 + civil.minute * 60)
    &&& fits(unix_seconds_of(civil))
    &&& fits(unix_seconds_of(civil) * 1_000)
    &&& fits(unix_millis_of(civil))
}

/// The text writes no date and time, or one whose Unix time is computed within 64
/// bits.
pub open spec fn timestamp_fits(text: Seq<char>) -> bool {
    match read_civil_spec(text) {
        Some(civil) => civil_fits(civil),
        None => true,
    }
}

/// The Unix time in milliseconds that a text writes.
pub open spec fn parse_rfc3339_millis_spec(text: Seq<char>) -> Option<i64> {
    match read_civil_spec(text) {
        Some(civil) => Some(unix_millis_of(civil) as i64),
        None => None,
    }
}

/// The steps of the computation, each exact.
struct Steps {
    shifted: i128,
    era: i128,
    place: i128,
    scaled: i128,
    day_of_year: i128,
    day_of_era: i128,
    days: i128,
    seconds: i128,
    millis: i128,
}

fn compute(civil: CivilTime) -> (steps: Steps)
    requires
        0 <= civil.milli <= 999,
    ensures
        steps.shifted == march_year(civil.year as int, civil.month as int),
        steps.era == steps.shifted as int / 400,
        steps.place == if civil.month > 2 { civil.month - 3 } else { civil.month + 9 },
        steps.scaled == month_scale(civil.month as int),
        steps.day_of_year == day_of_year(civil.month as int, civil.day as int),
        steps.day_of_era == day_of_era(
            steps.shifted - steps.era * 400,
            civil.month as int,
            civil.day as int,
        ),
        steps.days == days_from_civil(civil.year as int, civil.month as int, civil.day as int),
        steps.seconds == unix_seconds_of(civil),
        steps.millis == unix_millis_of(civil),
        -0x1_0000_0000_0000_0000 <= steps.shifted <= 0x1_0000_0000_0000_0000,
        -0x1_0000_0000_0000_0000 <= steps.era <= 0x1_0000_0000_0000_0000,
        -0x200_0000_0000_0000_0000 <= steps.scaled <= 0x200_0000_0000_0000_0000,
        -0x400_0000_0000_0000_0000 <= steps.day_of_year <= 0x400_0000_0000_0000_0000,
        -0x10_0000_0000_0000_0000_0000 <= steps.days <= 0x10_0000_0000_0000_0000_0000,
        -0x100_0000_0000_0000_0000_0000_0000 <= steps.seconds
            <= 0x100_0000_0000_0000_0000_0000_0000,
{
    let month: i128 = civil.month as i128;
    let shifted: i128 = if month <= 2 { civil.year as i128 - 1 } else { civil.year as i128 };
    let era: i128 = whole_eras(shifted);
    let place: i128 = if month > 2 { month - 3 } else { month + 9 };
    let scaled: i128 = 153 * place + 2;
    let fifth: i128 = a_fifth(scaled);
    let day_of_year: i128 = fifth + civil.day as i128 - 1;
    let elapsed: i128 = days_before_year(shifted - era * 400);
    let day_of_era: i128 = elapsed + day_of_year;
    let days: i128 = era * 146_097 + day_of_era - 719_468;
    let seconds: i128 = days * 86_400 + civil.hour as i128 * 3_600 + civil.minute as i128 * 60
        + civil.second as i128;
    let millis: i128 = seconds * 1_000 + civil.milli as i128;
    Steps { shifted, era, place, scaled, day_of_year, day_of_era, days, seconds, millis }
}

/// The number of whole spans of 400 years before a year.
fn whole_eras(year: i128) -> (eras: i128)
    requires
        -0x1_0000_0000_0000_0000 <= year <= 0x1_0000_0000_0000_0000,
    ensures
        eras == year as int / 400,
        -0x1_0000_0000_0000_0000 <= eras <= 0x1_0000_0000_0000_0000,
        0 <= year - eras * 400 < 400,
{
    if year >= 0 {
        year / 400
    } else {
        let eras: i128 = (399 - year) / 400;
        -eras
    }
}

/// A fifth, rounded towards zero.
fn a_fifth(value: i128) -> (fifth: i128)
    requires
        -0x200_0000_0000_0000_0000 <= value <= 0x200_0000_0000_0000_0000,
    ensures
        fifth == truncated(value as int, 5),
        -0x200_0000_0000_0000_0000 <= fifth <= 0x200_0000_0000_0000_0000,
{
    if value < 0 {
        let fifth: i128 = (-value) / 5;
        -fifth
    } else {
        value / 5
    }
}

/// The days of a span of 400 years before one of its years.
fn days_before_year(year: i128) -> (days: i128)
    requires
        0 <= year < 400,
    ensures
        days == year * 365 + year as int / 4 - year as int / 100,
        0 <= days <= 200_000,
{
    year * 365 + year / 4 - year / 100
}

fn within(value: i128) -> (result: bool)
    ensures
        result == fits(value as int),
{
    -0x8000_0000_0000_0000 <= value && value <= 0x7fff_ffff_ffff_ffff
}

/// Whether the Unix time of a text's date and time is computed within 64 bits.
pub fn timestamp_in_range(text: &str) -> (result: bool)
    ensures
        result == timestamp_fits(text@),
{
    match read_civil(text) {
        None => true,
        Some(civil) => {
            let steps: Steps = compute(civil);
            let day_seconds: i128 = steps.days * 86_400;
            let hour_seconds: i128 = civil.hour as i128 * 3_600;
            let minute_seconds: i128 = civil.minute as i128 * 60;
            within(steps.shifted) && within(steps.era * 400) && within(steps.place) && within(
                steps.scaled - 2,
            ) && within(steps.scaled) && within(steps.day_of_year + 1) && within(
                steps.day_of_year,
            ) && within(steps.day_of_era) && within(steps.era * 146_097) && within(
                steps.days + 719_468,
            ) && within(steps.days) && within(day_seconds) && within(hour_seconds) && within(
                day_seconds + hour_seconds,
            ) && within(minute_seconds) && within(day_seconds + hour_seconds + minute_seconds)
                && within(steps.seconds) && within(steps.seconds * 1_000) && within(steps.millis)
        },
    }
}

/// Parses a timestamp such as `2026-07-10T14:20:14.823647Z` into Unix epoch
/// milliseconds.
pub fn parse_rfc3339_millis(text: &str) -> (result: Option<i64>)
    requires
        timestamp_fits(text@),
    ensures
        result == parse_rfc3339_millis_spec(text@),
{
    match read_civil(text) {
        Some(civil) => Some(compute(civil).millis as i64),
        None => None,
    }
}

/// A leap year of the Gregorian calendar.
pub open spec fn leap_year(year: int) -> bool {
    year % 4 == 0 && (year % 100 != 0 || year % 400 == 0)
}

/// The days of a month.
pub open spec fn days_in_month(year: int, month: int) -> int {
    if month == 2 {
        if leap_year(year) {
            29
        } else {
            28
        }
    } else if month == 4 || month == 6 || month == 9 || month == 11 {
        30
    } else {
        31
    }
}

/// The day count follows the Gregorian calendar: the epoch is 1970-01-01, each day
/// of a month counts one more, and so does the first day of the next month after
/// the last of this one.
pub proof fn day_count_follows_calendar(year: int, month: int, day: int)
    requires
        1 <= month <= 12,
        1 <= day <= days_in_month(year, month),
    ensures
        days_from_civil(1970, 1, 1) == 0,
        day < days_in_month(year, month) ==> days_from_civil(year, month, day + 1)
            == days_from_civil(year, month, day) + 1,
        day == days_in_month(year, month) && month < 12 ==> days_from_civil(year, month + 1, 1)
            == days_from_civil(year, month, day) + 1,
        day == days_in_month(year, month) && month == 12 ==> days_from_civil(year + 1, 1, 1)
            == days_from_civil(year, month, day) + 1,
{
    if month == 2 && day == days_in_month(year, month) {
        lemma_march_follows_february(year);
    }
}

/// The first of March follows the last of February.
proof fn lemma_march_follows_february(year: int)
    ensures
        days_from_civil(year, 3, 1) == days_from_civil(year, 2, days_in_month(year, 2)) + 1,
{
    let before = year - 1;
    let era = year / 400;
    let era_before = before / 400;
    let place = year - era * 400;
    let place_before = before - era_before * 400;
    lemma_year_in_era(year);
    if place == 0 {
        assert(era_before == era - 1 && place_before == 399);
    } else {
        assert(era_before == era && place_before == place - 1);
        lemma_quotients(place);
    }
}

proof fn lemma_year_in_era(year: int)
    ensures
        0 <= year - (year / 400) * 400 < 400,
        leap_year(year) == leap_year(year - (year / 400) * 400),
{
    let place = year - (year / 400) * 400;
    let era = year / 400;
    assert(year == 4 * (100 * era) + place);
    assert(year % 4 == place % 4);
    assert(year == 100 * (4 * era) + place);
    assert(year % 100 == place % 100);
    assert(year % 400 == place % 400);
}

proof fn lemma_quotients(place: int)
    requires
        0 < place < 400,
    ensures
        place / 4 - (place - 1) / 4 == if place % 4 == 0 {
            1int
        } else {
            0
        },
        place / 100 - (place - 1) / 100 == if place % 100 == 0 {
            1int
        } else {
            0
        },
{
}

/// A text of digits does not hold another character.
proof fn lemma_digits_only(text: Seq<char>, other: char)
    requires
        all_digits(text),
        !is_digit(other),
    ensures
        !text.contains(other),
{
    if text.contains(other) {
        let i = choose|i: int| 0 <= i < text.len() && text[i] == other;
        assert(is_digit(text[i]));
    }
}

/// Three texts of digits with a separator between them are parted into these.
proof fn lemma_three(first: Seq<char>, second: Seq<char>, third: Seq<char>, separator: char)
    requires
        !first.contains(separator),
        !second.contains(separator),
        !third.contains(separator),
    ensures
        three_parts(first + seq![separator] + second + seq![separator] + third, separator) == Some(
            (first, second, third),
        ),
{
    let rest = second + seq![separator] + third;
    assert(first + seq![separator] + second + seq![separator] + third =~= first + seq![separator]
        + rest);
    splits_part_at_the_first_separator(first, separator, rest);
    splits_part_at_the_first_separator(second, separator, third);
    splits_part_at_the_first_separator(third, separator, third);
    assert(third.subrange(0, third.len() as int) =~= third);
}

/// Digits within 64 bits read as their number.
proof fn lemma_number(digits: Seq<char>)
    requires
        all_digits(digits),
        digits.len() > 0,
        digits_value(digits) <= i64::MAX,
    ensures
        parse_i64_spec(digits) == Some(digits_value(digits) as i64),
{
    assert(is_digit(digits[0]));
}

/// Only the first three digits of a fraction count: tenths, hundredths, thousandths.
pub proof fn fractions_are_milliseconds(fraction: Seq<char>)
    requires
        all_digits(fraction),
    ensures
        ({
            let digit = |i: int|
                if i < fraction.len() {
                    fraction[i] as int - 48
                } else {
                    0
                };
            leading_digits(fraction, 0, 3) == 100 * digit(0) + 10 * digit(1) + digit(2)
        }),
{
    assert(place(0) == 1);
    assert(place(1) == 10 * place(0));
    assert(place(2) == 10 * place(1));
    lemma_one_digit(fraction, 0, 3);
    lemma_one_digit(fraction, 1, 2);
    lemma_one_digit(fraction, 2, 1);
    assert(leading_digits(fraction, 3, 0) == 0);
}

/// One digit of a fraction, and the rest.
proof fn lemma_one_digit(fraction: Seq<char>, from: int, count: nat)
    requires
        all_digits(fraction),
        0 <= from,
        1 <= count <= 3,
    ensures
        from >= fraction.len() ==> leading_digits(fraction, from, count) == 0,
        from < fraction.len() ==> 48 <= fraction[from] as int <= 57 && leading_digits(
            fraction,
            from,
            count,
        ) == (fraction[from] as int - 48) * (if count == 3 {
            100int
        } else if count == 2 {
            10
        } else {
            1
        }) + leading_digits(fraction, from + 1, (count - 1) as nat),
{
    assert(place(0) == 1);
    assert(place(1) == 10 * place(0));
    assert(place(2) == 10 * place(1));
    if from < fraction.len() {
        assert(is_digit(fraction[from]));
        let digit = (fraction[from] as nat - '0' as nat) as nat;
        let weight = place((count - 1) as nat);
        assert(digit * weight == digit * (if count == 3 {
            100int
        } else if count == 2 {
            10
        } else {
            1
        })) by (nonlinear_arith)
            requires
                weight == if count == 3 {
                    100int
                } else if count == 2 {
                    10
                } else {
                    1
                },
        ;
    }
}

/// The pieces of a timestamp make up the whole.
proof fn lemma_assembled(
    text: Seq<char>,
    body: Seq<char>,
    date: Seq<char>,
    time: Seq<char>,
    days: (Seq<char>, Seq<char>, Seq<char>),
    times: (Seq<char>, Seq<char>, Seq<char>),
    second: Seq<char>,
    fraction: Seq<char>,
)
    requires
        strip_suffix_spec(text, "Z"@) == Some(body),
        split_once_spec(body, 'T') == Some((date, time)),
        three_parts(date, '-') == Some(days),
        three_parts(time, ':') == Some(times),
        split_once_spec(times.2, '.') == Some((second, fraction)) || (split_once_spec(times.2, '.')
            is None && second == times.2 && fraction == Seq::<char>::empty()),
        parse_i64_spec(days.0) is Some,
        parse_i64_spec(days.1) is Some,
        parse_i64_spec(days.2) is Some,
        parse_i64_spec(times.0) is Some,
        parse_i64_spec(times.1) is Some,
        parse_i64_spec(second) is Some,
    ensures
        read_civil_spec(text) == Some(
            CivilTime {
                year: parse_i64_spec(days.0)->Some_0,
                month: parse_i64_spec(days.1)->Some_0,
                day: parse_i64_spec(days.2)->Some_0,
                hour: parse_i64_spec(times.0)->Some_0,
                minute: parse_i64_spec(times.1)->Some_0,
                second: parse_i64_spec(second)->Some_0,
                milli: leading_digits(fraction, 0, 3) as i64,
            },
        ),
{
}

/// A date does not hold the letter behind it.
proof fn lemma_date(year: Seq<char>, month: Seq<char>, day: Seq<char>)
    requires
        all_digits(year),
        all_digits(month),
        all_digits(day),
    ensures
        !(year + seq!['-'] + month + seq!['-'] + day).contains('T'),
{
    let date = year + seq!['-'] + month + seq!['-'] + day;
    if date.contains('T') {
        let i = choose|i: int| 0 <= i < date.len() && date[i] == 'T';
        let y = year.len() as int;
        let m = y + 1 + month.len();
        if i < y {
            assert(is_digit(year[i]));
        } else if y < i < m {
            assert(is_digit(month[i - y - 1]));
        } else if i > m {
            assert(is_digit(day[i - m - 1]));
        }
    }
}

/// Seconds with a fraction do not hold the sign between the parts of a time.
proof fn lemma_seconds_with_fraction(second: Seq<char>, fraction: Seq<char>)
    requires
        all_digits(second),
        all_digits(fraction),
    ensures
        !(second + seq!['.'] + fraction).contains(':'),
{
    let seconds = second + seq!['.'] + fraction;
    if seconds.contains(':') {
        let i = choose|i: int| 0 <= i < seconds.len() && seconds[i] == ':';
        if i < second.len() {
            assert(is_digit(second[i]));
        } else if i > second.len() {
            assert(is_digit(fraction[i - second.len() - 1]));
        }
    }
}

/// A date and a time of day are parted at the letter between them.
proof fn lemma_body(date: Seq<char>, time: Seq<char>)
    requires
        !date.contains('T'),
    ensures
        strip_suffix_spec(date + seq!['T'] + time + seq!['Z'], "Z"@) == Some(
            date + seq!['T'] + time,
        ),
        split_once_spec(date + seq!['T'] + time, 'T') == Some((date, time)),
{
    reveal_strlit("Z");
    assert("Z"@ =~= seq!['Z']);
    stripping_undoes_adding(date + seq!['T'] + time, "Z"@, date);
    splits_part_at_the_first_separator(date, 'T', time);
}

/// A date, a `T`, a time of day and a `Z` are read as the numbers in them, with or without
/// a fraction of the second.
pub proof fn timestamps_are_read_as_written(
    year: Seq<char>,
    month: Seq<char>,
    day: Seq<char>,
    hour: Seq<char>,
    minute: Seq<char>,
    second: Seq<char>,
    fraction: Seq<char>,
)
    requires
        all_digits(year) && year.len() > 0 && digits_value(year) <= i64::MAX,
        all_digits(month) && month.len() > 0 && digits_value(month) <= i64::MAX,
        all_digits(day) && day.len() > 0 && digits_value(day) <= i64::MAX,
        all_digits(hour) && hour.len() > 0 && digits_value(hour) <= i64::MAX,
        all_digits(minute) && minute.len() > 0 && digits_value(minute) <= i64::MAX,
        all_digits(second) && second.len() > 0 && digits_value(second) <= i64::MAX,
        all_digits(fraction),
    ensures
        ({
            let date = year + seq!['-'] + month + seq!['-'] + day;
            let start = date + seq!['T'] + hour + seq![':'] + minute + seq![':'] + second;
            let civil = CivilTime {
                year: digits_value(year) as i64,
                month: digits_value(month) as i64,
                day: digits_value(day) as i64,
                hour: digits_value(hour) as i64,
                minute: digits_value(minute) as i64,
                second: digits_value(second) as i64,
                milli: 0,
            };
            &&& read_civil_spec(start + seq!['Z']) == Some(civil)
            &&& read_civil_spec(start + seq!['.'] + fraction + seq!['Z']) == Some(
                CivilTime { milli: leading_digits(fraction, 0, 3) as i64, ..civil },
            )
        }),
{
    let date = year + seq!['-'] + month + seq!['-'] + day;
    let exact = hour + seq![':'] + minute + seq![':'] + second;
    let seconds = second + seq!['.'] + fraction;
    let finer = hour + seq![':'] + minute + seq![':'] + seconds;
    let start = date + seq!['T'] + hour + seq![':'] + minute + seq![':'] + second;
    lemma_digits_only(year, '-');
    lemma_digits_only(month, '-');
    lemma_digits_only(day, '-');
    lemma_digits_only(hour, ':');
    lemma_digits_only(minute, ':');
    lemma_digits_only(second, ':');
    lemma_digits_only(second, '.');
    lemma_seconds_with_fraction(second, fraction);
    lemma_date(year, month, day);
    lemma_three(year, month, day, '-');
    lemma_three(hour, minute, second, ':');
    lemma_three(hour, minute, seconds, ':');
    lemma_body(date, exact);
    lemma_body(date, finer);
    splits_part_at_the_first_separator(second, '.', fraction);
    lemma_number(year);
    lemma_number(month);
    lemma_number(day);
    lemma_number(hour);
    lemma_number(minute);
    lemma_number(second);
    assert(leading_digits(Seq::<char>::empty(), 0, 3) == 0);
    assert(start =~= date + seq!['T'] + exact);
    assert(start + seq!['.'] + fraction =~= date + seq!['T'] + finer);
    lemma_assembled(
        start + seq!['Z'],
        start,
        date,
        exact,
        (year, month, day),
        (hour, minute, second),
        second,
        Seq::empty(),
    );
    lemma_assembled(
        start + seq!['.'] + fraction + seq!['Z'],
        start + seq!['.'] + fraction,
        date,
        finer,
        (year, month, day),
        (hour, minute, seconds),
        second,
        fraction,
    );
}

/// A text that does not end with `Z` is no timestamp.
pub proof fn timestamps_are_in_universal_time(text: Seq<char>)
    requires
        text.len() == 0 || text.last() != 'Z',
    ensures
        read_civil_spec(text) is None,
        parse_rfc3339_millis_spec(text) is None,
{
    reveal_strlit("Z");
    if let Some(body) = strip_suffix_spec(text, "Z"@) {
        stripping_undoes_adding(body, "Z"@, text);
        assert(text.last() == "Z"@[0]);
    }
}

/// A day has 86400 seconds, an hour 3600, a minute 60, and a second 1000 milliseconds; the
/// time that a text writes is that of its date and time of day.
pub proof fn times_of_day_add_up(civil: CivilTime, text: Seq<char>)
    ensures
        unix_millis_of(civil) == days_from_civil(
            civil.year as int,
            civil.month as int,
            civil.day as int,
        ) * 86_400_000 + civil.hour * 3_600_000 + civil.minute * 60_000 + civil.second * 1_000
            + civil.milli,
        read_civil_spec(text) == Some(civil) && i64::MIN <= unix_millis_of(civil) <= i64::MAX ==> (
        parse_rfc3339_millis_spec(text) matches Some(millis) && millis == unix_millis_of(civil)),
        read_civil_spec(text) is None ==> parse_rfc3339_millis_spec(text) is None,
{
}

} // verus!
