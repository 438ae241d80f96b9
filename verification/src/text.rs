//! Text as a sequence of characters: searching, splitting, numbers in decimal.

use vstd::prelude::*;
use vstd::string::StringExecFns;

verus! {

/// `String::push` appends one character.
pub assume_specification[ String::push ](text: &mut String, character: char)
    ensures
        final(text)@ == old(text)@.push(character),
;

/// The characters of a text.
pub fn characters(text: &str) -> (result: Vec<char>)
    ensures
        result@ == text@,
{
    let mut result: Vec<char> = Vec::new();
    for character in iter: text.chars()
        invariant
            result@ == iter.seq().take(iter.index()),
            iter.seq() == text@,
    {
        result.push(character);
    }
    result
}

/// The text of some characters.
pub fn text_of(characters: &[char]) -> (result: String)
    ensures
        result@ == characters@,
{
    let mut result: String = String::new();
    let mut index: usize = 0;
    while index < characters.len()
        invariant
            index <= characters.len(),
            result@ == characters@.take(index as int),
        decreases characters.len() - index,
    {
        result.push(characters[index]);
        index = index + 1;
        proof {
            assert(characters@.take(index as int).drop_last() == characters@.take(index - 1));
        }
    }
    result
}

/// Whether two texts have the same characters.
pub fn same_text(left: &str, right: &str) -> (result: bool)
    ensures
        result == (left@ == right@),
{
    let first: Vec<char> = characters(left);
    let second: Vec<char> = characters(right);
    if first.len() != second.len() {
        return false;
    }
    let mut index: usize = 0;
    while index < first.len()
        invariant
            index <= first.len() == second.len(),
            forall|i: int| 0 <= i < index ==> first@[i] == second@[i],
            first@ == left@,
            second@ == right@,
        decreases first.len() - index,
    {
        if first[index] != second[index] {
            return false;
        }
        index = index + 1;
    }
    proof {
        assert(left@ =~= right@);
    }
    true
}

/// The views of some texts.
pub open spec fn views(texts: Seq<String>) -> Seq<Seq<char>> {
    texts.map_values(|text: String| text@)
}

/// The upper-case form of an ASCII letter; any other character itself.
pub open spec fn ascii_upper(character: char) -> char {
    if 'a' <= character <= 'z' {
        (character as u8 - 32) as u8 as char
    } else {
        character
    }
}

/// The lower-case form of an ASCII letter; any other character itself.
pub open spec fn ascii_lower(character: char) -> char {
    if 'A' <= character <= 'Z' {
        (character as u8 + 32) as u8 as char
    } else {
        character
    }
}

/// A text with its ASCII letters in upper case.
pub open spec fn uppercased(text: Seq<char>) -> Seq<char> {
    text.map_values(|character: char| ascii_upper(character))
}

/// A text with its ASCII letters in lower case.
pub open spec fn lowercased(text: Seq<char>) -> Seq<char> {
    text.map_values(|character: char| ascii_lower(character))
}

/// A text with its ASCII letters in upper case.
pub fn to_ascii_uppercase(text: &str) -> (result: String)
    ensures
        result@ == uppercased(text@),
{
    let source: Vec<char> = characters(text);
    let mut result: String = String::new();
    let mut index: usize = 0;
    while index < source.len()
        invariant
            index <= source.len(),
            result@ == uppercased(source@.take(index as int)),
        decreases source.len() - index,
    {
        let character: char = source[index];
        let upper: char = if 'a' <= character && character <= 'z' {
            (character as u8 - 32) as char
        } else {
            character
        };
        result.push(upper);
        index = index + 1;
        proof {
            assert(result@ =~= uppercased(source@.take(index as int)));
        }
    }
    proof {
        assert(source@.take(source@.len() as int) =~= source@);
    }
    result
}

/// Whether two texts are the same but for the case of ASCII letters.
pub fn same_ignoring_ascii_case(left: &[char], right: &[char]) -> (result: bool)
    ensures
        result == (lowercased(left@) == lowercased(right@)),
{
    if left.len() != right.len() {
        proof {
            assert(lowercased(left@).len() != lowercased(right@).len());
        }
        return false;
    }
    let mut index: usize = 0;
    while index < left.len()
        invariant
            index <= left.len() == right.len(),
            forall|i: int| 0 <= i < index ==> ascii_lower(left@[i]) == ascii_lower(right@[i]),
        decreases left.len() - index,
    {
        let first: char = left[index];
        let second: char = right[index];
        let first_lower: char = if 'A' <= first && first <= 'Z' {
            (first as u8 + 32) as char
        } else {
            first
        };
        let second_lower: char = if 'A' <= second && second <= 'Z' {
            (second as u8 + 32) as char
        } else {
            second
        };
        if first_lower != second_lower {
            proof {
                assert(lowercased(left@)[index as int] != lowercased(right@)[index as int]);
            }
            return false;
        }
        index = index + 1;
    }
    proof {
        assert(lowercased(left@) =~= lowercased(right@));
    }
    true
}

/// Only ASCII characters.
pub open spec fn all_ascii(text: Seq<char>) -> bool {
    forall|i: int| 0 <= i < text.len() ==> (#[trigger] text[i]) as u32 <= 0x7f
}

/// The Unicode lower-case form of a text, as `str::to_lowercase` gives it.
pub uninterp spec fn unicode_lowercase(text: Seq<char>) -> Seq<char>;

/// A text in lower case.
pub open spec fn lower_case(text: Seq<char>) -> Seq<char> {
    if all_ascii(text) {
        lowercased(text)
    } else {
        unicode_lowercase(text)
    }
}

/// `str::to_lowercase`: the lower-case equivalent by Unicode's tables. An ASCII text is
/// trusted to have its ASCII letters lowered; the result for any other has the name
/// `unicode_lowercase`.
#[verifier::external_body]
pub(crate) fn to_lowercase(text: &str) -> (result: String)
    ensures
        result@ == if all_ascii(text@) {
            lowercased(text@)
        } else {
            unicode_lowercase(text@)
        },
{
    text.to_lowercase()
}

/// Only printable ASCII characters, and none that is escaped within double quotes.
pub open spec fn all_plain(text: Seq<char>) -> bool {
    forall|i: int|
        0 <= i < text.len() ==> ' ' <= (#[trigger] text[i]) <= '~' && text[i] != '"' && text[i]
            != '\\'
}

/// A text quoted and escaped, as `str`'s `Debug` writes it.
pub uninterp spec fn escaped_text(text: Seq<char>) -> Seq<char>;

/// A text in double quotes, with escapes where it needs them.
pub open spec fn quoted_text(text: Seq<char>) -> Seq<char> {
    if all_plain(text) {
        seq!['"'] + text + seq!['"']
    } else {
        escaped_text(text)
    }
}

/// `str`'s `Debug` formatting: the text in double quotes, with escapes. Printable ASCII
/// without quotes and backslashes is trusted to need none; the result for any other text
/// has the name `escaped_text`.
#[verifier::external_body]
pub(crate) fn quoted(text: &str) -> (result: String)
    ensures
        result@ == if all_plain(text@) {
            seq!['"'] + text@ + seq!['"']
        } else {
            escaped_text(text@)
        },
{
    format!("{:?}", text)
}

/// The first position from `from` on that holds `wanted`, or the length.
pub open spec fn find_from(text: Seq<char>, wanted: char, from: int) -> int
    decreases text.len() - from,
{
    if from >= text.len() || text[from] == wanted {
        from
    } else {
        find_from(text, wanted, from + 1)
    }
}

/// The first position from `from` on that holds `wanted`, or the length.
pub fn find(text: &[char], wanted: char, from: usize) -> (position: usize)
    requires
        from <= text@.len(),
    ensures
        position == find_from(text@, wanted, from as int),
        from <= position <= text@.len(),
{
    let mut index: usize = from;
    while index < text.len() && text[index] != wanted
        invariant
            from <= index <= text.len(),
            find_from(text@, wanted, from as int) == find_from(text@, wanted, index as int),
        decreases text.len() - index,
    {
        index = index + 1;
    }
    index
}

/// The characters from `from` up to `to`.
pub fn between(text: &[char], from: usize, to: usize) -> (result: Vec<char>)
    requires
        from <= to <= text@.len(),
    ensures
        result@ == text@.subrange(from as int, to as int),
{
    let mut result: Vec<char> = Vec::new();
    let mut index: usize = from;
    while index < to
        invariant
            from <= index <= to <= text.len(),
            result@ == text@.subrange(from as int, index as int),
        decreases to - index,
    {
        result.push(text[index]);
        index = index + 1;
        proof {
            assert(result@ =~= text@.subrange(from as int, index as int));
        }
    }
    result
}

/// What stands before and after the first `separator`.
pub open spec fn split_once_spec(text: Seq<char>, separator: char) -> Option<
    (Seq<char>, Seq<char>),
> {
    let at = find_from(text, separator, 0);
    if at < text.len() {
        Some((text.subrange(0, at), text.subrange(at + 1, text.len() as int)))
    } else {
        None
    }
}

/// What stands before and after the first `separator`.
pub fn split_once(text: &[char], separator: char) -> (result: Option<(Vec<char>, Vec<char>)>)
    ensures
        match result {
            Some((before, after)) => split_once_spec(text@, separator) == Some((before@, after@)),
            None => split_once_spec(text@, separator) is None,
        },
{
    let at: usize = find(text, separator, 0);
    if at < text.len() {
        Some((between(text, 0, at), between(text, at + 1, text.len())))
    } else {
        None
    }
}

/// The text before `suffix`, if it ends so.
pub open spec fn strip_suffix_spec(text: Seq<char>, suffix: Seq<char>) -> Option<Seq<char>> {
    let cut = text.len() - suffix.len();
    if cut >= 0 && text.subrange(cut, text.len() as int) == suffix {
        Some(text.subrange(0, cut))
    } else {
        None
    }
}

/// The text before `suffix`, if it ends so.
pub fn strip_suffix(text: &[char], suffix: &str) -> (result: Option<Vec<char>>)
    ensures
        match result {
            Some(base) => strip_suffix_spec(text@, suffix@) == Some(base@),
            None => strip_suffix_spec(text@, suffix@) is None,
        },
{
    let tail: Vec<char> = characters(suffix);
    if tail.len() > text.len() {
        return None;
    }
    let cut: usize = text.len() - tail.len();
    let mut index: usize = 0;
    while index < tail.len()
        invariant
            index <= tail.len(),
            cut + tail.len() == text.len(),
            tail@ == suffix@,
            forall|i: int| 0 <= i < index ==> text@[cut + i] == tail@[i],
        decreases tail.len() - index,
    {
        if text[cut + index] != tail[index] {
            proof {
                assert(text@.subrange(cut as int, text@.len() as int)[index as int]
                    != suffix@[index as int]);
            }
            return None;
        }
        index = index + 1;
    }
    proof {
        assert(text@.subrange(cut as int, text@.len() as int) =~= suffix@);
    }
    Some(between(text, 0, cut))
}

/// The text after `prefix`, if it begins so.
pub open spec fn strip_prefix_spec(text: Seq<char>, prefix: Seq<char>) -> Option<Seq<char>> {
    if prefix.len() <= text.len() && text.subrange(0, prefix.len() as int) == prefix {
        Some(text.subrange(prefix.len() as int, text.len() as int))
    } else {
        None
    }
}

/// The text after `prefix`, if it begins so.
pub fn strip_prefix(text: &[char], prefix: &str) -> (result: Option<Vec<char>>)
    ensures
        match result {
            Some(rest) => strip_prefix_spec(text@, prefix@) == Some(rest@),
            None => strip_prefix_spec(text@, prefix@) is None,
        },
{
    let head: Vec<char> = characters(prefix);
    if head.len() > text.len() {
        return None;
    }
    let mut index: usize = 0;
    while index < head.len()
        invariant
            index <= head.len() <= text.len(),
            head@ == prefix@,
            forall|i: int| 0 <= i < index ==> text@[i] == head@[i],
        decreases head.len() - index,
    {
        if text[index] != head[index] {
            proof {
                assert(text@.subrange(0, head@.len() as int)[index as int] != prefix@[index as int]);
            }
            return None;
        }
        index = index + 1;
    }
    proof {
        assert(text@.subrange(0, head@.len() as int) =~= prefix@);
    }
    Some(between(text, head.len(), text.len()))
}

/// Texts one after the other, with `separator` between them.
pub open spec fn joined(parts: Seq<Seq<char>>, separator: Seq<char>) -> Seq<char>
    decreases parts.len(),
{
    if parts.len() == 0 {
        Seq::empty()
    } else if parts.len() == 1 {
        parts[0]
    } else {
        joined(parts.drop_last(), separator) + separator + parts.last()
    }
}

/// Texts one after the other, with `separator` between them.
pub fn join(parts: &[String], separator: &str) -> (result: String)
    ensures
        result@ == joined(views(parts@), separator@),
{
    let mut result: String = String::new();
    let mut index: usize = 0;
    while index < parts.len()
        invariant
            index <= parts.len(),
            result@ == joined(views(parts@).take(index as int), separator@),
        decreases parts.len() - index,
    {
        if index > 0 {
            result.append(separator);
        }
        result.append(parts[index].as_str());
        index = index + 1;
        proof {
            let seen = views(parts@).take(index as int);
            assert(seen.drop_last() =~= views(parts@).take(index - 1));
            assert(seen.last() == parts@[index - 1]@);
            if index == 1 {
                assert(views(parts@).take(0).len() == 0);
                assert(result@ =~= parts@[0]@);
            }
        }
    }
    proof {
        assert(views(parts@).take(parts@.len() as int) =~= views(parts@));
    }
    result
}

/// Three texts, one after the other.
pub fn framed(before: &str, middle: &str, after: &str) -> (result: String)
    ensures
        result@ == before@ + middle@ + after@,
{
    let mut result: String = String::new();
    result.append(before);
    result.append(middle);
    result.append(after);
    proof {
        assert(result@ =~= before@ + middle@ + after@);
    }
    result
}

/// A decimal digit.
pub open spec fn is_digit(character: char) -> bool {
    '0' <= character <= '9'
}

/// Nothing but decimal digits.
pub open spec fn all_digits(text: Seq<char>) -> bool {
    forall|i: int| 0 <= i < text.len() ==> is_digit(#[trigger] text[i])
}

/// The number that decimal digits write.
pub open spec fn digits_value(text: Seq<char>) -> nat
    decreases text.len(),
{
    if text.len() == 0 {
        0
    } else {
        10 * digits_value(text.drop_last()) + (text.last() as nat - '0' as nat) as nat
    }
}

/// The signed number that a text writes: an optional sign and decimal digits,
/// within 64 bits.
pub open spec fn parse_i64_spec(text: Seq<char>) -> Option<i64> {
    let signed = text.len() > 0 && (text[0] == '-' || text[0] == '+');
    let digits = if signed { text.subrange(1, text.len() as int) } else { text };
    let value = if signed && text[0] == '-' {
        -(digits_value(digits) as int)
    } else {
        digits_value(digits) as int
    };
    if digits.len() == 0 || !all_digits(digits) || value < i64::MIN || value > i64::MAX {
        None
    } else {
        Some(value as i64)
    }
}

/// Digits with one more digit.
proof fn lemma_one_more(seen: Seq<char>, digit: char)
    requires
        all_digits(seen),
        is_digit(digit),
    ensures
        all_digits(seen.push(digit)),
        digits_value(seen.push(digit)) == 10 * digits_value(seen) + (digit as nat - '0' as nat),
{
    assert(seen.push(digit).drop_last() =~= seen);
}

/// The number that the digits from `start` on write, 2^64 if it is larger; `None` if
/// there is anything but digits.
fn capped_number(text: &[char], start: usize) -> (result: Option<i128>)
    requires
        start <= text@.len(),
    ensures
        ({
            let digits = text@.subrange(start as int, text@.len() as int);
            match result {
                Some(value) => all_digits(digits) && value == if digits_value(digits)
                    < 0x1_0000_0000_0000_0000 {
                    digits_value(digits) as int
                } else {
                    0x1_0000_0000_0000_0000
                },
                None => !all_digits(digits),
            }
        }),
{
    let mut value: i128 = 0;
    let mut index: usize = start;
    while index < text.len()
        invariant
            start <= index <= text@.len(),
            all_digits(text@.subrange(start as int, index as int)),
            0 <= value <= 0x1_0000_0000_0000_0000,
            value == if digits_value(text@.subrange(start as int, index as int))
                < 0x1_0000_0000_0000_0000 {
                digits_value(text@.subrange(start as int, index as int)) as int
            } else {
                0x1_0000_0000_0000_0000
            },
        decreases text.len() - index,
    {
        let character: char = text[index];
        if character < '0' || character > '9' {
            proof {
                let digits = text@.subrange(start as int, text@.len() as int);
                assert(!is_digit(digits[index - start]));
            }
            return None;
        }
        proof {
            let seen = text@.subrange(start as int, index as int);
            assert(text@.subrange(start as int, index + 1) =~= seen.push(character));
            lemma_one_more(seen, character);
        }
        let next: i128 = value * 10 + (character as u32 - '0' as u32) as i128;
        value = if next < 0x1_0000_0000_0000_0000 { next } else { 0x1_0000_0000_0000_0000 };
        index = index + 1;
    }
    Some(value)
}

/// The signed number that a text writes, if it writes one within 64 bits.
pub fn parse_i64(text: &[char]) -> (result: Option<i64>)
    ensures
        result == parse_i64_spec(text@),
{
    let negative: bool = text.len() > 0 && text[0] == '-';
    let signed: bool = negative || (text.len() > 0 && text[0] == '+');
    let start: usize = if signed { 1 } else { 0 };
    proof {
        assert(text@.subrange(0, text@.len() as int) =~= text@);
    }
    if start == text.len() {
        return None;
    }
    match capped_number(text, start) {
        Some(size) => {
            let value: i128 = if negative { -size } else { size };
            if value < -0x8000_0000_0000_0000 || value > 0x7fff_ffff_ffff_ffff {
                None
            } else {
                Some(value as i64)
            }
        },
        None => None,
    }
}

/// A number in decimal.
pub open spec fn decimal(value: nat) -> Seq<char>
    decreases value,
{
    let digit = (48 + value % 10) as u8 as char;
    if value < 10 {
        seq![digit]
    } else {
        decimal(value / 10).push(digit)
    }
}

/// A whole number in decimal, with a minus sign if it is negative.
pub open spec fn signed_decimal(value: int) -> Seq<char> {
    if value < 0 {
        seq!['-'] + decimal((-value) as nat)
    } else {
        decimal(value as nat)
    }
}

/// A number in decimal.
pub fn decimal_text(value: u128) -> (result: String)
    ensures
        result@ == decimal(value as nat),
    decreases value,
{
    let digit: char = (48 + (value % 10) as u8) as char;
    let mut result: String = if value < 10 { String::new() } else { decimal_text(value / 10) };
    result.push(digit);
    proof {
        if value < 10 {
            assert(result@ =~= seq![digit]);
        }
    }
    result
}

/// A whole number in decimal, with a minus sign if it is negative.
pub fn signed_decimal_text(value: i128) -> (result: String)
    ensures
        result@ == signed_decimal(value as int),
{
    if value < 0 {
        let size: u128 = (-(value + 1)) as u128 + 1;
        let digits: String = decimal_text(size);
        let mut result: String = String::new();
        result.push('-');
        result.append(digits.as_str());
        proof {
            assert(result@ =~= seq!['-'] + digits@);
        }
        result
    } else {
        decimal_text(value as u128)
    }
}

/// What a search finds is the first place that holds the character: nothing before it
/// does, and it is the length only where no place does.
pub proof fn searches_find_the_first_place(text: Seq<char>, wanted: char, from: int)
    requires
        0 <= from <= text.len(),
    ensures
        from <= find_from(text, wanted, from) <= text.len(),
        forall|i: int|
            from <= i < find_from(text, wanted, from) ==> #[trigger] text[i] != wanted,
        find_from(text, wanted, from) < text.len() ==> text[find_from(text, wanted, from)]
            == wanted,
    decreases text.len() - from,
{
    if from < text.len() && text[from] != wanted {
        searches_find_the_first_place(text, wanted, from + 1);
    }
}

/// A text without a character, then the character, then anything, is split at that
/// character; a text without it is not split.
pub proof fn splits_part_at_the_first_separator(
    before: Seq<char>,
    separator: char,
    after: Seq<char>,
)
    requires
        !before.contains(separator),
    ensures
        split_once_spec(before + seq![separator] + after, separator) == Some((before, after)),
        split_once_spec(before, separator) is None,
        find_from(before + seq![separator] + after, separator, 0) == before.len(),
        find_from(before, separator, 0) == before.len(),
{
    let text = before + seq![separator] + after;
    searches_find_the_first_place(text, separator, 0);
    searches_find_the_first_place(before, separator, 0);
    let at = find_from(text, separator, 0);
    assert(text[before.len() as int] == separator);
    if at < before.len() {
        assert(before[at] == separator);
    }
    assert(text.subrange(0, before.len() as int) =~= before);
    assert(text.subrange(before.len() as int + 1, text.len() as int) =~= after);
    let within = find_from(before, separator, 0);
    if within < before.len() {
        assert(before.contains(before[within]));
    }
}

/// What is left without a suffix, or without a prefix, makes up the text again with it;
/// and a text that ends or begins so is always stripped.
pub proof fn stripping_undoes_adding(base: Seq<char>, end: Seq<char>, text: Seq<char>)
    ensures
        strip_suffix_spec(base + end, end) == Some(base),
        strip_prefix_spec(end + base, end) == Some(base),
        strip_suffix_spec(text, end) matches Some(rest) ==> text == rest + end,
        strip_prefix_spec(text, end) matches Some(rest) ==> text == end + rest,
{
    let longer = base + end;
    assert(longer.subrange(longer.len() - end.len(), longer.len() as int) =~= end);
    assert(longer.subrange(0, longer.len() - end.len()) =~= base);
    let led = end + base;
    assert(led.subrange(0, end.len() as int) =~= end);
    assert(led.subrange(end.len() as int, led.len() as int) =~= base);
    if let Some(rest) = strip_suffix_spec(text, end) {
        assert(text =~= rest + end);
    }
    if let Some(rest) = strip_prefix_spec(text, end) {
        assert(text =~= end + rest);
    }
}

/// Joining two lists of texts joins each, with one separator between them; a single text
/// is joined as it is, and no text gives nothing.
pub proof fn joining_parts_in_order(
    first: Seq<Seq<char>>,
    second: Seq<Seq<char>>,
    separator: Seq<char>,
    single: Seq<char>,
)
    ensures
        joined(Seq::empty(), separator) == Seq::<char>::empty(),
        joined(seq![single], separator) == single,
        first.len() > 0 && second.len() > 0 ==> joined(first + second, separator) == joined(
            first,
            separator,
        ) + separator + joined(second, separator),
    decreases second.len(),
{
    if first.len() > 0 && second.len() > 0 {
        let all = first + second;
        assert(all.drop_last() =~= first + second.drop_last());
        assert(all.last() == second.last());
        if second.len() == 1 {
            assert(first + second.drop_last() =~= first);
        } else {
            joining_parts_in_order(first, second.drop_last(), separator, single);
            let left = joined(first, separator);
            let middle = joined(second.drop_last(), separator);
            assert((left + separator + middle) + separator + second.last() =~= left + separator + (
            middle + separator + second.last()));
        }
    }
}

/// A number in decimal has digits only, no leading zero but for zero itself, and reads
/// back as the number.
pub proof fn decimals_read_back(value: nat)
    ensures
        all_digits(decimal(value)),
        decimal(value).len() > 0,
        digits_value(decimal(value)) == value,
        value > 0 ==> decimal(value)[0] != '0',
    decreases value,
{
    let text = decimal(value);
    let digit = (48 + value % 10) as u8 as char;
    if value < 10 {
        assert(text.drop_last() =~= Seq::empty());
        assert(digits_value(text.drop_last()) == 0);
    } else {
        decimals_read_back(value / 10);
        assert(text.drop_last() =~= decimal(value / 10));
        assert forall|i: int| 0 <= i < text.len() implies is_digit(#[trigger] text[i]) by {
            if i < text.len() - 1 {
                assert(text[i] == decimal(value / 10)[i]);
            }
        }
    }
}

/// A whole number that is written with its sign, if it is negative, reads back.
pub proof fn signed_numbers_read_back(value: i64)
    ensures
        parse_i64_spec(signed_decimal(value as int)) == Some(value),
        value >= 0 ==> parse_i64_spec(seq!['+'] + decimal(value as nat)) == Some(value),
{
    let size: nat = if value < 0 { (-value) as nat } else { value as nat };
    decimals_read_back(size);
    let digits = decimal(size);
    assert(is_digit(digits[0]));
    let minus = seq!['-'] + digits;
    let plus = seq!['+'] + digits;
    assert(minus.subrange(1, minus.len() as int) =~= digits);
    assert(plus.subrange(1, plus.len() as int) =~= digits);
}

/// Only an optional sign and decimal digits write a number, and each digit behind others
/// counts one, the others ten times as much.
pub proof fn numbers_are_signs_and_digits(text: Seq<char>, digits: Seq<char>, digit: char)
    ensures
        parse_i64_spec(text) is Some ==> text.len() > 0 && (forall|i: int|
            1 <= i < text.len() ==> '0' <= #[trigger] text[i] <= '9') && (('0' <= text[0] <= '9')
            || ((text[0] == '+' || text[0] == '-') && text.len() > 1)),
        digits_value(Seq::empty()) == 0,
        '0' <= digit <= '9' ==> digits_value(digits.push(digit)) == 10 * digits_value(digits) + (
        digit as nat - 48),
{
    assert(digits.push(digit).drop_last() =~= digits);
    if parse_i64_spec(text) is Some {
        let signed = text.len() > 0 && (text[0] == '-' || text[0] == '+');
        let rest = if signed { text.subrange(1, text.len() as int) } else { text };
        assert(all_digits(rest));
        assert forall|i: int| 1 <= i < text.len() implies '0' <= #[trigger] text[i] <= '9' by {
            if signed {
                assert(is_digit(rest[i - 1]));
            } else {
                assert(is_digit(rest[i]));
            }
        }
        if !signed {
            assert(is_digit(rest[0]));
        }
    }
}

/// Changing the case changes ASCII letters only, each into the same letter in the other
/// case, 32 places away; so texts that differ in case alone have one lower-case form.
pub proof fn case_changes_letters_only(text: Seq<char>, index: int)
    requires
        0 <= index < text.len(),
    ensures
        uppercased(text).len() == text.len(),
        lowercased(text).len() == text.len(),
        ({
            let code = text[index] as int;
            &&& uppercased(text)[index] as int == if 97 <= code <= 122 {
                code - 32
            } else {
                code
            }
            &&& lowercased(text)[index] as int == if 65 <= code <= 90 {
                code + 32
            } else {
                code
            }
        }),
        lowercased(uppercased(text)) == lowercased(text),
        uppercased(lowercased(text)) == uppercased(text),
{
    assert(lowercased(uppercased(text)) =~= lowercased(text));
    assert(uppercased(lowercased(text)) =~= uppercased(text));
}

/// The views of texts are their characters, one by one.
pub proof fn views_are_the_texts(texts: Seq<String>, index: int)
    requires
        0 <= index < texts.len(),
    ensures
        views(texts).len() == texts.len(),
        views(texts)[index] == texts[index]@,
{
}

} // verus!
