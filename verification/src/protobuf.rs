//! The protobuf wire format, as far as it is read here.

use vstd::arithmetic::power2::{lemma_pow2_adds, pow2};
use vstd::prelude::*;
use vstd::utf8::{decode_utf8, valid_utf8};

verus! {

/// The wire type of variable-length integers.
pub const VARINT: u64 = 0;

/// The wire type of eight-byte values.
pub const SIXTY_FOUR_BIT: u64 = 1;

/// The wire type of strings and messages.
pub const LENGTH_DELIMITED: u64 = 2;

/// The wire type that opens a group.
pub const START_GROUP: u64 = 3;

/// The wire type of four-byte values.
pub const THIRTY_TWO_BIT: u64 = 5;

/// The integer that the bytes from `count` on write, seven bits each from the lowest,
/// and the number of all bytes up to its end. There are ten bytes at most, and the
/// integer has 64 bits at most.
pub open spec fn varint_from(bytes: Seq<u8>, count: nat) -> Option<(nat, nat)>
    decreases 10 - count,
{
    if count >= 10 || count >= bytes.len() {
        None
    } else if bytes[count as int] < 0x80 {
        if count == 9 && bytes[9] >= 2 {
            None
        } else {
            Some((bytes[count as int] as nat, count + 1))
        }
    } else {
        match varint_from(bytes, count + 1) {
            Some((rest, end)) => Some(((bytes[count as int] - 0x80) as nat + 128 * rest, end)),
            None => None,
        }
    }
}

/// The integer at the start of the bytes, and its length.
pub open spec fn varint(bytes: Seq<u8>) -> Option<(nat, nat)> {
    varint_from(bytes, 0)
}

/// An integer's length lies between one and the number of bytes, and ten at most.
pub proof fn lemma_varint(bytes: Seq<u8>, count: nat)
    ensures
        varint_from(bytes, count) matches Some((_, end)) ==> count < end <= bytes.len() && end
            <= 10,
    decreases 10 - count,
{
    if count < 10 && count < bytes.len() && bytes[count as int] >= 0x80 {
        lemma_varint(bytes, count + 1);
    }
}

/// The field number, the wire type and the length of the key at the start of the
/// bytes.
pub open spec fn key(bytes: Seq<u8>) -> Option<(nat, nat, nat)> {
    match varint(bytes) {
        Some((value, length)) => if value <= u32::MAX && value % 8 <= 5 && value / 8 >= 1 {
            Some((value / 8, value % 8, length))
        } else {
            None
        },
        None => None,
    }
}

/// The bytes of the length-delimited value at the start, and its length with the
/// delimiter.
pub open spec fn delimited(bytes: Seq<u8>) -> Option<(Seq<u8>, nat)> {
    match varint(bytes) {
        Some((length, used)) => if used + length <= bytes.len() {
            Some((bytes.subrange(used as int, (used + length) as int), used + length))
        } else {
            None
        },
        None => None,
    }
}

/// The text at the start of the bytes, and its length with the delimiter.
pub open spec fn text_field(wire: u64, bytes: Seq<u8>) -> Option<(Seq<char>, nat)> {
    match delimited(bytes) {
        Some((content, length)) => if wire == LENGTH_DELIMITED && valid_utf8(content) {
            Some((decode_utf8(content), length))
        } else {
            None
        },
        None => None,
    }
}

/// The 64-bit integer at the start of the bytes, in two's complement, and its length.
pub open spec fn integer_field(wire: u64, bytes: Seq<u8>) -> Option<(i64, nat)> {
    match varint(bytes) {
        Some((value, length)) => if wire != VARINT {
            None
        } else if value <= i64::MAX {
            Some((value as i64, length))
        } else {
            Some(((value - 0x1_0000_0000_0000_0000) as i64, length))
        },
        None => None,
    }
}

/// The bytes behind the first `length`.
pub open spec fn behind(bytes: Seq<u8>, length: nat) -> Seq<u8> {
    bytes.subrange(length as int, bytes.len() as int)
}

/// The length of the rest of a group, up to and with the key that closes it, if it
/// is well formed and not nested deeper than one hundred groups.
pub uninterp spec fn group_length(tag: u32, bytes: Seq<u8>) -> Option<nat>;

/// Every field of the length-delimited message at the start of the bytes can be
/// skipped, groups in it nested less deep by one than outside a message.
pub uninterp spec fn message_accepted(wire: u64, bytes: Seq<u8>) -> bool;

/// The length of a field's value, if it is well formed.
pub open spec fn field_length(wire: u64, tag: u32, bytes: Seq<u8>) -> Option<nat> {
    if wire == VARINT {
        match varint(bytes) {
            Some((_, length)) => Some(length),
            None => None,
        }
    } else if wire == SIXTY_FOUR_BIT || wire == THIRTY_TWO_BIT {
        let length: nat = if wire == SIXTY_FOUR_BIT { 8 } else { 4 };
        if length <= bytes.len() {
            Some(length)
        } else {
            None
        }
    } else if wire == LENGTH_DELIMITED {
        match delimited(bytes) {
            Some((_, length)) => Some(length),
            None => None,
        }
    } else if wire == START_GROUP {
        group_length(tag, bytes)
    } else {
        None
    }
}

/// Reads the integer at the start of the bytes, and gives what follows it.
///
/// Calls `prost::encoding::decode_varint`, which is trusted to read what `varint`
/// says, to fail on anything else, and to advance past what it read.
#[verifier::external_body]
pub(crate) fn read_varint<'a>(bytes: &'a [u8]) -> (result: Option<(u64, &'a [u8])>)
    ensures
        match result {
            Some((value, rest)) => varint(bytes@) == Some(
                (value as nat, (bytes@.len() - rest@.len()) as nat),
            ) && rest@.len() <= bytes@.len() && rest@ == behind(
                bytes@,
                (bytes@.len() - rest@.len()) as nat,
            ),
            None => varint(bytes@) is None,
        },
{
    let mut rest = bytes;
    match prost::encoding::decode_varint(&mut rest) {
        Ok(value) => Some((value, rest)),
        Err(_) => None,
    }
}

/// Reads the key at the start of the bytes: the field number, the wire type, and what
/// follows.
///
/// Calls `prost::encoding::decode_key`, which is trusted to read what `key` says, to
/// fail on anything else, and to advance past what it read.
#[verifier::external_body]
pub(crate) fn read_key<'a>(bytes: &'a [u8]) -> (result: Option<(u32, u64, &'a [u8])>)
    ensures
        match result {
            Some((tag, wire, rest)) => key(bytes@) == Some(
                (tag as nat, wire as nat, (bytes@.len() - rest@.len()) as nat),
            ) && rest@.len() <= bytes@.len() && rest@ == behind(
                bytes@,
                (bytes@.len() - rest@.len()) as nat,
            ),
            None => key(bytes@) is None,
        },
{
    let mut rest = bytes;
    match prost::encoding::decode_key(&mut rest) {
        Ok((tag, wire)) => Some((tag, wire as u64, rest)),
        Err(_) => None,
    }
}

/// Reads the text at the start of the bytes, and gives what follows it.
///
/// Calls `prost::encoding::string::merge` with an empty string. It is trusted to
/// accept the length-delimited wire type alone, to take as many bytes as the
/// delimiter says, and to fail where there are fewer or where they are not UTF-8.
#[verifier::external_body]
pub(crate) fn read_text<'a>(wire: u64, bytes: &'a [u8]) -> (result: Option<(String, &'a [u8])>)
    requires
        wire <= 5,
    ensures
        match result {
            Some((text, rest)) => text_field(wire, bytes@) == Some(
                (text@, (bytes@.len() - rest@.len()) as nat),
            ) && rest@.len() <= bytes@.len() && rest@ == behind(
                bytes@,
                (bytes@.len() - rest@.len()) as nat,
            ),
            None => text_field(wire, bytes@) is None,
        },
{
    let mut rest = bytes;
    let mut text = String::new();
    let wire = prost::encoding::WireType::try_from(wire).ok()?;
    let context = prost::encoding::DecodeContext::default();
    match prost::encoding::string::merge(wire, &mut text, &mut rest, context) {
        Ok(()) => Some((text, rest)),
        Err(_) => None,
    }
}

/// Reads the integer at the start of the bytes, and gives what follows it.
///
/// Calls `prost::encoding::int64::merge`, which is trusted to accept the wire type of
/// variable-length integers alone, to take the integer as two's complement, and to
/// fail where there is no integer.
#[verifier::external_body]
pub(crate) fn read_integer<'a>(wire: u64, bytes: &'a [u8]) -> (result: Option<(i64, &'a [u8])>)
    requires
        wire <= 5,
    ensures
        match result {
            Some((value, rest)) => integer_field(wire, bytes@) == Some(
                (value, (bytes@.len() - rest@.len()) as nat),
            ) && rest@.len() <= bytes@.len() && rest@ == behind(
                bytes@,
                (bytes@.len() - rest@.len()) as nat,
            ),
            None => integer_field(wire, bytes@) is None,
        },
{
    let mut rest = bytes;
    let mut value = 0i64;
    let wire = prost::encoding::WireType::try_from(wire).ok()?;
    let context = prost::encoding::DecodeContext::default();
    match prost::encoding::int64::merge(wire, &mut value, &mut rest, context) {
        Ok(()) => Some((value, rest)),
        Err(_) => None,
    }
}

/// Skips a field's value, and gives what follows it.
///
/// Calls `prost::encoding::skip_field` outside any message. It is trusted to skip
/// integers, values of four and eight bytes and length-delimited values as
/// `field_length` says, to fail where they are cut short and on a group that closes
/// without having opened. Of a group it is trusted only to skip a length that the
/// field number and the bytes determine.
#[verifier::external_body]
pub(crate) fn skip<'a>(wire: u64, tag: u32, bytes: &'a [u8]) -> (result: Option<&'a [u8]>)
    requires
        wire <= 5,
    ensures
        match result {
            Some(rest) => (if wire == START_GROUP {
                group_length(tag, bytes@)
            } else {
                field_length(wire, tag, bytes@)
            }) == Some((bytes@.len() - rest@.len()) as nat) && rest@.len() <= bytes@.len()
                && rest@ == behind(bytes@, (bytes@.len() - rest@.len()) as nat),
            None => (if wire == START_GROUP {
                group_length(tag, bytes@)
            } else {
                field_length(wire, tag, bytes@)
            }) is None,
        },
{
    let mut rest = bytes;
    let wire = prost::encoding::WireType::try_from(wire).ok()?;
    let context = prost::encoding::DecodeContext::default();
    match prost::encoding::skip_field(wire, tag, &mut rest, context) {
        Ok(()) => Some(rest),
        Err(_) => None,
    }
}

/// Whether every field of the message at the start of the bytes can be skipped.
///
/// Calls `prost::encoding::message::merge` for the empty message, which skips all
/// fields. Its outcome is trusted to depend on the wire type and the bytes alone.
#[verifier::external_body]
pub(crate) fn accepts_message(wire: u64, bytes: &[u8]) -> (result: bool)
    requires
        wire <= 5,
    ensures
        result == message_accepted(wire, bytes@),
{
    let mut rest = bytes;
    let context = prost::encoding::DecodeContext::default();
    match prost::encoding::WireType::try_from(wire) {
        Ok(wire) => prost::encoding::message::merge(wire, &mut (), &mut rest, context).is_ok(),
        Err(_) => false,
    }
}

/// An integer as a variable-length integer, seven bits a byte from the lowest.
pub open spec fn encoded_varint(value: nat) -> Seq<u8>
    decreases value,
{
    if value < 128 {
        seq![value as u8]
    } else {
        seq![(128 + value % 128) as u8] + encoded_varint(value / 128)
    }
}

/// A field's key.
pub open spec fn encoded_key(tag: u32, wire: u64) -> Seq<u8> {
    encoded_varint((tag * 8 + wire) as nat)
}

/// A length-delimited field.
pub open spec fn encoded_field(tag: u32, content: Seq<u8>) -> Seq<u8> {
    encoded_key(tag, LENGTH_DELIMITED) + encoded_varint(content.len()) + content
}

/// A field with a number, negative ones in two's complement.
pub open spec fn encoded_integer(tag: u32, value: i64) -> Seq<u8> {
    encoded_key(tag, VARINT) + encoded_varint(
        if value < 0 {
            (value + 0x1_0000_0000_0000_0000) as nat
        } else {
            value as nat
        },
    )
}

proof fn lemma_varint_from_encoded(bytes: Seq<u8>, count: nat, value: nat, rest: Seq<u8>)
    requires
        count < 10,
        value < pow2((64 - 7 * count) as nat),
        bytes.subrange(count as int, bytes.len() as int) == encoded_varint(value) + rest,
        count <= bytes.len(),
    ensures
        varint_from(bytes, count) == Some((value, count + encoded_varint(value).len())),
    decreases value,
{
    let tail = encoded_varint(value) + rest;
    assert(tail.len() > 0);
    assert(bytes[count as int] == tail[0]);
    vstd::arithmetic::power2::lemma2_to64();
    if value < 128 {
        assert(tail[0] == value as u8);
    } else {
        let low = value % 128;
        let more = value / 128;
        assert(tail[0] == (128 + low) as u8);
        if count == 9 {
            assert(pow2(1) == 2);
        } else {
            lemma_pow2_adds((57 - 7 * count) as nat, 7);
            let half = pow2((57 - 7 * count) as nat);
            assert(more < half) by (nonlinear_arith)
                requires
                    value < half * 128,
                    more == value / 128,
            ;
            assert(bytes.subrange(count as int + 1, bytes.len() as int) =~= tail.subrange(
                1,
                tail.len() as int,
            ));
            assert(tail.subrange(1, tail.len() as int) =~= encoded_varint(more) + rest);
            lemma_varint_from_encoded(bytes, count + 1, more, rest);
        }
    }
}

/// An encoded integer reads back as itself, whatever follows it.
pub proof fn varints_read_back(value: nat, rest: Seq<u8>)
    requires
        value <= u64::MAX,
    ensures
        varint(encoded_varint(value) + rest) == Some((value, encoded_varint(value).len())),
        behind(encoded_varint(value) + rest, encoded_varint(value).len()) == rest,
{
    let bytes = encoded_varint(value) + rest;
    assert(bytes.subrange(0, bytes.len() as int) =~= bytes);
    vstd::arithmetic::power2::lemma2_to64_rest();
    lemma_varint_from_encoded(bytes, 0, value, rest);
    assert(behind(bytes, encoded_varint(value).len()) =~= rest);
}

/// An encoded key reads back as its field number and wire type.
pub proof fn keys_read_back(tag: u32, wire: u64, rest: Seq<u8>)
    requires
        1 <= tag < 0x2000_0000,
        wire <= 5,
    ensures
        key(encoded_key(tag, wire) + rest) == Some(
            (tag as nat, wire as nat, encoded_key(tag, wire).len()),
        ),
        behind(encoded_key(tag, wire) + rest, encoded_key(tag, wire).len()) == rest,
{
    varints_read_back((tag * 8 + wire) as nat, rest);
}

/// An encoded length-delimited value reads back as its content.
pub proof fn contents_read_back(content: Seq<u8>, rest: Seq<u8>)
    requires
        content.len() <= u64::MAX,
    ensures
        ({
            let head = encoded_varint(content.len());
            &&& delimited(head + content + rest) == Some((content, head.len() + content.len()))
            &&& behind(head + content + rest, head.len() + content.len()) == rest
        }),
{
    let head = encoded_varint(content.len());
    let bytes = head + content + rest;
    varints_read_back(content.len(), content + rest);
    assert(bytes =~= head + (content + rest));
    assert(bytes.subrange(head.len() as int, (head.len() + content.len()) as int) =~= content);
    assert(behind(bytes, head.len() + content.len()) =~= rest);
}

} // verus!
