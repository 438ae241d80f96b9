//! MEXC's protobuf book ticker.
//!
//! A push message carries the symbol in field 3, the send time in field 6 and the
//! ticker in field 315; the ticker carries the best bid in field 1 and the best ask
//! in field 3.

use vstd::prelude::*;
use vstd::slice::slice_subrange;
use vstd::utf8::{decode_utf8, encode_utf8, valid_utf8};

use crate::messages::{carries, quote_of, quote_view, ParsedQuote, ParsedQuoteView};
use crate::price::{parse_price, parse_price_spec};
use crate::protobuf::{
    accepts_message, behind, contents_read_back, delimited, encoded_field, encoded_integer,
    encoded_key, encoded_varint, field_length, integer_field, key, keys_read_back, lemma_varint,
    message_accepted, read_integer, read_key, read_text, read_varint, skip, text_field,
    varints_read_back, LENGTH_DELIMITED, START_GROUP, VARINT,
};

verus! {

/// The field with the symbol.
pub const SYMBOL_TAG: u32 = 3;

/// The field with the send time.
pub const SEND_TIME_TAG: u32 = 6;

/// The field with the ticker.
pub const TICKER_TAG: u32 = 315;

/// The ticker's field with the best bid.
pub const BID_TAG: u32 = 1;

/// The ticker's field with the best ask.
pub const ASK_TAG: u32 = 3;

/// A push message.
#[derive(Clone, Debug)]
pub struct MexcPush {
    /// The symbol.
    pub symbol: Option<String>,
    /// The send time in milliseconds.
    pub send_time: Option<i64>,
    /// The ticker.
    pub ticker: Option<MexcBookTicker>,
}

/// A book ticker.
#[derive(Clone, Debug)]
pub struct MexcBookTicker {
    /// The best bid.
    pub bid_price: String,
    /// The best ask.
    pub ask_price: String,
}

/// A book ticker, by the characters of its prices.
#[verifier::ext_equal]
pub struct TickerView {
    /// The best bid.
    pub bid: Seq<char>,
    /// The best ask.
    pub ask: Seq<char>,
}

/// A push message, by the characters of its texts.
#[verifier::ext_equal]
pub struct PushView {
    /// The symbol.
    pub symbol: Option<Seq<char>>,
    /// The send time in milliseconds.
    pub send_time: Option<i64>,
    /// The ticker.
    pub ticker: Option<TickerView>,
}

impl View for MexcBookTicker {
    type V = TickerView;

    open spec fn view(&self) -> TickerView {
        TickerView { bid: self.bid_price@, ask: self.ask_price@ }
    }
}

impl View for MexcPush {
    type V = PushView;

    open spec fn view(&self) -> PushView {
        PushView {
            symbol: match self.symbol {
                Some(symbol) => Some(symbol@),
                None => None,
            },
            send_time: self.send_time,
            ticker: match self.ticker {
                Some(ticker) => Some(ticker@),
                None => None,
            },
        }
    }
}

/// A ticker without any field.
pub open spec fn empty_ticker() -> TickerView {
    TickerView { bid: Seq::empty(), ask: Seq::empty() }
}

/// A message without any field.
pub open spec fn empty_push() -> PushView {
    PushView { symbol: None, send_time: None, ticker: None }
}

/// What a ticker holds after one more field, and the length of the field's value.
pub open spec fn ticker_field(tag: u32, wire: u64, bytes: Seq<u8>, ticker: TickerView) -> Option<
    (TickerView, nat),
> {
    if tag == BID_TAG {
        match text_field(wire, bytes) {
            Some((bid, length)) => Some((TickerView { bid, ..ticker }, length)),
            None => None,
        }
    } else if tag == ASK_TAG {
        match text_field(wire, bytes) {
            Some((ask, length)) => Some((TickerView { ask, ..ticker }, length)),
            None => None,
        }
    } else {
        match field_length(wire, tag, bytes) {
            Some(length) => Some((ticker, length)),
            None => None,
        }
    }
}

/// What a ticker holds after all fields in the bytes, and whether a group is among
/// them. A later field replaces an earlier one; unknown fields are skipped.
pub open spec fn ticker_fields(bytes: Seq<u8>, ticker: TickerView, group: bool) -> Option<
    (TickerView, bool),
>
    decreases bytes.len(),
{
    if bytes.len() == 0 {
        Some((ticker, group))
    } else {
        match key(bytes) {
            Some((tag, wire, used)) => {
                let value = behind(bytes, used);
                match ticker_field(tag as u32, wire as u64, value, ticker) {
                    Some((next, length)) => if 0 < used <= bytes.len() && length <= value.len() {
                        ticker_fields(behind(value, length), next, group || wire == START_GROUP)
                    } else {
                        None
                    },
                    None => None,
                }
            },
            None => None,
        }
    }
}

/// What a ticker holds after the length-delimited message at the start of the bytes,
/// and the message's length. Where a group is among its fields, skipping all of them
/// must be possible.
pub open spec fn ticker_message(wire: u64, bytes: Seq<u8>, ticker: TickerView) -> Option<
    (TickerView, nat),
> {
    match delimited(bytes) {
        Some((content, length)) => if wire != LENGTH_DELIMITED {
            None
        } else {
            match ticker_fields(content, ticker, false) {
                Some((next, group)) => if group && !message_accepted(wire, bytes) {
                    None
                } else {
                    Some((next, length))
                },
                None => None,
            }
        },
        None => None,
    }
}

/// What a message holds after one more field, and the length of the field's value.
pub open spec fn push_field(tag: u32, wire: u64, bytes: Seq<u8>, push: PushView) -> Option<
    (PushView, nat),
> {
    if tag == SYMBOL_TAG {
        match text_field(wire, bytes) {
            Some((symbol, length)) => Some((PushView { symbol: Some(symbol), ..push }, length)),
            None => None,
        }
    } else if tag == SEND_TIME_TAG {
        match integer_field(wire, bytes) {
            Some((time, length)) => Some((PushView { send_time: Some(time), ..push }, length)),
            None => None,
        }
    } else if tag == TICKER_TAG {
        let before = match push.ticker {
            Some(ticker) => ticker,
            None => empty_ticker(),
        };
        match ticker_message(wire, bytes, before) {
            Some((ticker, length)) => Some((PushView { ticker: Some(ticker), ..push }, length)),
            None => None,
        }
    } else {
        match field_length(wire, tag, bytes) {
            Some(length) => Some((push, length)),
            None => None,
        }
    }
}

/// What a message holds after all fields in the bytes. A later field replaces an
/// earlier one, tickers merge, and unknown fields are skipped.
pub open spec fn push_fields(bytes: Seq<u8>, push: PushView) -> Option<PushView>
    decreases bytes.len(),
{
    if bytes.len() == 0 {
        Some(push)
    } else {
        match key(bytes) {
            Some((tag, wire, used)) => {
                let value = behind(bytes, used);
                match push_field(tag as u32, wire as u64, value, push) {
                    Some((next, length)) => if 0 < used <= bytes.len() && length <= value.len() {
                        push_fields(behind(value, length), next)
                    } else {
                        None
                    },
                    None => None,
                }
            },
            None => None,
        }
    }
}

/// A key takes at least one byte, and a field number is not zero.
proof fn lemma_key(bytes: Seq<u8>)
    ensures
        key(bytes) matches Some((tag, wire, used)) ==> 0 < used <= bytes.len() && 0 < tag
            <= u32::MAX && wire <= 5,
{
    lemma_varint(bytes, 0);
}

fn merge_ticker_field<'a>(
    tag: u32,
    wire: u64,
    bytes: &'a [u8],
    ticker: MexcBookTicker,
) -> (result: Option<(MexcBookTicker, &'a [u8])>)
    requires
        wire <= 5,
    ensures
        match result {
            Some((next, rest)) => rest@.len() <= bytes@.len() && ticker_field(
                tag,
                wire,
                bytes@,
                ticker@,
            ) == Some((next@, (bytes@.len() - rest@.len()) as nat)) && rest@ == behind(
                bytes@,
                (bytes@.len() - rest@.len()) as nat,
            ),
            None => ticker_field(tag, wire, bytes@, ticker@) is None,
        },
{
    if tag == BID_TAG {
        match read_text(wire, bytes) {
            Some((bid_price, rest)) => Some(
                (MexcBookTicker { bid_price, ask_price: ticker.ask_price }, rest),
            ),
            None => None,
        }
    } else if tag == ASK_TAG {
        match read_text(wire, bytes) {
            Some((ask_price, rest)) => Some(
                (MexcBookTicker { bid_price: ticker.bid_price, ask_price }, rest),
            ),
            None => None,
        }
    } else {
        match skip(wire, tag, bytes) {
            Some(rest) => Some((ticker, rest)),
            None => None,
        }
    }
}

fn merge_ticker_fields(bytes: &[u8], ticker: MexcBookTicker) -> (result: Option<
    (MexcBookTicker, bool),
>)
    ensures
        match result {
            Some((next, group)) => ticker_fields(bytes@, ticker@, false) == Some((next@, group)),
            None => ticker_fields(bytes@, ticker@, false) is None,
        },
{
    let ghost all = ticker_fields(bytes@, ticker@, false);
    let mut rest: &[u8] = bytes;
    let mut state: MexcBookTicker = ticker;
    let mut group: bool = false;
    while rest.len() > 0
        invariant
            ticker_fields(rest@, state@, group) == all,
            all == ticker_fields(bytes@, ticker@, false),
        decreases rest.len(),
    {
        proof {
            lemma_key(rest@);
        }
        match read_key(rest) {
            Some((tag, wire, value)) => match merge_ticker_field(tag, wire, value, state) {
                Some((next, after)) => {
                    state = next;
                    rest = after;
                    group = group || wire == START_GROUP;
                },
                None => {
                    return None;
                },
            },
            None => {
                return None;
            },
        }
    }
    Some((state, group))
}

fn merge_ticker<'a>(wire: u64, bytes: &'a [u8], ticker: MexcBookTicker) -> (result: Option<
    (MexcBookTicker, &'a [u8]),
>)
    requires
        wire <= 5,
    ensures
        match result {
            Some((next, rest)) => rest@.len() <= bytes@.len() && ticker_message(
                wire,
                bytes@,
                ticker@,
            ) == Some((next@, (bytes@.len() - rest@.len()) as nat)) && rest@ == behind(
                bytes@,
                (bytes@.len() - rest@.len()) as nat,
            ),
            None => ticker_message(wire, bytes@, ticker@) is None,
        },
{
    if wire != LENGTH_DELIMITED {
        return None;
    }
    match read_varint(bytes) {
        Some((length, value)) => {
            if length > value.len() as u64 {
                return None;
            }
            let end: usize = length as usize;
            let content: &[u8] = slice_subrange(value, 0, end);
            let rest: &[u8] = slice_subrange(value, end, value.len());
            let ghost used = (bytes@.len() - value@.len()) as nat;
            proof {
                assert(content@ =~= bytes@.subrange(used as int, used + length));
                assert(rest@ =~= behind(bytes@, (used + length) as nat));
            }
            match merge_ticker_fields(content, ticker) {
                Some((next, group)) => if group && !accepts_message(wire, bytes) {
                    None
                } else {
                    Some((next, rest))
                },
                None => None,
            }
        },
        None => None,
    }
}

fn merge_push_field<'a>(tag: u32, wire: u64, bytes: &'a [u8], push: MexcPush) -> (result: Option<
    (MexcPush, &'a [u8]),
>)
    requires
        wire <= 5,
    ensures
        match result {
            Some((next, rest)) => rest@.len() <= bytes@.len() && push_field(
                tag,
                wire,
                bytes@,
                push@,
            ) == Some((next@, (bytes@.len() - rest@.len()) as nat)) && rest@ == behind(
                bytes@,
                (bytes@.len() - rest@.len()) as nat,
            ),
            None => push_field(tag, wire, bytes@, push@) is None,
        },
{
    if tag == SYMBOL_TAG {
        match read_text(wire, bytes) {
            Some((symbol, rest)) => Some(
                (
                    MexcPush {
                        symbol: Some(symbol),
                        send_time: push.send_time,
                        ticker: push.ticker,
                    },
                    rest,
                ),
            ),
            None => None,
        }
    } else if tag == SEND_TIME_TAG {
        match read_integer(wire, bytes) {
            Some((time, rest)) => Some(
                (
                    MexcPush { symbol: push.symbol, send_time: Some(time), ticker: push.ticker },
                    rest,
                ),
            ),
            None => None,
        }
    } else if tag == TICKER_TAG {
        let before: MexcBookTicker = match push.ticker {
            Some(ticker) => ticker,
            None => {
                let ticker: MexcBookTicker = MexcBookTicker {
                    bid_price: String::new(),
                    ask_price: String::new(),
                };
                proof {
                    assert(ticker@ =~= empty_ticker());
                }
                ticker
            },
        };
        match merge_ticker(wire, bytes, before) {
            Some((ticker, rest)) => Some(
                (
                    MexcPush {
                        symbol: push.symbol,
                        send_time: push.send_time,
                        ticker: Some(ticker),
                    },
                    rest,
                ),
            ),
            None => None,
        }
    } else {
        match skip(wire, tag, bytes) {
            Some(rest) => Some((push, rest)),
            None => None,
        }
    }
}

/// Decodes a push message.
pub fn decode_push(payload: &[u8]) -> (result: Option<MexcPush>)
    ensures
        match result {
            Some(push) => push_fields(payload@, empty_push()) == Some(push@),
            None => push_fields(payload@, empty_push()) is None,
        },
{
    let ghost all = push_fields(payload@, empty_push());
    let mut rest: &[u8] = payload;
    let mut state: MexcPush = MexcPush { symbol: None, send_time: None, ticker: None };
    while rest.len() > 0
        invariant
            push_fields(rest@, state@) == all,
            all == push_fields(payload@, empty_push()),
        decreases rest.len(),
    {
        proof {
            lemma_key(rest@);
        }
        match read_key(rest) {
            Some((tag, wire, value)) => match merge_push_field(tag, wire, value, state) {
                Some((next, after)) => {
                    state = next;
                    rest = after;
                },
                None => {
                    return None;
                },
            },
            None => {
                return None;
            },
        }
    }
    Some(state)
}

/// The quote in a push message with a symbol and a ticker of two prices.
pub open spec fn push_quote_spec(push: PushView) -> Option<ParsedQuoteView> {
    match (push.symbol, push.ticker) {
        (Some(symbol), Some(ticker)) => quote_of(
            symbol,
            parse_price_spec(ticker.bid),
            parse_price_spec(ticker.ask),
            push.send_time,
        ),
        _ => None,
    }
}

/// The quote in a push message with a symbol and a ticker of two prices.
pub fn push_quote(push: MexcPush) -> (result: Option<ParsedQuote>)
    ensures
        quote_view(result) == push_quote_spec(push@),
{
    match (push.symbol, push.ticker) {
        (Some(symbol), Some(ticker)) => match (
            parse_price(ticker.bid_price.as_str()),
            parse_price(ticker.ask_price.as_str()),
        ) {
            (Some(bid), Some(ask)) => Some(
                ParsedQuote { symbol, bid, ask, server_ms: push.send_time },
            ),
            _ => None,
        },
        _ => None,
    }
}

/// The quote that a payload carries.
pub fn parse_mexc_bbo(payload: &[u8]) -> (result: Option<ParsedQuote>)
    ensures
        quote_view(result) == match push_fields(payload@, empty_push()) {
            Some(push) => push_quote_spec(push),
            None => None,
        },
{
    match decode_push(payload) {
        Some(push) => push_quote(push),
        None => None,
    }
}

/// Both prices of a quote in a push message are positive and finite.
pub proof fn pushed_quotes_are_valid(push: PushView)
    ensures
        push_quote_spec(push) matches Some(quote) ==> quote.bid.positive_finite()
            && quote.ask.positive_finite(),
{
}

/// A ticker with both prices.
pub open spec fn encoded_ticker(bid: Seq<char>, ask: Seq<char>) -> Seq<u8> {
    encoded_field(BID_TAG, encode_utf8(bid)) + encoded_field(ASK_TAG, encode_utf8(ask))
}

/// A push message with a symbol, a send time and a ticker.
pub open spec fn encoded_push(
    symbol: Seq<char>,
    send_time: i64,
    bid: Seq<char>,
    ask: Seq<char>,
) -> Seq<u8> {
    encoded_field(SYMBOL_TAG, encode_utf8(symbol)) + encoded_integer(SEND_TIME_TAG, send_time)
        + encoded_field(TICKER_TAG, encoded_ticker(bid, ask))
}

/// What a text field's value reads as, behind its key.
proof fn lemma_text_value(content: Seq<u8>, rest: Seq<u8>)
    requires
        content.len() <= u64::MAX,
        valid_utf8(content),
    ensures
        ({
            let value = encoded_varint(content.len()) + content;
            &&& text_field(LENGTH_DELIMITED, value + rest) == Some(
                (decode_utf8(content), value.len()),
            )
            &&& behind(value + rest, value.len()) == rest
        }),
{
    contents_read_back(content, rest);
}

proof fn lemma_ticker_text(tag: u32, content: Seq<u8>, rest: Seq<u8>, ticker: TickerView)
    requires
        tag == BID_TAG || tag == ASK_TAG,
        content.len() <= u64::MAX,
        valid_utf8(content),
    ensures
        ticker_fields(encoded_field(tag, content) + rest, ticker, false) == ticker_fields(
            rest,
            if tag == BID_TAG {
                TickerView { bid: decode_utf8(content), ..ticker }
            } else {
                TickerView { ask: decode_utf8(content), ..ticker }
            },
            false,
        ),
{
    let bytes = encoded_field(tag, content) + rest;
    let value = encoded_varint(content.len()) + content;
    let head = encoded_key(tag, LENGTH_DELIMITED);
    assert(bytes =~= head + (value + rest));
    keys_read_back(tag, LENGTH_DELIMITED, value + rest);
    lemma_text_value(content, rest);
    lemma_key(bytes);
}

proof fn lemma_push_text(content: Seq<u8>, rest: Seq<u8>, push: PushView)
    requires
        content.len() <= u64::MAX,
        valid_utf8(content),
    ensures
        push_fields(encoded_field(SYMBOL_TAG, content) + rest, push) == push_fields(
            rest,
            PushView { symbol: Some(decode_utf8(content)), ..push },
        ),
{
    let bytes = encoded_field(SYMBOL_TAG, content) + rest;
    let value = encoded_varint(content.len()) + content;
    assert(bytes =~= encoded_key(SYMBOL_TAG, LENGTH_DELIMITED) + (value + rest));
    keys_read_back(SYMBOL_TAG, LENGTH_DELIMITED, value + rest);
    lemma_text_value(content, rest);
    lemma_key(bytes);
}

proof fn lemma_push_integer(time: i64, rest: Seq<u8>, push: PushView)
    ensures
        push_fields(encoded_integer(SEND_TIME_TAG, time) + rest, push) == push_fields(
            rest,
            PushView { send_time: Some(time), ..push },
        ),
{
    let bytes = encoded_integer(SEND_TIME_TAG, time) + rest;
    let number: nat = if time < 0 {
        (time + 0x1_0000_0000_0000_0000) as nat
    } else {
        time as nat
    };
    let value = encoded_varint(number);
    assert(bytes =~= encoded_key(SEND_TIME_TAG, VARINT) + (value + rest));
    keys_read_back(SEND_TIME_TAG, VARINT, value + rest);
    varints_read_back(number, rest);
    lemma_key(bytes);
}

proof fn lemma_push_ticker(content: Seq<u8>, ticker: TickerView, rest: Seq<u8>, push: PushView)
    requires
        content.len() <= u64::MAX,
        push.ticker is None,
        ticker_fields(content, empty_ticker(), false) == Some((ticker, false)),
    ensures
        push_fields(encoded_field(TICKER_TAG, content) + rest, push) == push_fields(
            rest,
            PushView { ticker: Some(ticker), ..push },
        ),
{
    let bytes = encoded_field(TICKER_TAG, content) + rest;
    let value = encoded_varint(content.len()) + content;
    assert(bytes =~= encoded_key(TICKER_TAG, LENGTH_DELIMITED) + (value + rest));
    keys_read_back(TICKER_TAG, LENGTH_DELIMITED, value + rest);
    contents_read_back(content, rest);
    lemma_key(bytes);
}

/// A push message with a symbol, a send time and two prices reads back as what it was
/// made of.
pub proof fn pushes_read_back(
    symbol: Seq<char>,
    send_time: i64,
    bid: Seq<char>,
    ask: Seq<char>,
)
    requires
        encoded_push(symbol, send_time, bid, ask).len() <= u64::MAX,
    ensures
        push_fields(encoded_push(symbol, send_time, bid, ask), empty_push()) == Some(
            PushView {
                symbol: Some(symbol),
                send_time: Some(send_time),
                ticker: Some(TickerView { bid, ask }),
            },
        ),
{
    broadcast use {vstd::utf8::encode_utf8_valid_utf8, vstd::utf8::encode_utf8_decode_utf8};

    let nothing = Seq::<u8>::empty();
    let last = encoded_field(ASK_TAG, encode_utf8(ask));
    let ticker = encoded_ticker(bid, ask);
    lemma_ticker_text(BID_TAG, encode_utf8(bid), last, empty_ticker());
    let half = TickerView { bid, ..empty_ticker() };
    lemma_ticker_text(ASK_TAG, encode_utf8(ask), nothing, half);
    assert(last + nothing =~= last);
    let whole = TickerView { bid, ask };
    assert(ticker_fields(nothing, whole, false) == Some((whole, false)));
    let tail = encoded_field(TICKER_TAG, ticker);
    let middle = encoded_integer(SEND_TIME_TAG, send_time);
    assert(encoded_push(symbol, send_time, bid, ask) =~= encoded_field(
        SYMBOL_TAG,
        encode_utf8(symbol),
    ) + (middle + tail));
    lemma_push_text(encode_utf8(symbol), middle + tail, empty_push());
    let named = PushView { symbol: Some(symbol), ..empty_push() };
    lemma_push_integer(send_time, tail, named);
    let timed = PushView { send_time: Some(send_time), ..named };
    assert(tail + nothing =~= tail);
    lemma_push_ticker(ticker, whole, nothing, timed);
}

/// Fields are read one after the other, by their numbers: 3 sets the symbol, 6 the send
/// time, and a number with any other changes nothing. In a ticker, 1 sets the bid and 3
/// the ask. Of a field that is there twice, the later one counts.
pub proof fn fields_are_read_by_number(
    text: Seq<char>,
    number: i64,
    tag: u32,
    rest: Seq<u8>,
    push: PushView,
    ticker: TickerView,
)
    requires
        encode_utf8(text).len() <= u64::MAX,
        1 <= tag < 0x2000_0000,
    ensures
        push_fields(encoded_field(3, encode_utf8(text)) + rest, push) == push_fields(
            rest,
            PushView { symbol: Some(text), ..push },
        ),
        push_fields(encoded_integer(6, number) + rest, push) == push_fields(
            rest,
            PushView { send_time: Some(number), ..push },
        ),
        tag != 3 && tag != 6 && tag != 315 ==> push_fields(encoded_integer(tag, number) + rest, push)
            == push_fields(rest, push),
        ticker_fields(encoded_field(1, encode_utf8(text)) + rest, ticker, false) == ticker_fields(
            rest,
            TickerView { bid: text, ..ticker },
            false,
        ),
        ticker_fields(encoded_field(3, encode_utf8(text)) + rest, ticker, false) == ticker_fields(
            rest,
            TickerView { ask: text, ..ticker },
            false,
        ),
{
    broadcast use {vstd::utf8::encode_utf8_valid_utf8, vstd::utf8::encode_utf8_decode_utf8};

    lemma_push_text(encode_utf8(text), rest, push);
    lemma_push_integer(number, rest, push);
    lemma_ticker_text(1, encode_utf8(text), rest, ticker);
    lemma_ticker_text(3, encode_utf8(text), rest, ticker);
    if tag != 3 && tag != 6 && tag != 315 {
        let bytes = encoded_integer(tag, number) + rest;
        let size: nat = if number < 0 {
            (number + 0x1_0000_0000_0000_0000) as nat
        } else {
            number as nat
        };
        let value = encoded_varint(size);
        assert(bytes =~= encoded_key(tag, VARINT) + (value + rest));
        keys_read_back(tag, VARINT, value + rest);
        varints_read_back(size, rest);
        lemma_key(bytes);
    }
}

/// A payload with a symbol, a send time and a ticker of two prices leads to a quote with
/// these, and to none exactly if a price is none.
pub proof fn pushes_carry_what_was_sent(
    symbol: Seq<char>,
    send_time: i64,
    bid: Seq<char>,
    ask: Seq<char>,
)
    requires
        encoded_push(symbol, send_time, bid, ask).len() <= u64::MAX,
    ensures
        ({
            let payload = encoded_field(3, encode_utf8(symbol)) + encoded_integer(6, send_time)
                + encoded_field(
                315,
                encoded_field(1, encode_utf8(bid)) + encoded_field(3, encode_utf8(ask)),
            );
            let push = push_fields(payload, empty_push());
            push is Some && carries(
                push_quote_spec(push->Some_0),
                symbol,
                parse_price_spec(bid),
                parse_price_spec(ask),
                Some(send_time),
            )
        }),
{
    pushes_read_back(symbol, send_time, bid, ask);
}

/// A message leads to a quote only with a symbol and a ticker, and carries the send time
/// that it has.
pub proof fn quotes_need_a_symbol_and_a_ticker(push: PushView)
    ensures
        push.symbol is None || push.ticker is None ==> push_quote_spec(push) is None,
        push.symbol is Some && push.ticker is Some ==> carries(
            push_quote_spec(push),
            push.symbol->Some_0,
            parse_price_spec(push.ticker->Some_0.bid),
            parse_price_spec(push.ticker->Some_0.ask),
            push.send_time,
        ),
        push_fields(Seq::empty(), push) == Some(push),
{
}

/// The views of messages and tickers show their fields.
pub proof fn pushes_show_their_fields(push: MexcPush)
    ensures
        push@.send_time == push.send_time,
        push@.symbol is Some <==> push.symbol is Some,
        push.symbol matches Some(symbol) ==> push@.symbol == Some(symbol@),
        push@.ticker is Some <==> push.ticker is Some,
        push.ticker matches Some(ticker) ==> push@.ticker->Some_0.bid == ticker.bid_price@
            && push@.ticker->Some_0.ask == ticker.ask_price@,
{
}

} // verus!
