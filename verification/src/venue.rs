//! The venue adapter's message layer: symbol validation, stream names,
//! and conversion of venue trade messages into canonical ticks.
//!
//! The wire format is JSON; an opaque parsed value is taken apart through
//! trusted accessors, and everything from the extracted plain fields to the
//! finished tick is verified. The maker flag decides the side: when the
//! buyer was the maker, the taker sold.

use vstd::prelude::*;
use vstd::string::StringSliceAdditionalSpecFns;
use vstd::utf8::encode_utf8;
use crate::decimal::{dec_from_str, dec_str_val, all_digits, digits_val};
use crate::tick::{TickData, side_from_maker};

verus! {

/// Errors of the venue adapter.
#[derive(Debug)]
pub enum ExchangeError {
    NetworkError(String),
    WebSocketError(String),
    RateLimit(String),
    InvalidSymbol(String),
    ParseError(String),
    Timeout,
    ApiError(String),
}

/// A venue trade message, fields already plain.
#[derive(Debug)]
pub struct BinanceTradeMessage {
    pub symbol: String,
    pub trade_id: u64,
    pub price: String,
    pub quantity: String,
    pub trade_time: u64,
    pub is_buyer_maker: bool,
}

/// The combined-stream envelope around a trade message.
#[derive(Debug)]
pub struct BinanceStreamMessage {
    pub stream: String,
    pub data: BinanceTradeMessage,
}

/// The subscription request sent after connecting.
#[derive(Debug)]
pub struct BinanceSubscribeMessage {
    pub method: String,
    pub params: Vec<String>,
    pub id: u32,
}

impl BinanceSubscribeMessage {
    /// A subscription request for the given streams.
    pub fn new(streams: Vec<String>) -> (r: BinanceSubscribeMessage)
        ensures
            r.method@ == "SUBSCRIBE"@,
            r.params@ == streams@,
            r.id == 1,
    {
        BinanceSubscribeMessage { method: "SUBSCRIBE".to_owned(), params: streams, id: 1 }
    }
}

/// Query parameters of a historical-trades request.
#[derive(Debug)]
pub struct HistoricalTradeParams {
    pub symbol: String,
    pub start_time: Option<i64>,
    pub end_time: Option<i64>,
    pub limit: Option<u32>,
}

impl HistoricalTradeParams {
    /// A request for the symbol with no window or limit.
    pub fn new(symbol: String) -> (r: HistoricalTradeParams)
        ensures
            r.symbol@ == symbol@,
            r.start_time is None,
            r.end_time is None,
            r.limit is None,
    {
        HistoricalTradeParams { symbol, start_time: None, end_time: None, limit: None }
    }

    /// The same request clamped to at most `limit` trades.
    pub fn with_limit(self, limit: u32) -> (r: HistoricalTradeParams)
        ensures
            r.symbol@ == self.symbol@,
            r.limit == Some(limit),
            r.start_time == self.start_time,
            r.end_time == self.end_time,
    {
        HistoricalTradeParams { limit: Some(limit), ..self }
    }

    /// The same request restricted to a time window (epoch microseconds).
    pub fn with_time_range(self, start_time: i64, end_time: i64) -> (r: HistoricalTradeParams)
        ensures
            r.symbol@ == self.symbol@,
            r.limit == self.limit,
            r.start_time == Some(start_time),
            r.end_time == Some(end_time),
    {
        HistoricalTradeParams { start_time: Some(start_time), end_time: Some(end_time), ..self }
    }
}

/// ASCII letter or digit.
pub open spec fn is_alnum_byte(b: u8) -> bool {
    (48 <= b <= 57) || (65 <= b <= 90) || (97 <= b <= 122)
}

/// ASCII upper-casing of one byte.
pub open spec fn upper_byte(b: u8) -> u8 {
    if 97 <= b <= 122 {
        (b - 32) as u8
    } else {
        b
    }
}

/// ASCII lower-casing of one byte.
pub open spec fn lower_byte(b: u8) -> u8 {
    if 65 <= b <= 90 {
        (b + 32) as u8
    } else {
        b
    }
}

/// A well-formed venue symbol: three to twenty ASCII letters or digits.
pub open spec fn symbol_ok(bs: Seq<u8>) -> bool {
    3 <= bs.len() <= 20 && (forall|i: int| 0 <= i < bs.len() ==> is_alnum_byte(#[trigger] bs[i]))
}

/// The symbol's bytes mapped to upper case.
pub open spec fn upper_bytes(bs: Seq<u8>) -> Seq<u8> {
    bs.map_values(|b: u8| upper_byte(b))
}

/// The symbol's bytes mapped to lower case.
pub open spec fn lower_bytes(bs: Seq<u8>) -> Seq<u8> {
    bs.map_values(|b: u8| lower_byte(b))
}

/// The stream name of a symbol: its lower-case bytes followed by `@trade`.
pub open spec fn stream_bytes(bs: Seq<u8>) -> Seq<u8> {
    lower_bytes(bs) + seq![64u8, 116u8, 114u8, 97u8, 100u8, 101u8]
}

/// Bytes of a string, one per character, for ASCII strings.
pub open spec fn str_bytes_of(s: Seq<char>) -> Seq<u8> {
    s.map_values(|c: char| c as u8)
}

/// Builds a `String` from ASCII bytes.
///
/// Relies on `String::from_utf8`: a buffer of bytes below 128 is valid
/// UTF-8 and decodes to exactly those characters.
#[verifier::external_body]
fn string_from_ascii(v: Vec<u8>) -> (r: String)
    requires
        forall|i: int| 0 <= i < v@.len() ==> #[trigger] v@[i] < 128,
    ensures
        r@.len() == v@.len(),
        forall|i: int|
            0 <= i < v@.len() ==> (((#[trigger] r@[i]) as u8) == v@[i] && ((r@[i] as u32) < 128)),
{
    String::from_utf8(v).unwrap_or_default()
}

/// Writes a `u64` in decimal.
///
/// Relies on `u64::to_string`: the result is the unique decimal numeral of
/// the value, digits only, no leading zero except for zero itself.
#[verifier::external_body]
fn u64_to_string(v: u64) -> (r: String)
    ensures
        encode_utf8(r@).len() >= 1,
        all_digits(encode_utf8(r@)),
        digits_val(encode_utf8(r@)) == v,
        encode_utf8(r@)[0] == 48 ==> encode_utf8(r@).len() == 1,
{
    v.to_string()
}

/// Validates a venue symbol: non-empty, ASCII letters and digits only,
/// three to twenty of them; the accepted symbol comes back upper-cased.
pub fn validate_binance_symbol(symbol: &str) -> (r: Result<String, ExchangeError>)
    ensures
        r is Ok <==> symbol_ok(symbol.spec_bytes()),
        (r matches Ok(s) ==> str_bytes_of(s@) =~= upper_bytes(symbol.spec_bytes())),
        (r matches Err(e) ==> e is InvalidSymbol),
{
    let bs = symbol.as_bytes();
    let n = bs.len();
    if n == 0 {
        return Err(ExchangeError::InvalidSymbol("Symbol cannot be empty".to_owned()));
    }
    if n < 3 || n > 20 {
        return Err(ExchangeError::InvalidSymbol("Symbol has invalid length".to_owned()));
    }
    let mut out: Vec<u8> = Vec::new();
    let mut i: usize = 0;
    while i < n
        invariant
            i <= n,
            n == bs@.len(),
            bs@ == symbol.spec_bytes(),
            3 <= n <= 20,
            out@.len() == i,
            forall|j: int| 0 <= j < i ==> is_alnum_byte(#[trigger] bs@[j]),
            forall|j: int| 0 <= j < i ==> #[trigger] out@[j] == upper_byte(bs@[j]),
        decreases n - i,
    {
        let b = bs[i];
        let ok = (48 <= b && b <= 57) || (65 <= b && b <= 90) || (97 <= b && b <= 122);
        if !ok {
            proof {
                assert(!is_alnum_byte(bs@[i as int]));
            }
            return Err(
                ExchangeError::InvalidSymbol("Symbol contains invalid characters".to_owned()),
            );
        }
        let u = if 97 <= b && b <= 122 {
            b - 32
        } else {
            b
        };
        out.push(u);
        i = i + 1;
    }
    proof {
        assert(forall|j: int| 0 <= j < out@.len() ==> #[trigger] out@[j] < 128);
    }
    let s = string_from_ascii(out);
    proof {
        assert(n == symbol.spec_bytes().len());
        assert(3 <= n && n <= 20);
        assert(forall|j: int|
            0 <= j < symbol.spec_bytes().len() ==> is_alnum_byte(
                #[trigger] symbol.spec_bytes()[j],
            ));
        assert(symbol_ok(symbol.spec_bytes()));
        assert(str_bytes_of(s@) =~= upper_bytes(symbol.spec_bytes()));
    }
    Ok(s)
}

/// Builds the subscription stream names, one per symbol: the validated
/// symbol lower-cased with `@trade` appended. Fails on an empty list or on
/// any invalid symbol.
pub fn build_binance_trade_streams(symbols: &Vec<String>) -> (r: Result<
    Vec<String>,
    ExchangeError,
>)
    ensures
        r is Ok <==> (symbols@.len() > 0 && (forall|i: int|
            0 <= i < symbols@.len() ==> symbol_ok(encode_utf8((#[trigger] symbols@[i])@)))),
        (r matches Ok(streams) ==> streams@.len() == symbols@.len() && (forall|i: int|
            0 <= i < symbols@.len() ==> str_bytes_of((#[trigger] streams@[i])@) =~= stream_bytes(
                encode_utf8(symbols@[i]@),
            ))),
        (r matches Err(e) ==> e is InvalidSymbol),
{
    let n = symbols.len();
    if n == 0 {
        return Err(ExchangeError::InvalidSymbol("No symbols provided".to_owned()));
    }
    let mut streams: Vec<String> = Vec::new();
    let mut i: usize = 0;
    while i < n
        invariant
            i <= n,
            n == symbols@.len(),
            streams@.len() == i,
            forall|j: int| 0 <= j < i ==> symbol_ok(encode_utf8((#[trigger] symbols@[j])@)),
            forall|j: int|
                0 <= j < i ==> str_bytes_of((#[trigger] streams@[j])@) =~= stream_bytes(
                    encode_utf8(symbols@[j]@),
                ),
        decreases n - i,
    {
        let sym = &symbols[i];
        let bs = sym.as_str().as_bytes();
        let m = bs.len();
        proof {
            assert(bs@ == encode_utf8(symbols@[i as int]@));
        }
        if m < 3 || m > 20 {
            proof {
                assert(!symbol_ok(encode_utf8(symbols@[i as int]@)));
            }
            return Err(ExchangeError::InvalidSymbol("Symbol has invalid length".to_owned()));
        }
        let mut out: Vec<u8> = Vec::new();
        let mut k: usize = 0;
        while k < m
            invariant
                k <= m,
                m == bs@.len(),
                i < n,
                n == symbols@.len(),
                bs@ == encode_utf8(symbols@[i as int]@),
                out@.len() == k,
                forall|j: int| 0 <= j < k ==> is_alnum_byte(#[trigger] bs@[j]),
                forall|j: int| 0 <= j < k ==> #[trigger] out@[j] == lower_byte(bs@[j]),
            decreases m - k,
        {
            let b = bs[k];
            let ok = (48 <= b && b <= 57) || (65 <= b && b <= 90) || (97 <= b && b <= 122);
            if !ok {
                proof {
                    assert(!is_alnum_byte(bs@[k as int]));
                    assert(!symbol_ok(encode_utf8(symbols@[i as int]@)));
                }
                return Err(
                    ExchangeError::InvalidSymbol("Symbol contains invalid characters".to_owned()),
                );
            }
            let l = if 65 <= b && b <= 90 {
                b + 32
            } else {
                b
            };
            out.push(l);
            k = k + 1;
        }
        out.push(64);
        out.push(116);
        out.push(114);
        out.push(97);
        out.push(100);
        out.push(101);
        proof {
            assert(forall|j: int| 0 <= j < out@.len() ==> #[trigger] out@[j] < 128);
        }
        let stream = string_from_ascii(out);
        let ghost symbs = encode_utf8(symbols@[i as int]@);
        proof {
            assert(symbs == bs@);
            assert(str_bytes_of(stream@) =~= stream_bytes(symbs));
            assert(symbol_ok(symbs));
        }
        streams.push(stream);
        i = i + 1;
    }
    Ok(streams)
}

/// The converter succeeds on exactly these fields: a timestamp that fits
/// in microseconds, and price and quantity literals that parse to strictly
/// positive decimals.
pub open spec fn convertible_fields(price: Seq<char>, quantity: Seq<char>, trade_time: u64) -> bool {
    &&& trade_time * 1000 <= i64::MAX
    &&& (match dec_str_val(encode_utf8(price)) {
        Some(p) => p > 0,
        None => false,
    })
    &&& (match dec_str_val(encode_utf8(quantity)) {
        Some(q) => q > 0,
        None => false,
    })
}

/// Converts a venue trade message to the canonical tick: the timestamp
/// moves from milliseconds to microseconds, price and quantity are parsed
/// as exact decimals and must be positive, and the side is `Sell` exactly
/// when the buyer was the maker. Succeeds if and only if the fields are
/// convertible.
pub fn convert_binance_to_tick_data(msg: BinanceTradeMessage) -> (r: Result<
    TickData,
    ExchangeError,
>)
    ensures
        r is Ok <==> convertible_fields(msg.price@, msg.quantity@, msg.trade_time),
        (r matches Ok(t) ==> {
            &&& t.timestamp == msg.trade_time * 1000
            &&& t.symbol@ == msg.symbol@
            &&& Some(t.price@) == dec_str_val(encode_utf8(msg.price@))
            &&& t.price@ > 0
            &&& Some(t.quantity@) == dec_str_val(encode_utf8(msg.quantity@))
            &&& t.quantity@ > 0
            &&& ((t.side is Sell) <==> msg.is_buyer_maker)
            &&& t.is_buyer_maker == msg.is_buyer_maker
            &&& all_digits(encode_utf8(t.trade_id@)) && digits_val(encode_utf8(t.trade_id@))
                == msg.trade_id
            &&& encode_utf8(t.trade_id@).len() >= 1
            &&& (encode_utf8(t.trade_id@)[0] == 48 ==> encode_utf8(t.trade_id@).len() == 1)
        }),
        (r matches Err(e) ==> e is ParseError),
{
    if msg.trade_time > (i64::MAX as u64) / 1000 {
        return Err(ExchangeError::ParseError("Invalid timestamp".to_owned()));
    }
    let timestamp: i64 = (msg.trade_time as i64) * 1000;
    let price = match dec_from_str(msg.price.as_str()) {
        Some(p) => p,
        None => {
            return Err(ExchangeError::ParseError("Invalid price".to_owned()));
        },
    };
    let quantity = match dec_from_str(msg.quantity.as_str()) {
        Some(q) => q,
        None => {
            return Err(ExchangeError::ParseError("Invalid quantity".to_owned()));
        },
    };
    if !price.is_positive() {
        return Err(ExchangeError::ParseError("Price must be positive".to_owned()));
    }
    if !quantity.is_positive() {
        return Err(ExchangeError::ParseError("Quantity must be positive".to_owned()));
    }
    let side = side_from_maker(msg.is_buyer_maker);
    let trade_id = u64_to_string(msg.trade_id);
    Ok(
        TickData {
            timestamp,
            symbol: msg.symbol,
            price,
            quantity,
            side,
            trade_id,
            is_buyer_maker: msg.is_buyer_maker,
        },
    )
}

/// The trade fields a combined-stream envelope denotes: `s`, `t`, `p`,
/// `q`, `T` and `m` under the `data` member of a document that also names
/// its `stream`; `None` for any other text. A function of the text alone.
pub uninterp spec fn envelope_trade_fields(text: Seq<char>) -> Option<
    (Seq<char>, u64, Seq<char>, Seq<char>, u64, bool),
>;

/// The trade fields a bare trade message denotes: the same six members at
/// the top level of the document. A function of the text alone.
pub uninterp spec fn direct_trade_fields(text: Seq<char>) -> Option<
    (Seq<char>, u64, Seq<char>, Seq<char>, u64, bool),
>;

/// Whether the text is one of the venue's control messages: a JSON
/// document carrying a `result` or `id` member.
pub uninterp spec fn is_control_text(text: Seq<char>) -> bool;

/// The trade fields a text frame denotes: the combined-stream envelope is
/// tried first, then the bare message.
pub open spec fn trade_fields_of(text: Seq<char>) -> Option<
    (Seq<char>, u64, Seq<char>, Seq<char>, u64, bool),
> {
    if envelope_trade_fields(text) is Some {
        envelope_trade_fields(text)
    } else {
        direct_trade_fields(text)
    }
}

/// Relies on `serde_json::from_str`, `Value::get`, `Value::as_str`,
/// `Value::as_u64` and `Value::as_bool` to read a combined-stream
/// envelope; the outcome names `envelope_trade_fields` of the text.
#[verifier::external_body]
fn extract_envelope_fields(text: &str) -> (r: Option<BinanceTradeMessage>)
    ensures
        (match r {
            Some(m) => envelope_trade_fields(text@) == Some(
                (m.symbol@, m.trade_id, m.price@, m.quantity@, m.trade_time, m.is_buyer_maker),
            ),
            None => envelope_trade_fields(text@) is None,
        }),
{
    let v: serde_json::Value = serde_json::from_str(text).ok()?;
    let _stream = v.get("stream")?.as_str()?;
    let t = v.get("data")?;
    Some(BinanceTradeMessage {
        symbol: t.get("s")?.as_str()?.to_owned(),
        trade_id: t.get("t")?.as_u64()?,
        price: t.get("p")?.as_str()?.to_owned(),
        quantity: t.get("q")?.as_str()?.to_owned(),
        trade_time: t.get("T")?.as_u64()?,
        is_buyer_maker: t.get("m")?.as_bool()?,
    })
}

/// Relies on `serde_json::from_str`, `Value::get`, `Value::as_str`,
/// `Value::as_u64` and `Value::as_bool` to read a bare trade message; the
/// outcome names `direct_trade_fields` of the text.
#[verifier::external_body]
fn extract_direct_fields(text: &str) -> (r: Option<BinanceTradeMessage>)
    ensures
        (match r {
            Some(m) => direct_trade_fields(text@) == Some(
                (m.symbol@, m.trade_id, m.price@, m.quantity@, m.trade_time, m.is_buyer_maker),
            ),
            None => direct_trade_fields(text@) is None,
        }),
{
    let t: serde_json::Value = serde_json::from_str(text).ok()?;
    Some(BinanceTradeMessage {
        symbol: t.get("s")?.as_str()?.to_owned(),
        trade_id: t.get("t")?.as_u64()?,
        price: t.get("p")?.as_str()?.to_owned(),
        quantity: t.get("q")?.as_str()?.to_owned(),
        trade_time: t.get("T")?.as_u64()?,
        is_buyer_maker: t.get("m")?.as_bool()?,
    })
}

/// Relies on `serde_json::from_str` and `Value::get`: whether the text is
/// a JSON document with a `result` or `id` member; the outcome names
/// `is_control_text` of the text.
#[verifier::external_body]
fn is_control_message(text: &str) -> (r: bool)
    ensures
        r == is_control_text(text@),
{
    match serde_json::from_str::<serde_json::Value>(text) {
        Ok(v) => v.get("result").is_some() || v.get("id").is_some(),
        Err(_) => false,
    }
}

/// Parses one WebSocket text frame into a tick: first as a combined-stream
/// envelope, then as a bare trade message. It succeeds exactly when the
/// text denotes trade fields and those fields convert; a control message
/// (a subscription acknowledgement) or any other text is a `ParseError`
/// and is never delivered as a tick.
pub fn parse_trade_message(text: &str) -> (r: Result<TickData, ExchangeError>)
    ensures
        r is Ok <==> (match trade_fields_of(text@) {
            Some(f) => convertible_fields(f.2, f.3, f.4),
            None => false,
        }),
        (r matches Ok(t) ==> (match trade_fields_of(text@) {
            Some(f) => {
                &&& t.symbol@ == f.0
                &&& all_digits(encode_utf8(t.trade_id@)) && digits_val(encode_utf8(t.trade_id@))
                    == f.1
                &&& Some(t.price@) == dec_str_val(encode_utf8(f.2))
                &&& t.price@ > 0
                &&& Some(t.quantity@) == dec_str_val(encode_utf8(f.3))
                &&& t.quantity@ > 0
                &&& t.timestamp == f.4 * 1000
                &&& t.is_buyer_maker == f.5
                &&& ((t.side is Sell) <==> t.is_buyer_maker)
            },
            None => false,
        })),
        (r matches Err(e) ==> e is ParseError),
        (trade_fields_of(text@) is None && is_control_text(text@)) ==> (r matches Err(e)
            && e matches ExchangeError::ParseError(m) && m@
            == "Control message, not trade data"@),
{
    if let Some(msg) = extract_envelope_fields(text) {
        return convert_binance_to_tick_data(msg);
    }
    if let Some(msg) = extract_direct_fields(text) {
        return convert_binance_to_tick_data(msg);
    }
    if is_control_message(text) {
        return Err(ExchangeError::ParseError("Control message, not trade data".to_owned()));
    }
    Err(ExchangeError::ParseError("Unable to parse message".to_owned()))
}

} // verus!
