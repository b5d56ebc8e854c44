//! The canonical trade record ("tick") and its validation rules.

use vstd::prelude::*;
use vstd::string::StringSliceAdditionalSpecFns;
use crate::decimal::Dec;

verus! {

/// Side of a trade print: which direction the taker traded.
#[derive(Clone, Copy, Debug, PartialEq, Eq, Structural)]
pub enum TradeSide {
    Buy,
    Sell,
}

impl TradeSide {
    /// Textual form stored in the database: `BUY` or `SELL`.
    pub fn as_db_str(&self) -> (r: &'static str)
        ensures
            *self is Buy ==> r@ == "BUY"@,
            *self is Sell ==> r@ == "SELL"@,
    {
        match self {
            TradeSide::Buy => "BUY",
            TradeSide::Sell => "SELL",
        }
    }
}

/// The canonical trade record. Timestamps are UTC epoch microseconds.
#[derive(Clone, Debug)]
pub struct TickData {
    pub timestamp: i64,
    pub symbol: String,
    pub price: Dec,
    pub quantity: Dec,
    pub side: TradeSide,
    pub trade_id: String,
    pub is_buyer_maker: bool,
}

/// Mathematical image of a tick: the same fields over sequences and
/// integers. Raw decimal units stand for price and quantity.
pub struct TickView {
    pub timestamp: int,
    pub symbol: Seq<char>,
    pub price: int,
    pub quantity: int,
    pub side: TradeSide,
    pub trade_id: Seq<char>,
    pub is_buyer_maker: bool,
}

impl View for TickData {
    type V = TickView;

    open spec fn view(&self) -> TickView {
        TickView {
            timestamp: self.timestamp as int,
            symbol: self.symbol@,
            price: self.price@,
            quantity: self.quantity@,
            side: self.side,
            trade_id: self.trade_id@,
            is_buyer_maker: self.is_buyer_maker,
        }
    }
}

impl DeepView for TickData {
    type V = TickView;

    open spec fn deep_view(&self) -> TickView {
        self.view()
    }
}

/// Two ticks agree in every field.
pub open spec fn tick_fields_eq(a: TickData, b: TickData) -> bool {
    a@ == b@
}

/// The key under which the store treats two ticks as the same print.
pub open spec fn tick_same_key(a: TickView, b: TickView) -> bool {
    a.symbol == b.symbol && a.trade_id == b.trade_id && a.timestamp == b.timestamp
}

/// A tick the store accepts: non-empty symbol and trade id, positive price
/// and quantity.
pub open spec fn tick_valid(t: TickView) -> bool {
    &&& t.symbol.len() > 0
    &&& t.trade_id.len() > 0
    &&& t.price > 0
    &&& t.quantity > 0
}

impl TickData {
    /// Builds a tick from its fields.
    pub fn new(
        timestamp: i64,
        symbol: String,
        price: Dec,
        quantity: Dec,
        side: TradeSide,
        trade_id: String,
        is_buyer_maker: bool,
    ) -> (r: TickData)
        ensures
            r.timestamp == timestamp,
            r.symbol@ == symbol@,
            r.price == price,
            r.quantity == quantity,
            r.side == side,
            r.trade_id@ == trade_id@,
            r.is_buyer_maker == is_buyer_maker,
    {
        TickData { timestamp, symbol, price, quantity, side, trade_id, is_buyer_maker }
    }

    /// Copies the tick field by field.
    pub fn duplicate(&self) -> (r: TickData)
        ensures
            tick_fields_eq(r, *self),
    {
        TickData {
            timestamp: self.timestamp,
            symbol: clone_string(&self.symbol),
            price: self.price,
            quantity: self.quantity,
            side: self.side,
            trade_id: clone_string(&self.trade_id),
            is_buyer_maker: self.is_buyer_maker,
        }
    }
}

/// Clones a string, keeping its characters.
pub fn clone_string(s: &String) -> (r: String)
    ensures
        r@ == s@,
{
    s.clone()
}

/// Maps the venue's maker flag to the canonical trade side: when the buyer
/// was the maker, the taker sold, so the side is `Sell`.
pub fn side_from_maker(is_buyer_maker: bool) -> (s: TradeSide)
    ensures
        s == (if is_buyer_maker {
            TradeSide::Sell
        } else {
            TradeSide::Buy
        }),
        (s is Sell) <==> is_buyer_maker,
{
    if is_buyer_maker {
        TradeSide::Sell
    } else {
        TradeSide::Buy
    }
}

/// Errors of the data layer.
#[derive(Debug)]
pub enum DataError {
    /// The record failed validation and was never sent to the store.
    Validation(String),
    /// A stored value had a shape the library does not recognise.
    InvalidFormat(String),
    /// The underlying store reported a failure.
    Storage(String),
}

/// Checks the validation contract for any insert: non-empty symbol and
/// trade id, strictly positive price and quantity.
pub fn validate_tick_data(t: &TickData) -> (r: Result<(), DataError>)
    ensures
        r is Ok <==> tick_valid(t@),
        (r matches Err(e) ==> e is Validation),
{
    if t.symbol.as_str().is_empty() {
        return Err(DataError::Validation("Symbol cannot be empty".to_owned()));
    }
    if !t.price.is_positive() {
        return Err(DataError::Validation("Price must be positive".to_owned()));
    }
    if !t.quantity.is_positive() {
        return Err(DataError::Validation("Quantity must be positive".to_owned()));
    }
    if t.trade_id.as_str().is_empty() {
        return Err(DataError::Validation("Trade ID cannot be empty".to_owned()));
    }
    Ok(())
}

/// Parses the database's textual trade side, case-insensitively:
/// `BUY` or `SELL`.
pub fn parse_trade_side(side_str: &str) -> (r: Result<TradeSide, DataError>)
    ensures
        is_buy_text(side_str.spec_bytes()) ==> (r matches Ok(s) && s is Buy),
        is_sell_text(side_str.spec_bytes()) ==> (r matches Ok(s) && s is Sell),
        !is_buy_text(side_str.spec_bytes()) && !is_sell_text(side_str.spec_bytes()) ==> r is Err,
{
    let bs = side_str.as_bytes();
    if bs.len() == 3 && upper(bs[0]) == 66 && upper(bs[1]) == 85 && upper(bs[2]) == 89 {
        Ok(TradeSide::Buy)
    } else if bs.len() == 4 && upper(bs[0]) == 83 && upper(bs[1]) == 69 && upper(bs[2]) == 76
        && upper(bs[3]) == 76 {
        Ok(TradeSide::Sell)
    } else {
        Err(DataError::InvalidFormat("Invalid trade side".to_owned()))
    }
}

/// ASCII upper-casing of one byte.
pub open spec fn spec_upper(b: u8) -> u8 {
    if 97 <= b <= 122 {
        (b - 32) as u8
    } else {
        b
    }
}

/// The bytes spell `BUY` in any letter case.
pub open spec fn is_buy_text(s: Seq<u8>) -> bool {
    s.len() == 3 && spec_upper(s[0]) == 66 && spec_upper(s[1]) == 85 && spec_upper(s[2]) == 89
}

/// The bytes spell `SELL` in any letter case.
pub open spec fn is_sell_text(s: Seq<u8>) -> bool {
    s.len() == 4 && spec_upper(s[0]) == 83 && spec_upper(s[1]) == 69 && spec_upper(s[2]) == 76
        && spec_upper(s[3]) == 76
}

/// ASCII upper-casing of one byte.
fn upper(b: u8) -> (r: u8)
    ensures
        r == spec_upper(b),
{
    if b >= 97 && b <= 122 {
        b - 32
    } else {
        b
    }
}

/// Query parameters for reading ticks back from the store.
#[derive(Clone, Debug)]
pub struct TickQuery {
    pub symbol: String,
    pub start_time: Option<i64>,
    pub end_time: Option<i64>,
    pub trade_side: Option<TradeSide>,
    pub limit: Option<u32>,
}

/// Mathematical image of a query.
pub struct QueryView {
    pub symbol: Seq<char>,
    pub start_time: Option<int>,
    pub end_time: Option<int>,
    pub trade_side: Option<TradeSide>,
    pub limit: Option<int>,
}

impl View for TickQuery {
    type V = QueryView;

    open spec fn view(&self) -> QueryView {
        QueryView {
            symbol: self.symbol@,
            start_time: (match self.start_time {
                Some(t) => Some(t as int),
                None => None,
            }),
            end_time: (match self.end_time {
                Some(t) => Some(t as int),
                None => None,
            }),
            trade_side: self.trade_side,
            limit: (match self.limit {
                Some(l) => Some(l as int),
                None => None,
            }),
        }
    }
}

/// Does the tick satisfy the query's symbol, time-range and side filters?
pub open spec fn query_matches(t: TickView, q: QueryView) -> bool {
    &&& t.symbol == q.symbol
    &&& (match q.start_time {
        Some(s) => t.timestamp >= s,
        None => true,
    })
    &&& (match q.end_time {
        Some(e) => t.timestamp <= e,
        None => true,
    })
    &&& (match q.trade_side {
        Some(s) => t.side == s,
        None => true,
    })
}

} // verus!
