//! The simulated account of a backtest run: cash, positions with weighted
//! average entry price, commission accounting, the trade log, and the equity
//! curve.
//!
//! The well-formedness predicate carries the conservation law: cash plus the
//! book value of the open positions always equals the initial capital plus
//! realized gross gains, minus all commission paid, minus a non-negative
//! truncation drift. A buy that opens a fresh position and a sell that
//! closes a whole position leave the drift untouched, so the equation is
//! exact along the canonical open-close flow.

use vstd::prelude::*;
use crate::assoc::{
    assoc_get, assoc_distinct, lemma_assoc_get_found, lemma_assoc_get_absent,
    lemma_assoc_get_update, lemma_assoc_get_append_target, lemma_assoc_get_append_other,
    lemma_assoc_get_remove_other,
};
use crate::decimal::{Dec, DEC_SCALE, dec_mul_val, dec_div_val, div_t};
use crate::tick::{TradeSide, clone_string};
use vstd::arithmetic::div_mod::{
    lemma_fundamental_div_mod, lemma_div_is_ordered, lemma_div_multiples_vanish,
    lemma_div_pos_is_pos,
};
use vstd::arithmetic::mul::{lemma_mul_inequality, lemma_mul_is_distributive_sub_other_way};

verus! {

/// Largest price the account handles, in raw units: one million, exactly.
pub const MAX_PRICE_UNITS: i128 = 1_000_000_000_000_000;

/// Largest quantity a position may reach, in raw units: a million units.
pub const MAX_POSITION_UNITS: i128 = 1_000_000_000_000_000;

/// Largest initial capital, in raw units.
pub const MAX_CAPITAL_UNITS: i128 = 100_000_000_000_000_000_000_000_000;

/// Cash ceiling under which a sell may still be executed, in raw units.
pub const MAX_CASH_UNITS: i128 = 1_000_000_000_000_000_000_000_000_000_000_000;

/// Most positions the account handles in one run.
pub const MAX_POSITIONS: usize = 1_000_000;

/// Largest value one position can carry, in raw units: the quantity and
/// price limits multiplied out at the fixed scale.
pub const MAX_TERM_UNITS: i128 = 1_000_000_000_000_000_000_000;

/// An open position: how much is held and at which average entry price.
pub struct Position {
    pub symbol: String,
    pub quantity: Dec,
    pub average_entry_price: Dec,
}

/// Mathematical image of a position.
pub struct PositionView {
    pub symbol: Seq<char>,
    pub quantity: int,
    pub average_entry_price: int,
}

impl View for Position {
    type V = PositionView;

    open spec fn view(&self) -> PositionView {
        PositionView {
            symbol: self.symbol@,
            quantity: self.quantity@,
            average_entry_price: self.average_entry_price@,
        }
    }
}

impl DeepView for Position {
    type V = PositionView;

    open spec fn deep_view(&self) -> PositionView {
        self.view()
    }
}

/// One executed trade, as logged.
pub struct Trade {
    pub symbol: String,
    pub side: TradeSide,
    pub quantity: Dec,
    pub price: Dec,
    pub timestamp: i64,
    pub commission: Dec,
    pub realized_pnl: Option<Dec>,
}

/// Mathematical image of a trade.
pub struct TradeView {
    pub symbol: Seq<char>,
    pub side: TradeSide,
    pub quantity: int,
    pub price: int,
    pub timestamp: int,
    pub commission: int,
    pub realized_pnl: Option<int>,
}

impl View for Trade {
    type V = TradeView;

    open spec fn view(&self) -> TradeView {
        TradeView {
            symbol: self.symbol@,
            side: self.side,
            quantity: self.quantity@,
            price: self.price@,
            timestamp: self.timestamp as int,
            commission: self.commission@,
            realized_pnl: (match self.realized_pnl {
                Some(p) => Some(p@),
                None => None,
            }),
        }
    }
}

impl DeepView for Trade {
    type V = TradeView;

    open spec fn deep_view(&self) -> TradeView {
        self.view()
    }
}

/// Last observed price of one symbol.
pub struct LastPrice {
    pub symbol: String,
    pub price: Dec,
}

/// Mathematical image of a last-price entry.
pub struct LastPriceView {
    pub symbol: Seq<char>,
    pub price: int,
}

impl View for LastPrice {
    type V = LastPriceView;

    open spec fn view(&self) -> LastPriceView {
        LastPriceView { symbol: self.symbol@, price: self.price@ }
    }
}

impl DeepView for LastPrice {
    type V = LastPriceView;

    open spec fn deep_view(&self) -> LastPriceView {
        self.view()
    }
}

/// Key projections for the two association tables.
pub open spec fn pos_key() -> spec_fn(PositionView) -> Seq<char> {
    |p: PositionView| p.symbol
}

pub open spec fn lp_key() -> spec_fn(LastPriceView) -> Seq<char> {
    |p: LastPriceView| p.symbol
}

/// The position held for a symbol, if any.
pub open spec fn position_of(ps: Seq<PositionView>, sym: Seq<char>) -> Option<PositionView> {
    assoc_get(ps, pos_key(), sym)
}

/// The last observed price of a symbol, if any.
pub open spec fn last_price_of(lp: Seq<LastPriceView>, sym: Seq<char>) -> Option<int> {
    match assoc_get(lp, lp_key(), sym) {
        Some(e) => Some(e.price),
        None => None,
    }
}

/// Book value of the open positions: the sum of quantity times average
/// entry price, truncated per position as the account computes it.
pub open spec fn book_value(ps: Seq<PositionView>) -> int
    decreases ps.len(),
{
    if ps.len() == 0 {
        0
    } else {
        book_value(ps.drop_last()) + dec_mul_val(
            ps.last().quantity,
            ps.last().average_entry_price,
        )
    }
}

/// All commission paid so far.
pub open spec fn comm_sum(ts: Seq<TradeView>) -> int
    decreases ts.len(),
{
    if ts.len() == 0 {
        0
    } else {
        comm_sum(ts.drop_last()) + ts.last().commission
    }
}

/// Market value of the holdings: quantity times last observed price, or
/// times the entry price while no price was observed yet.
pub open spec fn holdings_value(ps: Seq<PositionView>, lp: Seq<LastPriceView>) -> int
    decreases ps.len(),
{
    if ps.len() == 0 {
        0
    } else {
        holdings_value(ps.drop_last(), lp) + dec_mul_val(
            ps.last().quantity,
            (match last_price_of(lp, ps.last().symbol) {
                Some(p) => p,
                None => ps.last().average_entry_price,
            }),
        )
    }
}

/// Cost of a buy: base value plus commission on it, as computed in fixed
/// point.
pub open spec fn buy_cost(q: int, p: int, rate: int) -> int {
    dec_mul_val(q, p) + dec_mul_val(dec_mul_val(q, p), rate)
}

/// Weighted average entry price after adding `q` units at price `p` to a
/// position of `oq` units at average `oa`, in fixed point.
pub open spec fn new_avg(oq: int, oa: int, q: int, p: int) -> int {
    dec_div_val(dec_mul_val(oq, oa) + dec_mul_val(q, p), oq + q)
}

proof fn lemma_book_push(ps: Seq<PositionView>, v: PositionView)
    ensures
        book_value(ps.push(v)) == book_value(ps) + dec_mul_val(v.quantity, v.average_entry_price),
{
    assert(ps.push(v).drop_last() =~= ps);
}

proof fn lemma_comm_push(ts: Seq<TradeView>, v: TradeView)
    ensures
        comm_sum(ts.push(v)) == comm_sum(ts) + v.commission,
{
    assert(ts.push(v).drop_last() =~= ts);
}

proof fn lemma_book_update(ps: Seq<PositionView>, i: int, v: PositionView)
    requires
        0 <= i < ps.len(),
    ensures
        book_value(ps.update(i, v)) == book_value(ps) - dec_mul_val(
            ps[i].quantity,
            ps[i].average_entry_price,
        ) + dec_mul_val(v.quantity, v.average_entry_price),
    decreases ps.len(),
{
    if i == ps.len() - 1 {
        assert(ps.update(i, v).drop_last() =~= ps.drop_last());
        assert(ps.update(i, v).last() == v);
    } else {
        assert(ps.update(i, v).drop_last() =~= ps.drop_last().update(i, v));
        assert(ps.update(i, v).last() == ps.last());
        lemma_book_update(ps.drop_last(), i, v);
    }
}

proof fn lemma_book_remove(ps: Seq<PositionView>, i: int)
    requires
        0 <= i < ps.len(),
    ensures
        book_value(ps.remove(i)) == book_value(ps) - dec_mul_val(
            ps[i].quantity,
            ps[i].average_entry_price,
        ),
    decreases ps.len(),
{
    if i == ps.len() - 1 {
        assert(ps.remove(i) =~= ps.drop_last());
    } else {
        assert(ps.remove(i).drop_last() =~= ps.drop_last().remove(i));
        assert(ps.remove(i).last() == ps.last());
        lemma_book_remove(ps.drop_last(), i);
    }
}

/// For non-negative operands, truncating division is Euclidean division.
proof fn lemma_div_t_nonneg(a: int, b: int)
    requires
        a >= 0,
        b > 0,
    ensures
        div_t(a, b) == a / b,
        0 <= div_t(a, b),
        b * (a / b) <= a,
    decreases 0int,
{
    lemma_div_pos_is_pos(a, b);
    lemma_fundamental_div_mod(a, b);
    assert(a % b >= 0) by {
        vstd::arithmetic::div_mod::lemma_remainder_lower(a, b);
    }
}

/// A product of a bounded quantity and a bounded price, at the fixed scale,
/// stays under the per-position value limit.
pub proof fn lemma_term_bound(q: int, p: int)
    requires
        0 <= q <= MAX_POSITION_UNITS as int,
        0 <= p <= MAX_PRICE_UNITS as int,
    ensures
        0 <= dec_mul_val(q, p) <= MAX_TERM_UNITS as int,
{
    vstd::arithmetic::mul::lemma_mul_upper_bound(
        q,
        MAX_POSITION_UNITS as int,
        p,
        MAX_PRICE_UNITS as int,
    );
    lemma_div_t_nonneg(q * p, DEC_SCALE as int);
    lemma_div_is_ordered(
        q * p,
        (MAX_POSITION_UNITS as int) * (MAX_PRICE_UNITS as int),
        DEC_SCALE as int,
    );
    assert((MAX_POSITION_UNITS as int) * (MAX_PRICE_UNITS as int) / (DEC_SCALE as int)
        == MAX_TERM_UNITS as int);
}

/// The floor of a sum is at least the sum of the floors, and at most one
/// more.
proof fn lemma_div_sum_bounds(a: int, b: int, d: int)
    requires
        a >= 0,
        b >= 0,
        d > 0,
    ensures
        a / d + b / d <= (a + b) / d,
        (a + b) / d <= a / d + b / d + 1,
{
    lemma_fundamental_div_mod(a, d);
    lemma_fundamental_div_mod(b, d);
    lemma_fundamental_div_mod(a + b, d);
    vstd::arithmetic::div_mod::lemma_remainder_lower(a, d);
    vstd::arithmetic::div_mod::lemma_remainder_upper(a, d);
    vstd::arithmetic::div_mod::lemma_remainder_lower(b, d);
    vstd::arithmetic::div_mod::lemma_remainder_upper(b, d);
    vstd::arithmetic::div_mod::lemma_remainder_lower(a + b, d);
    vstd::arithmetic::div_mod::lemma_remainder_upper(a + b, d);
    let qa = a / d;
    let qb = b / d;
    let qs = (a + b) / d;
    assert(d * qa + a % d + (d * qb + b % d) == d * qs + (a + b) % d);
    assert(d * (qa + qb) == d * qa + d * qb) by {
        vstd::arithmetic::mul::lemma_mul_is_distributive_add(d, qa, qb);
    }
    assert(d * (qa + qb + 2) == d * qa + d * qb + d * 2) by {
        vstd::arithmetic::mul::lemma_mul_is_distributive_add(d, qa + qb, 2);
        vstd::arithmetic::mul::lemma_mul_is_distributive_add(d, qa, qb);
    }
    if qs < qa + qb {
        assert(d * qs <= d * (qa + qb - 1)) by {
            lemma_mul_inequality(qs, qa + qb - 1, d);
            vstd::arithmetic::mul::lemma_mul_is_commutative(qs, d);
            vstd::arithmetic::mul::lemma_mul_is_commutative(qa + qb - 1, d);
        }
        assert(d * (qa + qb - 1) == d * qa + d * qb - d) by {
            vstd::arithmetic::mul::lemma_mul_is_distributive_sub(d, qa + qb, 1);
            vstd::arithmetic::mul::lemma_mul_is_distributive_add(d, qa, qb);
        }
        assert(false);
    }
    if qs > qa + qb + 1 {
        assert(d * qs >= d * (qa + qb + 2)) by {
            lemma_mul_inequality(qa + qb + 2, qs, d);
            vstd::arithmetic::mul::lemma_mul_is_commutative(qs, d);
            vstd::arithmetic::mul::lemma_mul_is_commutative(qa + qb + 2, d);
        }
        assert(false);
    }
}

/// Holdings of bounded positions at bounded prices are worth at most the
/// per-position limit times the position count.
pub proof fn lemma_holdings_bound(ps: Seq<PositionView>, lp: Seq<LastPriceView>)
    requires
        forall|i: int|
            0 <= i < ps.len() ==> 0 < (#[trigger] ps[i]).quantity <= MAX_POSITION_UNITS as int
                && 0 <= ps[i].average_entry_price <= MAX_PRICE_UNITS as int,
        forall|i: int|
            0 <= i < lp.len() ==> 0 < (#[trigger] lp[i]).price <= MAX_PRICE_UNITS as int,
    ensures
        0 <= holdings_value(ps, lp) <= ps.len() * 1000000000000000000000int,
    decreases ps.len(),
{
    if ps.len() > 0 {
        assert(forall|i: int| 0 <= i < ps.len() - 1 ==> ps.drop_last()[i] == ps[i]);
        lemma_holdings_bound(ps.drop_last(), lp);
        let lpv = (match last_price_of(lp, ps.last().symbol) {
            Some(p) => p,
            None => ps.last().average_entry_price,
        });
        assert(0 <= lpv <= MAX_PRICE_UNITS as int) by {
            lemma_last_price_in_range(lp, ps.last().symbol);
        }
        lemma_term_bound(ps.last().quantity, lpv);
    }
}

/// A recorded last price is in range.
proof fn lemma_last_price_in_range(lp: Seq<LastPriceView>, sym: Seq<char>)
    requires
        forall|i: int|
            0 <= i < lp.len() ==> 0 < (#[trigger] lp[i]).price <= MAX_PRICE_UNITS as int,
    ensures
        (match last_price_of(lp, sym) {
            Some(p) => 0 < p <= MAX_PRICE_UNITS as int,
            None => true,
        }),
    decreases lp.len(),
{
    if lp.len() > 0 {
        if lp[0].symbol == sym {
        } else {
            assert(forall|i: int| 0 <= i < lp.len() - 1 ==> #[trigger] lp.skip(1)[i] == lp[i + 1]);
            lemma_last_price_in_range(lp.skip(1), sym);
        }
    }
}

/// Commission on a non-negative base never exceeds the base while the rate
/// is at most one.
proof fn lemma_commission_le_base(base: int, rate: int)
    requires
        0 <= base,
        0 <= rate <= DEC_SCALE as int,
    ensures
        0 <= dec_mul_val(base, rate) <= base,
{
    lemma_mul_inequality(rate, DEC_SCALE as int, base);
    vstd::arithmetic::mul::lemma_mul_is_commutative(rate, base);
    vstd::arithmetic::mul::lemma_mul_is_commutative(DEC_SCALE as int, base);
    lemma_div_t_nonneg(base * rate, DEC_SCALE as int);
    lemma_div_is_ordered(base * rate, base * (DEC_SCALE as int), DEC_SCALE as int);
    lemma_div_multiples_vanish(base, DEC_SCALE as int);
    vstd::arithmetic::mul::lemma_mul_is_commutative(base, DEC_SCALE as int);
}

/// The weighted average entry price after a buy stays between zero and the
/// price limit when both constituent prices do.
proof fn lemma_new_avg_bounds(oq: int, oa: int, q: int, p: int)
    requires
        0 < oq,
        0 < q,
        0 <= oa <= MAX_PRICE_UNITS as int,
        0 < p <= MAX_PRICE_UNITS as int,
    ensures
        0 <= new_avg(oq, oa, q, p) <= MAX_PRICE_UNITS as int,
{
    let s = DEC_SCALE as int;
    let lim = MAX_PRICE_UNITS as int;
    let t = oq + q;
    let num = dec_mul_val(oq, oa) + dec_mul_val(q, p);
    lemma_mul_inequality(0, oq, oa);
    lemma_mul_inequality(0, q, p);
    lemma_div_t_nonneg(oq * oa, s);
    lemma_div_t_nonneg(q * p, s);
    lemma_div_t_nonneg(num * s, t);
    // num <= (t * lim) / s
    vstd::arithmetic::mul::lemma_mul_upper_bound(oq, oq, oa, lim);
    vstd::arithmetic::mul::lemma_mul_upper_bound(q, q, p, lim);
    lemma_div_is_ordered(oq * oa, oq * lim, s);
    lemma_div_is_ordered(q * p, q * lim, s);
    lemma_div_sum_bounds(oq * lim, q * lim, s);
    vstd::arithmetic::mul::lemma_mul_is_distributive_add_other_way(lim, oq, q);
    assert(num <= (t * lim) / s);
    // hence num * s <= t * lim
    lemma_mul_inequality(num, (t * lim) / s, s);
    lemma_div_t_nonneg(t * lim, s);
    vstd::arithmetic::mul::lemma_mul_is_commutative((t * lim) / s, s);
    assert(num * s <= t * lim);
    // and the quotient by t is at most lim
    lemma_div_is_ordered(num * s, t * lim, t);
    vstd::arithmetic::mul::lemma_mul_is_commutative(t, lim);
    lemma_div_multiples_vanish(lim, t);
}

/// The book value recorded for the merged position never exceeds the sum
/// of the old book term and the new money paid in: the truncation drift of
/// a buy is non-negative.
proof fn lemma_new_book_le_num(oq: int, oa: int, q: int, p: int)
    requires
        0 < oq,
        0 < q,
        0 <= oa,
        0 < p,
    ensures
        0 <= dec_mul_val(oq + q, new_avg(oq, oa, q, p)) <= dec_mul_val(oq, oa) + dec_mul_val(
            q,
            p,
        ),
{
    let s = DEC_SCALE as int;
    let t = oq + q;
    let num = dec_mul_val(oq, oa) + dec_mul_val(q, p);
    let navg = new_avg(oq, oa, q, p);
    lemma_mul_inequality(0, oq, oa);
    lemma_mul_inequality(0, q, p);
    lemma_div_t_nonneg(oq * oa, s);
    lemma_div_t_nonneg(q * p, s);
    lemma_div_t_nonneg(num * s, t);
    assert(navg == (num * s) / t);
    // t * navg <= num * s
    lemma_div_t_nonneg(num * s, t);
    lemma_fundamental_div_mod(num * s, t);
    vstd::arithmetic::div_mod::lemma_remainder_lower(num * s, t);
    assert(t * navg <= num * s);
    lemma_mul_inequality(0, t, navg);
    lemma_div_t_nonneg(t * navg, s);
    lemma_div_is_ordered(t * navg, num * s, s);
    vstd::arithmetic::mul::lemma_mul_is_commutative(num, s);
    lemma_div_multiples_vanish(num, s);
}

/// The simulated account.
pub struct Portfolio {
    pub initial_capital: Dec,
    pub cash: Dec,
    pub positions: Vec<Position>,
    pub last_price: Vec<LastPrice>,
    pub trades: Vec<Trade>,
    pub equity_curve: Vec<Dec>,
    pub commission_rate: Dec,
    pub gross_sum: Ghost<int>,
    pub drift: Ghost<int>,
}

impl Portfolio {
    /// Position table as mathematical values.
    pub open spec fn pos_model(self) -> Seq<PositionView> {
        self.positions.deep_view()
    }

    /// Last-price table as mathematical values.
    pub open spec fn lp_model(self) -> Seq<LastPriceView> {
        self.last_price.deep_view()
    }

    /// Trade log as mathematical values.
    pub open spec fn trades_model(self) -> Seq<TradeView> {
        self.trades.deep_view()
    }

    /// Total account value: cash plus market value of the holdings.
    pub open spec fn total_value_model(self) -> int {
        self.cash@ + holdings_value(self.pos_model(), self.lp_model())
    }

    /// Account invariants, including the conservation equation.
    pub open spec fn wf(self) -> bool {
        &&& 0 < self.initial_capital@ <= MAX_CAPITAL_UNITS as int
        &&& self.cash@ >= 0
        &&& 0 <= self.commission_rate@ <= DEC_SCALE as int
        &&& assoc_distinct(self.pos_model(), pos_key())
        &&& assoc_distinct(self.lp_model(), lp_key())
        &&& (forall|i: int|
            0 <= i < self.pos_model().len() ==> {
                &&& 0 < (#[trigger] self.pos_model()[i]).quantity <= MAX_POSITION_UNITS as int
                &&& 0 <= self.pos_model()[i].average_entry_price <= MAX_PRICE_UNITS as int
            })
        &&& (forall|i: int|
            0 <= i < self.lp_model().len() ==> 0 < (#[trigger] self.lp_model()[i]).price
                <= MAX_PRICE_UNITS as int)
        &&& (forall|i: int|
            0 <= i < self.trades_model().len() ==> 0 <= (#[trigger] self.trades_model()[i]).commission
                <= MAX_TERM_UNITS as int)
        &&& self.drift@ >= 0
        &&& self.cash@ + book_value(self.pos_model()) + self.drift@ == self.initial_capital@
            + self.gross_sum@ - comm_sum(self.trades_model())
    }

    /// A fresh account holding only its initial capital.
    pub fn new(initial_capital: Dec) -> (r: Portfolio)
        requires
            0 < initial_capital@ <= MAX_CAPITAL_UNITS as int,
        ensures
            r.wf(),
            r.initial_capital == initial_capital,
            r.cash == initial_capital,
            r.commission_rate@ == 0,
            r.pos_model() == Seq::<PositionView>::empty(),
            r.trades_model() == Seq::<TradeView>::empty(),
            r.lp_model() == Seq::<LastPriceView>::empty(),
            r.equity_curve@ == Seq::<Dec>::empty(),
            r.gross_sum@ == 0,
            r.drift@ == 0,
    {
        let r = Portfolio {
            initial_capital,
            cash: initial_capital,
            positions: Vec::new(),
            last_price: Vec::new(),
            trades: Vec::new(),
            equity_curve: Vec::new(),
            commission_rate: Dec::zero(),
            gross_sum: Ghost(0),
            drift: Ghost(0),
        };
        proof {
            assert(r.pos_model() =~= Seq::<PositionView>::empty());
            assert(r.lp_model() =~= Seq::<LastPriceView>::empty());
            assert(r.trades_model() =~= Seq::<TradeView>::empty());
            assert(r.equity_curve@ =~= Seq::<Dec>::empty());
        }
        r
    }

    /// The same account with a commission rate installed.
    pub fn with_commission_rate(self, rate: Dec) -> (r: Portfolio)
        requires
            self.wf(),
            0 <= rate@ <= DEC_SCALE as int,
        ensures
            r.wf(),
            r.commission_rate == rate,
            r.initial_capital == self.initial_capital,
            r.cash == self.cash,
            r.pos_model() == self.pos_model(),
            r.trades_model() == self.trades_model(),
            r.lp_model() == self.lp_model(),
            r.equity_curve@ == self.equity_curve@,
            r.gross_sum@ == self.gross_sum@,
            r.drift@ == self.drift@,
    {
        Portfolio { commission_rate: rate, ..self }
    }

    /// Index of the position for a symbol, scanning from the front.
    fn find_position(&self, symbol: &String) -> (r: Option<usize>)
        ensures
            (match r {
                Some(i) => i < self.pos_model().len() && self.pos_model()[i as int].symbol
                    == symbol@ && (forall|j: int|
                    0 <= j < i ==> (#[trigger] self.pos_model()[j]).symbol != symbol@),
                None => forall|j: int|
                    0 <= j < self.pos_model().len() ==> (#[trigger] self.pos_model()[j]).symbol
                        != symbol@,
            }),
    {
        let n = self.positions.len();
        let mut i: usize = 0;
        while i < n
            invariant
                i <= n,
                n == self.positions@.len(),
                forall|j: int| 0 <= j < i ==> (#[trigger] self.pos_model()[j]).symbol != symbol@,
            decreases n - i,
        {
            if self.positions[i].symbol == *symbol {
                return Some(i);
            }
            i = i + 1;
        }
        None
    }

    /// Index of the last-price entry for a symbol.
    fn find_last_price(&self, symbol: &String) -> (r: Option<usize>)
        ensures
            (match r {
                Some(i) => i < self.lp_model().len() && self.lp_model()[i as int].symbol == symbol@
                    && (forall|j: int|
                    0 <= j < i ==> (#[trigger] self.lp_model()[j]).symbol != symbol@),
                None => forall|j: int|
                    0 <= j < self.lp_model().len() ==> (#[trigger] self.lp_model()[j]).symbol
                        != symbol@,
            }),
    {
        let n = self.last_price.len();
        let mut i: usize = 0;
        while i < n
            invariant
                i <= n,
                n == self.last_price@.len(),
                forall|j: int| 0 <= j < i ==> (#[trigger] self.lp_model()[j]).symbol != symbol@,
            decreases n - i,
        {
            if self.last_price[i].symbol == *symbol {
                return Some(i);
            }
            i = i + 1;
        }
        None
    }

    /// Quantity currently held of a symbol, zero when no position is open.
    pub fn position_quantity(&self, symbol: &String) -> (r: Dec)
        ensures
            r@ == (match position_of(self.pos_model(), symbol@) {
                Some(p) => p.quantity,
                None => 0int,
            }),
    {
        match self.find_position(symbol) {
            Some(i) => {
                proof {
                    lemma_assoc_get_found(self.pos_model(), pos_key(), i as int);
                }
                self.positions[i].quantity
            },
            None => {
                proof {
                    lemma_assoc_get_absent(self.pos_model(), pos_key(), symbol@);
                }
                Dec::zero()
            },
        }
    }

    /// Records the last observed price of a symbol and appends one equity
    /// snapshot of the account valued at the new prices.
    pub fn update_price(&mut self, symbol: &String, price: Dec)
        requires
            old(self).wf(),
            0 < price@ <= MAX_PRICE_UNITS as int,
            old(self).positions@.len() <= MAX_POSITIONS,
            old(self).cash@ <= MAX_CASH_UNITS as int,
        ensures
            final(self).wf(),
            last_price_of(final(self).lp_model(), symbol@) == Some(price@),
            forall|s: Seq<char>|
                s != symbol@ ==> last_price_of(final(self).lp_model(), s) == last_price_of(
                    old(self).lp_model(),
                    s,
                ),
            final(self).equity_curve@.len() == old(self).equity_curve@.len() + 1,
            final(self).equity_curve@.last()@ == final(self).total_value_model(),
            final(self).equity_curve@.take(old(self).equity_curve@.len() as int) == old(
                self,
            ).equity_curve@,
            final(self).cash == old(self).cash,
            final(self).pos_model() == old(self).pos_model(),
            final(self).trades_model() == old(self).trades_model(),
            final(self).initial_capital == old(self).initial_capital,
            final(self).commission_rate == old(self).commission_rate,
            final(self).gross_sum@ == old(self).gross_sum@,
            final(self).drift@ == old(self).drift@,
            final(self).positions@.len() == old(self).positions@.len(),
    {
        let ghost lp0 = self.lp_model();
        match self.find_last_price(symbol) {
            Some(i) => {
                let mut entry = self.last_price.remove(i);
                let ghost removed = entry@;
                entry.price = price;
                self.last_price.insert(i, entry);
                proof {
                    assert(self.lp_model() =~= lp0.update(i as int, entry@));
                    lemma_assoc_get_found(self.lp_model(), lp_key(), i as int);
                    assert forall|s: Seq<char>|
                        s != symbol@ implies last_price_of(self.lp_model(), s) == last_price_of(
                        lp0,
                        s,
                    ) by {
                        lemma_assoc_get_update(lp0, lp_key(), i as int, entry@, s);
                    }
                }
            },
            None => {
                let entry = LastPrice { symbol: clone_string(symbol), price };
                self.last_price.push(entry);
                proof {
                    assert(self.lp_model() =~= lp0.push(entry@));
                    lemma_assoc_get_append_target(lp0, lp_key(), entry@);
                    assert forall|s: Seq<char>|
                        s != symbol@ implies last_price_of(self.lp_model(), s) == last_price_of(
                        lp0,
                        s,
                    ) by {
                        lemma_assoc_get_append_other(lp0, lp_key(), entry@, s);
                    }
                }
            },
        }
        let equity = self.total_value();
        self.equity_curve.push(equity);
        proof {
            assert(final(self).equity_curve@.take(old(self).equity_curve@.len() as int) =~= old(
                self,
            ).equity_curve@);
        }
    }

    /// Executes a buy: charges cost plus commission to cash, opens or grows
    /// the position at the weighted average entry price, and logs the trade.
    /// Fails, changing nothing, when the quantity is not positive or the
    /// cost exceeds the cash on hand; cash never goes negative.
    pub fn execute_buy(
        &mut self,
        symbol: String,
        quantity: Dec,
        price: Dec,
        timestamp: i64,
    ) -> (r: Result<(), String>)
        requires
            old(self).wf(),
            0 < price@ <= MAX_PRICE_UNITS as int,
            quantity@ <= MAX_POSITION_UNITS as int,
            quantity@ > 0 ==> quantity@ + (match position_of(old(self).pos_model(), symbol@) {
                Some(p) => p.quantity,
                None => 0int,
            }) <= MAX_POSITION_UNITS as int,
        ensures
            final(self).wf(),
            quantity@ <= 0 ==> (r is Err && *final(self) == *old(self)),
            (quantity@ > 0 && buy_cost(quantity@, price@, old(self).commission_rate@) > old(
                self,
            ).cash@) ==> (r is Err && *final(self) == *old(self)),
            (quantity@ > 0 && buy_cost(quantity@, price@, old(self).commission_rate@) <= old(
                self,
            ).cash@) ==> ({
                let rate = old(self).commission_rate@;
                let base = dec_mul_val(quantity@, price@);
                &&& r is Ok
                &&& final(self).cash@ == old(self).cash@ - buy_cost(quantity@, price@, rate)
                &&& final(self).cash@ >= 0
                &&& position_of(final(self).pos_model(), symbol@) == Some(
                    (match position_of(old(self).pos_model(), symbol@) {
                        Some(p) => PositionView {
                            symbol: symbol@,
                            quantity: p.quantity + quantity@,
                            average_entry_price: new_avg(
                                p.quantity,
                                p.average_entry_price,
                                quantity@,
                                price@,
                            ),
                        },
                        None => PositionView {
                            symbol: symbol@,
                            quantity: quantity@,
                            average_entry_price: price@,
                        },
                    }),
                )
                &&& (forall|s: Seq<char>|
                    s != symbol@ ==> position_of(final(self).pos_model(), s) == position_of(
                        old(self).pos_model(),
                        s,
                    ))
                &&& final(self).trades_model() == old(self).trades_model().push(
                    TradeView {
                        symbol: symbol@,
                        side: TradeSide::Buy,
                        quantity: quantity@,
                        price: price@,
                        timestamp: timestamp as int,
                        commission: dec_mul_val(base, rate),
                        realized_pnl: None,
                    },
                )
                &&& final(self).positions@.len() <= old(self).positions@.len() + 1
                &&& final(self).gross_sum@ == old(self).gross_sum@
                &&& (position_of(old(self).pos_model(), symbol@) is None ==> final(self).drift@
                    == old(self).drift@)
                &&& final(self).drift@ >= old(self).drift@
            }),
            final(self).lp_model() == old(self).lp_model(),
            final(self).equity_curve@ == old(self).equity_curve@,
            final(self).initial_capital == old(self).initial_capital,
            final(self).commission_rate == old(self).commission_rate,
            final(self).cash@ <= old(self).cash@,
    {
        if !quantity.is_positive() {
            return Err("Quantity must be positive".to_owned());
        }
        proof {
            vstd::arithmetic::mul::lemma_mul_upper_bound(
                quantity@,
                MAX_POSITION_UNITS as int,
                price@,
                MAX_PRICE_UNITS as int,
            );
            lemma_term_bound(quantity@, price@);
        }
        let base = quantity.mul(price);
        proof {
            vstd::arithmetic::mul::lemma_mul_upper_bound(
                base@,
                MAX_TERM_UNITS as int,
                self.commission_rate@,
                DEC_SCALE as int,
            );
            lemma_commission_le_base(base@, self.commission_rate@);
        }
        let commission = base.mul(self.commission_rate);
        let cost = base.add(commission);
        if cost.units > self.cash.units {
            return Err("Insufficient funds".to_owned());
        }
        self.cash = self.cash.sub(cost);
        let ghost ps0 = self.pos_model();
        let ghost ts0 = self.trades_model();
        match self.find_position(&symbol) {
            Some(i) => {
                proof {
                    assert(self.pos_model() == ps0);
                    assert(old(self).pos_model() == ps0);
                    lemma_assoc_get_found(ps0, pos_key(), i as int);
                    assert(position_of(ps0, symbol@) == Some(ps0[i as int]));
                }
                let mut p = self.positions.remove(i);
                let ghost oq = p.quantity@;
                let ghost oa = p.average_entry_price@;
                proof {
                    vstd::arithmetic::mul::lemma_mul_upper_bound(
                        oq,
                        MAX_POSITION_UNITS as int,
                        oa,
                        MAX_PRICE_UNITS as int,
                    );
                    lemma_term_bound(oq, oa);
                }
                let old_book = p.quantity.mul(p.average_entry_price);
                let num = old_book.add(base);
                let new_qty = p.quantity.add(quantity);
                proof {
                    vstd::arithmetic::mul::lemma_mul_upper_bound(
                        num@,
                        2 * MAX_TERM_UNITS as int,
                        DEC_SCALE as int,
                        DEC_SCALE as int,
                    );
                }
                let navg = num.div(new_qty);
                proof {
                    lemma_new_avg_bounds(oq, oa, quantity@, price@);
                }
                p.quantity = new_qty;
                p.average_entry_price = navg;
                self.positions.insert(i, p);
                proof {
                    assert(self.pos_model() =~= ps0.update(i as int, p@));
                    lemma_book_update(ps0, i as int, p@);
                    lemma_assoc_get_found(self.pos_model(), pos_key(), i as int);
                    assert forall|s: Seq<char>|
                        s != symbol@ implies position_of(self.pos_model(), s) == position_of(
                        ps0,
                        s,
                    ) by {
                        lemma_assoc_get_update(ps0, pos_key(), i as int, p@, s);
                    }
                    assert forall|a: int, b: int|
                        0 <= a < b < self.pos_model().len() implies pos_key()(
                        self.pos_model()[a],
                    ) != pos_key()(self.pos_model()[b]) by {
                        assert(pos_key()(ps0[a]) != pos_key()(ps0[b]));
                    }
                    // The new book term never exceeds what was paid in.
                    lemma_new_book_le_num(oq, oa, quantity@, price@);
                    self.drift = Ghost(
                        self.drift@ + (dec_mul_val(oq, oa) + base@ - dec_mul_val(
                            oq + quantity@,
                            new_avg(oq, oa, quantity@, price@),
                        )),
                    );
                }
            },
            None => {
                let p = Position {
                    symbol: clone_string(&symbol),
                    quantity,
                    average_entry_price: price,
                };
                proof {
                    assert(self.pos_model() == ps0);
                    assert(old(self).pos_model() == ps0);
                    assert forall|j: int| 0 <= j < ps0.len() implies pos_key()(#[trigger] ps0[j])
                        != symbol@ by {
                        assert(ps0[j].symbol != symbol@);
                    }
                    lemma_assoc_get_absent(ps0, pos_key(), symbol@);
                    lemma_book_push(ps0, p@);
                    assert(pos_key()(p@) == symbol@);
                    assert forall|j: int| 0 <= j < ps0.len() implies pos_key()(#[trigger] ps0[j])
                        != pos_key()(p@) by {
                        assert(ps0[j].symbol != symbol@);
                    }
                    lemma_assoc_get_append_target(ps0, pos_key(), p@);
                }
                self.positions.push(p);
                proof {
                    assert(self.pos_model() =~= ps0.push(p@));
                    assert forall|s: Seq<char>|
                        s != symbol@ implies position_of(self.pos_model(), s) == position_of(
                        ps0,
                        s,
                    ) by {
                        lemma_assoc_get_append_other(ps0, pos_key(), p@, s);
                    }
                    assert(assoc_distinct(ps0, pos_key()));
                    assert forall|a: int, b: int|
                        0 <= a < b < self.pos_model().len() implies pos_key()(
                        self.pos_model()[a],
                    ) != pos_key()(self.pos_model()[b]) by {
                        if b < ps0.len() {
                            assert(self.pos_model()[a] == ps0[a]);
                            assert(self.pos_model()[b] == ps0[b]);
                            assert(pos_key()(ps0[a]) != pos_key()(ps0[b]));
                        } else {
                            assert(self.pos_model()[a] == ps0[a]);
                            assert(self.pos_model()[b] == p@);
                            assert(ps0[a].symbol != symbol@);
                        }
                    }
                }
            },
        }
        let trade = Trade {
            symbol,
            side: TradeSide::Buy,
            quantity,
            price,
            timestamp,
            commission,
            realized_pnl: None,
        };
        proof {
            lemma_comm_push(ts0, trade@);
        }
        self.trades.push(trade);
        proof {
            assert(self.trades_model() =~= ts0.push(trade@));
        }
        Ok(())
    }

    /// Executes a sell: requires an open position at least as large, credits
    /// the proceeds net of commission, shrinks or closes the position, and
    /// logs the trade with its realized profit or loss. The realized figure
    /// is the gross gain over the average entry price minus the commission
    /// attributed to the entry and the exit.
    pub fn execute_sell(
        &mut self,
        symbol: String,
        quantity: Dec,
        price: Dec,
        timestamp: i64,
    ) -> (r: Result<(), String>)
        requires
            old(self).wf(),
            0 < price@ <= MAX_PRICE_UNITS as int,
            old(self).cash@ <= MAX_CASH_UNITS as int,
        ensures
            final(self).wf(),
            quantity@ <= 0 ==> (r is Err && *final(self) == *old(self)),
            (quantity@ > 0 && (match position_of(old(self).pos_model(), symbol@) {
                Some(p) => p.quantity < quantity@,
                None => true,
            })) ==> (r is Err && *final(self) == *old(self)),
            (quantity@ > 0 && (match position_of(old(self).pos_model(), symbol@) {
                Some(p) => quantity@ <= p.quantity,
                None => false,
            })) ==> ({
                let rate = old(self).commission_rate@;
                let pos = position_of(old(self).pos_model(), symbol@).unwrap();
                let base = dec_mul_val(quantity@, price@);
                let sell_comm = dec_mul_val(base, rate);
                let entry_part = dec_mul_val(quantity@, pos.average_entry_price);
                let buy_comm_part = dec_mul_val(entry_part, rate);
                &&& r is Ok
                &&& final(self).cash@ == old(self).cash@ + base - sell_comm
                &&& final(self).cash@ >= old(self).cash@
                &&& (quantity@ == pos.quantity ==> position_of(final(self).pos_model(), symbol@)
                    is None)
                &&& (quantity@ < pos.quantity ==> position_of(final(self).pos_model(), symbol@)
                    == Some(
                    PositionView {
                        symbol: symbol@,
                        quantity: pos.quantity - quantity@,
                        average_entry_price: pos.average_entry_price,
                    },
                ))
                &&& (forall|s: Seq<char>|
                    s != symbol@ ==> position_of(final(self).pos_model(), s) == position_of(
                        old(self).pos_model(),
                        s,
                    ))
                &&& final(self).trades_model() == old(self).trades_model().push(
                    TradeView {
                        symbol: symbol@,
                        side: TradeSide::Sell,
                        quantity: quantity@,
                        price: price@,
                        timestamp: timestamp as int,
                        commission: sell_comm,
                        realized_pnl: Some(
                            base - entry_part - buy_comm_part - sell_comm,
                        ),
                    },
                )
                &&& final(self).positions@.len() <= old(self).positions@.len()
                &&& final(self).gross_sum@ == old(self).gross_sum@ + (base - entry_part)
                &&& (quantity@ == pos.quantity ==> final(self).drift@ == old(self).drift@)
                &&& old(self).drift@ <= final(self).drift@ <= old(self).drift@ + 1
            }),
            final(self).lp_model() == old(self).lp_model(),
            final(self).equity_curve@ == old(self).equity_curve@,
            final(self).initial_capital == old(self).initial_capital,
            final(self).commission_rate == old(self).commission_rate,
            final(self).cash@ <= old(self).cash@ + MAX_TERM_UNITS as int,
    {
        if !quantity.is_positive() {
            return Err("Quantity must be positive".to_owned());
        }
        let i = match self.find_position(&symbol) {
            Some(i) => {
                proof {
                    lemma_assoc_get_found(self.pos_model(), pos_key(), i as int);
                }
                i
            },
            None => {
                proof {
                    lemma_assoc_get_absent(self.pos_model(), pos_key(), symbol@);
                }
                return Err("No position to sell".to_owned());
            },
        };
        if self.positions[i].quantity.units < quantity.units {
            return Err("Insufficient position quantity".to_owned());
        }
        let ghost ps0 = self.pos_model();
        let ghost ts0 = self.trades_model();
        let ghost oq = ps0[i as int].quantity;
        let ghost oa = ps0[i as int].average_entry_price;
        proof {
            vstd::arithmetic::mul::lemma_mul_upper_bound(
                quantity@,
                MAX_POSITION_UNITS as int,
                price@,
                MAX_PRICE_UNITS as int,
            );
            lemma_term_bound(quantity@, price@);
        }
        let base = quantity.mul(price);
        proof {
            vstd::arithmetic::mul::lemma_mul_upper_bound(
                base@,
                MAX_TERM_UNITS as int,
                self.commission_rate@,
                DEC_SCALE as int,
            );
            lemma_commission_le_base(base@, self.commission_rate@);
        }
        let sell_comm = base.mul(self.commission_rate);
        let proceeds = base.sub(sell_comm);
        proof {
            vstd::arithmetic::mul::lemma_mul_upper_bound(
                quantity@,
                MAX_POSITION_UNITS as int,
                oa,
                MAX_PRICE_UNITS as int,
            );
            lemma_term_bound(quantity@, oa);
        }
        let entry_part = quantity.mul(self.positions[i].average_entry_price);
        proof {
            vstd::arithmetic::mul::lemma_mul_upper_bound(
                entry_part@,
                MAX_TERM_UNITS as int,
                self.commission_rate@,
                DEC_SCALE as int,
            );
            lemma_commission_le_base(entry_part@, self.commission_rate@);
        }
        let buy_comm_part = entry_part.mul(self.commission_rate);
        let realized = base.sub(entry_part).sub(buy_comm_part).sub(sell_comm);
        self.cash = self.cash.add(proceeds);
        if self.positions[i].quantity.units == quantity.units {
            self.positions.remove(i);
            proof {
                assert(self.pos_model() =~= ps0.remove(i as int));
                lemma_book_remove(ps0, i as int);
                assert forall|j: int|
                    0 <= j < self.pos_model().len() implies (#[trigger] self.pos_model()[j]).symbol
                    != symbol@ by {
                    if j < i {
                        assert(self.pos_model()[j] == ps0[j]);
                        assert(pos_key()(ps0[j]) != pos_key()(ps0[i as int]));
                    } else {
                        assert(self.pos_model()[j] == ps0[j + 1]);
                        assert(pos_key()(ps0[i as int]) != pos_key()(ps0[j + 1]));
                    }
                }
                lemma_assoc_get_absent(self.pos_model(), pos_key(), symbol@);
                assert forall|s: Seq<char>|
                    s != symbol@ implies position_of(self.pos_model(), s) == position_of(
                    ps0,
                    s,
                ) by {
                    lemma_assoc_get_remove_other(ps0, pos_key(), i as int, s);
                }
                assert forall|a: int, b: int|
                    0 <= a < b < self.pos_model().len() implies pos_key()(self.pos_model()[a])
                    != pos_key()(self.pos_model()[b]) by {
                    let a0: int = if a < i {
                        a
                    } else {
                        a + 1
                    };
                    let b0: int = if b < i {
                        b
                    } else {
                        b + 1
                    };
                    assert(self.pos_model()[a] == ps0[a0] && self.pos_model()[b] == ps0[b0]);
                    assert(pos_key()(ps0[a0]) != pos_key()(ps0[b0]));
                }
            }
        } else {
            let mut p = self.positions.remove(i);
            p.quantity = p.quantity.sub(quantity);
            self.positions.insert(i, p);
            proof {
                assert(self.pos_model() =~= ps0.update(i as int, p@));
                lemma_book_update(ps0, i as int, p@);
                lemma_assoc_get_found(self.pos_model(), pos_key(), i as int);
                assert forall|s: Seq<char>|
                    s != symbol@ implies position_of(self.pos_model(), s) == position_of(
                    ps0,
                    s,
                ) by {
                    lemma_assoc_get_update(ps0, pos_key(), i as int, p@, s);
                }
                assert forall|a: int, b: int|
                    0 <= a < b < self.pos_model().len() implies pos_key()(self.pos_model()[a])
                    != pos_key()(self.pos_model()[b]) by {
                    assert(pos_key()(ps0[a]) != pos_key()(ps0[b]));
                }
                // Splitting the book term loses at most one raw unit.
                vstd::arithmetic::mul::lemma_mul_upper_bound(
                    oq,
                    MAX_POSITION_UNITS as int,
                    oa,
                    MAX_PRICE_UNITS as int,
                );
                lemma_mul_inequality(0, oq - quantity@, oa);
                lemma_mul_inequality(0, quantity@, oa);
                lemma_mul_is_distributive_sub_other_way(oa, oq, quantity@);
                lemma_div_sum_bounds((oq - quantity@) * oa, quantity@ * oa, DEC_SCALE as int);
                lemma_div_t_nonneg(oq * oa, DEC_SCALE as int);
                lemma_div_t_nonneg((oq - quantity@) * oa, DEC_SCALE as int);
                lemma_div_t_nonneg(quantity@ * oa, DEC_SCALE as int);
                self.drift = Ghost(
                    self.drift@ + (dec_mul_val(oq, oa) - dec_mul_val(oq - quantity@, oa)
                        - dec_mul_val(quantity@, oa)),
                );
            }
        }
        let trade = Trade {
            symbol,
            side: TradeSide::Sell,
            quantity,
            price,
            timestamp,
            commission: sell_comm,
            realized_pnl: Some(realized),
        };
        proof {
            lemma_comm_push(ts0, trade@);
            self.gross_sum = Ghost(self.gross_sum@ + (base@ - entry_part@));
        }
        self.trades.push(trade);
        proof {
            assert(self.trades_model() =~= ts0.push(trade@));
        }
        Ok(())
    }

    /// Market value of the account: cash plus each position at its last
    /// observed price (entry price until one is observed).
    pub fn total_value(&self) -> (r: Dec)
        requires
            self.wf(),
            self.positions@.len() <= MAX_POSITIONS,
            self.cash@ <= MAX_CASH_UNITS as int,
        ensures
            r@ == self.total_value_model(),
            self.cash@ <= r@ <= self.cash@ + 1000000000000000000000000000int,
    {
        let ghost ps = self.pos_model();
        let ghost lps = self.lp_model();
        let mut sum = self.cash;
        let n = self.positions.len();
        let mut i: usize = 0;
        proof {
            assert(ps.take(0) =~= Seq::<PositionView>::empty());
        }
        while i < n
            invariant
                i <= n,
                n == self.positions@.len() <= MAX_POSITIONS,
                ps == self.pos_model(),
                lps == self.lp_model(),
                self.wf(),
                self.cash@ <= MAX_CASH_UNITS as int,
                sum@ == self.cash@ + holdings_value(ps.take(i as int), lps),
                sum@ <= self.cash@ + i * 1000000000000000000000int,
                sum@ >= self.cash@,
            decreases n - i,
        {
            let p = &self.positions[i];
            let lp = match self.find_last_price(&p.symbol) {
                Some(j) => {
                    proof {
                        lemma_assoc_get_found(lps, lp_key(), j as int);
                    }
                    self.last_price[j].price
                },
                None => {
                    proof {
                        lemma_assoc_get_absent(lps, lp_key(), p.symbol@);
                    }
                    p.average_entry_price
                },
            };
            proof {
                assert(0 < ps[i as int].quantity <= MAX_POSITION_UNITS as int);
                assert(0 <= lp@ <= MAX_PRICE_UNITS as int);
                vstd::arithmetic::mul::lemma_mul_upper_bound(
                    ps[i as int].quantity,
                    MAX_POSITION_UNITS as int,
                    lp@,
                    MAX_PRICE_UNITS as int,
                );
                lemma_term_bound(ps[i as int].quantity, lp@);
                lemma_mul_inequality(i as int, MAX_POSITIONS as int,
                    1000000000000000000000int);
                assert(ps.take(i + 1).drop_last() =~= ps.take(i as int));
            }
            let term = p.quantity.mul(lp);
            sum = sum.add(term);
            i = i + 1;
        }
        proof {
            assert(ps.take(n as int) =~= ps);
            lemma_mul_inequality(i as int, MAX_POSITIONS as int,
                1000000000000000000000int);
        }
        sum
    }

    /// Profit and loss so far: market value minus initial capital.
    pub fn total_pnl(&self) -> (r: Dec)
        requires
            self.wf(),
            self.positions@.len() <= MAX_POSITIONS,
            self.cash@ <= MAX_CASH_UNITS as int,
        ensures
            r@ == self.total_value_model() - self.initial_capital@,
    {
        let v = self.total_value();
        v.sub(self.initial_capital)
    }

    /// All commission paid so far.
    pub fn total_commission(&self) -> (r: Dec)
        requires
            self.wf(),
            self.trades@.len() <= MAX_POSITIONS,
        ensures
            r@ == comm_sum(self.trades_model()),
    {
        let ghost ts = self.trades_model();
        let mut sum = Dec::zero();
        let n = self.trades.len();
        let mut i: usize = 0;
        proof {
            assert(ts.take(0) =~= Seq::<TradeView>::empty());
        }
        while i < n
            invariant
                i <= n,
                n == self.trades@.len() <= MAX_POSITIONS,
                ts == self.trades_model(),
                self.wf(),
                sum@ == comm_sum(ts.take(i as int)),
                0 <= sum@ <= i * 1000000000000000000000int,
            decreases n - i,
        {
            proof {
                assert(0 <= ts[i as int].commission <= MAX_TERM_UNITS as int);
                assert(ts.take(i + 1).drop_last() =~= ts.take(i as int));
                lemma_mul_inequality(i as int, MAX_POSITIONS as int,
                    1000000000000000000000int);
            }
            sum = sum.add(self.trades[i].commission);
            i = i + 1;
        }
        proof {
            assert(ts.take(n as int) =~= ts);
        }
        sum
    }

    /// The equity curve recorded so far, one entry per observed tick.
    pub fn get_equity_curve(&self) -> (r: Vec<Dec>)
        ensures
            r@ == self.equity_curve@,
    {
        let mut out: Vec<Dec> = Vec::new();
        let n = self.equity_curve.len();
        let mut i: usize = 0;
        while i < n
            invariant
                i <= n,
                n == self.equity_curve@.len(),
                out@ =~= self.equity_curve@.take(i as int),
            decreases n - i,
        {
            out.push(self.equity_curve[i]);
            proof {
                assert(out@ =~= self.equity_curve@.take(i + 1));
            }
            i = i + 1;
        }
        proof {
            assert(self.equity_curve@.take(n as int) =~= self.equity_curve@);
        }
        out
    }
}

/// Portfolio conservation: at any point, cash plus the book value of the
/// open positions equals the initial capital plus the realized gross gains,
/// minus all commission paid, minus a non-negative truncation drift. Buys
/// that open a fresh position and sells that close a whole position keep
/// the drift unchanged, so along that flow the equation is exact.
pub proof fn lemma_portfolio_conservation(p: Portfolio)
    requires
        p.wf(),
    ensures
        p.cash@ + book_value(p.pos_model()) == p.initial_capital@ + p.gross_sum@ - comm_sum(
            p.trades_model(),
        ) - p.drift@,
        p.drift@ >= 0,
{
}

/// Non-negative cash and positions: no executed order leaves the account
/// with negative cash or a non-positive position quantity.
pub proof fn lemma_non_negative_account(p: Portfolio)
    requires
        p.wf(),
    ensures
        p.cash@ >= 0,
        forall|i: int| 0 <= i < p.pos_model().len() ==> (#[trigger] p.pos_model()[i]).quantity > 0,
{
}

} // verus!
