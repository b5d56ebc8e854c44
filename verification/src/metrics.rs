//! Risk and return metrics over a trade log and an equity curve: pure
//! functions, each pinned to a spec-level model.
//!
//! Ratios are computed in exact fixed point: drawdowns and per-period
//! returns divide by the peak or prior value itself, with the equity bound
//! sized so every scaled intermediate fits `i128`. Only the profit factor's
//! fallback for an astronomically large gross profit pre-scales its divisor
//! (`ratio_units`).

use vstd::prelude::*;
use crate::decimal::{Dec, DEC_SCALE, div_t, dec_mul_val, dec_div_val};
use crate::portfolio::{Trade, TradeView};
use crate::tick::TradeSide;

verus! {

/// Largest magnitude of a per-period return (in raw units) that the
/// deviation statistics accept: a million-fold move per period.
pub const MAX_RETURN_UNITS: i128 = 1_000_000_000_000_000;

/// Most returns the deviation statistics accept in one series.
pub const MAX_RETURN_COUNT: usize = 1_000_000;

/// Largest equity value (in raw units) the curve statistics accept.
pub const MAX_EQUITY_UNITS: i128 = 10_000_000_000_000_000_000_000_000_000;

/// All equity values are within the curve statistics' range.
pub open spec fn equity_bounded(s: Seq<int>) -> bool {
    forall|i: int|
        0 <= i < s.len() ==> -(MAX_EQUITY_UNITS as int) <= #[trigger] s[i] <= MAX_EQUITY_UNITS as int
}

/// Raw units of a sequence of decimals.
pub open spec fn dec_units(s: Seq<Dec>) -> Seq<int> {
    s.map_values(|d: Dec| d@)
}

/// Quotient of two decimals with the divisor pre-scaled to whole units, so
/// the result carries the fixed scale without the numerator being scaled up.
pub open spec fn ratio_units(a: int, b: int) -> int {
    let d = div_t(b, DEC_SCALE as int);
    div_t(a, (if d < 1 {
        1
    } else {
        d
    }))
}

/// Larger of two integers.
pub open spec fn max2(a: int, b: int) -> int {
    if a >= b {
        a
    } else {
        b
    }
}

/// Running peak of an equity curve (zero before any point).
pub open spec fn peak_of(s: Seq<int>) -> int
    decreases s.len(),
{
    if s.len() == 0 {
        0
    } else {
        max2(peak_of(s.drop_last()), s.last())
    }
}

/// Drawdown of one point against a peak: the exact fixed-point quotient
/// `(peak - v) / peak`, zero while no positive peak exists. With equity
/// non-negative it lies between zero and one.
pub open spec fn dd_step(peak: int, v: int) -> int {
    if peak > 0 {
        dec_div_val(peak - v, peak)
    } else {
        0
    }
}

/// Maximum drawdown of an equity curve.
pub open spec fn max_dd_of(s: Seq<int>) -> int
    decreases s.len(),
{
    if s.len() == 0 {
        0
    } else {
        max2(max_dd_of(s.drop_last()), dd_step(peak_of(s), s.last()))
    }
}

/// Per-period returns of an equity curve: the exact fixed-point quotient
/// `(v1 - v0) / v0` for each adjacent pair, zero where the earlier value
/// is not positive.
pub open spec fn returns_of(s: Seq<int>) -> Seq<int> {
    Seq::new(
        (if s.len() == 0 {
            0
        } else {
            (s.len() - 1) as nat
        }),
        |i: int|
            if s[i] > 0 {
                dec_div_val(s[i + 1] - s[i], s[i])
            } else {
                0
            },
    )
}

/// Sum of a sequence of integers.
pub open spec fn sum_of(s: Seq<int>) -> int
    decreases s.len(),
{
    if s.len() == 0 {
        0
    } else {
        sum_of(s.drop_last()) + s.last()
    }
}

/// Truncated mean of a sequence, zero when empty.
pub open spec fn mean_of(s: Seq<int>) -> int {
    if s.len() == 0 {
        0
    } else {
        div_t(sum_of(s), s.len() as int)
    }
}

/// Sum of squared deviations from `m`.
pub open spec fn sum_sq_dev(s: Seq<int>, m: int) -> int
    decreases s.len(),
{
    if s.len() == 0 {
        0
    } else {
        sum_sq_dev(s.drop_last(), m) + (s.last() - m) * (s.last() - m)
    }
}

/// Sample variance (denominator `n - 1`), zero for fewer than two points.
pub open spec fn sample_var(s: Seq<int>) -> int {
    if s.len() < 2 {
        0
    } else {
        div_t(sum_sq_dev(s, mean_of(s)), s.len() - 1)
    }
}

/// `r` is the integer square root of `n`.
pub open spec fn is_floor_sqrt(r: int, n: int) -> bool {
    0 <= r && r * r <= n && n < (r + 1) * (r + 1)
}

/// The integer square root of a non-negative integer.
pub open spec fn floor_sqrt(n: int) -> int {
    choose|r: int| is_floor_sqrt(r, n)
}

/// The integer square root is unique.
pub proof fn lemma_floor_sqrt_unique(a: int, b: int, n: int)
    requires
        is_floor_sqrt(a, n),
        is_floor_sqrt(b, n),
    ensures
        a == b,
{
    if a < b {
        vstd::arithmetic::mul::lemma_mul_upper_bound(a + 1, b, a + 1, b);
    }
    if b < a {
        vstd::arithmetic::mul::lemma_mul_upper_bound(b + 1, a, b + 1, a);
    }
}

/// Witnessing the square root fixes the spec value.
pub proof fn lemma_floor_sqrt_is(r: int, n: int)
    requires
        is_floor_sqrt(r, n),
    ensures
        floor_sqrt(n) == r,
{
    let c = choose|x: int| is_floor_sqrt(x, n);
    lemma_floor_sqrt_unique(c, r, n);
}

/// All returns are small enough for the deviation statistics.
pub open spec fn returns_bounded(s: Seq<int>) -> bool {
    forall|i: int|
        0 <= i < s.len() ==> -(MAX_RETURN_UNITS as int) <= #[trigger] s[i] <= MAX_RETURN_UNITS as int
}

/// Annualization factor: the integer square root of 252 at the fixed scale.
pub open spec fn sqrt_252_units() -> int {
    floor_sqrt(252 * (DEC_SCALE as int) * (DEC_SCALE as int))
}

/// Sharpe ratio model: excess mean return over the standard deviation of
/// returns, annualized by the square root of 252; zero for an empty or
/// flat series.
pub open spec fn sharpe_of(s: Seq<int>, risk_free: int) -> int {
    let sd = floor_sqrt(sample_var(s));
    if s.len() == 0 || sd == 0 {
        0
    } else {
        dec_mul_val(dec_div_val(mean_of(s) - risk_free, sd), sqrt_252_units())
    }
}

/// Mean of the squares of the strictly negative returns, zero when none.
pub open spec fn downside_sq_of(s: Seq<int>) -> int {
    let ds = s.filter(|r: int| r < 0);
    if ds.len() == 0 {
        0
    } else {
        div_t(sum_sq_dev(ds, 0), ds.len() as int)
    }
}

/// Sortino ratio model: like Sharpe, with the downside deviation (root
/// mean square of negative returns) as divisor.
pub open spec fn sortino_of(s: Seq<int>, risk_free: int) -> int {
    let dd = floor_sqrt(downside_sq_of(s));
    if s.len() == 0 || dd == 0 {
        0
    } else {
        dec_mul_val(dec_div_val(mean_of(s) - risk_free, dd), sqrt_252_units())
    }
}

/// Number of sell trades.
pub open spec fn sell_count(ts: Seq<TradeView>) -> int {
    ts.filter(|t: TradeView| t.side is Sell).len() as int
}

/// Number of sell trades whose realized profit is strictly positive.
pub open spec fn win_count(ts: Seq<TradeView>) -> int {
    ts.filter(
        |t: TradeView| t.side is Sell && (t.realized_pnl matches Some(p) && p > 0),
    ).len() as int
}

/// Win rate model: winning sells over all sells, at the fixed scale; zero
/// when nothing was sold.
pub open spec fn win_rate_of(ts: Seq<TradeView>) -> int {
    if sell_count(ts) == 0 {
        0
    } else {
        div_t(win_count(ts) * (DEC_SCALE as int), sell_count(ts))
    }
}

/// Every realized profit is small enough for the profit factor, and the
/// log is not too long.
pub open spec fn comm_bounded_model(ts: Seq<TradeView>) -> bool {
    &&& (forall|i: int|
        0 <= i < ts.len() ==> (match (#[trigger] ts[i]).realized_pnl {
            Some(p) => -1000000000000000000000000000000int <= p
                <= 1000000000000000000000000000000int,
            None => true,
        }))
    &&& ts.len() <= MAX_RETURN_COUNT
}

/// Sum of the positive realized profits.
pub open spec fn profit_sum(ts: Seq<TradeView>) -> int
    decreases ts.len(),
{
    if ts.len() == 0 {
        0
    } else {
        profit_sum(ts.drop_last()) + (match ts.last().realized_pnl {
            Some(p) => if p > 0 {
                p
            } else {
                0
            },
            None => 0,
        })
    }
}

/// Magnitude of the sum of the negative realized profits.
pub open spec fn loss_sum(ts: Seq<TradeView>) -> int
    decreases ts.len(),
{
    if ts.len() == 0 {
        0
    } else {
        loss_sum(ts.drop_last()) + (match ts.last().realized_pnl {
            Some(p) => if p < 0 {
                -p
            } else {
                0
            },
            None => 0,
        })
    }
}

/// Profit factor model: gross profit over gross loss; one when both are
/// zero, the largest decimal when only losses are zero. The quotient is
/// exact at the fixed scale up to a very large gross profit, beyond which
/// the divisor is pre-scaled instead.
pub open spec fn profit_factor_of(ts: Seq<TradeView>) -> int {
    if loss_sum(ts) == 0 {
        if profit_sum(ts) == 0 {
            DEC_SCALE as int
        } else {
            i128::MAX as int
        }
    } else if profit_sum(ts) <= 1000000000000000000000000000int {
        div_t(profit_sum(ts) * (DEC_SCALE as int), loss_sum(ts))
    } else {
        ratio_units(profit_sum(ts), loss_sum(ts))
    }
}

/// Calmar ratio model: annual return over maximum drawdown, zero when the
/// drawdown is zero.
pub open spec fn calmar_of(annual_return: int, max_drawdown: int) -> int {
    if max_drawdown == 0 {
        0
    } else {
        dec_div_val(annual_return, max_drawdown)
    }
}

/// Open buy instants of one symbol: every buy time in arrival order, and
/// how many of them a sell has already matched.
pub struct OpenLots {
    pub symbol: String,
    pub times: Vec<i64>,
    pub paired: usize,
}

/// Mathematical image of a symbol's open lots.
pub struct LotView {
    pub symbol: Seq<char>,
    pub times: Seq<int>,
    pub paired: int,
}

impl View for OpenLots {
    type V = LotView;

    open spec fn view(&self) -> LotView {
        LotView {
            symbol: self.symbol@,
            times: self.times@.map_values(|x: i64| x as int),
            paired: self.paired as int,
        }
    }
}

impl DeepView for OpenLots {
    type V = LotView;

    open spec fn deep_view(&self) -> LotView {
        self.view()
    }
}

/// Key projection for the lot table.
pub open spec fn lot_key() -> spec_fn(LotView) -> Seq<char> {
    |l: LotView| l.symbol
}

/// The lot table after recording one buy: the time joins the symbol's
/// entry (the first with that symbol), or a fresh entry is appended.
pub open spec fn lot_add(qs: Seq<LotView>, sym: Seq<char>, ts: int) -> Seq<LotView>
    decreases qs.len(),
{
    if qs.len() == 0 {
        seq![LotView { symbol: sym, times: seq![ts], paired: 0 }]
    } else if qs[0].symbol == sym {
        qs.update(0, LotView { times: qs[0].times.push(ts), ..qs[0] })
    } else {
        seq![qs[0]] + lot_add(qs.skip(1), sym, ts)
    }
}

/// The lot table after a sell matched the symbol's oldest unmatched buy.
pub open spec fn lot_bump(qs: Seq<LotView>, sym: Seq<char>) -> Seq<LotView>
    decreases qs.len(),
{
    if qs.len() == 0 {
        qs
    } else if qs[0].symbol == sym {
        qs.update(0, LotView { paired: qs[0].paired + 1, ..qs[0] })
    } else {
        seq![qs[0]] + lot_bump(qs.skip(1), sym)
    }
}

/// One trade's effect on the matching state: a buy records its instant; a
/// sell pairs with the oldest unmatched buy of its symbol, adding the time
/// between them, and is unmatched when no such buy exists.
pub open spec fn dur_step(st: (Seq<LotView>, int, int), t: TradeView) -> (Seq<LotView>, int, int) {
    if t.side is Buy {
        (lot_add(st.0, t.symbol, t.timestamp), st.1, st.2)
    } else {
        match crate::assoc::assoc_get(st.0, lot_key(), t.symbol) {
            Some(l) => if l.paired < l.times.len() {
                (lot_bump(st.0, t.symbol), st.1 + (t.timestamp - l.times[l.paired]), st.2 + 1)
            } else {
                st
            },
            None => st,
        }
    }
}

/// The matching state after a whole trade log.
pub open spec fn dur_state(ts: Seq<TradeView>) -> (Seq<LotView>, int, int)
    decreases ts.len(),
{
    if ts.len() == 0 {
        (Seq::empty(), 0, 0)
    } else {
        dur_step(dur_state(ts.drop_last()), ts.last())
    }
}

/// Mean time between each sell and the buy that opened its round trip,
/// matched oldest-first per symbol, in seconds at the fixed scale; zero
/// when nothing was matched.
pub open spec fn avg_trade_duration_of(ts: Seq<TradeView>) -> int {
    let (qs, sum, cnt) = dur_state(ts);
    if cnt == 0 {
        0
    } else {
        div_t(sum * 1000, cnt)
    }
}

/// All trade instants are inside the matcher's range.
pub open spec fn timestamps_bounded(ts: Seq<TradeView>) -> bool {
    forall|i: int|
        0 <= i < ts.len() ==> -1000000000000000int <= (#[trigger] ts[i]).timestamp
            <= 1000000000000000int
}

/// A first occurrence at `f` fixes where the buy is recorded.
proof fn lemma_lot_add_at(qs: Seq<LotView>, sym: Seq<char>, ts: int, f: int)
    requires
        0 <= f < qs.len(),
        qs[f].symbol == sym,
        forall|j: int| 0 <= j < f ==> (#[trigger] qs[j]).symbol != sym,
    ensures
        lot_add(qs, sym, ts) == qs.update(f, LotView { times: qs[f].times.push(ts), ..qs[f] }),
    decreases f,
{
    if f == 0 {
    } else {
        assert(qs.skip(1)[f - 1] == qs[f]);
        assert(forall|j: int| 0 <= j < f - 1 ==> #[trigger] qs.skip(1)[j] == qs[j + 1]);
        lemma_lot_add_at(qs.skip(1), sym, ts, f - 1);
        assert(lot_add(qs, sym, ts) =~= qs.update(
            f,
            LotView { times: qs[f].times.push(ts), ..qs[f] },
        ));
    }
}

/// A missing symbol appends a fresh entry.
proof fn lemma_lot_add_absent(qs: Seq<LotView>, sym: Seq<char>, ts: int)
    requires
        forall|j: int| 0 <= j < qs.len() ==> (#[trigger] qs[j]).symbol != sym,
    ensures
        lot_add(qs, sym, ts) == qs.push(LotView { symbol: sym, times: seq![ts], paired: 0 }),
    decreases qs.len(),
{
    if qs.len() == 0 {
        assert(lot_add(qs, sym, ts) =~= qs.push(
            LotView { symbol: sym, times: seq![ts], paired: 0 },
        ));
    } else {
        assert(forall|j: int| 0 <= j < qs.len() - 1 ==> #[trigger] qs.skip(1)[j] == qs[j + 1]);
        lemma_lot_add_absent(qs.skip(1), sym, ts);
        assert(lot_add(qs, sym, ts) =~= qs.push(
            LotView { symbol: sym, times: seq![ts], paired: 0 },
        ));
    }
}

/// A first occurrence at `f` fixes which entry a sell bumps.
proof fn lemma_lot_bump_at(qs: Seq<LotView>, sym: Seq<char>, f: int)
    requires
        0 <= f < qs.len(),
        qs[f].symbol == sym,
        forall|j: int| 0 <= j < f ==> (#[trigger] qs[j]).symbol != sym,
    ensures
        lot_bump(qs, sym) == qs.update(f, LotView { paired: qs[f].paired + 1, ..qs[f] }),
    decreases f,
{
    if f == 0 {
    } else {
        assert(qs.skip(1)[f - 1] == qs[f]);
        assert(forall|j: int| 0 <= j < f - 1 ==> #[trigger] qs.skip(1)[j] == qs[j + 1]);
        lemma_lot_bump_at(qs.skip(1), sym, f - 1);
        assert(lot_bump(qs, sym) =~= qs.update(f, LotView { paired: qs[f].paired + 1, ..qs[f] }));
    }
}

/// Truncating division on machine integers.
fn div_trunc(a: i128, b: i128) -> (r: i128)
    requires
        b > 0,
        a > i128::MIN,
    ensures
        r == div_t(a as int, b as int),
{
    if a >= 0 {
        a / b
    } else {
        -((-a) / b)
    }
}

/// Quotient of two decimals with the divisor pre-scaled to whole units.
fn ratio_units_exec(a: Dec, b: Dec) -> (r: Dec)
    requires
        a@ > i128::MIN,
        b@ >= 0,
    ensures
        r@ == ratio_units(a@, b@),
{
    let d0 = b.units / DEC_SCALE;
    let d = if d0 < 1 {
        1
    } else {
        d0
    };
    (Dec { units: div_trunc(a.units, d) })
}

/// Integer square root by bisection.
fn isqrt(n: u128) -> (r: u128)
    ensures
        is_floor_sqrt(r as int, n as int),
        r <= 0xFFFF_FFFF_FFFF_FFFF,
{
    let mut lo: u128 = 0;
    let mut hi: u128 = 0xFFFF_FFFF_FFFF_FFFF;
    if n < hi {
        hi = n;
    }
    proof {
        if n < 0xFFFF_FFFF_FFFF_FFFF {
            assert((n + 1) * (n + 1) > n) by (nonlinear_arith);
        } else {
            assert(0x1_0000_0000_0000_0000int * 0x1_0000_0000_0000_0000int > u128::MAX as int);
        }
    }
    while lo < hi
        invariant
            lo <= hi <= 0xFFFF_FFFF_FFFF_FFFF,
            lo * lo <= n,
            (hi + 1) * (hi + 1) > n,
        decreases hi - lo,
    {
        let mid = lo + (hi - lo + 1) / 2;
        proof {
            vstd::arithmetic::mul::lemma_mul_upper_bound(
                mid as int,
                0xFFFF_FFFF_FFFF_FFFFint,
                mid as int,
                0xFFFF_FFFF_FFFF_FFFFint,
            );
            assert(0xFFFF_FFFF_FFFF_FFFFint * 0xFFFF_FFFF_FFFF_FFFFint <= u128::MAX as int);
        }
        if mid * mid <= n {
            lo = mid;
        } else {
            hi = mid - 1;
        }
    }
    lo
}

/// Pure metric functions over trade logs and equity curves.
pub struct BacktestMetrics {}

impl BacktestMetrics {
    /// Maximum drawdown of an equity curve: the largest fractional decline
    /// from a running peak.
    pub fn calculate_max_drawdown(equity_curve: &Vec<Dec>) -> (r: Dec)
        requires
            equity_bounded(dec_units(equity_curve@)),
        ensures
            r@ == max_dd_of(dec_units(equity_curve@)),
    {
        let ghost vs = dec_units(equity_curve@);
        let mut peak: Dec = Dec::zero();
        let mut best: Dec = Dec::zero();
        let n = equity_curve.len();
        let mut i: usize = 0;
        proof {
            assert(vs.take(0) =~= Seq::<int>::empty());
        }
        while i < n
            invariant
                i <= n,
                n == equity_curve@.len(),
                vs == dec_units(equity_curve@),
                peak@ == peak_of(vs.take(i as int)),
                best@ == max_dd_of(vs.take(i as int)),
                -(MAX_EQUITY_UNITS as int) <= peak@ <= MAX_EQUITY_UNITS as int || peak@ == 0,
                equity_bounded(vs),
                best@ >= 0,
            decreases n - i,
        {
            let v = equity_curve[i];
            proof {
                assert(vs.take(i + 1).drop_last() =~= vs.take(i as int));
                assert(vs.take(i + 1).last() == vs[i as int]);
                assert(-(MAX_EQUITY_UNITS as int) <= vs[i as int] <= MAX_EQUITY_UNITS as int);
            }
            if v.units > peak.units {
                peak = v;
            }
            let dd = if peak.units > 0 {
                proof {
                    assert(-(MAX_EQUITY_UNITS as int) <= peak@ <= MAX_EQUITY_UNITS as int);
                }
                (Dec { units: peak.units - v.units }).div(peak)
            } else {
                Dec::zero()
            };
            proof {
                assert(dd@ == dd_step(peak_of(vs.take(i + 1)), vs[i as int]));
                assert(dd@ >= 0) by {
                    if peak@ > 0 {
                        let num = peak@ - vs[i as int];
                        assert(num >= 0);
                        vstd::arithmetic::mul::lemma_mul_inequality(0, num, DEC_SCALE as int);
                        vstd::arithmetic::div_mod::lemma_div_pos_is_pos(
                            num * (DEC_SCALE as int),
                            peak@,
                        );
                    }
                }
            }
            if dd.units > best.units {
                best = dd;
            }
            i = i + 1;
        }
        proof {
            assert(vs.take(n as int) =~= vs);
        }
        best
    }

    /// Per-period returns of an equity curve.
    pub fn calculate_returns(equity_curve: &Vec<Dec>) -> (r: Vec<Dec>)
        requires
            equity_bounded(dec_units(equity_curve@)),
        ensures
            dec_units(r@) == returns_of(dec_units(equity_curve@)),
    {
        let ghost vs = dec_units(equity_curve@);
        let mut out: Vec<Dec> = Vec::new();
        let n = equity_curve.len();
        if n == 0 {
            proof {
                assert(dec_units(out@) =~= returns_of(vs));
            }
            return out;
        }
        let mut i: usize = 0;
        while i < n - 1
            invariant
                n >= 1,
                i <= n - 1,
                n == equity_curve@.len(),
                vs == dec_units(equity_curve@),
                equity_bounded(vs),
                out@.len() == i,
                dec_units(out@) == returns_of(vs).take(i as int),
            decreases n - 1 - i,
        {
            let v0 = equity_curve[i];
            let v1 = equity_curve[i + 1];
            proof {
                assert(-(MAX_EQUITY_UNITS as int) <= vs[i as int] <= MAX_EQUITY_UNITS as int);
                assert(-(MAX_EQUITY_UNITS as int) <= vs[i + 1] <= MAX_EQUITY_UNITS as int);
            }
            let ret = if v0.units > 0 {
                (Dec { units: v1.units - v0.units }).div(v0)
            } else {
                Dec::zero()
            };
            let ghost prevv = out@;
            let ghost prevd = dec_units(out@);
            out.push(ret);
            proof {
                assert(ret@ == returns_of(vs)[i as int]);
                assert forall|j: int|
                    0 <= j < i + 1 implies #[trigger] dec_units(out@)[j] == returns_of(
                    vs,
                ).take(i + 1)[j] by {
                    if j < i {
                        assert(out@[j] == prevv[j]);
                        assert(prevd[j] == returns_of(vs).take(i as int)[j]);
                    } else {
                        assert(out@[j] == ret);
                    }
                }
                assert(dec_units(out@) =~= returns_of(vs).take(i + 1));
            }
            i = i + 1;
        }
        proof {
            assert(returns_of(vs).take(n - 1) =~= returns_of(vs));
        }
        out
    }

    /// Sample standard deviation of the returns, zero for fewer than two.
    pub fn calculate_volatility(rets: &Vec<Dec>) -> (r: Dec)
        requires
            returns_bounded(dec_units(rets@)),
            rets@.len() <= MAX_RETURN_COUNT,
        ensures
            r@ == floor_sqrt(sample_var(dec_units(rets@))),
    {
        let var = Self::variance_units(rets);
        let sd = isqrt(var as u128);
        proof {
            lemma_floor_sqrt_is(sd as int, var as int);
        }
        (Dec { units: sd as i128 })
    }

    /// Sharpe ratio of the returns against a per-period risk-free rate,
    /// annualized by the square root of 252.
    pub fn calculate_sharpe_ratio(rets: &Vec<Dec>, risk_free: Dec) -> (r: Dec)
        requires
            returns_bounded(dec_units(rets@)),
            rets@.len() <= MAX_RETURN_COUNT,
            -(MAX_RETURN_UNITS as int) <= risk_free@ <= MAX_RETURN_UNITS as int,
        ensures
            r@ == sharpe_of(dec_units(rets@), risk_free@),
    {
        let ghost vs = dec_units(rets@);
        let var = Self::variance_units(rets);
        let sd = isqrt(var as u128);
        proof {
            lemma_floor_sqrt_is(sd as int, var as int);
        }
        if rets.len() == 0 || sd == 0 {
            return Dec::zero();
        }
        proof {
            lemma_mean_bounded(vs);
        }
        let m = Self::mean_units(rets);
        let excess = Dec { units: m - risk_free.units };
        proof {
            assert(-2000000000000000000000000int <= excess@ * (DEC_SCALE as int)
                <= 2000000000000000000000000000000000int) by (nonlinear_arith)
                requires
                    -2000000000000000int <= excess@ <= 2000000000000000int,
                    DEC_SCALE == 1000000000i128,
            ;
        }
        let per = excess.div(Dec { units: sd as i128 });
        let s252 = Self::sqrt_252();
        proof {
            lemma_ratio_small(excess@, sd as int);
            assert(0 <= s252@ <= 16000000000int);
            lemma_bounded_product(per@, s252@);
        }
        per.mul(s252)
    }

    /// Sortino ratio: like Sharpe, with the downside deviation as divisor.
    pub fn calculate_sortino_ratio(rets: &Vec<Dec>, risk_free: Dec) -> (r: Dec)
        requires
            returns_bounded(dec_units(rets@)),
            rets@.len() <= MAX_RETURN_COUNT,
            -(MAX_RETURN_UNITS as int) <= risk_free@ <= MAX_RETURN_UNITS as int,
        ensures
            r@ == sortino_of(dec_units(rets@), risk_free@),
    {
        let ghost vs = dec_units(rets@);
        let dsq = Self::downside_sq_units(rets);
        let dd = isqrt(dsq as u128);
        proof {
            lemma_floor_sqrt_is(dd as int, dsq as int);
        }
        if rets.len() == 0 || dd == 0 {
            return Dec::zero();
        }
        proof {
            lemma_mean_bounded(vs);
        }
        let m = Self::mean_units(rets);
        let excess = Dec { units: m - risk_free.units };
        proof {
            assert(-2000000000000000000000000int <= excess@ * (DEC_SCALE as int)
                <= 2000000000000000000000000000000000int) by (nonlinear_arith)
                requires
                    -2000000000000000int <= excess@ <= 2000000000000000int,
                    DEC_SCALE == 1000000000i128,
            ;
        }
        let per = excess.div(Dec { units: dd as i128 });
        let s252 = Self::sqrt_252();
        proof {
            lemma_ratio_small(excess@, dd as int);
            assert(0 <= s252@ <= 16000000000int);
            lemma_bounded_product(per@, s252@);
        }
        per.mul(s252)
    }

    /// Fraction of sell trades that realized a strictly positive profit.
    pub fn calculate_win_rate(trades: &Vec<Trade>) -> (r: Dec)
        requires
            trades@.len() <= MAX_RETURN_COUNT,
        ensures
            r@ == win_rate_of(trades.deep_view()),
    {
        let ghost ts = trades.deep_view();
        let ghost sellp = |t: TradeView| t.side is Sell;
        let ghost winp = |t: TradeView|
            t.side is Sell && (t.realized_pnl matches Some(p) && p > 0);
        let mut sells: usize = 0;
        let mut wins: usize = 0;
        let n = trades.len();
        let mut i: usize = 0;
        proof {
            assert(ts.take(0) =~= Seq::<TradeView>::empty());
            reveal(Seq::filter);
        }
        while i < n
            invariant
                i <= n,
                n == trades@.len(),
                ts == trades.deep_view(),
                sells == ts.take(i as int).filter(sellp).len(),
                wins == ts.take(i as int).filter(winp).len(),
                wins <= sells <= i,
                sellp == (|t: TradeView| t.side is Sell),
                winp == (|t: TradeView|
                    t.side is Sell && (t.realized_pnl matches Some(p) && p > 0)),
            decreases n - i,
        {
            let ghost pref = ts.take(i as int);
            proof {
                assert(ts.take(i + 1) =~= pref.push(ts[i as int]));
                reveal_with_fuel(Seq::filter, 2);
                assert(pref.push(ts[i as int]).drop_last() =~= pref);
                pref.lemma_filter_len(sellp);
                pref.lemma_filter_len(winp);
            }
            let t = &trades[i];
            let is_sell = match t.side {
                TradeSide::Sell => true,
                TradeSide::Buy => false,
            };
            if is_sell {
                sells = sells + 1;
                let winning = match &t.realized_pnl {
                    Some(p) => p.units > 0,
                    None => false,
                };
                if winning {
                    wins = wins + 1;
                }
            }
            i = i + 1;
        }
        proof {
            assert(ts.take(n as int) =~= ts);
        }
        if sells == 0 {
            return Dec::zero();
        }
        let num: i128 = (wins as i128) * DEC_SCALE;
        (Dec { units: num / (sells as i128) })
    }

    /// Profit factor: gross profit over gross loss; one when both are
    /// zero, the largest decimal when only losses are zero.
    pub fn calculate_profit_factor(trades: &Vec<Trade>) -> (r: Dec)
        requires
            trades@.len() <= MAX_RETURN_COUNT,
            forall|i: int|
                0 <= i < trades.deep_view().len() ==> (match (#[trigger] trades.deep_view()[i]).realized_pnl {
                    Some(p) => -1000000000000000000000000000000int <= p
                        <= 1000000000000000000000000000000int,
                    None => true,
                }),
        ensures
            r@ == profit_factor_of(trades.deep_view()),
    {
        let ghost ts = trades.deep_view();
        let mut pos: i128 = 0;
        let mut neg: i128 = 0;
        let n = trades.len();
        let mut i: usize = 0;
        proof {
            assert(ts.take(0) =~= Seq::<TradeView>::empty());
        }
        while i < n
            invariant
                i <= n,
                n == trades@.len() <= MAX_RETURN_COUNT,
                ts == trades.deep_view(),
                (forall|k: int|
                    0 <= k < ts.len() ==> (match (#[trigger] ts[k]).realized_pnl {
                        Some(p) => -1000000000000000000000000000000int <= p
                            <= 1000000000000000000000000000000int,
                        None => true,
                    })),
                pos == profit_sum(ts.take(i as int)),
                neg == loss_sum(ts.take(i as int)),
                0 <= pos <= i * 1000000000000000000000000000000int,
                0 <= neg <= i * 1000000000000000000000000000000int,
            decreases n - i,
        {
            proof {
                assert(ts.take(i + 1).drop_last() =~= ts.take(i as int));
                assert(ts.take(i + 1).last() == ts[i as int]);
                assert(match ts[i as int].realized_pnl {
                    Some(p) => -1000000000000000000000000000000int <= p
                        <= 1000000000000000000000000000000int,
                    None => true,
                });
                vstd::arithmetic::mul::lemma_mul_inequality(
                    i as int,
                    MAX_RETURN_COUNT as int,
                    1000000000000000000000000000000int,
                );
            }
            match &trades[i].realized_pnl {
                Some(p) => {
                    if p.units > 0 {
                        pos = pos + p.units;
                    } else {
                        neg = neg - p.units;
                    }
                },
                None => {},
            }
            i = i + 1;
        }
        proof {
            assert(ts.take(n as int) =~= ts);
        }
        if neg == 0 {
            if pos == 0 {
                return Dec::one();
            }
            return Dec { units: i128::MAX };
        }
        if pos <= 1_000_000_000_000_000_000_000_000_000i128 {
            return Dec { units: div_trunc(pos * DEC_SCALE, neg) };
        }
        ratio_units_exec(Dec { units: pos }, Dec { units: neg })
    }

    /// Calmar ratio: annual return over maximum drawdown, zero when the
    /// drawdown is zero.
    pub fn calculate_calmar_ratio(annual_return: Dec, max_drawdown: Dec) -> (r: Dec)
        requires
            -1000000000000000000000000000int <= annual_return@
                <= 1000000000000000000000000000int,
            max_drawdown@ >= 0,
        ensures
            r@ == calmar_of(annual_return@, max_drawdown@),
    {
        if max_drawdown.units == 0 {
            return Dec::zero();
        }
        annual_return.div(max_drawdown)
    }

    /// Mean of the returns in raw units.
    fn mean_units(rets: &Vec<Dec>) -> (r: i128)
        requires
            returns_bounded(dec_units(rets@)),
            rets@.len() <= MAX_RETURN_COUNT,
        ensures
            r == mean_of(dec_units(rets@)),
    {
        let ghost vs = dec_units(rets@);
        let n = rets.len();
        if n == 0 {
            return 0;
        }
        let mut sum: i128 = 0;
        let mut i: usize = 0;
        proof {
            assert(vs.take(0) =~= Seq::<int>::empty());
        }
        while i < n
            invariant
                i <= n,
                n == rets@.len() <= MAX_RETURN_COUNT,
                vs == dec_units(rets@),
                returns_bounded(vs),
                sum == sum_of(vs.take(i as int)),
                -(i * 1000000000000000int) <= sum <= i * 1000000000000000int,
            decreases n - i,
        {
            proof {
                assert(vs.take(i + 1).drop_last() =~= vs.take(i as int));
                assert(vs.take(i + 1).last() == vs[i as int]);
                assert(-(MAX_RETURN_UNITS as int) <= vs[i as int] <= MAX_RETURN_UNITS as int);
                vstd::arithmetic::mul::lemma_mul_inequality(
                    i as int,
                    MAX_RETURN_COUNT as int,
                    1000000000000000int,
                );
            }
            sum = sum + rets[i].units;
            i = i + 1;
        }
        proof {
            assert(vs.take(n as int) =~= vs);
        }
        div_trunc(sum, n as i128)
    }

    /// Sample variance of the returns in squared raw units.
    fn variance_units(rets: &Vec<Dec>) -> (r: i128)
        requires
            returns_bounded(dec_units(rets@)),
            rets@.len() <= MAX_RETURN_COUNT,
        ensures
            r == sample_var(dec_units(rets@)),
            r >= 0,
    {
        let ghost vs = dec_units(rets@);
        let n = rets.len();
        if n < 2 {
            proof {
                lemma_sum_sq_dev_nonneg(vs, mean_of(vs));
            }
            return 0;
        }
        let m = Self::mean_units(rets);
        proof {
            lemma_mean_bounded(vs);
        }
        let mut sum: i128 = 0;
        let mut i: usize = 0;
        proof {
            assert(vs.take(0) =~= Seq::<int>::empty());
        }
        while i < n
            invariant
                i <= n,
                n == rets@.len() <= MAX_RETURN_COUNT,
                vs == dec_units(rets@),
                returns_bounded(vs),
                m == mean_of(vs),
                -(MAX_RETURN_UNITS as int) <= m as int <= MAX_RETURN_UNITS as int,
                sum == sum_sq_dev(vs.take(i as int), m as int),
                0 <= sum <= i * 4000000000000000000000000000000int,
            decreases n - i,
        {
            proof {
                assert(vs.take(i + 1).drop_last() =~= vs.take(i as int));
                assert(vs.take(i + 1).last() == vs[i as int]);
                assert(-(MAX_RETURN_UNITS as int) <= vs[i as int] <= MAX_RETURN_UNITS as int);
                let d = vs[i as int] - m;
                assert(d * d <= 4000000000000000000000000000000int && d * d
                    >= 0) by (nonlinear_arith)
                    requires
                        -2000000000000000int <= d <= 2000000000000000int,
                ;
                vstd::arithmetic::mul::lemma_mul_inequality(
                    i as int,
                    MAX_RETURN_COUNT as int,
                    4000000000000000000000000000000int,
                );
            }
            let d: i128 = rets[i].units - m;
            sum = sum + d * d;
            i = i + 1;
        }
        proof {
            assert(vs.take(n as int) =~= vs);
        }
        div_trunc(sum, (n - 1) as i128)
    }

    /// Mean square of the strictly negative returns, in squared raw units.
    fn downside_sq_units(rets: &Vec<Dec>) -> (r: i128)
        requires
            returns_bounded(dec_units(rets@)),
            rets@.len() <= MAX_RETURN_COUNT,
        ensures
            r == downside_sq_of(dec_units(rets@)),
            r >= 0,
    {
        let ghost vs = dec_units(rets@);
        let ghost negp = |r: int| r < 0;
        let mut sum: i128 = 0;
        let mut count: usize = 0;
        let n = rets.len();
        let mut i: usize = 0;
        proof {
            assert(vs.take(0) =~= Seq::<int>::empty());
            reveal(Seq::filter);
        }
        while i < n
            invariant
                i <= n,
                n == rets@.len() <= MAX_RETURN_COUNT,
                vs == dec_units(rets@),
                returns_bounded(vs),
                count == vs.take(i as int).filter(negp).len(),
                count <= i,
                sum == sum_sq_dev(vs.take(i as int).filter(negp), 0),
                0 <= sum <= i * 1000000000000000000000000000000int,
                negp == (|r: int| r < 0),
            decreases n - i,
        {
            let ghost pref = vs.take(i as int);
            proof {
                assert(vs.take(i + 1) =~= pref.push(vs[i as int]));
                reveal_with_fuel(Seq::filter, 2);
                assert(pref.push(vs[i as int]).drop_last() =~= pref);
                pref.lemma_filter_len(negp);
                assert(-(MAX_RETURN_UNITS as int) <= vs[i as int] <= MAX_RETURN_UNITS as int);
                let v = vs[i as int];
                assert(v * v <= 1000000000000000000000000000000int && v * v
                    >= 0) by (nonlinear_arith)
                    requires
                        -(MAX_RETURN_UNITS as int) <= v <= MAX_RETURN_UNITS as int,
                ;
                vstd::arithmetic::mul::lemma_mul_inequality(
                    i as int,
                    MAX_RETURN_COUNT as int,
                    1000000000000000000000000000000int,
                );
                if v < 0 {
                    assert(pref.filter(negp).push(v).drop_last() =~= pref.filter(negp));
                }
            }
            let v = rets[i].units;
            if v < 0 {
                sum = sum + v * v;
                count = count + 1;
            }
            i = i + 1;
        }
        proof {
            assert(vs.take(n as int) =~= vs);
        }
        if count == 0 {
            return 0;
        }
        div_trunc(sum, count as i128)
    }

    /// Mean seconds between each sell and the buy that opened its round trip,
    /// matched oldest-first per symbol; zero when nothing was matched.
    pub fn calculate_average_trade_duration(trades: &Vec<Trade>) -> (r: Dec)
        requires
            trades@.len() <= MAX_RETURN_COUNT,
            timestamps_bounded(trades.deep_view()),
        ensures
            r@ == avg_trade_duration_of(trades.deep_view()),
    {
        let ghost ts = trades.deep_view();
        let mut lots: Vec<OpenLots> = Vec::new();
        let mut sum: i128 = 0;
        let mut cnt: usize = 0;
        let n = trades.len();
        let mut i: usize = 0;
        proof {
            assert(ts.take(0) =~= Seq::<TradeView>::empty());
            assert(lots.deep_view() =~= Seq::<LotView>::empty());
        }
        while i < n
            invariant
                i <= n,
                n == trades@.len() <= MAX_RETURN_COUNT,
                ts == trades.deep_view(),
                timestamps_bounded(ts),
                (lots.deep_view(), sum as int, cnt as int) == dur_state(ts.take(i as int)),
                cnt <= i,
                -(i * 2000000000000000int) <= sum <= i * 2000000000000000int,
                forall|k: int, j: int|
                    0 <= k < lots.deep_view().len() && 0 <= j < lots.deep_view()[k].times.len()
                        ==> -1000000000000000int <= #[trigger] lots.deep_view()[k].times[j]
                        <= 1000000000000000int,
            decreases n - i,
        {
            let ghost prevd = lots.deep_view();
            proof {
                assert(ts.take(i + 1).drop_last() =~= ts.take(i as int));
                assert(ts.take(i + 1).last() == ts[i as int]);
                assert(-1000000000000000int <= ts[i as int].timestamp <= 1000000000000000int);
                vstd::arithmetic::mul::lemma_mul_inequality(
                    i as int,
                    MAX_RETURN_COUNT as int,
                    2000000000000000int,
                );
            }
            let t = &trades[i];
            let found = find_lot(&lots, &t.symbol);
            let is_buy = match t.side {
                TradeSide::Buy => true,
                TradeSide::Sell => false,
            };
            if is_buy {
                match found {
                    Some(f) => {
                        let mut e = lots.remove(f);
                        let ghost e0 = e@;
                        e.times.push(t.timestamp);
                        proof {
                            assert(e@.times =~= e0.times.push(ts[i as int].timestamp));
                        }
                        lots.insert(f, e);
                        proof {
                            assert(lots.deep_view() =~= prevd.update(f as int, e@));
                            assert forall|j: int|
                                0 <= j < f implies lot_key()(#[trigger] prevd[j])
                                != ts[i as int].symbol by {
                                assert(prevd[j].symbol != ts[i as int].symbol);
                            }
                            lemma_lot_add_at(
                                prevd,
                                ts[i as int].symbol,
                                ts[i as int].timestamp,
                                f as int,
                            );
                            assert(lots.deep_view() =~= lot_add(
                                prevd,
                                ts[i as int].symbol,
                                ts[i as int].timestamp,
                            ));
                        }
                    },
                    None => {
                        let mut times: Vec<i64> = Vec::new();
                        times.push(t.timestamp);
                        let e = OpenLots {
                            symbol: crate::tick::clone_string(&t.symbol),
                            times,
                            paired: 0,
                        };
                        proof {
                            assert(e@.times =~= seq![ts[i as int].timestamp]);
                        }
                        lots.push(e);
                        proof {
                            assert(lots.deep_view() =~= prevd.push(e@));
                            lemma_lot_add_absent(
                                prevd,
                                ts[i as int].symbol,
                                ts[i as int].timestamp,
                            );
                            assert(lots.deep_view() =~= lot_add(
                                prevd,
                                ts[i as int].symbol,
                                ts[i as int].timestamp,
                            ));
                        }
                    },
                }
            } else {
                match found {
                    Some(f) => {
                        proof {
                            assert forall|j: int|
                                0 <= j < f implies lot_key()(#[trigger] prevd[j])
                                != ts[i as int].symbol by {
                                assert(prevd[j].symbol != ts[i as int].symbol);
                            }
                            crate::assoc::lemma_assoc_get_found(prevd, lot_key(), f as int);
                            assert(crate::assoc::assoc_get(prevd, lot_key(), ts[i as int].symbol)
                                == Some(prevd[f as int]));
                        }
                        if lots[f].paired < lots[f].times.len() {
                            let buy_ts = lots[f].times[lots[f].paired];
                            proof {
                                assert(prevd[f as int].times[prevd[f as int].paired]
                                    == buy_ts as int);
                            }
                            sum = sum + ((t.timestamp as i128) - (buy_ts as i128));
                            cnt = cnt + 1;
                            let mut e = lots.remove(f);
                            e.paired = e.paired + 1;
                            lots.insert(f, e);
                            proof {
                                assert(lots.deep_view() =~= prevd.update(f as int, e@));
                                lemma_lot_bump_at(prevd, ts[i as int].symbol, f as int);
                                assert(lots.deep_view() =~= lot_bump(
                                    prevd,
                                    ts[i as int].symbol,
                                ));
                            }
                        }
                    },
                    None => {
                        proof {
                            assert forall|j: int|
                                0 <= j < prevd.len() implies lot_key()(#[trigger] prevd[j])
                                != ts[i as int].symbol by {
                                assert(prevd[j].symbol != ts[i as int].symbol);
                            }
                            crate::assoc::lemma_assoc_get_absent(
                                prevd,
                                lot_key(),
                                ts[i as int].symbol,
                            );
                        }
                    },
                }
            }
            i = i + 1;
        }
        proof {
            assert(ts.take(n as int) =~= ts);
        }
        if cnt == 0 {
            return Dec::zero();
        }
        (Dec { units: div_trunc(sum * 1000, cnt as i128) })
    }

    /// The annualization factor: square root of 252 at the fixed scale.
    fn sqrt_252() -> (r: Dec)
        ensures
            r@ == sqrt_252_units(),
            0 <= r@ <= 16000000000int,
    {
        let n: u128 = 252_000_000_000_000_000_000;
        let s = isqrt(n);
        proof {
            lemma_floor_sqrt_is(s as int, n as int);
            let sc = DEC_SCALE as int;
            assert(sc == 1000000000int);
            assert(252 * sc * sc == 252000000000000000000int) by (nonlinear_arith)
                requires
                    sc == 1000000000int,
            ;
            assert((16000000000int + 1) * (16000000000int + 1) > n as int);
            if s as int > 16000000000int {
                vstd::arithmetic::mul::lemma_mul_upper_bound(
                    16000000001int,
                    s as int,
                    16000000001int,
                    s as int,
                );
                assert(false);
            }
        }
        (Dec { units: s as i128 })
    }
}

/// Index of the first lot entry for a symbol.
fn find_lot(lots: &Vec<OpenLots>, symbol: &String) -> (r: Option<usize>)
    ensures
        (match r {
            Some(f) => f < lots.deep_view().len() && lots.deep_view()[f as int].symbol == symbol@
                && (forall|j: int|
                0 <= j < f ==> (#[trigger] lots.deep_view()[j]).symbol != symbol@),
            None => forall|j: int|
                0 <= j < lots.deep_view().len() ==> (#[trigger] lots.deep_view()[j]).symbol
                    != symbol@,
        }),
{
    let n = lots.len();
    let mut i: usize = 0;
    while i < n
        invariant
            i <= n,
            n == lots@.len(),
            forall|j: int| 0 <= j < i ==> (#[trigger] lots.deep_view()[j]).symbol != symbol@,
        decreases n - i,
    {
        if lots[i].symbol == *symbol {
            proof {
                assert(lots.deep_view()[i as int].symbol == symbol@);
            }
            return Some(i);
        }
        proof {
            assert(lots.deep_view()[i as int].symbol != symbol@);
        }
        i = i + 1;
    }
    None
}

/// A sum of squared deviations is never negative.
proof fn lemma_sum_sq_dev_nonneg(s: Seq<int>, m: int)
    ensures
        sum_sq_dev(s, m) >= 0,
    decreases s.len(),
{
    if s.len() > 0 {
        lemma_sum_sq_dev_nonneg(s.drop_last(), m);
        let d = s.last() - m;
        assert(d * d >= 0) by (nonlinear_arith);
    }
}

/// The mean stays within the bounds of the values.
proof fn lemma_mean_bounded(s: Seq<int>)
    requires
        returns_bounded(s),
    ensures
        -(MAX_RETURN_UNITS as int) <= mean_of(s) <= MAX_RETURN_UNITS as int,
{
    if s.len() == 0 {
    } else {
        lemma_sum_bounded(s);
        let n = s.len() as int;
        let sum = sum_of(s);
        vstd::arithmetic::mul::lemma_mul_is_commutative(n, MAX_RETURN_UNITS as int);
        if sum >= 0 {
            vstd::arithmetic::div_mod::lemma_div_pos_is_pos(sum, n);
            vstd::arithmetic::div_mod::lemma_div_is_ordered(sum, n * (MAX_RETURN_UNITS as int), n);
            vstd::arithmetic::div_mod::lemma_div_multiples_vanish(MAX_RETURN_UNITS as int, n);
        } else {
            vstd::arithmetic::div_mod::lemma_div_pos_is_pos(-sum, n);
            vstd::arithmetic::div_mod::lemma_div_is_ordered(-sum, n * (MAX_RETURN_UNITS as int), n);
            vstd::arithmetic::div_mod::lemma_div_multiples_vanish(MAX_RETURN_UNITS as int, n);
        }
    }
}

/// The sum of bounded values is bounded by the count times the bound.
proof fn lemma_sum_bounded(s: Seq<int>)
    requires
        returns_bounded(s),
    ensures
        -(s.len() * 1000000000000000int) <= sum_of(s) <= s.len() * 1000000000000000int,
    decreases s.len(),
{
    if s.len() > 0 {
        assert(forall|i: int| 0 <= i < s.len() - 1 ==> s.drop_last()[i] == s[i]);
        lemma_sum_bounded(s.drop_last());
    }
}

/// The product of a bounded ratio and the annualization factor stays well
/// inside the machine range.
proof fn lemma_bounded_product(x: int, y: int)
    requires
        -2000000000000000000000000int <= x <= 2000000000000000000000000int,
        0 <= y <= 16000000000int,
    ensures
        -40000000000000000000000000000000000int <= x * y <= 40000000000000000000000000000000000int,
{
    assert(-40000000000000000000000000000000000int <= x * y
        <= 40000000000000000000000000000000000int) by (nonlinear_arith)
        requires
            -2000000000000000000000000int <= x <= 2000000000000000000000000int,
            0 <= y <= 16000000000int,
    ;
}

/// A quotient with a divisor of at least one keeps the numerator's bound.
proof fn lemma_ratio_small(a: int, b: int)
    requires
        -2000000000000000int <= a <= 2000000000000000int,
        b >= 1,
    ensures
        -2000000000000000000000000int <= dec_div_val(a, b) <= 2000000000000000000000000int,
{
    let s = DEC_SCALE as int;
    if a >= 0 {
        vstd::arithmetic::mul::lemma_mul_inequality(a, 2000000000000000int, s);
        vstd::arithmetic::div_mod::lemma_div_pos_is_pos(a * s, b);
        vstd::arithmetic::div_mod::lemma_div_is_ordered_by_denominator(a * s, 1, b);
        vstd::arithmetic::div_mod::lemma_div_basics_1(a * s);
        assert(dec_div_val(a, b) == (a * s) / b);
        assert((a * s) / b <= (a * s) / 1);
    } else {
        vstd::arithmetic::mul::lemma_mul_inequality(-a, 2000000000000000int, s);
        vstd::arithmetic::mul::lemma_mul_inequality(0, -a, s);
        vstd::arithmetic::div_mod::lemma_div_pos_is_pos((-a) * s, b);
        vstd::arithmetic::div_mod::lemma_div_is_ordered_by_denominator((-a) * s, 1, b);
        vstd::arithmetic::div_mod::lemma_div_basics_1((-a) * s);
        assert(dec_div_val(a, b) == -(((-a) * s) / b));
        assert(((-a) * s) / b <= ((-a) * s) / 1);
    }
}

} // verus!
