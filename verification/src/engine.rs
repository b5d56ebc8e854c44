//! The backtest engine: replays an ordered tick sequence through a
//! strategy, applies its signals to the simulated portfolio (rejected
//! orders are skipped, never fatal), and reports the run's metrics.

use vstd::prelude::*;
use crate::decimal::{Dec, DEC_SCALE, abs_i, dec_div_val, dec_mul_val};
use crate::metrics::{
    BacktestMetrics, dec_units, max_dd_of, returns_of, returns_bounded, sharpe_of, sample_var,
    floor_sqrt, win_rate_of, profit_factor_of, comm_bounded_model, avg_trade_duration_of,
    timestamps_bounded, MAX_RETURN_UNITS, MAX_RETURN_COUNT,
};
use crate::portfolio::{
    Portfolio, Position, PositionView, Trade, TradeView, comm_sum, lemma_holdings_bound,
    MAX_PRICE_UNITS, MAX_POSITION_UNITS, MAX_CAPITAL_UNITS, MAX_CASH_UNITS,
};
use crate::strategy::{Signal, Strategy};
use crate::tick::{TickData, TickView, clone_string};

verus! {

/// Most ticks one backtest run accepts.
pub const MAX_TICKS: usize = 500_000;

/// Largest order quantity the engine forwards to the portfolio, in raw
/// units: a million units.
pub const MAX_ORDER_UNITS: i128 = 1_000_000_000_000_000;

/// Configuration of one backtest run.
pub struct BacktestConfig {
    pub initial_capital: Dec,
    pub commission_rate: Dec,
    pub strategy_params: Vec<(String, String)>,
}

impl BacktestConfig {
    /// A config with the given capital and the default 0.1% commission.
    pub fn new(initial_capital: Dec) -> (r: BacktestConfig)
        ensures
            r.initial_capital == initial_capital,
            r.commission_rate@ == DEC_SCALE as int / 1000,
            r.strategy_params@.len() == 0,
    {
        BacktestConfig {
            initial_capital,
            commission_rate: Dec { units: DEC_SCALE / 1000 },
            strategy_params: Vec::new(),
        }
    }

    /// The same config with another commission rate.
    pub fn with_commission_rate(self, rate: Dec) -> (r: BacktestConfig)
        ensures
            r.initial_capital == self.initial_capital,
            r.commission_rate == rate,
            r.strategy_params@ == self.strategy_params@,
    {
        BacktestConfig { commission_rate: rate, ..self }
    }

    /// The same config with the given parameter appended.
    pub fn with_param(self, key: &str, value: &str) -> (r: BacktestConfig)
        ensures
            r.initial_capital == self.initial_capital,
            r.commission_rate == self.commission_rate,
            r.strategy_params@.len() == self.strategy_params@.len() + 1,
            forall|j: int|
                0 <= j < self.strategy_params@.len() ==> #[trigger] r.strategy_params@[j]
                    == self.strategy_params@[j],
            r.strategy_params@.last().0@ == key@,
            r.strategy_params@.last().1@ == value@,
    {
        let mut c = self;
        c.strategy_params.push((key.to_owned(), value.to_owned()));
        c
    }
}

/// Trades with a realized profit strictly above zero.
pub open spec fn winning_count(ts: Seq<TradeView>) -> int {
    ts.filter(|t: TradeView| t.realized_pnl matches Some(p) && p > 0).len() as int
}

/// Trades with a realized profit strictly below zero.
pub open spec fn losing_count(ts: Seq<TradeView>) -> int {
    ts.filter(|t: TradeView| t.realized_pnl matches Some(p) && p < 0).len() as int
}

/// Return percentage of a run: the exact fixed-point ratio of profit over
/// capital, times one hundred.
pub open spec fn return_pct_of(pnl: int, capital: int) -> int {
    dec_mul_val(dec_div_val(pnl, capital), 100 * (DEC_SCALE as int))
}

/// One point of an equity curve: the account's total value at an instant.
#[derive(Clone, Copy, Debug, PartialEq, Eq, Structural)]
pub struct EquityPoint {
    pub timestamp: i64,
    pub value: Dec,
}

impl EquityPoint {
    /// The point with the given instant and value.
    pub fn new(timestamp: i64, value: Dec) -> (r: EquityPoint)
        ensures
            r.timestamp == timestamp,
            r.value == value,
    {
        EquityPoint { timestamp, value }
    }
}

/// The report of one backtest run.
pub struct BacktestResult {
    pub initial_capital: Dec,
    pub final_value: Dec,
    pub total_pnl: Dec,
    pub return_percentage: Dec,
    pub total_trades: usize,
    pub winning_trades: usize,
    pub losing_trades: usize,
    pub max_drawdown: Dec,
    pub sharpe_ratio: Dec,
    pub volatility: Dec,
    pub win_rate: Dec,
    pub profit_factor: Dec,
    pub avg_trade_duration_seconds: Dec,
    pub total_commission: Dec,
    pub positions: Vec<Position>,
    pub trades: Vec<Trade>,
    pub equity_curve: Vec<Dec>,
    pub strategy_name: String,
}

impl BacktestResult {
    /// Did the run end above its starting capital?
    pub fn is_profitable(&self) -> (r: bool)
        ensures
            r == (self.total_pnl@ > 0),
    {
        self.total_pnl.units > 0
    }

    /// Calmar ratio of the run: the annual return (the return percentage
    /// divided back by one hundred, exactly) over the maximum drawdown.
    pub fn calmar_ratio(&self) -> (r: Dec)
        requires
            -100000000000000000000000000000int <= self.return_percentage@
                <= 100000000000000000000000000000int,
            self.max_drawdown@ >= 0,
        ensures
            r@ == crate::metrics::calmar_of(
                dec_div_val(self.return_percentage@, 100 * (DEC_SCALE as int)),
                self.max_drawdown@,
            ),
    {
        let annual = self.return_percentage.div(Dec::from_int(100));
        proof {
            let q = dec_div_val(self.return_percentage@, 100 * (DEC_SCALE as int));
            let s = DEC_SCALE as int;
            assert(annual@ == q);
            // The quotient shrinks the magnitude: the divisor is above the
            // scale, so |q| is at most |pct|.
            lemma_ratio_magnitude(self.return_percentage@, 100 * s);
        }
        BacktestMetrics::calculate_calmar_ratio(annual, self.max_drawdown)
    }
}

/// The strategy state after consuming a tick sequence in order.
pub open spec fn strategy_fold<S: Strategy>(m: S::Model, data: Seq<TickView>) -> S::Model
    decreases data.len(),
{
    if data.len() == 0 {
        m
    } else {
        S::step_model(
            strategy_fold::<S>(m, data.drop_last()),
            data.last().symbol,
            data.last().price,
        )
    }
}

/// Binds a strategy and a fresh portfolio for one run.
pub struct BacktestEngine<S: Strategy> {
    pub portfolio: Portfolio,
    pub strategy: S,
    pub config: BacktestConfig,
}

impl<S: Strategy> BacktestEngine<S> {
    /// The engine is ready for a fresh run: a well-formed empty portfolio.
    pub open spec fn fresh(self) -> bool {
        &&& self.strategy.wf()
        &&& self.portfolio.wf()
        &&& self.portfolio.cash == self.portfolio.initial_capital
        &&& self.portfolio.pos_model() == Seq::<PositionView>::empty()
        &&& self.portfolio.trades_model() == Seq::<TradeView>::empty()
        &&& self.portfolio.equity_curve@ == Seq::<Dec>::empty()
        &&& DEC_SCALE as int <= self.portfolio.initial_capital@ <= MAX_CAPITAL_UNITS as int
    }

    /// Resets the strategy, then configures it from the parameter list,
    /// and opens the account. Fails exactly when the strategy rejects the
    /// parameters or the capital or rate is out of range; a successful
    /// engine holds the strategy state the model gives for a reset
    /// followed by the parameters, and a fresh portfolio funded with
    /// exactly the config's capital at exactly the config's rate.
    pub fn new(strategy: S, config: BacktestConfig) -> (r: Result<BacktestEngine<S>, String>)
        ensures
            (r matches Ok(e) ==> e.fresh()),
            (r matches Ok(e) ==> e.portfolio.initial_capital == config.initial_capital
                && e.portfolio.commission_rate == config.commission_rate),
            ({
                let m1 = S::init_model(S::reset_model(strategy.model()), config.strategy_params@);
                &&& (r is Ok <==> (m1 is Some && DEC_SCALE as int <= config.initial_capital@
                    <= MAX_CAPITAL_UNITS as int && 0 <= config.commission_rate@
                    <= DEC_SCALE as int))
                &&& (r matches Ok(e) ==> m1 == Some(e.strategy.model()))
            }),
    {
        let mut strategy = strategy;
        strategy.reset();
        if let Err(e) = strategy.initialize(&config.strategy_params) {
            return Err(e);
        }
        if !(config.initial_capital.units >= DEC_SCALE && config.initial_capital.units
            <= MAX_CAPITAL_UNITS) {
            return Err("initial capital out of range".to_owned());
        }
        if !(config.commission_rate.units >= 0 && config.commission_rate.units <= DEC_SCALE) {
            return Err("commission rate out of range".to_owned());
        }
        let portfolio = Portfolio::new(config.initial_capital).with_commission_rate(
            config.commission_rate,
        );
        Ok(BacktestEngine { portfolio, strategy, config })
    }

    /// Replays the data in order: each tick updates the price and the
    /// equity curve, the strategy's signal is executed with rejected or
    /// out-of-range orders skipped, and the final report carries the exact
    /// metric models of the resulting trade log and equity curve.
    pub fn run(&mut self, data: &Vec<TickData>) -> (r: BacktestResult)
        requires
            old(self).fresh(),
            data@.len() <= MAX_TICKS,
            forall|i: int|
                0 <= i < data@.len() ==> 0 < (#[trigger] data@[i])@.price <= MAX_PRICE_UNITS as int,
        ensures
            final(self).portfolio.wf(),
            final(self).strategy.wf(),
            final(self).strategy.model() == strategy_fold::<S>(
                old(self).strategy.model(),
                data.deep_view(),
            ),
            r.equity_curve@ == final(self).portfolio.equity_curve@,
            r.equity_curve@.len() == data@.len(),
            r.trades.deep_view() == final(self).portfolio.trades_model(),
            r.positions.deep_view() == final(self).portfolio.pos_model(),
            r.total_trades == final(self).portfolio.trades_model().len(),
            r.winning_trades == winning_count(final(self).portfolio.trades_model()),
            r.losing_trades == losing_count(final(self).portfolio.trades_model()),
            r.initial_capital == old(self).portfolio.initial_capital,
            r.final_value@ == final(self).portfolio.total_value_model(),
            r.total_pnl@ == r.final_value@ - r.initial_capital@,
            r.return_percentage@ == return_pct_of(r.total_pnl@, r.initial_capital@),
            r.max_drawdown@ == max_dd_of(dec_units(r.equity_curve@)),
            r.win_rate@ == win_rate_of(final(self).portfolio.trades_model()),
            r.total_commission@ == comm_sum(final(self).portfolio.trades_model()),
            (returns_bounded(returns_of(dec_units(r.equity_curve@))) ==> r.volatility@
                == floor_sqrt(sample_var(returns_of(dec_units(r.equity_curve@))))),
            (returns_bounded(returns_of(dec_units(r.equity_curve@))) ==> r.sharpe_ratio@
                == sharpe_of(returns_of(dec_units(r.equity_curve@)), 0)),
            (comm_bounded_model(final(self).portfolio.trades_model()) ==> r.profit_factor@
                == profit_factor_of(final(self).portfolio.trades_model())),
            ((timestamps_bounded(final(self).portfolio.trades_model())
                && final(self).portfolio.trades@.len() <= MAX_RETURN_COUNT)
                ==> r.avg_trade_duration_seconds@ == avg_trade_duration_of(
                final(self).portfolio.trades_model(),
            )),
    {
        let ghost cash0 = self.portfolio.cash@;
        let ghost m0 = self.strategy.model();
        let ghost dv = data.deep_view();
        proof {
            assert(dv.take(0) =~= Seq::<TickView>::empty());
        }
        let n = data.len();
        let mut i: usize = 0;
        while i < n
            invariant
                i <= n,
                n == data@.len() <= MAX_TICKS,
                dv == data.deep_view(),
                m0 == old(self).strategy.model(),
                self.strategy.wf(),
                self.strategy.model() == strategy_fold::<S>(m0, dv.take(i as int)),
                forall|k: int|
                    0 <= k < data@.len() ==> 0 < (#[trigger] data@[k])@.price
                        <= MAX_PRICE_UNITS as int,
                self.portfolio.wf(),
                self.portfolio.initial_capital == old(self).portfolio.initial_capital,
                self.portfolio.cash@ <= cash0 + i * 1000000000000000000000int,
                cash0 <= MAX_CAPITAL_UNITS as int,
                self.portfolio.positions@.len() <= i,
                self.portfolio.trades@.len() <= i,
                self.portfolio.equity_curve@.len() == i,
                forall|k: int|
                    0 <= k < self.portfolio.equity_curve@.len()
                        ==> 0 <= (#[trigger] self.portfolio.equity_curve@[k])@
                        <= 10000000000000000000000000000int,
            decreases n - i,
        {
            let tick = &data[i];
            proof {
                assert(0 < data@[i as int]@.price <= MAX_PRICE_UNITS as int);
                vstd::arithmetic::mul::lemma_mul_inequality(
                    i as int,
                    500000int,
                    1000000000000000000000int,
                );
            }
            let ghost prev_eq = self.portfolio.equity_curve@;
            self.portfolio.update_price(&tick.symbol, tick.price);
            proof {
                lemma_holdings_bound(
                    self.portfolio.pos_model(),
                    self.portfolio.lp_model(),
                );
                vstd::arithmetic::mul::lemma_mul_inequality(
                    self.portfolio.positions@.len() as int,
                    1000000int,
                    1000000000000000000000int,
                );
                assert forall|k: int|
                    0 <= k < self.portfolio.equity_curve@.len() implies 0 <= (
                #[trigger] self.portfolio.equity_curve@[k])@
                    <= 10000000000000000000000000000int by {
                    if k < i {
                        assert(self.portfolio.equity_curve@.take(i as int)[k]
                            == self.portfolio.equity_curve@[k]);
                        assert(prev_eq[k] == self.portfolio.equity_curve@[k]);
                    } else {
                        assert(self.portfolio.equity_curve@[k]
                            == self.portfolio.equity_curve@.last());
                    }
                }
            }
            let ghost sm0 = self.strategy.model();
            let signal = self.strategy.on_tick(tick);
            proof {
                assert(dv.take(i + 1).drop_last() =~= dv.take(i as int));
                assert(dv.take(i + 1).last() == dv[i as int]);
                assert(dv[i as int] == data@[i as int]@);
                assert(self.strategy.model() == S::step_model(
                    sm0,
                    dv[i as int].symbol,
                    dv[i as int].price,
                ));
            }
            match signal {
                Signal::Buy { symbol, quantity } => {
                    let held = self.portfolio.position_quantity(&symbol);
                    if quantity.units > 0 && quantity.units <= MAX_ORDER_UNITS && held.units
                        <= MAX_POSITION_UNITS - quantity.units {
                        let _ = self.portfolio.execute_buy(symbol, quantity, tick.price,
                            tick.timestamp);
                    }
                },
                Signal::Sell { symbol, quantity } => {
                    if self.portfolio.cash.units <= MAX_CASH_UNITS {
                        let _ = self.portfolio.execute_sell(
                            symbol,
                            quantity,
                            tick.price,
                            tick.timestamp,
                        );
                    }
                },
                Signal::Hold => {},
            }
            i = i + 1;
        }
        let final_value = self.portfolio.total_value();
        let total_pnl = self.portfolio.total_pnl();
        proof {
            assert(dv.take(n as int) =~= dv);
            vstd::arithmetic::mul::lemma_mul_inequality(
                n as int,
                500000int,
                1000000000000000000000int,
            );
            lemma_div_result_bounded(total_pnl@, self.portfolio.initial_capital@);
        }
        let ratio = total_pnl.div(self.portfolio.initial_capital);
        proof {
            assert(self.portfolio.cash@ <= 600000000000000000000000000int);
            assert(-100000000000000000000000000int <= total_pnl@
                <= 1600000000000000000000000000int);
            assert(-1600000000000000000000000000int <= ratio@
                <= 1600000000000000000000000000int);
            let sc = 100 * (DEC_SCALE as int);
            assert(sc == 100000000000int);
            assert(-160000000000000000000000000000000000000int <= ratio@ * sc
                <= 160000000000000000000000000000000000000int) by (nonlinear_arith)
                requires
                    -1600000000000000000000000000int <= ratio@ <= 1600000000000000000000000000int,
                    sc == 100000000000int,
            ;
        }
        let return_percentage = ratio.mul(Dec::from_int(100));
        let equity_curve = self.portfolio.get_equity_curve();
        proof {
            assert forall|k: int| 0 <= k < dec_units(equity_curve@).len() implies -(
            crate::metrics::MAX_EQUITY_UNITS as int) <= #[trigger] dec_units(equity_curve@)[k]
                <= crate::metrics::MAX_EQUITY_UNITS as int by {
                assert(dec_units(equity_curve@)[k] == equity_curve@[k]@);
            }
        }
        let max_drawdown = BacktestMetrics::calculate_max_drawdown(&equity_curve);
        let rets = BacktestMetrics::calculate_returns(&equity_curve);
        let rets_ok = returns_in_range(&rets);
        let (volatility, sharpe_ratio) = if rets_ok && rets.len() <= MAX_RETURN_COUNT {
            let v = BacktestMetrics::calculate_volatility(&rets);
            let s = BacktestMetrics::calculate_sharpe_ratio(&rets, Dec::zero());
            (v, s)
        } else {
            (Dec::zero(), Dec::zero())
        };
        proof {
            assert(dec_units(rets@) == returns_of(dec_units(equity_curve@)));
            assert(rets@.len() == dec_units(rets@).len());
            assert(dec_units(equity_curve@).len() == equity_curve@.len());
            if returns_bounded(returns_of(dec_units(equity_curve@))) {
                assert(rets_ok);
                assert(rets@.len() <= MAX_RETURN_COUNT);
            }
        }
        let win_rate = BacktestMetrics::calculate_win_rate(&self.portfolio.trades);
        let comm_ok = pnls_in_range(&self.portfolio.trades);
        let profit_factor = if comm_ok {
            BacktestMetrics::calculate_profit_factor(&self.portfolio.trades)
        } else {
            Dec::zero()
        };
        let ts_ok = trade_times_in_range(&self.portfolio.trades);
        let avg_trade_duration_seconds = if ts_ok && self.portfolio.trades.len()
            <= MAX_RETURN_COUNT {
            BacktestMetrics::calculate_average_trade_duration(&self.portfolio.trades)
        } else {
            Dec::zero()
        };
        let total_commission = self.portfolio.total_commission();
        let (winning_trades, losing_trades) = count_outcomes(&self.portfolio.trades);
        let trades = copy_trades(&self.portfolio.trades);
        let positions = copy_positions(&self.portfolio.positions);
        BacktestResult {
            initial_capital: self.portfolio.initial_capital,
            final_value,
            total_pnl,
            return_percentage,
            total_trades: trades.len(),
            winning_trades,
            losing_trades,
            max_drawdown,
            sharpe_ratio,
            volatility,
            win_rate,
            profit_factor,
            avg_trade_duration_seconds,
            total_commission,
            positions,
            trades,
            equity_curve,
            strategy_name: self.strategy.name().to_owned(),
        }
    }
}

impl<S: Strategy> BacktestEngine<S> {
    /// Replays bar data: each bar trades at its close price, with
    /// semantics otherwise identical to the tick run; the report carries
    /// the same exact metric models of its own trade log and equity curve.
    pub fn run_with_ohlc(&mut self, data: &Vec<crate::ohlc::OHLCData>) -> (r: BacktestResult)
        requires
            old(self).fresh(),
            data@.len() <= MAX_TICKS,
            forall|i: int|
                0 <= i < data@.len() ==> 0 < (#[trigger] data@[i]).close@ <= MAX_PRICE_UNITS as int,
        ensures
            final(self).portfolio.wf(),
            r.equity_curve@ == final(self).portfolio.equity_curve@,
            r.equity_curve@.len() == data@.len(),
            r.trades.deep_view() == final(self).portfolio.trades_model(),
            r.positions.deep_view() == final(self).portfolio.pos_model(),
            r.total_trades == final(self).portfolio.trades_model().len(),
            r.winning_trades == winning_count(final(self).portfolio.trades_model()),
            r.losing_trades == losing_count(final(self).portfolio.trades_model()),
            r.initial_capital == old(self).portfolio.initial_capital,
            r.final_value@ == final(self).portfolio.total_value_model(),
            r.total_pnl@ == r.final_value@ - r.initial_capital@,
            r.return_percentage@ == return_pct_of(r.total_pnl@, r.initial_capital@),
            r.max_drawdown@ == max_dd_of(dec_units(r.equity_curve@)),
            r.win_rate@ == win_rate_of(final(self).portfolio.trades_model()),
            r.total_commission@ == comm_sum(final(self).portfolio.trades_model()),
            (returns_bounded(returns_of(dec_units(r.equity_curve@))) ==> r.volatility@
                == floor_sqrt(sample_var(returns_of(dec_units(r.equity_curve@))))),
            (returns_bounded(returns_of(dec_units(r.equity_curve@))) ==> r.sharpe_ratio@
                == sharpe_of(returns_of(dec_units(r.equity_curve@)), 0)),
            (comm_bounded_model(final(self).portfolio.trades_model()) ==> r.profit_factor@
                == profit_factor_of(final(self).portfolio.trades_model())),
            ((timestamps_bounded(final(self).portfolio.trades_model())
                && final(self).portfolio.trades@.len() <= MAX_RETURN_COUNT)
                ==> r.avg_trade_duration_seconds@ == avg_trade_duration_of(
                final(self).portfolio.trades_model(),
            )),
    {
        let mut ticks: Vec<TickData> = Vec::new();
        let n = data.len();
        let mut i: usize = 0;
        while i < n
            invariant
                i <= n,
                n == data@.len(),
                ticks@.len() == i,
                forall|k: int|
                    0 <= k < data@.len() ==> 0 < (#[trigger] data@[k]).close@
                        <= MAX_PRICE_UNITS as int,
                forall|k: int|
                    0 <= k < i ==> 0 < (#[trigger] ticks@[k])@.price <= MAX_PRICE_UNITS as int,
            decreases n - i,
        {
            let bar = &data[i];
            let t = TickData {
                timestamp: bar.timestamp,
                symbol: clone_string(&bar.symbol),
                price: bar.close,
                quantity: bar.volume,
                side: crate::tick::TradeSide::Buy,
                trade_id: String::new(),
                is_buyer_maker: false,
            };
            let ghost prevv = ticks@;
            ticks.push(t);
            proof {
                assert forall|k: int|
                    0 <= k < i + 1 implies 0 < (#[trigger] ticks@[k])@.price
                    <= MAX_PRICE_UNITS as int by {
                    if k < i {
                        assert(ticks@[k] == prevv[k]);
                    }
                }
            }
            i = i + 1;
        }
        self.run(&ticks)
    }
}

/// Dividing by exactly one hundred at the fixed scale halves nothing
/// away: the quotient is the integer hundredth, truncated toward zero.
proof fn lemma_ratio_magnitude(a: int, b: int)
    requires
        b == 100 * (DEC_SCALE as int),
    ensures
        dec_div_val(a, b) == (if a >= 0 {
            a / 100
        } else {
            -((-a) / 100)
        }),
{
    let s = DEC_SCALE as int;
    vstd::arithmetic::mul::lemma_mul_is_commutative(100int, s);
    if a >= 0 {
        vstd::arithmetic::mul::lemma_mul_inequality(0, a, s);
        vstd::arithmetic::div_mod::lemma_div_denominator(a * s, s, 100);
        vstd::arithmetic::mul::lemma_mul_is_commutative(a, s);
        vstd::arithmetic::div_mod::lemma_div_multiples_vanish(a, s);
    } else {
        vstd::arithmetic::mul::lemma_mul_inequality(0, -a, s);
        vstd::arithmetic::div_mod::lemma_div_denominator((-a) * s, s, 100);
        vstd::arithmetic::mul::lemma_mul_is_commutative(-a, s);
        vstd::arithmetic::div_mod::lemma_div_multiples_vanish(-a, s);
    }
}

/// A fixed-point quotient by a divisor of at least one whole unit never
/// exceeds the numerator in magnitude.
proof fn lemma_div_result_bounded(a: int, b: int)
    requires
        b >= DEC_SCALE as int,
    ensures
        -abs_i(a) <= dec_div_val(a, b) <= abs_i(a),
{
    let s = DEC_SCALE as int;
    let m = abs_i(a);
    vstd::arithmetic::mul::lemma_mul_inequality(0, m, s);
    vstd::arithmetic::div_mod::lemma_div_is_ordered_by_denominator(m * s, s, b);
    vstd::arithmetic::mul::lemma_mul_is_commutative(m, s);
    vstd::arithmetic::div_mod::lemma_div_multiples_vanish(m, s);
    vstd::arithmetic::div_mod::lemma_div_pos_is_pos(m * s, b);
}

/// Every return is inside the deviation statistics' range.
fn returns_in_range(rets: &Vec<Dec>) -> (r: bool)
    ensures
        r == returns_bounded(dec_units(rets@)),
{
    let n = rets.len();
    let mut i: usize = 0;
    while i < n
        invariant
            i <= n,
            n == rets@.len(),
            forall|j: int|
                0 <= j < i ==> -(MAX_RETURN_UNITS as int) <= #[trigger] dec_units(rets@)[j]
                    <= MAX_RETURN_UNITS as int,
        decreases n - i,
    {
        let v = rets[i].units;
        if v < -MAX_RETURN_UNITS || v > MAX_RETURN_UNITS {
            proof {
                assert(dec_units(rets@)[i as int] == v as int);
            }
            return false;
        }
        proof {
            assert(dec_units(rets@)[i as int] == v as int);
        }
        i = i + 1;
    }
    true
}

/// Every trade instant is inside the duration matcher's range.
fn trade_times_in_range(trades: &Vec<Trade>) -> (r: bool)
    ensures
        r == timestamps_bounded(trades.deep_view()),
{
    let n = trades.len();
    let mut i: usize = 0;
    while i < n
        invariant
            i <= n,
            n == trades@.len(),
            forall|j: int|
                0 <= j < i ==> -1000000000000000int <= (#[trigger] trades.deep_view()[j]).timestamp
                    <= 1000000000000000int,
        decreases n - i,
    {
        let t = trades[i].timestamp;
        if t < -1_000_000_000_000_000i64 || t > 1_000_000_000_000_000i64 {
            proof {
                assert(trades.deep_view()[i as int].timestamp == t as int);
            }
            return false;
        }
        proof {
            assert(trades.deep_view()[i as int].timestamp == t as int);
        }
        i = i + 1;
    }
    true
}

/// Every realized profit is inside the profit-factor range.
fn pnls_in_range(trades: &Vec<Trade>) -> (r: bool)
    ensures
        r == comm_bounded_model(trades.deep_view()),
{
    let n = trades.len();
    let mut i: usize = 0;
    while i < n
        invariant
            i <= n,
            n == trades@.len(),
            forall|j: int|
                0 <= j < i ==> (match (#[trigger] trades.deep_view()[j]).realized_pnl {
                    Some(p) => -1000000000000000000000000000000int <= p
                        <= 1000000000000000000000000000000int,
                    None => true,
                }),
        decreases n - i,
    {
        match &trades[i].realized_pnl {
            Some(p) => {
                if p.units < -1_000_000_000_000_000_000_000_000_000_000i128 || p.units
                    > 1_000_000_000_000_000_000_000_000_000_000i128 {
                    proof {
                        assert(trades.deep_view()[i as int].realized_pnl == Some(p@));
                    }
                    return false;
                }
                proof {
                    assert(trades.deep_view()[i as int].realized_pnl == Some(p@));
                }
            },
            None => {
                proof {
                    assert(trades.deep_view()[i as int].realized_pnl is None);
                }
            },
        }
        i = i + 1;
    }
    if n > MAX_RETURN_COUNT {
        return false;
    }
    true
}

/// Counts the trades that realized a gain and those that realized a loss.
fn count_outcomes(trades: &Vec<Trade>) -> (r: (usize, usize))
    ensures
        r.0 == winning_count(trades.deep_view()),
        r.1 == losing_count(trades.deep_view()),
{
    let ghost ts = trades.deep_view();
    let ghost winp = |t: TradeView| t.realized_pnl matches Some(p) && p > 0;
    let ghost losep = |t: TradeView| t.realized_pnl matches Some(p) && p < 0;
    let mut wins: usize = 0;
    let mut losses: usize = 0;
    let n = trades.len();
    let mut i: usize = 0;
    proof {
        assert(ts.take(0) =~= Seq::<TradeView>::empty());
        reveal(Seq::filter);
    }
    while i < n
        invariant
            i <= n,
            n == trades@.len(),
            ts == trades.deep_view(),
            wins == ts.take(i as int).filter(winp).len(),
            losses == ts.take(i as int).filter(losep).len(),
            wins <= i,
            losses <= i,
            winp == (|t: TradeView| t.realized_pnl matches Some(p) && p > 0),
            losep == (|t: TradeView| t.realized_pnl matches Some(p) && p < 0),
        decreases n - i,
    {
        let ghost pref = ts.take(i as int);
        proof {
            assert(ts.take(i + 1) =~= pref.push(ts[i as int]));
            reveal_with_fuel(Seq::filter, 2);
            assert(pref.push(ts[i as int]).drop_last() =~= pref);
            pref.lemma_filter_len(winp);
            pref.lemma_filter_len(losep);
        }
        match &trades[i].realized_pnl {
            Some(p) => {
                if p.units > 0 {
                    wins = wins + 1;
                } else if p.units < 0 {
                    losses = losses + 1;
                }
            },
            None => {},
        }
        i = i + 1;
    }
    proof {
        assert(ts.take(n as int) =~= ts);
    }
    (wins, losses)
}

/// Copies the trade log field by field.
fn copy_trades(trades: &Vec<Trade>) -> (r: Vec<Trade>)
    ensures
        r.deep_view() == trades.deep_view(),
{
    let mut out: Vec<Trade> = Vec::new();
    let n = trades.len();
    let mut i: usize = 0;
    while i < n
        invariant
            i <= n,
            n == trades@.len(),
            out.deep_view() =~= trades.deep_view().take(i as int),
        decreases n - i,
    {
        let t = &trades[i];
        let ghost prevv = out@;
        let ghost prevd = out.deep_view();
        out.push(
            Trade {
                symbol: clone_string(&t.symbol),
                side: t.side,
                quantity: t.quantity,
                price: t.price,
                timestamp: t.timestamp,
                commission: t.commission,
                realized_pnl: (match &t.realized_pnl {
                    Some(p) => Some(*p),
                    None => None,
                }),
            },
        );
        proof {
            assert(prevd.len() == i);
            assert(prevv.len() == i);
            assert(out@.len() == i + 1);
            assert(out.deep_view().len() == i + 1);
            assert forall|j: int| 0 <= j < i + 1 implies #[trigger] out.deep_view()[j]
                == trades.deep_view().take(i + 1)[j] by {
                if j < i {
                    assert(out@[j] == prevv[j]);
                    assert(prevd[j] == trades.deep_view().take(i as int)[j]);
                } else {
                    assert(trades.deep_view().take(i + 1)[j] == trades@[i as int].deep_view());
                    assert(out.deep_view()[j] == out@[i as int].deep_view());
                    assert(out@[i as int].deep_view() == trades@[i as int].deep_view());
                }
            }
            assert(out.deep_view().len() == i + 1);
            assert(trades.deep_view().take(i + 1).len() == i + 1);
            assert(out.deep_view() =~~= trades.deep_view().take(i + 1));
        }
        i = i + 1;
    }
    proof {
        assert(trades.deep_view().take(n as int) =~= trades.deep_view());
    }
    out
}

/// Copies the open positions field by field.
fn copy_positions(positions: &Vec<Position>) -> (r: Vec<Position>)
    ensures
        r.deep_view() == positions.deep_view(),
{
    let mut out: Vec<Position> = Vec::new();
    let n = positions.len();
    let mut i: usize = 0;
    while i < n
        invariant
            i <= n,
            n == positions@.len(),
            out.deep_view() =~= positions.deep_view().take(i as int),
        decreases n - i,
    {
        let p = &positions[i];
        let ghost prevv = out@;
        let ghost prevd = out.deep_view();
        out.push(
            Position {
                symbol: clone_string(&p.symbol),
                quantity: p.quantity,
                average_entry_price: p.average_entry_price,
            },
        );
        proof {
            assert(prevd.len() == i);
            assert(prevv.len() == i);
            assert(out@.len() == i + 1);
            assert(out.deep_view().len() == i + 1);
            assert forall|j: int| 0 <= j < i + 1 implies #[trigger] out.deep_view()[j]
                == positions.deep_view().take(i + 1)[j] by {
                if j < i {
                    assert(out@[j] == prevv[j]);
                    assert(prevd[j] == positions.deep_view().take(i as int)[j]);
                } else {
                    assert(positions.deep_view().take(i + 1)[j] == positions@[i as int].deep_view());
                    assert(out.deep_view()[j] == out@[i as int].deep_view());
                    assert(out@[i as int].deep_view() == positions@[i as int].deep_view());
                }
            }
            assert(out.deep_view().len() == i + 1);
            assert(positions.deep_view().take(i + 1).len() == i + 1);
            assert(out.deep_view() =~~= positions.deep_view().take(i + 1));
        }
        i = i + 1;
    }
    proof {
        assert(positions.deep_view().take(n as int) =~= positions.deep_view());
    }
    out
}

} // verus!
