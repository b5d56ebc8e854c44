//! Trading strategies: the strategy contract, the registry, and the
//! canonical simple-moving-average crossover strategy.
//!
//! The crossover strategy is specified by a step model: its state after a
//! tick and the signal it emits are exact functions of the state before,
//! so a signal never depends on ticks that have not yet arrived.

use vstd::prelude::*;
use vstd::string::StringSliceAdditionalSpecFns;
use vstd::utf8::encode_utf8;
use crate::decimal::{Dec, parse_small_uint, dec_str_val, all_digits, digits_val};
use crate::metrics::{sum_of, dec_units};
use crate::portfolio::{MAX_PRICE_UNITS, MAX_POSITION_UNITS};
use crate::tick::{TickData, clone_string};

verus! {

/// What a strategy asks the engine to do with one tick.
pub enum Signal {
    Buy { symbol: String, quantity: Dec },
    Sell { symbol: String, quantity: Dec },
    Hold,
}

/// Mathematical image of a signal.
pub enum SignalView {
    Buy { symbol: Seq<char>, quantity: int },
    Sell { symbol: Seq<char>, quantity: int },
    Hold,
}

impl View for Signal {
    type V = SignalView;

    open spec fn view(&self) -> SignalView {
        match self {
            Signal::Buy { symbol, quantity } => SignalView::Buy {
                symbol: symbol@,
                quantity: quantity@,
            },
            Signal::Sell { symbol, quantity } => SignalView::Sell {
                symbol: symbol@,
                quantity: quantity@,
            },
            Signal::Hold => SignalView::Hold,
        }
    }
}

/// The strategy contract: identify itself, accept parameters, consume
/// ticks one at a time, and reset for a new run. Every implementation
/// carries its mathematical model — the abstract state, the state and
/// signal of one tick, what a reset clears, and which parameter lists are
/// accepted — so a backtest's behaviour is pinned through the trait.
pub trait Strategy: Sized {
    /// The strategy's state as a mathematical value.
    type Model;

    /// The strategy's invariant.
    spec fn wf(&self) -> bool;

    /// The strategy's abstract state.
    spec fn model(&self) -> Self::Model;

    /// The state after consuming one tick.
    spec fn step_model(m: Self::Model, symbol: Seq<char>, price: int) -> Self::Model;

    /// The signal emitted on one tick.
    spec fn signal_model(m: Self::Model, symbol: Seq<char>, price: int) -> SignalView;

    /// The state a reset leaves: run state cleared, parameters kept.
    spec fn reset_model(m: Self::Model) -> Self::Model;

    /// The state `initialize` installs for a parameter list, or `None`
    /// when the list must be rejected.
    spec fn init_model(m: Self::Model, params: Seq<(String, String)>) -> Option<Self::Model>;

    fn name(&self) -> &'static str;

    fn description(&self) -> &'static str;

    /// Parses and installs parameters: succeeds with exactly the modelled
    /// state, or rejects the list and changes nothing.
    fn initialize(&mut self, params: &Vec<(String, String)>) -> (r: Result<(), String>)
        ensures
            (match Self::init_model(old(self).model(), params@) {
                Some(m) => r is Ok && final(self).wf() && final(self).model() == m,
                None => r is Err && *final(self) == *old(self),
            }),
    ;

    /// Consumes one tick: the new state and the emitted signal follow the
    /// model exactly.
    fn on_tick(&mut self, tick: &TickData) -> (r: Signal)
        requires
            old(self).wf(),
            0 < tick@.price <= MAX_PRICE_UNITS as int,
        ensures
            final(self).wf(),
            final(self).model() == Self::step_model(old(self).model(), tick@.symbol, tick@.price),
            r@ == Self::signal_model(old(self).model(), tick@.symbol, tick@.price),
    ;

    /// Clears the run state so the same instance can run a new backtest.
    fn reset(&mut self)
        ensures
            final(self).model() == Self::reset_model(old(self).model()),
            old(self).wf() ==> final(self).wf(),
    ;
}

/// One entry of the strategy catalog.
pub struct StrategyInfo {
    pub id: String,
    pub name: String,
    pub description: String,
}

/// The registered strategy families.
#[derive(Clone, Debug)]
pub enum StrategyType {
    SMACross,
    RSI,
    MACD,
    BollingerBands,
    Custom(String),
}

/// Longest moving-average period the strategy accepts.
pub const MAX_PERIOD: u64 = 10_000;

/// Mathematical image of the crossover strategy's state.
pub struct SmaView {
    pub short_period: int,
    pub long_period: int,
    pub quantity: int,
    pub shorts: Seq<int>,
    pub longs: Seq<int>,
    pub short_sum: int,
    pub long_sum: int,
    pub holding: Option<(Seq<char>, int)>,
}

/// Simple-moving-average crossover: keeps a short and a long rolling window
/// of prices, buys a fixed quantity when the short average rises above the
/// long one while flat, and sells the whole position when it falls back.
pub struct SmaStrategy {
    pub short_period: u64,
    pub long_period: u64,
    pub quantity: Dec,
    pub shorts: Vec<Dec>,
    pub longs: Vec<Dec>,
    pub short_sum: Dec,
    pub long_sum: Dec,
    pub holding: Option<(String, Dec)>,
}

impl View for SmaStrategy {
    type V = SmaView;

    open spec fn view(&self) -> SmaView {
        SmaView {
            short_period: self.short_period as int,
            long_period: self.long_period as int,
            quantity: self.quantity@,
            shorts: dec_units(self.shorts@),
            longs: dec_units(self.longs@),
            short_sum: self.short_sum@,
            long_sum: self.long_sum@,
            holding: (match self.holding {
                Some((ref s, q)) => Some((s@, q@)),
                None => None,
            }),
        }
    }
}

/// A rolling window after a push: the oldest price leaves once the window
/// holds `period` prices.
pub open spec fn window_after(w: Seq<int>, p: int, period: int) -> Seq<int> {
    if w.len() < period {
        w.push(p)
    } else {
        w.skip(1).push(p)
    }
}

/// The strategy state after seeing one price.
pub open spec fn sma_state_step(s: SmaView, symbol: Seq<char>, price: int) -> SmaView {
    let shorts = window_after(s.shorts, price, s.short_period);
    let longs = window_after(s.longs, price, s.long_period);
    let state = SmaView {
        shorts,
        longs,
        short_sum: sum_of(shorts),
        long_sum: sum_of(longs),
        ..s
    };
    match sma_signal_step(s, symbol, price) {
        SignalView::Buy { symbol: sym, quantity } => SmaView {
            holding: Some((sym, quantity)),
            ..state
        },
        SignalView::Sell { .. } => SmaView { holding: None, ..state },
        SignalView::Hold => state,
    }
}

/// The signal emitted on one price: once both windows are full, buy while
/// flat when the short average is above the long one, sell the whole
/// position while holding when it is not.
pub open spec fn sma_signal_step(s: SmaView, symbol: Seq<char>, price: int) -> SignalView {
    let shorts = window_after(s.shorts, price, s.short_period);
    let longs = window_after(s.longs, price, s.long_period);
    if shorts.len() == s.short_period && longs.len() == s.long_period {
        let short_gt_long = sum_of(shorts) * s.long_period > sum_of(longs) * s.short_period;
        if short_gt_long && s.holding is None {
            SignalView::Buy { symbol: symbol, quantity: s.quantity }
        } else if !short_gt_long && s.holding is Some {
            SignalView::Sell { symbol: s.holding.unwrap().0, quantity: s.holding.unwrap().1 }
        } else {
            SignalView::Hold
        }
    } else {
        SignalView::Hold
    }
}

/// The strategy state after a whole sequence of (symbol, price) ticks.
pub open spec fn sma_run(s0: SmaView, ticks: Seq<(Seq<char>, int)>) -> SmaView
    decreases ticks.len(),
{
    if ticks.len() == 0 {
        s0
    } else {
        sma_state_step(
            sma_run(s0, ticks.drop_last()),
            ticks.last().0,
            ticks.last().1,
        )
    }
}

/// The signal emitted at step `i` of a run.
pub open spec fn sma_signal_at(s0: SmaView, ticks: Seq<(Seq<char>, int)>, i: int) -> SignalView {
    sma_signal_step(sma_run(s0, ticks.take(i)), ticks[i].0, ticks[i].1)
}

/// No look-ahead: the signal at step `i` is already determined by the first
/// `i + 1` ticks; ticks after `i` cannot change it.
pub proof fn lemma_sma_no_lookahead(
    s0: SmaView,
    ticks: Seq<(Seq<char>, int)>,
    more: Seq<(Seq<char>, int)>,
    i: int,
)
    requires
        0 <= i < ticks.len(),
    ensures
        sma_signal_at(s0, ticks + more, i) == sma_signal_at(s0, ticks.take(i + 1), i),
{
    assert((ticks + more).take(i) =~= ticks.take(i + 1).take(i));
    assert((ticks + more)[i] == ticks.take(i + 1)[i]);
}

/// A period literal: one to nine digits denoting one up to the period
/// cap.
pub open spec fn sma_period_value(vb: Seq<u8>) -> Option<u64> {
    if 1 <= vb.len() <= 9 && all_digits(vb) && 1 <= digits_val(vb) <= MAX_PERIOD as int {
        Some(digits_val(vb) as u64)
    } else {
        None
    }
}

/// One parameter applied to the accumulated (short period, long period,
/// quantity): a recognised key must parse and be in range, an unknown key
/// is ignored.
pub open spec fn sma_apply_param(acc: (u64, u64, int), key: Seq<char>, value: Seq<char>) -> Option<
    (u64, u64, int),
> {
    let kb = encode_utf8(key);
    let vb = encode_utf8(value);
    if kb == encode_utf8("short_period"@) {
        match sma_period_value(vb) {
            Some(v) => Some((v, acc.1, acc.2)),
            None => None,
        }
    } else if kb == encode_utf8("long_period"@) {
        match sma_period_value(vb) {
            Some(v) => Some((acc.0, v, acc.2)),
            None => None,
        }
    } else if kb == encode_utf8("quantity"@) {
        match dec_str_val(vb) {
            Some(p) => if 0 < p && p <= MAX_POSITION_UNITS as int {
                Some((acc.0, acc.1, p))
            } else {
                None
            },
            None => None,
        }
    } else {
        Some(acc)
    }
}

/// The parameter list folded left over the defaults (short 5, long 20,
/// the current quantity): a later value for a key overrides an earlier
/// one, and any bad value rejects the list.
pub open spec fn sma_params_fold(params: Seq<(String, String)>, q0: int) -> Option<(u64, u64, int)>
    decreases params.len(),
{
    if params.len() == 0 {
        Some((5u64, 20u64, q0))
    } else {
        match sma_params_fold(params.drop_last(), q0) {
            Some(acc) => sma_apply_param(acc, params.last().0@, params.last().1@),
            None => None,
        }
    }
}

/// A rejected prefix dooms the whole parameter list.
proof fn lemma_fold_none_extends(params: Seq<(String, String)>, q0: int, k: int)
    requires
        0 <= k <= params.len(),
        sma_params_fold(params.take(k), q0) is None,
    ensures
        sma_params_fold(params, q0) is None,
    decreases params.len() - k,
{
    if k == params.len() {
        assert(params.take(k) =~= params);
    } else {
        assert(params.take(k + 1).drop_last() =~= params.take(k));
        lemma_fold_none_extends(params, q0, k + 1);
    }
}

impl SmaStrategy {
    /// A fresh crossover strategy with the given periods and order size.
    pub fn new(short_period: u64, long_period: u64, quantity: Dec) -> (r: SmaStrategy)
        requires
            1 <= short_period <= MAX_PERIOD,
            1 <= long_period <= MAX_PERIOD,
            0 < quantity@ <= MAX_POSITION_UNITS as int,
        ensures
            r.wf(),
            r@.short_period == short_period as int,
            r@.long_period == long_period as int,
            r@.quantity == quantity@,
            r@.shorts == Seq::<int>::empty(),
            r@.longs == Seq::<int>::empty(),
            r@.holding is None,
    {
        let r = SmaStrategy {
            short_period,
            long_period,
            quantity,
            shorts: Vec::new(),
            longs: Vec::new(),
            short_sum: Dec::zero(),
            long_sum: Dec::zero(),
            holding: None,
        };
        proof {
            assert(r@.shorts =~= Seq::<int>::empty());
            assert(r@.longs =~= Seq::<int>::empty());
        }
        r
    }

    /// Feeds one tick through the windows and produces the step signal.
    /// The new state and the signal follow the step model exactly.
    pub fn step(&mut self, tick: &TickData) -> (r: Signal)
        requires
            old(self).wf(),
            0 < tick@.price <= MAX_PRICE_UNITS as int,
        ensures
            final(self).wf(),
            final(self)@ == sma_state_step(old(self)@, tick@.symbol, tick@.price),
            r@ == sma_signal_step(old(self)@, tick@.symbol, tick@.price),
    {
        let ghost s0 = self@;
        proof {
            lemma_sum_small(s0.shorts, s0.short_period);
            lemma_sum_small(s0.longs, s0.long_period);
        }
        // Short window.
        if self.shorts.len() >= self.short_period as usize {
            let gone = self.shorts.remove(0);
            proof {
                lemma_sum_of_skip1(s0.shorts);
                assert(0 < s0.shorts[0] <= MAX_PRICE_UNITS as int);
                assert(dec_units(self.shorts@) =~= s0.shorts.skip(1));
            }
            self.short_sum = self.short_sum.sub(gone);
        }
        let ghost s_mid = dec_units(self.shorts@);
        proof {
            assert forall|j: int| 0 <= j < s_mid.len() implies 0 < #[trigger] s_mid[j]
                <= MAX_PRICE_UNITS as int by {
                if s_mid.len() < s0.shorts.len() {
                    assert(s_mid[j] == s0.shorts[j + 1]);
                } else {
                    assert(s_mid[j] == s0.shorts[j]);
                }
            }
            lemma_sum_small(s_mid, MAX_PERIOD as int);
        }
        self.shorts.push(tick.price);
        proof {
            assert(dec_units(self.shorts@) =~= s_mid.push(tick@.price));
            assert(s_mid.push(tick@.price).drop_last() =~= s_mid);
        }
        self.short_sum = self.short_sum.add(tick.price);
        proof {
            assert(dec_units(self.shorts@) =~= window_after(
                s0.shorts,
                tick@.price,
                s0.short_period,
            ));
        }
        // Long window.
        if self.longs.len() >= self.long_period as usize {
            let gone = self.longs.remove(0);
            proof {
                lemma_sum_of_skip1(s0.longs);
                assert(0 < s0.longs[0] <= MAX_PRICE_UNITS as int);
                assert(dec_units(self.longs@) =~= s0.longs.skip(1));
            }
            self.long_sum = self.long_sum.sub(gone);
        }
        let ghost l_mid = dec_units(self.longs@);
        proof {
            assert forall|j: int| 0 <= j < l_mid.len() implies 0 < #[trigger] l_mid[j]
                <= MAX_PRICE_UNITS as int by {
                if l_mid.len() < s0.longs.len() {
                    assert(l_mid[j] == s0.longs[j + 1]);
                } else {
                    assert(l_mid[j] == s0.longs[j]);
                }
            }
            lemma_sum_small(l_mid, MAX_PERIOD as int);
        }
        self.longs.push(tick.price);
        proof {
            assert(dec_units(self.longs@) =~= l_mid.push(tick@.price));
            assert(l_mid.push(tick@.price).drop_last() =~= l_mid);
        }
        self.long_sum = self.long_sum.add(tick.price);
        proof {
            assert(dec_units(self.longs@) =~= window_after(
                s0.longs,
                tick@.price,
                s0.long_period,
            ));
        }
        // Signal rule.
        let full = self.shorts.len() == self.short_period as usize && self.longs.len()
            == self.long_period as usize;
        if !full {
            return Signal::Hold;
        }
        proof {
            assert(0 <= self.short_sum@ <= 10000000000000000000int);
            assert(0 <= self.long_sum@ <= 10000000000000000000int);
            vstd::arithmetic::mul::lemma_mul_upper_bound(
                self.short_sum@,
                10000000000000000000int,
                self@.long_period,
                10000int,
            );
            vstd::arithmetic::mul::lemma_mul_upper_bound(
                self.long_sum@,
                10000000000000000000int,
                self@.short_period,
                10000int,
            );
        }
        let lhs: i128 = self.short_sum.units * (self.long_period as i128);
        let rhs: i128 = self.long_sum.units * (self.short_period as i128);
        let short_gt_long = lhs > rhs;
        if short_gt_long && self.holding.is_none() {
            self.holding = Some((clone_string(&tick.symbol), self.quantity));
            return Signal::Buy { symbol: clone_string(&tick.symbol), quantity: self.quantity };
        }
        if !short_gt_long && self.holding.is_some() {
            let (sym, qty) = match &self.holding {
                Some((s, q)) => (clone_string(s), *q),
                None => (String::new(), Dec::zero()),
            };
            self.holding = None;
            return Signal::Sell { symbol: sym, quantity: qty };
        }
        Signal::Hold
    }
}

/// The sum over a tail is the sum minus the head.
proof fn lemma_sum_of_skip1(s: Seq<int>)
    requires
        s.len() >= 1,
    ensures
        sum_of(s.skip(1)) == sum_of(s) - s[0],
    decreases s.len(),
{
    if s.len() == 1 {
        assert(s.skip(1) =~= Seq::<int>::empty());
        assert(s.drop_last() =~= Seq::<int>::empty());
    } else {
        assert(s.skip(1).drop_last() =~= s.drop_last().skip(1));
        assert(s.skip(1).last() == s.last());
        lemma_sum_of_skip1(s.drop_last());
    }
}

/// A short window of bounded prices has a bounded sum.
proof fn lemma_sum_small(s: Seq<int>, period: int)
    requires
        s.len() <= period <= MAX_PERIOD as int,
        forall|i: int| 0 <= i < s.len() ==> 0 < #[trigger] s[i] <= MAX_PRICE_UNITS as int,
    ensures
        0 <= sum_of(s) <= s.len() * 1000000000000000int,
    decreases s.len(),
{
    if s.len() > 0 {
        assert(forall|i: int| 0 <= i < s.len() - 1 ==> s.drop_last()[i] == s[i]);
        lemma_sum_small(s.drop_last(), period);
    }
}

impl Strategy for SmaStrategy {
    type Model = SmaView;

    /// The state is internally consistent: sums match windows, windows are
    /// bounded by their periods, and every recorded price is in range.
    open spec fn wf(&self) -> bool {
        &&& 1 <= self@.short_period <= MAX_PERIOD as int
        &&& 1 <= self@.long_period <= MAX_PERIOD as int
        &&& 0 < self@.quantity <= MAX_POSITION_UNITS as int
        &&& self@.shorts.len() <= self@.short_period
        &&& self@.longs.len() <= self@.long_period
        &&& self@.short_sum == sum_of(self@.shorts)
        &&& self@.long_sum == sum_of(self@.longs)
        &&& (forall|i: int|
            0 <= i < self@.shorts.len() ==> 0 < #[trigger] self@.shorts[i]
                <= MAX_PRICE_UNITS as int)
        &&& (forall|i: int|
            0 <= i < self@.longs.len() ==> 0 < #[trigger] self@.longs[i] <= MAX_PRICE_UNITS as int)
        &&& (match self@.holding {
            Some((_, q)) => 0 < q <= MAX_POSITION_UNITS as int,
            None => true,
        })
    }

    open spec fn model(&self) -> SmaView {
        self.view()
    }

    open spec fn step_model(m: SmaView, symbol: Seq<char>, price: int) -> SmaView {
        sma_state_step(m, symbol, price)
    }

    open spec fn signal_model(m: SmaView, symbol: Seq<char>, price: int) -> SignalView {
        sma_signal_step(m, symbol, price)
    }

    open spec fn reset_model(m: SmaView) -> SmaView {
        SmaView {
            shorts: Seq::empty(),
            longs: Seq::empty(),
            short_sum: 0,
            long_sum: 0,
            holding: None,
            ..m
        }
    }

    open spec fn init_model(m: SmaView, params: Seq<(String, String)>) -> Option<SmaView> {
        match sma_params_fold(params, m.quantity) {
            Some(acc) => if 0 < acc.2 && acc.2 <= MAX_POSITION_UNITS as int {
                Some(
                    SmaView {
                        short_period: acc.0 as int,
                        long_period: acc.1 as int,
                        quantity: acc.2,
                        shorts: Seq::empty(),
                        longs: Seq::empty(),
                        short_sum: 0,
                        long_sum: 0,
                        holding: None,
                    },
                )
            } else {
                None
            },
            None => None,
        }
    }

    fn name(&self) -> &'static str {
        "SMA Crossover"
    }

    fn description(&self) -> &'static str {
        "Buys when the short moving average crosses above the long one, sells when it crosses back"
    }

    /// Installs `short_period`, `long_period` and `quantity` from the
    /// parameter list and clears the run state; unknown keys are ignored,
    /// and any value that does not parse or is out of range rejects the
    /// list without changing the strategy.
    fn initialize(&mut self, params: &Vec<(String, String)>) -> (r: Result<(), String>) {
        let mut short: u64 = 5;
        let mut long: u64 = 20;
        let mut qty: Dec = self.quantity;
        let ghost q0 = self.quantity@;
        let n = params.len();
        let mut i: usize = 0;
        proof {
            assert(params@.take(0) =~= Seq::<(String, String)>::empty());
        }
        while i < n
            invariant
                i <= n,
                n == params@.len(),
                *self == *old(self),
                q0 == old(self).quantity@,
                1 <= short <= MAX_PERIOD,
                1 <= long <= MAX_PERIOD,
                sma_params_fold(params@.take(i as int), q0) == Some((short, long, qty@)),
            decreases n - i,
        {
            proof {
                assert(params@.take(i + 1).drop_last() =~= params@.take(i as int));
                assert(params@.take(i + 1).last() == params@[i as int]);
            }
            let key = &params[i].0;
            let value = &params[i].1;
            if eq_bytes(key.as_str(), "short_period") {
                match parse_small_uint(value.as_str()) {
                    Some(v) => {
                        if 1 <= v && v <= MAX_PERIOD {
                            short = v;
                        } else {
                            proof {
                                lemma_fold_none_extends(params@, q0, i + 1);
                            }
                            return Err("invalid short_period".to_owned());
                        }
                    },
                    None => {
                        proof {
                            lemma_fold_none_extends(params@, q0, i + 1);
                        }
                        return Err("invalid short_period".to_owned());
                    },
                }
            } else if eq_bytes(key.as_str(), "long_period") {
                match parse_small_uint(value.as_str()) {
                    Some(v) => {
                        if 1 <= v && v <= MAX_PERIOD {
                            long = v;
                        } else {
                            proof {
                                lemma_fold_none_extends(params@, q0, i + 1);
                            }
                            return Err("invalid long_period".to_owned());
                        }
                    },
                    None => {
                        proof {
                            lemma_fold_none_extends(params@, q0, i + 1);
                        }
                        return Err("invalid long_period".to_owned());
                    },
                }
            } else if eq_bytes(key.as_str(), "quantity") {
                match crate::decimal::dec_from_str(value.as_str()) {
                    Some(v) => {
                        if !v.is_positive() || v.units > MAX_POSITION_UNITS {
                            proof {
                                lemma_fold_none_extends(params@, q0, i + 1);
                            }
                            return Err("invalid quantity".to_owned());
                        }
                        qty = v;
                    },
                    None => {
                        proof {
                            lemma_fold_none_extends(params@, q0, i + 1);
                        }
                        return Err("invalid quantity".to_owned());
                    },
                }
            }
            i = i + 1;
        }
        proof {
            assert(params@.take(n as int) =~= params@);
        }
        if !qty.is_positive() || qty.units > MAX_POSITION_UNITS {
            return Err("invalid quantity".to_owned());
        }
        self.short_period = short;
        self.long_period = long;
        self.quantity = qty;
        self.shorts = Vec::new();
        self.longs = Vec::new();
        self.short_sum = Dec::zero();
        self.long_sum = Dec::zero();
        self.holding = None;
        proof {
            assert(self@.shorts =~= Seq::<int>::empty());
            assert(self@.longs =~= Seq::<int>::empty());
        }
        Ok(())
    }

    fn on_tick(&mut self, tick: &TickData) -> (r: Signal) {
        self.step(tick)
    }

    fn reset(&mut self) {
        self.shorts = Vec::new();
        self.longs = Vec::new();
        self.short_sum = Dec::zero();
        self.long_sum = Dec::zero();
        self.holding = None;
        proof {
            assert(self@.shorts =~= Seq::<int>::empty());
            assert(self@.longs =~= Seq::<int>::empty());
        }
    }
}

/// Catalog of the registered strategies: exactly the crossover strategy.
pub fn list_strategies() -> (r: Vec<StrategyInfo>)
    ensures
        r@.len() == 1,
        r@[0].id@ == "sma_crossover"@,
        r@[0].name@ == "SMA Crossover"@,
{
    let mut out: Vec<StrategyInfo> = Vec::new();
    out.push(
        StrategyInfo {
            id: "sma_crossover".to_owned(),
            name: "SMA Crossover".to_owned(),
            description: (
            "Buys when the short moving average crosses above the long one, sells when it crosses back").to_owned(),
        },
    );
    out
}

/// Builds the strategy registered under the given id, with its default
/// parameters (short period 5, long period 20, quantity one); fails on
/// exactly the ids that name no registered strategy.
pub fn create_strategy(id: &str) -> (r: Result<SmaStrategy, String>)
    ensures
        r is Ok <==> id.spec_bytes() == "sma_crossover".spec_bytes(),
        (r matches Ok(s) ==> {
            &&& s.wf()
            &&& s@.short_period == 5
            &&& s@.long_period == 20
            &&& s@.quantity == crate::decimal::DEC_SCALE as int
            &&& s@.shorts == Seq::<int>::empty()
            &&& s@.longs == Seq::<int>::empty()
            &&& s@.holding is None
        }),
{
    let sma = "sma_crossover";
    if eq_bytes(id, sma) {
        Ok(SmaStrategy::new(5, 20, Dec::one()))
    } else {
        Err("unknown strategy id".to_owned())
    }
}

/// Byte-for-byte equality of two strings.
fn eq_bytes(a: &str, b: &str) -> (r: bool)
    ensures
        r == (a.spec_bytes() == b.spec_bytes()),
{
    let ab = a.as_bytes();
    let bb = b.as_bytes();
    let n = ab.len();
    if n != bb.len() {
        proof {
            assert(a.spec_bytes().len() != b.spec_bytes().len());
        }
        return false;
    }
    let mut i: usize = 0;
    while i < n
        invariant
            i <= n,
            n == ab@.len() == bb@.len(),
            ab@ == a.spec_bytes(),
            bb@ == b.spec_bytes(),
            forall|j: int| 0 <= j < i ==> ab@[j] == bb@[j],
        decreases n - i,
    {
        if ab[i] != bb[i] {
            return false;
        }
        i = i + 1;
    }
    proof {
        assert(a.spec_bytes() =~= b.spec_bytes());
    }
    true
}

} // verus!
