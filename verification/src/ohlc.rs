//! Bars derived from ticks: open, high, low, close and volume over an
//! aligned time window.

use vstd::prelude::*;
use crate::decimal::Dec;
use crate::portfolio::MAX_POSITION_UNITS;
use crate::tick::{TickData, TickView, clone_string};

verus! {

/// The supported bar widths.
#[derive(Clone, Copy, Debug, PartialEq, Eq, Structural)]
pub enum Timeframe {
    OneMinute,
    FiveMinutes,
    FifteenMinutes,
    OneHour,
    FourHours,
    OneDay,
}

impl Timeframe {
    /// Width of the window in microseconds.
    pub open spec fn micros_spec(self) -> int {
        match self {
            Timeframe::OneMinute => 60_000_000,
            Timeframe::FiveMinutes => 300_000_000,
            Timeframe::FifteenMinutes => 900_000_000,
            Timeframe::OneHour => 3_600_000_000,
            Timeframe::FourHours => 14_400_000_000,
            Timeframe::OneDay => 86_400_000_000,
        }
    }

    /// Width of the window in microseconds.
    pub fn as_micros(&self) -> (r: i64)
        ensures
            r == self.micros_spec(),
            r > 0,
    {
        match self {
            Timeframe::OneMinute => 60_000_000,
            Timeframe::FiveMinutes => 300_000_000,
            Timeframe::FifteenMinutes => 900_000_000,
            Timeframe::OneHour => 3_600_000_000,
            Timeframe::FourHours => 14_400_000_000,
            Timeframe::OneDay => 86_400_000_000,
        }
    }

    /// The start of the window containing the instant.
    pub fn align_timestamp(&self, ts: i64) -> (r: i64)
        requires
            ts >= 0,
        ensures
            r == align_of(ts as int, self.micros_spec()),
            0 <= r <= ts,
    {
        let d = self.as_micros();
        ts - ts % d
    }
}

/// The aligned window start of an instant.
pub open spec fn align_of(ts: int, dur: int) -> int {
    ts - ts % dur
}

/// Highest price in a sequence of ticks.
pub open spec fn high_of(s: Seq<TickView>) -> int
    decreases s.len(),
{
    if s.len() == 0 {
        0
    } else if s.len() == 1 {
        s.last().price
    } else if high_of(s.drop_last()) >= s.last().price {
        high_of(s.drop_last())
    } else {
        s.last().price
    }
}

/// Lowest price in a sequence of ticks.
pub open spec fn low_of(s: Seq<TickView>) -> int
    decreases s.len(),
{
    if s.len() == 0 {
        0
    } else if s.len() == 1 {
        s.last().price
    } else if low_of(s.drop_last()) <= s.last().price {
        low_of(s.drop_last())
    } else {
        s.last().price
    }
}

/// Total traded quantity in a sequence of ticks.
pub open spec fn volume_of(s: Seq<TickView>) -> int
    decreases s.len(),
{
    if s.len() == 0 {
        0
    } else {
        volume_of(s.drop_last()) + s.last().quantity
    }
}

/// One bar: first, highest, lowest and last price of a window, and the
/// quantity traded in it.
#[derive(Debug)]
pub struct OHLCData {
    pub symbol: String,
    pub timeframe: Timeframe,
    pub timestamp: i64,
    pub open: Dec,
    pub high: Dec,
    pub low: Dec,
    pub close: Dec,
    pub volume: Dec,
}

impl OHLCData {
    /// Builds the bar of a window from its ticks, in order: `None` for an
    /// empty window, else first and last price as open and close, the
    /// extremes as high and low, the quantity sum as volume.
    pub fn from_ticks(ticks: &Vec<TickData>, timeframe: Timeframe, window_start: i64) -> (r:
        Option<OHLCData>)
        requires
            ticks@.len() <= 1_000_000,
            forall|i: int|
                0 <= i < ticks@.len() ==> 0 < (#[trigger] ticks@[i])@.quantity
                    <= MAX_POSITION_UNITS as int,
        ensures
            (r is Some <==> ticks@.len() > 0),
            (r matches Some(bar) ==> {
                &&& bar.timeframe == timeframe
                &&& bar.timestamp == window_start
                &&& bar.symbol@ == ticks@[0]@.symbol
                &&& bar.open@ == ticks.deep_view()[0].price
                &&& bar.close@ == ticks.deep_view().last().price
                &&& bar.high@ == high_of(ticks.deep_view())
                &&& bar.low@ == low_of(ticks.deep_view())
                &&& bar.volume@ == volume_of(ticks.deep_view())
            }),
    {
        let ghost ts = ticks.deep_view();
        let n = ticks.len();
        if n == 0 {
            return None;
        }
        let first = &ticks[0];
        let mut high = first.price;
        let mut low = first.price;
        let mut volume = Dec::zero();
        let mut i: usize = 0;
        proof {
            assert(ts.take(0) =~= Seq::<TickView>::empty());
            assert(ts.take(1).drop_last() =~= ts.take(0));
        }
        while i < n
            invariant
                i <= n,
                n == ticks@.len() <= 1_000_000,
                n >= 1,
                ts == ticks.deep_view(),
                forall|k: int|
                    0 <= k < ts.len() ==> 0 < (#[trigger] ts[k]).quantity
                        <= MAX_POSITION_UNITS as int,
                i >= 1 ==> high@ == high_of(ts.take(i as int)),
                i >= 1 ==> low@ == low_of(ts.take(i as int)),
                i == 0 ==> high@ == ts[0].price && low@ == ts[0].price,
                volume@ == volume_of(ts.take(i as int)),
                0 <= volume@ <= i * 1000000000000000000000int,
            decreases n - i,
        {
            proof {
                assert(ts.take(i + 1).drop_last() =~= ts.take(i as int));
                assert(ts.take(i + 1).last() == ts[i as int]);
                vstd::arithmetic::mul::lemma_mul_inequality(
                    i as int,
                    1000000int,
                    1000000000000000000000int,
                );
            }
            let t = &ticks[i];
            if t.price.units > high.units {
                high = t.price;
            }
            if t.price.units < low.units {
                low = t.price;
            }
            volume = volume.add(t.quantity);
            i = i + 1;
        }
        proof {
            assert(ts.take(n as int) =~= ts);
        }
        Some(
            OHLCData {
                symbol: clone_string(&first.symbol),
                timeframe,
                timestamp: window_start,
                open: first.price,
                high,
                low,
                close: ticks[n - 1].price,
                volume,
            },
        )
    }
}

/// The bar's fields agree with the ticks falling in its window.
pub open spec fn bar_summary_ok(m: Seq<TickView>, dur: int, bar: OHLCData) -> bool {
    let f = m.filter(|t: TickView| align_of(t.timestamp, dur) == bar.timestamp as int);
    &&& f.len() > 0
    &&& bar.symbol@ == f[0].symbol
    &&& bar.open@ == f[0].price
    &&& bar.close@ == f.last().price
    &&& bar.high@ == high_of(f)
    &&& bar.low@ == low_of(f)
    &&& bar.volume@ == volume_of(f)
}

/// Groups ticks into bars by their aligned window: one bar per window that
/// holds a tick, carrying that window's open, high, low, close and volume.
#[verifier::rlimit(100)]
pub fn group_ticks_into_ohlc(ticks: &Vec<TickData>, timeframe: Timeframe) -> (r: Vec<OHLCData>)
    requires
        ticks@.len() <= 1_000_000,
        forall|i: int| 0 <= i < ticks@.len() ==> (#[trigger] ticks@[i])@.timestamp >= 0,
        forall|i: int|
            0 <= i < ticks@.len() ==> 0 < (#[trigger] ticks@[i])@.quantity
                <= MAX_POSITION_UNITS as int,
    ensures
        forall|a: int, b: int|
            0 <= a < b < r@.len() ==> (#[trigger] r@[a]).timestamp != (#[trigger] r@[b]).timestamp,
        forall|j: int|
            0 <= j < ticks@.len() ==> (exists|k: int|
                0 <= k < r@.len() && (#[trigger] r@[k]).timestamp as int == align_of(
                    (#[trigger] ticks@[j])@.timestamp,
                    timeframe.micros_spec(),
                )),
        forall|k: int|
            0 <= k < r@.len() ==> bar_summary_ok(
                ticks.deep_view(),
                timeframe.micros_spec(),
                #[trigger] r@[k],
            ) && (#[trigger] r@[k]).timeframe == timeframe,
    {
    let ghost m = ticks.deep_view();
    let ghost dur = timeframe.micros_spec();
    let mut bars: Vec<OHLCData> = Vec::new();
    let n = ticks.len();
    let mut i: usize = 0;
    proof {
        assert(m.take(0) =~= Seq::<TickView>::empty());
        reveal(Seq::filter);
    }
    while i < n
        invariant
            i <= n,
            n == ticks@.len() <= 1_000_000,
            m == ticks.deep_view(),
            dur == timeframe.micros_spec(),
            forall|j: int| 0 <= j < m.len() ==> (#[trigger] m[j]).timestamp >= 0,
            forall|j: int|
                0 <= j < m.len() ==> 0 < (#[trigger] m[j]).quantity <= MAX_POSITION_UNITS as int,
            forall|a: int, b: int|
                0 <= a < b < bars@.len() ==> (#[trigger] bars@[a]).timestamp != (
                #[trigger] bars@[b]).timestamp,
            forall|j: int|
                0 <= j < i ==> (exists|k: int|
                    0 <= k < bars@.len() && (#[trigger] bars@[k]).timestamp as int == align_of(
                        (#[trigger] m[j]).timestamp,
                        dur,
                    )),
            forall|k: int|
                0 <= k < bars@.len() ==> bar_summary_ok(m.take(i as int), dur, #[trigger] bars@[k])
                    && (#[trigger] bars@[k]).timeframe == timeframe,
            forall|k: int|
                0 <= k < bars@.len() ==> 0 <= (#[trigger] bars@[k]).volume@ <= i
                    * 1000000000000000000000int,
        decreases n - i,
    {
        let ghost pref = m.take(i as int);
        proof {
            assert(m.take(i + 1) =~= pref.push(m[i as int]));
            reveal_with_fuel(Seq::filter, 2);
            assert(pref.push(m[i as int]).drop_last() =~= pref);
            vstd::arithmetic::mul::lemma_mul_inequality(
                i as int,
                1000000int,
                1000000000000000000000int,
            );
        }
        let row = &ticks[i];
        let w = timeframe.align_timestamp(row.timestamp);
        let mut found: Option<usize> = None;
        let cnt = bars.len();
        let mut k: usize = 0;
        while k < cnt && found.is_none()
            invariant
                k <= cnt,
                cnt == bars@.len(),
                (match found {
                    Some(f) => f < cnt && bars@[f as int].timestamp == w,
                    None => forall|j: int| 0 <= j < k ==> (#[trigger] bars@[j]).timestamp != w,
                }),
            decreases cnt - k + (if found is None {
                1int
            } else {
                0int
            }),
        {
            if bars[k].timestamp == w {
                found = Some(k);
            } else {
                k = k + 1;
            }
        }
        match found {
            Some(f) => {
                let ghost bars0 = bars@;
                let mut bar = bars.remove(f);
                proof {
                    let fpred = |t: TickView| align_of(t.timestamp, dur) == bar.timestamp as int;
                    assert(pref.filter(fpred).len() > 0);
                    pref.lemma_filter_len(fpred);
                }
                if row.price.units > bar.high.units {
                    bar.high = row.price;
                }
                if row.price.units < bar.low.units {
                    bar.low = row.price;
                }
                bar.close = row.price;
                bar.volume = bar.volume.add(row.quantity);
                bars.insert(f, bar);
                proof {
                    assert(bars@ =~= bars0.update(f as int, bar));
                    assert(bar.timestamp == bars0[f as int].timestamp);
                    assert forall|k2: int|
                        0 <= k2 < bars@.len() implies bar_summary_ok(
                        m.take(i + 1),
                        dur,
                        #[trigger] bars@[k2],
                    ) && bars@[k2].timeframe == timeframe && 0 <= bars@[k2].volume@ <= (i + 1)
                        * 1000000000000000000000int by {
                        let e = bars@[k2];
                        let fpred = |t: TickView|
                            align_of(t.timestamp, dur) == e.timestamp as int;
                        assert(bar_summary_ok(pref, dur, bars0[k2]));
                        if k2 == f {
                            assert(m.take(i + 1).filter(fpred) =~= pref.filter(fpred).push(
                                m[i as int],
                            ));
                            assert(pref.filter(fpred).push(m[i as int]).drop_last() =~=
                            pref.filter(fpred));
                        } else {
                            assert(bars0[k2] == bars@[k2]);
                            assert(e.timestamp != w);
                            assert(m.take(i + 1).filter(fpred) =~= pref.filter(fpred));
                        }
                    }
                    assert forall|j: int|
                        0 <= j < i + 1 implies (exists|k2: int|
                        0 <= k2 < bars@.len() && (#[trigger] bars@[k2]).timestamp as int
                            == align_of((#[trigger] m[j]).timestamp, dur)) by {
                        if j < i {
                            let k0 = choose|k0: int|
                                0 <= k0 < bars0.len() && (#[trigger] bars0[k0]).timestamp as int
                                    == align_of(m[j].timestamp, dur);
                            assert(bars@[k0].timestamp == bars0[k0].timestamp);
                        } else {
                            assert(bars@[f as int].timestamp as int == align_of(
                                m[j].timestamp,
                                dur,
                            ));
                        }
                    }
                    assert forall|a: int, b: int|
                        0 <= a < b < bars@.len() implies (#[trigger] bars@[a]).timestamp != (
                    #[trigger] bars@[b]).timestamp by {
                        assert(bars@[a].timestamp == bars0[a].timestamp);
                        assert(bars@[b].timestamp == bars0[b].timestamp);
                    }
                }
            },
            None => {
                let bar = OHLCData {
                    symbol: clone_string(&row.symbol),
                    timeframe,
                    timestamp: w,
                    open: row.price,
                    high: row.price,
                    low: row.price,
                    close: row.price,
                    volume: row.quantity,
                };
                let ghost bars0 = bars@;
                proof {
                    assert(forall|j: int|
                        0 <= j < bars0.len() ==> (#[trigger] bars0[j]).timestamp != w);
                }
                bars.push(bar);
                proof {
                    assert(bars@ =~= bars0.push(bar));
                    assert forall|k2: int|
                        0 <= k2 < bars@.len() implies bar_summary_ok(
                        m.take(i + 1),
                        dur,
                        #[trigger] bars@[k2],
                    ) && bars@[k2].timeframe == timeframe && 0 <= bars@[k2].volume@ <= (i + 1)
                        * 1000000000000000000000int by {
                        let e = bars@[k2];
                        let fpred = |t: TickView|
                            align_of(t.timestamp, dur) == e.timestamp as int;
                        if k2 < bars0.len() {
                            assert(bars0[k2] == bars@[k2]);
                            assert(bar_summary_ok(pref, dur, bars0[k2]));
                            assert(e.timestamp != w);
                            assert(m.take(i + 1).filter(fpred) =~= pref.filter(fpred));
                        } else {
                            assert(e == bar);
                            assert forall|j: int|
                                0 <= j < pref.len() implies !fpred(#[trigger] pref[j]) by {
                                assert(pref[j] == m[j]);
                                if align_of(pref[j].timestamp, dur) == w as int {
                                    let k3 = choose|k3: int|
                                        0 <= k3 < bars0.len() && (
                                        #[trigger] bars0[k3]).timestamp as int == align_of(
                                            m[j].timestamp,
                                            dur,
                                        );
                                    assert(false);
                                }
                            }
                            lemma_filter_empty_ticks(pref, fpred);
                            assert(m.take(i + 1).filter(fpred) =~= Seq::<TickView>::empty().push(
                                m[i as int],
                            ));
                            let fs = m.take(i + 1).filter(fpred);
                            assert(fs.len() == 1);
                            assert(fs[0] == m[i as int]);
                            assert(fs.last() == m[i as int]);
                            assert(fs.drop_last() =~= Seq::<TickView>::empty());
                            assert(high_of(fs) == m[i as int].price);
                            assert(low_of(fs) == m[i as int].price);
                            assert(volume_of(Seq::<TickView>::empty()) == 0);
                            assert(volume_of(fs) == m[i as int].quantity);
                        }
                    }
                    assert forall|j: int|
                        0 <= j < i + 1 implies (exists|k2: int|
                        0 <= k2 < bars@.len() && (#[trigger] bars@[k2]).timestamp as int
                            == align_of((#[trigger] m[j]).timestamp, dur)) by {
                        if j < i {
                            let k0 = choose|k0: int|
                                0 <= k0 < bars0.len() && (#[trigger] bars0[k0]).timestamp as int
                                    == align_of(m[j].timestamp, dur);
                            assert(bars@[k0] == bars0[k0]);
                        } else {
                            assert(bars@[bars0.len() as int].timestamp as int == align_of(
                                m[j].timestamp,
                                dur,
                            ));
                        }
                    }
                    assert forall|a: int, b: int|
                        0 <= a < b < bars@.len() implies (#[trigger] bars@[a]).timestamp != (
                    #[trigger] bars@[b]).timestamp by {
                        if b < bars0.len() {
                            assert(bars@[a] == bars0[a]);
                            assert(bars@[b] == bars0[b]);
                        } else {
                            assert(bars@[a] == bars0[a]);
                            assert(bars@[b] == bar);
                        }
                    }
                }
            },
        }
        i = i + 1;
    }
    proof {
        assert(m.take(n as int) =~= m);
        assert forall|j: int|
            0 <= j < ticks@.len() implies (exists|k: int|
            0 <= k < bars@.len() && (#[trigger] bars@[k]).timestamp as int == align_of(
                (#[trigger] ticks@[j])@.timestamp,
                timeframe.micros_spec(),
            )) by {
            assert(m[j] == ticks@[j]@);
            let k0 = choose|k0: int|
                0 <= k0 < bars@.len() && (#[trigger] bars@[k0]).timestamp as int == align_of(
                    m[j].timestamp,
                    dur,
                );
            assert(0 <= k0 < bars@.len() && bars@[k0].timestamp as int == align_of(
                ticks@[j]@.timestamp,
                timeframe.micros_spec(),
            ));
        }
    }
    bars
}

/// No element matches: the filtered sequence is empty.
proof fn lemma_filter_empty_ticks(s: Seq<TickView>, pred: spec_fn(TickView) -> bool)
    requires
        forall|j: int| 0 <= j < s.len() ==> !pred(#[trigger] s[j]),
    ensures
        s.filter(pred).len() == 0,
    decreases s.len(),
{
    reveal(Seq::filter);
    if s.len() > 0 {
        let d = s.drop_last();
        assert(forall|k: int| 0 <= k < d.len() ==> d[k] == s[k]);
        lemma_filter_empty_ticks(d, pred);
    }
}

} // verus!
