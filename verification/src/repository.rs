//! The repository: owns the tick store and the memory cache tier, validates
//! and inserts ticks (write-through to the cache), and reads with the cache
//! tried first for recent queries.

use vstd::prelude::*;
use crate::cache::{MemoryCache, ring_after_push};
use crate::decimal::Dec;
use crate::store::{
    store_insert_model, store_after_inserts, count_inserted, all_valid, has_key, TickStore,
    sorted_asc,
};
use crate::tick::{DataError, TickData, TickQuery, TickView, QueryView, tick_valid, clone_string};

verus! {

/// How far back a query may start and still be served from the cache:
/// one hour, in microseconds.
pub const RECENT_WINDOW_MICROS: i64 = 3_600_000_000;

/// A query counts as recent when it has no start time, or starts within the
/// last hour.
pub open spec fn is_recent_query_model(q: QueryView, now: int) -> bool {
    match q.start_time {
        Some(st) => now - st <= RECENT_WINDOW_MICROS as int,
        None => true,
    }
}

/// The last `lim` entries of a cache ring, oldest first.
pub open spec fn cache_suffix(c: Seq<TickView>, lim: int) -> Seq<TickView> {
    c.skip(
        (if c.len() <= lim {
            0
        } else {
            c.len() - lim
        }),
    )
}

/// What `get_ticks` returns, over the store rows `s` and the cache ring `c`
/// of the queried symbol: the cache answer when the query is recent and the
/// cache can fill the whole limit, else the store's range query.
pub open spec fn get_ticks_model(s: Seq<TickView>, c: Seq<TickView>, q: QueryView, now: int) -> Seq<
    TickView,
> {
    let lim = TickStore::clamped_limit(q.limit);
    let suffix = cache_suffix(c, lim);
    if is_recent_query_model(q, now) && suffix.len() == lim {
        suffix
    } else {
        TickStore::query_range_model(s, q)
    }
}

/// A cache ring after pushing, in order, those ticks of `ts` that carry the
/// ring's symbol.
pub open spec fn ring_after_symbol_pushes(
    c: Seq<TickView>,
    ts: Seq<TickView>,
    sym: Seq<char>,
    cap: nat,
) -> Seq<TickView>
    decreases ts.len(),
{
    if ts.len() == 0 {
        c
    } else {
        ring_after_symbol_pushes(
            (if ts[0].symbol == sym {
                ring_after_push(c, ts[0], cap)
            } else {
                c
            }),
            ts.skip(1),
            sym,
            cap,
        )
    }
}

proof fn lemma_ring_after_symbol_pushes_push(
    c: Seq<TickView>,
    ts: Seq<TickView>,
    t: TickView,
    sym: Seq<char>,
    cap: nat,
)
    ensures
        ring_after_symbol_pushes(c, ts.push(t), sym, cap) == (if t.symbol == sym {
            ring_after_push(ring_after_symbol_pushes(c, ts, sym, cap), t, cap)
        } else {
            ring_after_symbol_pushes(c, ts, sym, cap)
        }),
    decreases ts.len(),
{
    reveal_with_fuel(ring_after_symbol_pushes, 3);
    if ts.len() == 0 {
        assert(ts.push(t)[0] == t);
        assert(ts.push(t).skip(1) =~= Seq::<TickView>::empty());
    } else {
        assert(ts.push(t)[0] == ts[0]);
        assert(ts.push(t).skip(1) =~= ts.skip(1).push(t));
        lemma_ring_after_symbol_pushes_push(
            (if ts[0].symbol == sym {
                ring_after_push(c, ts[0], cap)
            } else {
                c
            }),
            ts.skip(1),
            t,
            sym,
            cap,
        );
    }
}

/// One symbol's latest price, as a pair of plain values.
pub struct SymbolPrice {
    pub symbol: String,
    pub price: Dec,
}

/// Mathematical image of a symbol-price pair.
pub struct SymbolPriceView {
    pub symbol: Seq<char>,
    pub price: int,
}

impl View for SymbolPrice {
    type V = SymbolPriceView;

    open spec fn view(&self) -> SymbolPriceView {
        SymbolPriceView { symbol: self.symbol@, price: self.price@ }
    }
}

impl DeepView for SymbolPrice {
    type V = SymbolPriceView;

    open spec fn deep_view(&self) -> SymbolPriceView {
        self.view()
    }
}

/// Repository over the tick store and the memory cache tier.
pub struct TickDataRepository {
    pub store: TickStore,
    pub cache: MemoryCache,
}

impl TickDataRepository {
    /// Both owned tiers are well formed.
    pub open spec fn wf(self) -> bool {
        self.store.wf() && self.cache.wf()
    }

    /// Rows of the store as mathematical values.
    pub open spec fn store_model(self) -> Seq<TickView> {
        self.store.model()
    }

    /// Cache ring of a symbol as mathematical values.
    pub open spec fn cache_model(self, sym: Seq<char>) -> Seq<TickView> {
        self.cache.contents(sym)
    }

    /// Builds the repository from its two tiers.
    pub fn new(store: TickStore, cache: MemoryCache) -> (r: TickDataRepository)
        requires
            store.wf(),
            cache.wf(),
        ensures
            r.wf(),
            r.store == store,
            r.cache == cache,
    {
        TickDataRepository { store, cache }
    }

    /// The memory cache tier.
    pub fn get_cache(&self) -> (r: &MemoryCache)
        ensures
            r == &self.cache,
    {
        &self.cache
    }

    /// Inserts one tick: validated, stored with duplicate keys ignored, then
    /// written through to the cache. Fails exactly on an invalid tick:
    /// empty symbol, empty trade id, price or quantity not positive.
    pub fn insert_tick(&mut self, t: &TickData) -> (r: Result<(), DataError>)
        requires
            old(self).wf(),
        ensures
            final(self).wf(),
            r is Ok <==> tick_valid(t@),
            (r matches Err(e) ==> e is Validation && *final(self) == *old(self)),
            r is Ok ==> final(self).store_model() == store_insert_model(
                old(self).store_model(),
                t@,
            ),
            r is Ok ==> final(self).cache_model(t@.symbol) == ring_after_push(
                old(self).cache_model(t@.symbol),
                t@,
                old(self).cache.max_ticks_per_symbol as nat,
            ),
            r is Ok ==> forall|s: Seq<char>|
                s != t@.symbol ==> final(self).cache_model(s) == old(self).cache_model(s),
            final(self).cache.max_ticks_per_symbol == old(self).cache.max_ticks_per_symbol,
    {
        match self.store.insert(t) {
            Ok(_) => {
                self.cache.push_tick(t);
                Ok(())
            },
            Err(e) => Err(e),
        }
    }

    /// Inserts a batch: all ticks validated first, then stored in order with
    /// duplicate keys ignored and written through to the cache; returns how
    /// many rows the store actually gained.
    pub fn batch_insert(&mut self, ticks: &Vec<TickData>) -> (r: Result<usize, DataError>)
        requires
            old(self).wf(),
        ensures
            final(self).wf(),
            r is Ok <==> all_valid(ticks.deep_view()),
            (r matches Err(e) ==> e is Validation && *final(self) == *old(self)),
            r is Ok ==> (r matches Ok(c) && final(self).store_model() == store_after_inserts(
                old(self).store_model(),
                ticks.deep_view(),
            ) && c == count_inserted(old(self).store_model(), ticks.deep_view())),
            r is Ok ==> forall|s: Seq<char>|
                final(self).cache_model(s) == ring_after_symbol_pushes(
                    old(self).cache_model(s),
                    ticks.deep_view(),
                    s,
                    old(self).cache.max_ticks_per_symbol as nat,
                ),
            final(self).cache.max_ticks_per_symbol == old(self).cache.max_ticks_per_symbol,
    {
        let ghost tm = ticks.deep_view();
        let count = match self.store.batch_insert(ticks) {
            Ok(c) => c,
            Err(e) => {
                return Err(e);
            },
        };
        let ghost cap = self.cache.max_ticks_per_symbol as nat;
        let ghost cache0 = self.cache;
        let ghost store1 = self.store;
        let n = ticks.len();
        let mut i: usize = 0;
        proof {
            assert(tm.take(0) =~= Seq::<TickView>::empty());
        }
        while i < n
            invariant
                i <= n,
                n == ticks@.len(),
                tm == ticks.deep_view(),
                self.cache.wf(),
                self.store == store1,
                self.store.wf(),
                self.cache.max_ticks_per_symbol as nat == cap,
                forall|s: Seq<char>|
                    self.cache.contents(s) == ring_after_symbol_pushes(
                        cache0.contents(s),
                        tm.take(i as int),
                        s,
                        cap,
                    ),
            decreases n - i,
        {
            let ghost pre = self.cache;
            self.cache.push_tick(&ticks[i]);
            proof {
                assert forall|s: Seq<char>|
                    self.cache.contents(s) == ring_after_symbol_pushes(
                        cache0.contents(s),
                        tm.take(i + 1),
                        s,
                        cap,
                    ) by {
                    assert(tm.take(i + 1) =~= tm.take(i as int).push(tm[i as int]));
                    lemma_ring_after_symbol_pushes_push(
                        cache0.contents(s),
                        tm.take(i as int),
                        tm[i as int],
                        s,
                        cap,
                    );
                    if s != tm[i as int].symbol {
                        assert(self.cache.contents(s) == pre.contents(s));
                    }
                }
            }
            i = i + 1;
        }
        proof {
            assert(tm.take(n as int) =~= tm);
        }
        Ok(count)
    }

    /// Reads ticks: a recent query is served from the cache when the cache
    /// can fill the whole limit; otherwise the store answers and its rows
    /// are written through to the cache oldest-first, so the refilled ring
    /// stays in ascending timestamp order.
    pub fn get_ticks(&mut self, query: &TickQuery, now: i64) -> (r: Vec<TickData>)
        requires
            old(self).wf(),
        ensures
            final(self).wf(),
            r.deep_view() == get_ticks_model(
                old(self).store_model(),
                old(self).cache_model(query@.symbol),
                query@,
                now as int,
            ),
            final(self).store_model() == old(self).store_model(),
            final(self).cache.max_ticks_per_symbol == old(self).cache.max_ticks_per_symbol,
    {
        let lim_u32 = match query.limit {
            Some(v) => if v > crate::store::MAX_QUERY_LIMIT {
                crate::store::MAX_QUERY_LIMIT
            } else {
                v
            },
            None => crate::store::DEFAULT_QUERY_LIMIT,
        };
        let lim = lim_u32 as usize;
        let recent = match query.start_time {
            Some(st) => (now as i128) - (st as i128) <= RECENT_WINDOW_MICROS as i128,
            None => true,
        };
        if recent {
            let cached = self.cache.get_recent_ticks(&query.symbol, lim);
            if cached.len() == lim {
                return cached;
            }
        }
        let ticks = self.store.query_range(query);
        let ghost cap = self.cache.max_ticks_per_symbol as nat;
        let ghost cache0 = self.cache;
        let ghost store1 = self.store;
        // The store answers newest-first; the ring wants arrival order, so
        // the write-through walks the answer from its oldest row.
        let ghost rev = ticks.deep_view().reverse();
        let n = ticks.len();
        let mut i: usize = 0;
        proof {
            assert(rev.take(0) =~= Seq::<TickView>::empty());
        }
        while i < n
            invariant
                i <= n,
                n == ticks@.len(),
                rev == ticks.deep_view().reverse(),
                self.cache.wf(),
                self.store == store1,
                self.store.wf(),
                self.cache.max_ticks_per_symbol as nat == cap,
                forall|s: Seq<char>|
                    self.cache.contents(s) == ring_after_symbol_pushes(
                        cache0.contents(s),
                        rev.take(i as int),
                        s,
                        cap,
                    ),
            decreases n - i,
        {
            let ghost pre = self.cache;
            self.cache.push_tick(&ticks[n - 1 - i]);
            proof {
                assert(rev[i as int] == ticks.deep_view()[n - 1 - i]);
                assert forall|s: Seq<char>|
                    self.cache.contents(s) == ring_after_symbol_pushes(
                        cache0.contents(s),
                        rev.take(i + 1),
                        s,
                        cap,
                    ) by {
                    assert(rev.take(i + 1) =~= rev.take(i as int).push(rev[i as int]));
                    lemma_ring_after_symbol_pushes_push(
                        cache0.contents(s),
                        rev.take(i as int),
                        rev[i as int],
                        s,
                        cap,
                    );
                    if s != rev[i as int].symbol {
                        assert(self.cache.contents(s) == pre.contents(s));
                    }
                }
            }
            i = i + 1;
        }
        proof {
            assert(rev.take(n as int) =~= rev);
        }
        ticks
    }

    /// The price `get_latest_price` answers for a symbol: the cache's
    /// newest entry when the cache holds one, else the store's newest row.
    pub open spec fn latest_price_model(self, sym: Seq<char>) -> Option<int> {
        if self.cache_model(sym).len() > 0 {
            Some(self.cache_model(sym).last().price)
        } else {
            TickStore::latest_price_model(self.store_model(), sym)
        }
    }

    /// Price of the most recent tick of the symbol: the cache's newest entry
    /// when it has one, else the store's newest row.
    pub fn get_latest_price(&self, symbol: &String) -> (r: Option<Dec>)
        requires
            self.wf(),
        ensures
            (match r {
                Some(p) => self.latest_price_model(symbol@) == Some(p@),
                None => self.latest_price_model(symbol@) is None,
            }),
    {
        let cached = self.cache.get_recent_ticks(symbol, 1);
        if cached.len() == 1 {
            let p = cached[0].price;
            proof {
                let c = self.cache_model(symbol@);
                if c.len() <= 1 {
                    assert(c.skip(0) =~= c);
                    assert(cached.deep_view()[0] == c[0]);
                } else {
                    assert(c.skip(c.len() - 1)[0] == c[c.len() - 1]);
                }
                assert(cached.deep_view()[0] == c[c.len() - 1]);
                assert(p@ == cached.deep_view()[0].price);
            }
            return Some(p);
        }
        proof {
            let c = self.cache_model(symbol@);
            if c.len() > 0 {
                if c.len() <= 1 {
                    assert(c.skip(0).len() == c.len());
                } else {
                    assert(c.skip(c.len() - 1).len() == 1);
                }
                assert(false);
            }
        }
        self.store.latest_price(symbol)
    }

    /// The most recent `count` ticks of the symbol, oldest first, straight
    /// from the store.
    pub fn get_recent_ticks_for_backtest(&self, symbol: &String, count: i64) -> (r: Vec<TickData>)
        requires
            self.wf(),
        ensures
            r.deep_view() == TickStore::recent_ticks_model(
                self.store_model(),
                symbol@,
                count as int,
            ),
            sorted_asc(r.deep_view()),
    {
        self.store.recent_ticks_for_backtest(symbol, count)
    }

    /// Ticks of the symbol inside the inclusive range, oldest first, straight
    /// from the store.
    pub fn get_historical_data_for_backtest(
        &self,
        symbol: &String,
        start_time: i64,
        end_time: i64,
        limit: Option<i64>,
    ) -> (r: Vec<TickData>)
        requires
            self.wf(),
        ensures
            r.deep_view() == TickStore::historical_model(
                self.store_model(),
                symbol@,
                start_time as int,
                end_time as int,
                (match limit {
                    Some(v) => Some(v as int),
                    None => None,
                }),
            ),
            sorted_asc(r.deep_view()),
    {
        self.store.historical_for_backtest(symbol, start_time, end_time, limit)
    }

    /// One latest price per requested symbol, in request order; symbols
    /// without data are left out.
    pub fn get_latest_prices(&self, symbols: &Vec<String>) -> (r: Vec<SymbolPrice>)
        requires
            self.wf(),
        ensures
            r.deep_view() == latest_prices_model(*self, symbols@),
    {
        let ghost syms = symbols@;
        let mut out: Vec<SymbolPrice> = Vec::new();
        let n = symbols.len();
        let mut i: usize = 0;
        proof {
            assert(syms.take(0) =~= Seq::<String>::empty());
            assert(out.deep_view() =~= latest_prices_model(*self, syms.take(0)));
        }
        while i < n
            invariant
                i <= n,
                n == symbols@.len(),
                syms == symbols@,
                self.wf(),
                out.deep_view() == latest_prices_model(*self, syms.take(i as int)),
            decreases n - i,
        {
            proof {
                assert(syms.take(i + 1).drop_last() =~= syms.take(i as int));
                assert(syms.take(i + 1).last() == syms[i as int]);
            }
            let ghost prevv = out@;
            let ghost prevd = out.deep_view();
            match self.get_latest_price(&symbols[i]) {
                Some(price) => {
                    let entry = SymbolPrice { symbol: clone_string(&symbols[i]), price };
                    out.push(entry);
                    proof {
                        assert(prevd.len() == prevv.len());
                        assert forall|j: int|
                            0 <= j < out@.len() implies #[trigger] out.deep_view()[j]
                            == latest_prices_model(*self, syms.take(i + 1))[j] by {
                            if j < prevv.len() {
                                assert(out@[j] == prevv[j]);
                                assert(prevd[j] == latest_prices_model(
                                    *self,
                                    syms.take(i as int),
                                )[j]);
                            } else {
                                assert(out.deep_view()[j] == out@[j].deep_view());
                            }
                        }
                        assert(out.deep_view() =~= latest_prices_model(*self, syms.take(i + 1)));
                    }
                },
                None => {
                    proof {
                        assert(out.deep_view() =~= latest_prices_model(*self, syms.take(i + 1)));
                    }
                },
            }
            i = i + 1;
        }
        proof {
            assert(syms.take(n as int) =~= syms);
        }
        out
    }

    /// Overall and per-symbol statistics of the store, for choosing
    /// backtest data.
    pub fn get_backtest_data_info(&self) -> (r: crate::store::BacktestDataInfo)
        requires
            self.wf(),
        ensures
            r.total_records == self.store_model().len(),
            r.symbols_count == r.symbol_info@.len(),
            forall|a: int, b: int|
                0 <= a < b < r.symbol_info@.len() ==> (#[trigger] r.symbol_info@[a]).records_count
                    >= (#[trigger] r.symbol_info@[b]).records_count,
            forall|k: int|
                0 <= k < r.symbol_info@.len() ==> crate::store::symbol_summary_ok(
                    self.store_model(),
                    #[trigger] r.symbol_info@[k],
                ),
            forall|j: int|
                0 <= j < self.store_model().len() ==> (exists|k: int|
                    0 <= k < r.symbol_info@.len() && (#[trigger] r.symbol_info@[k]).symbol@ == (
                    #[trigger] self.store_model()[j]).symbol),
    {
        self.store.get_backtest_data_info()
    }

    /// Row count and time range, overall or for one symbol.
    pub fn get_db_stats(&self, symbol: Option<&String>) -> (r: crate::store::DbStats)
        requires
            self.wf(),
        ensures
            (match symbol {
                Some(s) => r.total_records == self.store_model().filter(
                    |t: TickView| t.symbol == s@,
                ).len(),
                None => r.total_records == self.store_model().len(),
            }),
    {
        self.store.get_db_stats(symbol)
    }

    /// Bars over the symbol's rows inside the inclusive range: one bar per
    /// aligned window that holds a tick.
    pub fn generate_ohlc_from_ticks(
        &self,
        symbol: &String,
        timeframe: crate::ohlc::Timeframe,
        start_time: i64,
        end_time: i64,
        limit: Option<i64>,
    ) -> (r: Vec<crate::ohlc::OHLCData>)
        requires
            self.wf(),
            start_time >= 0,
            forall|j: int|
                0 <= j < self.store_model().len() ==> 0 < (#[trigger] self.store_model()[j]).quantity
                    <= crate::portfolio::MAX_POSITION_UNITS as int,
        ensures
            ({
                let rows = TickStore::historical_model(
                    self.store_model(),
                    symbol@,
                    start_time as int,
                    end_time as int,
                    (match limit {
                        Some(v) => Some(v as int),
                        None => None,
                    }),
                );
                &&& (forall|a: int, b: int|
                    0 <= a < b < r@.len() ==> (#[trigger] r@[a]).timestamp != (
                    #[trigger] r@[b]).timestamp)
                &&& (forall|k: int|
                    0 <= k < r@.len() ==> crate::ohlc::bar_summary_ok(
                        rows,
                        timeframe.micros_spec(),
                        #[trigger] r@[k],
                    ))
            }),
    {
        let ticks = self.store.historical_for_backtest(symbol, start_time, end_time, limit);
        proof {
            let rows = ticks.deep_view();
            let ghost lim = (match limit {
                Some(v) => Some(v as int),
                None => None,
            });
            assert(rows.len() <= 10000);
            assert forall|j: int|
                0 <= j < ticks@.len() implies (#[trigger] ticks@[j])@.timestamp >= 0 && 0 < ticks@[
                j]@.quantity <= crate::portfolio::MAX_POSITION_UNITS as int by {
                assert(ticks@[j]@ == rows[j]);
                crate::store::lemma_historical_member(
                    self.store_model(),
                    symbol@,
                    start_time as int,
                    end_time as int,
                    lim,
                    j,
                );
                let k = choose|k: int|
                    0 <= k < self.store_model().len() && self.store_model()[k] == rows[j];
                assert(0 < self.store_model()[k].quantity
                    <= crate::portfolio::MAX_POSITION_UNITS as int);
            }
        }
        crate::ohlc::group_ticks_into_ohlc(&ticks, timeframe)
    }

    /// Deletes rows strictly older than the cutoff; returns how many went.
    pub fn cleanup_old_data(&mut self, cutoff: i64) -> (r: u64)
        requires
            old(self).wf(),
        ensures
            final(self).wf(),
            final(self).store_model() == old(self).store_model().filter(
                |t: TickView| t.timestamp >= cutoff as int,
            ),
            r == old(self).store_model().len() - final(self).store_model().len(),
    {
        self.store.cleanup_old_data(cutoff)
    }
}

/// What `get_latest_prices` returns for a list of symbols: one entry per
/// symbol that has a price, in request order.
pub open spec fn latest_prices_model(repo: TickDataRepository, syms: Seq<String>) -> Seq<
    SymbolPriceView,
>
    decreases syms.len(),
{
    if syms.len() == 0 {
        Seq::empty()
    } else {
        latest_prices_model(repo, syms.drop_last()) + (match repo.latest_price_model(
            syms.last()@,
        ) {
            Some(p) => seq![SymbolPriceView { symbol: syms.last()@, price: p }],
            None => Seq::<SymbolPriceView>::empty(),
        })
    }
}

/// Cache-store consistency: once a tick is inserted, a recent limit-one
/// query for its symbol answers from the cache with exactly that tick,
/// whatever the store and the rest of the cache hold.
pub proof fn lemma_cache_store_consistency(
    s: Seq<TickView>,
    c: Seq<TickView>,
    t: TickView,
    cap: nat,
    now: int,
    q: QueryView,
)
    requires
        cap >= 1,
        q.symbol == t.symbol,
        q.limit == Some(1int),
        q.start_time is None,
    ensures
        get_ticks_model(s, ring_after_push(c, t, cap), q, now) =~= seq![t],
{
    let after = ring_after_push(c, t, cap);
    assert(after.len() >= 1);
    assert(after.last() == t);
    assert(cache_suffix(after, 1) =~= seq![t]);
}

} // verus!
