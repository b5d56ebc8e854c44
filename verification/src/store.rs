//! The tick store: rows keyed by (symbol, trade id, timestamp), kept in
//! timestamp order, with idempotent inserts and clamped range queries.
//!
//! This is the library's model of the persistent table: the rows live in
//! memory here, and the process edge that copies them to and from a database
//! lives outside the library.

use vstd::prelude::*;
use crate::decimal::Dec;
use crate::tick::{
    DataError, TickData, TickQuery, TickView, QueryView, query_matches, tick_same_key, tick_valid,
    validate_tick_data, clone_string,
};

verus! {

/// Row count and time range of the store, overall or for one symbol.
#[derive(Debug)]
pub struct DbStats {
    pub symbol: Option<String>,
    pub total_records: u64,
    pub earliest_timestamp: Option<i64>,
    pub latest_timestamp: Option<i64>,
}

/// Summary of one symbol's rows: how many, over which time range, and
/// between which prices.
#[derive(Debug)]
pub struct SymbolDataInfo {
    pub symbol: String,
    pub records_count: u64,
    pub earliest_time: Option<i64>,
    pub latest_time: Option<i64>,
    pub min_price: Option<Dec>,
    pub max_price: Option<Dec>,
}

/// Overall and per-symbol statistics of the store.
#[derive(Debug)]
pub struct BacktestDataInfo {
    pub total_records: u64,
    pub symbols_count: u64,
    pub earliest_time: Option<i64>,
    pub latest_time: Option<i64>,
    pub symbol_info: Vec<SymbolDataInfo>,
}

impl BacktestDataInfo {
    /// The symbols that have data.
    pub fn get_available_symbols(&self) -> (r: Vec<String>)
        ensures
            r@.len() == self.symbol_info@.len(),
            forall|k: int|
                0 <= k < r@.len() ==> r@[k]@ == (#[trigger] self.symbol_info@[k]).symbol@,
    {
        let mut out: Vec<String> = Vec::new();
        let n = self.symbol_info.len();
        let mut i: usize = 0;
        while i < n
            invariant
                i <= n,
                n == self.symbol_info@.len(),
                out@.len() == i,
                forall|k: int|
                    0 <= k < i ==> out@[k]@ == (#[trigger] self.symbol_info@[k]).symbol@,
            decreases n - i,
        {
            out.push(clone_string(&self.symbol_info[i].symbol));
            i = i + 1;
        }
        out
    }

    /// The summary recorded for a symbol, if any.
    pub fn get_symbol_info(&self, symbol: &String) -> (r: Option<&SymbolDataInfo>)
        ensures
            (match r {
                Some(e) => e.symbol@ == symbol@ && (exists|k: int|
                    0 <= k < self.symbol_info@.len() && (#[trigger] self.symbol_info@[k]).symbol@
                        == symbol@),
                None => forall|k: int|
                    0 <= k < self.symbol_info@.len() ==> (#[trigger] self.symbol_info@[k]).symbol@
                        != symbol@,
            }),
    {
        let n = self.symbol_info.len();
        let mut i: usize = 0;
        while i < n
            invariant
                i <= n,
                n == self.symbol_info@.len(),
                forall|k: int|
                    0 <= k < i ==> (#[trigger] self.symbol_info@[k]).symbol@ != symbol@,
            decreases n - i,
        {
            if self.symbol_info[i].symbol == *symbol {
                return Some(&self.symbol_info[i]);
            }
            i = i + 1;
        }
        None
    }

    /// Does the symbol have at least this many rows?
    pub fn has_sufficient_data(&self, symbol: &String, min_records: u64) -> (r: bool)
        ensures
            r == (exists|k: int|
                0 <= k < self.symbol_info@.len() && (#[trigger] self.symbol_info@[k]).symbol@
                    == symbol@ && self.symbol_info@[k].records_count >= min_records),
    {
        let n = self.symbol_info.len();
        let mut i: usize = 0;
        while i < n
            invariant
                i <= n,
                n == self.symbol_info@.len(),
                forall|k: int|
                    0 <= k < i ==> !((#[trigger] self.symbol_info@[k]).symbol@ == symbol@
                        && self.symbol_info@[k].records_count >= min_records),
            decreases n - i,
        {
            if self.symbol_info[i].symbol == *symbol && self.symbol_info[i].records_count
                >= min_records {
                return true;
            }
            i = i + 1;
        }
        false
    }
}

/// Reorders per-symbol summaries by descending row count, keeping the
/// entries themselves: symbols stay distinct, every summary stays correct,
/// and every row's symbol keeps an entry.
fn sort_by_count_desc(info: Vec<SymbolDataInfo>, Ghost(m): Ghost<Seq<TickView>>) -> (r: Vec<
    SymbolDataInfo,
>)
    requires
        forall|a: int, b: int|
            0 <= a < b < info@.len() ==> (#[trigger] info@[a]).symbol@ != (
            #[trigger] info@[b]).symbol@,
        forall|k: int| 0 <= k < info@.len() ==> symbol_summary_ok(m, #[trigger] info@[k]),
        forall|j: int|
            0 <= j < m.len() ==> (exists|k: int|
                0 <= k < info@.len() && (#[trigger] info@[k]).symbol@ == (#[trigger] m[j]).symbol),
    ensures
        r@.len() == info@.len(),
        forall|a: int, b: int|
            0 <= a < b < r@.len() ==> (#[trigger] r@[a]).records_count >= (
            #[trigger] r@[b]).records_count,
        forall|a: int, b: int|
            0 <= a < b < r@.len() ==> (#[trigger] r@[a]).symbol@ != (#[trigger] r@[b]).symbol@,
        forall|k: int| 0 <= k < r@.len() ==> symbol_summary_ok(m, #[trigger] r@[k]),
        forall|j: int|
            0 <= j < m.len() ==> (exists|k: int|
                0 <= k < r@.len() && (#[trigger] r@[k]).symbol@ == (#[trigger] m[j]).symbol),
    {
    let mut rest = info;
    let mut sorted: Vec<SymbolDataInfo> = Vec::new();
    proof {
        assert forall|j: int|
            0 <= j < m.len() implies (exists|k2: int|
            #![trigger sorted@[k2]]
            #![trigger rest@[k2]]
            (0 <= k2 < sorted@.len() && sorted@[k2].symbol@ == (#[trigger] m[j]).symbol) || (0 <= k2
                < rest@.len() && rest@[k2].symbol@ == m[j].symbol)) by {
            let k0 = choose|k0: int|
                0 <= k0 < info@.len() && (#[trigger] info@[k0]).symbol@ == m[j].symbol;
            assert(rest@[k0].symbol@ == m[j].symbol);
        }
    }
    while rest.len() > 0
        invariant
            sorted@.len() + rest@.len() == info@.len(),
            forall|a: int, b: int|
                0 <= a < b < sorted@.len() ==> (#[trigger] sorted@[a]).records_count >= (
                #[trigger] sorted@[b]).records_count,
            forall|a: int, b: int|
                0 <= a < sorted@.len() && 0 <= b < rest@.len() ==> (
                #[trigger] sorted@[a]).records_count >= (#[trigger] rest@[b]).records_count,
            forall|a: int, b: int|
                0 <= a < b < sorted@.len() ==> (#[trigger] sorted@[a]).symbol@ != (
                #[trigger] sorted@[b]).symbol@,
            forall|a: int, b: int|
                0 <= a < b < rest@.len() ==> (#[trigger] rest@[a]).symbol@ != (
                #[trigger] rest@[b]).symbol@,
            forall|a: int, b: int|
                0 <= a < sorted@.len() && 0 <= b < rest@.len() ==> (#[trigger] sorted@[a]).symbol@
                    != (#[trigger] rest@[b]).symbol@,
            forall|k: int| 0 <= k < sorted@.len() ==> symbol_summary_ok(m, #[trigger] sorted@[k]),
            forall|k: int| 0 <= k < rest@.len() ==> symbol_summary_ok(m, #[trigger] rest@[k]),
            forall|j: int|
                0 <= j < m.len() ==> (exists|k: int|
                    #![trigger sorted@[k]]
                    #![trigger rest@[k]]
                    (0 <= k < sorted@.len() && sorted@[k].symbol@ == (#[trigger] m[j]).symbol) || (
                    0 <= k < rest@.len() && rest@[k].symbol@ == m[j].symbol)),
        decreases rest@.len(),
    {
        let n = rest.len();
        let mut mi: usize = 0;
        let mut k: usize = 1;
        while k < n
            invariant
                mi < k <= n,
                n == rest@.len(),
                forall|j: int|
                    0 <= j < k ==> rest@[mi as int].records_count >= (
                    #[trigger] rest@[j]).records_count,
            decreases n - k,
        {
            if rest[k].records_count > rest[mi].records_count {
                mi = k;
            }
            k = k + 1;
        }
        let ghost rest0 = rest@;
        let ghost sorted0 = sorted@;
        let e = rest.remove(mi);
        sorted.push(e);
        proof {
            assert(sorted@ =~= sorted0.push(rest0[mi as int]));
            assert forall|j: int|
                0 <= j < m.len() implies (exists|k2: int|
                #![trigger sorted@[k2]]
                #![trigger rest@[k2]]
                (0 <= k2 < sorted@.len() && sorted@[k2].symbol@ == (#[trigger] m[j]).symbol) || (0
                    <= k2 < rest@.len() && rest@[k2].symbol@ == m[j].symbol)) by {
                let k0 = choose|k0: int|
                    #![trigger sorted0[k0]]
                    #![trigger rest0[k0]]
                    (0 <= k0 < sorted0.len() && sorted0[k0].symbol@ == m[j].symbol) || (0 <= k0
                        < rest0.len() && rest0[k0].symbol@ == m[j].symbol);
                if 0 <= k0 < sorted0.len() && sorted0[k0].symbol@ == m[j].symbol {
                    assert(sorted@[k0].symbol@ == m[j].symbol);
                } else if k0 == mi {
                    assert(sorted@[sorted0.len() as int].symbol@ == m[j].symbol);
                } else if k0 < mi {
                    assert(rest@[k0].symbol@ == m[j].symbol);
                } else {
                    assert(rest@[k0 - 1] == rest0[k0]);
                    assert(rest@[k0 - 1].symbol@ == m[j].symbol);
                }
            }
        }
    }
    proof {
        assert(rest@.len() == 0);
    }
    sorted
}

/// The summary's fields agree with the rows carrying its symbol.
pub open spec fn symbol_summary_ok(m: Seq<TickView>, e: SymbolDataInfo) -> bool {
    let f = m.filter(|t: TickView| t.symbol == e.symbol@);
    &&& f.len() > 0
    &&& e.records_count == f.len()
    &&& (e.earliest_time matches Some(t) && t as int == f[0].timestamp)
    &&& (e.latest_time matches Some(t) && t as int == f.last().timestamp)
    &&& (e.min_price matches Some(p) && p@ == crate::ohlc::low_of(f))
    &&& (e.max_price matches Some(p) && p@ == crate::ohlc::high_of(f))
}

/// Limit applied to a query that names none.
pub const DEFAULT_QUERY_LIMIT: u32 = 1000;

/// Largest number of rows any query returns.
pub const MAX_QUERY_LIMIT: u32 = 10000;

/// Rows per chunk of a batch insert.
pub const MAX_BATCH_SIZE: usize = 1000;

/// Timestamps never decrease along the sequence.
pub open spec fn sorted_asc(s: Seq<TickView>) -> bool {
    forall|i: int, j: int| 0 <= i < j < s.len() ==> s[i].timestamp <= s[j].timestamp
}

/// Some row of `s` has the same (symbol, trade id, timestamp) key as `t`.
pub open spec fn has_key(s: Seq<TickView>, t: TickView) -> bool {
    exists|i: int| 0 <= i < s.len() && tick_same_key(s[i], t)
}

/// No two rows share a key.
pub open spec fn distinct_keys(s: Seq<TickView>) -> bool {
    forall|i: int, j: int| 0 <= i < j < s.len() ==> !tick_same_key(s[i], s[j])
}

/// Number of leading rows with timestamp at most `ts`: where a new row with
/// that timestamp goes in a sorted sequence.
pub open spec fn insert_pos(s: Seq<TickView>, ts: int) -> int
    decreases s.len(),
{
    if s.len() == 0 {
        0
    } else if s[0].timestamp <= ts {
        1 + insert_pos(s.skip(1), ts)
    } else {
        0
    }
}

/// The store after inserting one valid tick: unchanged when its key is
/// already present, otherwise the tick enters at its timestamp's place.
pub open spec fn store_insert_model(s: Seq<TickView>, t: TickView) -> Seq<TickView> {
    if has_key(s, t) {
        s
    } else {
        let p = insert_pos(s, t.timestamp);
        s.take(p) + seq![t] + s.skip(p)
    }
}

/// The store after inserting a whole batch in order.
pub open spec fn store_after_inserts(s: Seq<TickView>, ts: Seq<TickView>) -> Seq<TickView>
    decreases ts.len(),
{
    if ts.len() == 0 {
        s
    } else {
        store_after_inserts(store_insert_model(s, ts[0]), ts.skip(1))
    }
}

/// How many ticks of the batch actually enter the store: later duplicates
/// of an earlier key count zero.
pub open spec fn count_inserted(s: Seq<TickView>, ts: Seq<TickView>) -> int
    decreases ts.len(),
{
    if ts.len() == 0 {
        0
    } else {
        (if has_key(s, ts[0]) {
            0int
        } else {
            1int
        }) + count_inserted(store_insert_model(s, ts[0]), ts.skip(1))
    }
}

/// Every tick of the sequence passes validation.
pub open spec fn all_valid(ts: Seq<TickView>) -> bool {
    forall|i: int| 0 <= i < ts.len() ==> tick_valid(#[trigger] ts[i])
}

/// Idempotent insert: inserting the same tick twice leaves the store as one
/// insert left it.
pub proof fn lemma_insert_idempotent(s: Seq<TickView>, t: TickView)
    ensures
        store_insert_model(store_insert_model(s, t), t) == store_insert_model(s, t),
{
    if !has_key(s, t) {
        let p = insert_pos(s, t.timestamp);
        let s1 = store_insert_model(s, t);
        assert(0 <= p <= s.len()) by {
            lemma_insert_pos_range(s, t.timestamp);
        }
        assert(s1[p] == t);
        assert(has_key(s1, t));
    }
}

proof fn lemma_insert_pos_range(s: Seq<TickView>, ts: int)
    ensures
        0 <= insert_pos(s, ts) <= s.len(),
    decreases s.len(),
{
    if s.len() > 0 && s[0].timestamp <= ts {
        lemma_insert_pos_range(s.skip(1), ts);
    }
}

/// `insert_pos` is `j` when the first `j` rows are at most `ts` and the row
/// at `j`, if any, is past it.
proof fn lemma_insert_pos_at(s: Seq<TickView>, ts: int, j: int)
    requires
        0 <= j <= s.len(),
        forall|k: int| 0 <= k < j ==> s[k].timestamp <= ts,
        j < s.len() ==> s[j].timestamp > ts,
    ensures
        insert_pos(s, ts) == j,
    decreases j,
{
    if j == 0 {
    } else {
        assert(s[0].timestamp <= ts);
        assert(forall|k: int| 0 <= k < j - 1 ==> #[trigger] s.skip(1)[k] == s[k + 1]);
        if j < s.len() {
            assert(s.skip(1)[j - 1] == s[j]);
        }
        lemma_insert_pos_at(s.skip(1), ts, j - 1);
    }
}

/// Every element of a filtered sequence is an element of the original.
proof fn lemma_filter_membership(s: Seq<TickView>, pred: spec_fn(TickView) -> bool, i: int)
    requires
        0 <= i < s.filter(pred).len(),
    ensures
        exists|j: int| 0 <= j < s.len() && s[j] == s.filter(pred)[i],
    decreases s.len(),
{
    reveal(Seq::filter);
    if s.len() == 0 {
    } else {
        let d = s.drop_last();
        if pred(s.last()) && i == s.filter(pred).len() - 1 {
            assert(s[s.len() - 1] == s.filter(pred)[i]);
        } else {
            lemma_filter_membership(d, pred, i);
            let j = choose|j: int| 0 <= j < d.len() && d[j] == d.filter(pred)[i];
            assert(s[j] == s.filter(pred)[i]);
        }
    }
}

/// Filtering keeps the timestamp order.
proof fn lemma_filter_sorted(s: Seq<TickView>, pred: spec_fn(TickView) -> bool)
    requires
        sorted_asc(s),
    ensures
        sorted_asc(s.filter(pred)),
    decreases s.len(),
{
    reveal(Seq::filter);
    if s.len() == 0 {
    } else {
        let d = s.drop_last();
        assert(forall|i: int| 0 <= i < d.len() ==> d[i] == s[i]);
        lemma_filter_sorted(d, pred);
        if pred(s.last()) {
            let f = s.filter(pred);
            assert forall|i: int, j: int| 0 <= i < j < f.len() implies f[i].timestamp
                <= f[j].timestamp by {
                if j < f.len() - 1 {
                    assert(d.filter(pred)[i] == f[i] && d.filter(pred)[j] == f[j]);
                } else {
                    assert(f[j] == s.last());
                    assert(d.filter(pred)[i] == f[i]);
                    lemma_filter_membership(d, pred, i);
                    let k = choose|k: int| 0 <= k < d.len() && d[k] == d.filter(pred)[i];
                    assert(s[k].timestamp <= s[s.len() - 1].timestamp);
                }
            }
        }
    }
}

/// Filtering keeps keys distinct.
proof fn lemma_filter_distinct(s: Seq<TickView>, pred: spec_fn(TickView) -> bool)
    requires
        distinct_keys(s),
        sorted_asc(s),
    ensures
        distinct_keys(s.filter(pred)),
    decreases s.len(),
{
    reveal(Seq::filter);
    if s.len() == 0 {
    } else {
        let d = s.drop_last();
        assert(forall|i: int| 0 <= i < d.len() ==> d[i] == s[i]);
        lemma_filter_distinct(d, pred);
        if pred(s.last()) {
            let f = s.filter(pred);
            assert forall|i: int, j: int| 0 <= i < j < f.len() implies !tick_same_key(
                f[i],
                f[j],
            ) by {
                if j < f.len() - 1 {
                    assert(d.filter(pred)[i] == f[i] && d.filter(pred)[j] == f[j]);
                } else {
                    assert(f[j] == s.last());
                    assert(d.filter(pred)[i] == f[i]);
                    lemma_filter_membership(d, pred, i);
                    let k = choose|k: int| 0 <= k < d.len() && d[k] == d.filter(pred)[i];
                    assert(!tick_same_key(s[k], s[s.len() - 1]));
                }
            }
        }
    }
}

/// The last element matching `pred` is the last element of the filtered
/// sequence.
proof fn lemma_filter_last(s: Seq<TickView>, pred: spec_fn(TickView) -> bool, i: int)
    requires
        0 <= i < s.len(),
        pred(s[i]),
        forall|j: int| i < j < s.len() ==> !pred(#[trigger] s[j]),
    ensures
        s.filter(pred).len() >= 1,
        s.filter(pred).last() == s[i],
    decreases s.len(),
{
    reveal(Seq::filter);
    let d = s.drop_last();
    assert(forall|k: int| 0 <= k < d.len() ==> d[k] == s[k]);
    if i == s.len() - 1 {
        broadcast use vstd::seq_lib::group_filter_ensures;

    } else {
        lemma_filter_last(d, pred, i);
    }
}

/// No element matches: the filtered sequence is empty.
proof fn lemma_filter_empty(s: Seq<TickView>, pred: spec_fn(TickView) -> bool)
    requires
        forall|j: int| 0 <= j < s.len() ==> !pred(#[trigger] s[j]),
    ensures
        s.filter(pred).len() == 0,
    decreases s.len(),
{
    reveal(Seq::filter);
    if s.len() > 0 {
        let d = s.drop_last();
        assert(forall|k: int| 0 <= k < d.len() ==> d[k] == s[k]);
        lemma_filter_empty(d, pred);
    }
}

/// Folding one more insert at the tail of the batch.
proof fn lemma_store_after_inserts_push(s: Seq<TickView>, ts: Seq<TickView>, t: TickView)
    ensures
        store_after_inserts(s, ts.push(t)) == store_insert_model(store_after_inserts(s, ts), t),
        count_inserted(s, ts.push(t)) == count_inserted(s, ts) + (if has_key(
            store_after_inserts(s, ts),
            t,
        ) {
            0int
        } else {
            1int
        }),
    decreases ts.len(),
{
    reveal_with_fuel(store_after_inserts, 3);
    reveal_with_fuel(count_inserted, 3);
    if ts.len() == 0 {
        assert(ts.push(t)[0] == t);
        assert(ts.push(t).skip(1) =~= Seq::<TickView>::empty());
    } else {
        assert(ts.push(t)[0] == ts[0]);
        assert(ts.push(t).skip(1) =~= ts.skip(1).push(t));
        lemma_store_after_inserts_push(store_insert_model(s, ts[0]), ts.skip(1), t);
    }
}

/// The persistent store of ticks, rows in timestamp order.
pub struct TickStore {
    pub rows: Vec<TickData>,
}

impl TickStore {
    /// The rows as mathematical values, oldest first.
    pub open spec fn model(self) -> Seq<TickView> {
        self.rows.deep_view()
    }

    /// Rows are sorted by timestamp, keys are unique, and every row passed
    /// validation.
    pub open spec fn wf(self) -> bool {
        &&& sorted_asc(self.model())
        &&& distinct_keys(self.model())
        &&& all_valid(self.model())
    }

    /// An empty store.
    pub fn new() -> (r: TickStore)
        ensures
            r.wf(),
            r.model() == Seq::<TickView>::empty(),
    {
        let r = TickStore { rows: Vec::new() };
        proof {
            assert(r.model() =~= Seq::<TickView>::empty());
        }
        r
    }

    /// Index of a row with the same key, scanning from the front.
    fn find_key(&self, t: &TickData) -> (r: Option<usize>)
        ensures
            (match r {
                Some(i) => i < self.model().len() && tick_same_key(self.model()[i as int], t@),
                None => !has_key(self.model(), t@),
            }),
    {
        let n = self.rows.len();
        let mut i: usize = 0;
        while i < n
            invariant
                i <= n,
                n == self.rows@.len(),
                forall|j: int| 0 <= j < i ==> !tick_same_key(self.model()[j], t@),
            decreases n - i,
        {
            if self.rows[i].timestamp == t.timestamp && self.rows[i].symbol == t.symbol
                && self.rows[i].trade_id == t.trade_id {
                proof {
                    assert(tick_same_key(self.model()[i as int], t@));
                }
                return Some(i);
            }
            i = i + 1;
        }
        None
    }

    /// Inserts one tick. A tick that fails validation is rejected with a
    /// `Validation` error and the store is untouched. A duplicate key is
    /// ignored: the call succeeds with `false` and the store is unchanged.
    /// Otherwise the row enters at its timestamp's position and the call
    /// returns `true`.
    pub fn insert(&mut self, t: &TickData) -> (r: Result<bool, DataError>)
        requires
            old(self).wf(),
        ensures
            final(self).wf(),
            !tick_valid(t@) ==> (r matches Err(e) && e is Validation && *final(self) == *old(
                self,
            )),
            tick_valid(t@) ==> (r matches Ok(ins) && final(self).model() == store_insert_model(
                old(self).model(),
                t@,
            ) && ins == !has_key(old(self).model(), t@)),
    {
        let ghost s0 = self.model();
        if let Err(e) = validate_tick_data(t) {
            return Err(e);
        }
        if self.find_key(t).is_some() {
            return Ok(false);
        }
        // Find the first row past the new timestamp.
        let n = self.rows.len();
        let mut p: usize = 0;
        while p < n && self.rows[p].timestamp <= t.timestamp
            invariant
                p <= n,
                n == self.rows@.len(),
                forall|k: int| 0 <= k < p ==> self.model()[k].timestamp <= t@.timestamp,
            decreases n - p,
        {
            p = p + 1;
        }
        proof {
            lemma_insert_pos_at(s0, t@.timestamp, p as int);
        }
        self.rows.insert(p, t.duplicate());
        proof {
            assert(self.model() =~= s0.take(p as int) + seq![t@] + s0.skip(p as int));
            let m = self.model();
            assert forall|i: int, j: int| 0 <= i < j < m.len() implies m[i].timestamp
                <= m[j].timestamp by {
                if i < p && j > p {
                    assert(m[i] == s0[i] && m[j] == s0[j - 1]);
                } else if i == p && j > p {
                    assert(m[j] == s0[j - 1]);
                    assert(s0[p as int].timestamp > t@.timestamp);
                } else if i < p && j == p {
                    assert(m[i] == s0[i]);
                }
            }
            assert forall|i: int, j: int| 0 <= i < j < m.len() implies !tick_same_key(
                m[i],
                m[j],
            ) by {
                if i != p && j != p {
                    let i0: int = if i < p {
                        i
                    } else {
                        i - 1
                    };
                    let j0: int = if j < p {
                        j
                    } else {
                        j - 1
                    };
                    assert(m[i] == s0[i0] && m[j] == s0[j0]);
                } else if i == p {
                    assert(m[j] == s0[j - 1]);
                    assert(!has_key(s0, t@));
                } else {
                    assert(m[i] == s0[i]);
                    assert(!has_key(s0, t@));
                }
            }
            assert(all_valid(m)) by {
                assert(forall|i: int|
                    0 <= i < m.len() && i != p ==> m[i] == (if i < p {
                        s0[i]
                    } else {
                        s0[i - 1]
                    }));
            }
        }
        Ok(true)
    }

    /// Inserts a batch. Any invalid tick fails the whole call before the
    /// store is touched; otherwise every tick is inserted in order with
    /// duplicate keys ignored, and the number of rows actually added is
    /// returned.
    pub fn batch_insert(&mut self, ticks: &Vec<TickData>) -> (r: Result<usize, DataError>)
        requires
            old(self).wf(),
        ensures
            final(self).wf(),
            !all_valid(ticks.deep_view()) ==> (r matches Err(e) && e is Validation
                && *final(self) == *old(self)),
            all_valid(ticks.deep_view()) ==> (r matches Ok(c) && final(self).model()
                == store_after_inserts(old(self).model(), ticks.deep_view()) && c
                == count_inserted(old(self).model(), ticks.deep_view())),
    {
        let ghost s0 = self.model();
        let ghost tm = ticks.deep_view();
        let n = ticks.len();
        let mut i: usize = 0;
        while i < n
            invariant
                i <= n,
                n == ticks@.len(),
                tm == ticks.deep_view(),
                self.wf(),
                *self == *old(self),
                forall|j: int| 0 <= j < i ==> tick_valid(#[trigger] tm[j]),
            decreases n - i,
        {
            if let Err(e) = validate_tick_data(&ticks[i]) {
                proof {
                    assert(!tick_valid(tm[i as int]));
                }
                return Err(e);
            }
            proof {
                assert(tick_valid(tm[i as int]));
            }
            i = i + 1;
        }
        let mut inserted: usize = 0;
        let mut k: usize = 0;
        proof {
            assert(tm.take(0) =~= Seq::<TickView>::empty());
        }
        while k < n
            invariant
                k <= n,
                n == ticks@.len(),
                tm == ticks.deep_view(),
                all_valid(tm),
                self.wf(),
                self.model() == store_after_inserts(s0, tm.take(k as int)),
                inserted == count_inserted(s0, tm.take(k as int)),
                inserted <= k,
            decreases n - k,
        {
            let ghost pre = self.model();
            let r = self.insert(&ticks[k]);
            proof {
                assert(tm.take(k + 1) =~= tm.take(k as int).push(tm[k as int]));
                lemma_store_after_inserts_push(s0, tm.take(k as int), tm[k as int]);
            }
            match r {
                Ok(true) => {
                    inserted = inserted + 1;
                },
                Ok(false) => {
                },
                Err(_) => {
                    proof {
                        assert(tick_valid(tm[k as int]));
                        assert(false);
                    }
                },
            }
            k = k + 1;
        }
        proof {
            assert(tm.take(n as int) =~= tm);
        }
        Ok(inserted)
    }

    /// Collects the rows matching the query, in store (timestamp) order.
    fn collect_matches(&self, q: &TickQuery) -> (r: Vec<TickData>)
        ensures
            r.deep_view() == self.model().filter(|t: TickView| query_matches(t, q@)),
    {
        let ghost m = self.model();
        let ghost pred = |t: TickView| query_matches(t, q@);
        let mut out: Vec<TickData> = Vec::new();
        let n = self.rows.len();
        let mut i: usize = 0;
        proof {
            assert(m.take(0) =~= Seq::<TickView>::empty());
            reveal(Seq::filter);
            assert(out.deep_view() =~= m.take(0).filter(pred));
        }
        while i < n
            invariant
                i <= n,
                n == self.rows@.len(),
                m == self.model(),
                out.deep_view() == m.take(i as int).filter(pred),
                pred == (|t: TickView| query_matches(t, q@)),
            decreases n - i,
        {
            let ghost pref = m.take(i as int);
            proof {
                assert(m.take(i + 1) =~= pref.push(m[i as int]));
                reveal_with_fuel(Seq::filter, 2);
                assert(pref.push(m[i as int]).drop_last() =~= pref);
            }
            let row = &self.rows[i];
            let range_ok = (match q.start_time {
                Some(s) => row.timestamp >= s,
                None => true,
            }) && (match q.end_time {
                Some(e) => row.timestamp <= e,
                None => true,
            });
            let side_ok = match q.trade_side {
                Some(s) => {
                    let is_buy = match row.side {
                        crate::tick::TradeSide::Buy => true,
                        crate::tick::TradeSide::Sell => false,
                    };
                    let want_buy = match s {
                        crate::tick::TradeSide::Buy => true,
                        crate::tick::TradeSide::Sell => false,
                    };
                    is_buy == want_buy
                },
                None => true,
            };
            if range_ok && side_ok && row.symbol == q.symbol {
                out.push(row.duplicate());
                proof {
                    assert(out.deep_view() =~= pref.filter(pred).push(m[i as int]));
                }
            }
            i = i + 1;
        }
        proof {
            assert(m.take(n as int) =~= m);
        }
        out
    }

    /// The query limit, defaulted and clamped.
    pub open spec fn clamped_limit(l: Option<int>) -> int {
        match l {
            Some(v) => if v > MAX_QUERY_LIMIT as int {
                MAX_QUERY_LIMIT as int
            } else {
                v
            },
            None => DEFAULT_QUERY_LIMIT as int,
        }
    }

    /// What a range query returns: the most recent matching rows, newest
    /// first, at most the clamped limit of them.
    pub open spec fn query_range_model(s: Seq<TickView>, q: QueryView) -> Seq<TickView> {
        let m = s.filter(|t: TickView| query_matches(t, q));
        let lim = Self::clamped_limit(q.limit);
        let k = if lim <= m.len() {
            lim
        } else {
            m.len() as int
        };
        m.skip(m.len() - k).reverse()
    }

    /// Range query: rows matching symbol, time range and side, ordered by
    /// timestamp newest first, clamped to the limit.
    pub fn query_range(&self, q: &TickQuery) -> (r: Vec<TickData>)
        requires
            self.wf(),
        ensures
            r.deep_view() == Self::query_range_model(self.model(), q@),
            forall|i: int, j: int|
                0 <= i < j < r.deep_view().len() ==> r.deep_view()[i].timestamp
                    >= r.deep_view()[j].timestamp,
    {
        let matches = self.collect_matches(q);
        let ghost fm = self.model().filter(|t: TickView| query_matches(t, q@));
        let lim_u32 = match q.limit {
            Some(v) => if v > MAX_QUERY_LIMIT {
                MAX_QUERY_LIMIT
            } else {
                v
            },
            None => DEFAULT_QUERY_LIMIT,
        };
        let lim = lim_u32 as usize;
        let mlen = matches.len();
        let k = if lim <= mlen {
            lim
        } else {
            mlen
        };
        let mut out: Vec<TickData> = Vec::new();
        let mut i: usize = 0;
        proof {
            assert(out.deep_view() =~= fm.subrange(mlen as int, mlen as int).reverse());
        }
        while i < k
            invariant
                i <= k <= mlen,
                mlen == matches@.len(),
                fm == matches.deep_view(),
                out@.len() == i,
                out.deep_view() == fm.subrange(mlen - i, mlen as int).reverse(),
            decreases k - i,
        {
            let ghost prevv = out@;
            let ghost prevd = out.deep_view();
            out.push(matches[mlen - 1 - i].duplicate());
            proof {
                assert forall|j: int| 0 <= j < i + 1 implies out.deep_view()[j] == fm.subrange(
                    mlen - i - 1,
                    mlen as int,
                ).reverse()[j] by {
                    if j < i {
                        assert(out@[j] == prevv[j]);
                        assert(prevd[j] == prevv[j].deep_view());
                        assert(prevd[j] == fm.subrange(mlen - i, mlen as int).reverse()[j]);
                        assert(fm.subrange(mlen - i, mlen as int).reverse()[j] == fm[mlen - 1
                            - j]);
                        assert(fm.subrange(mlen - i - 1, mlen as int).reverse()[j] == fm[mlen - 1
                            - j]);
                    } else {
                        assert(out.deep_view()[j] == fm[mlen - 1 - i]);
                        assert(fm.subrange(mlen - i - 1, mlen as int).reverse()[j] == fm[mlen - 1
                            - i]);
                    }
                }
                assert(out.deep_view() =~= fm.subrange(mlen - i - 1, mlen as int).reverse());
            }
            i = i + 1;
        }
        proof {
            assert(out.deep_view() =~= fm.skip(fm.len() - k).reverse());
            lemma_filter_sorted(self.model(), |t: TickView| query_matches(t, q@));
        }
        out
    }

    /// What the backtest feed returns: the most recent `count` rows for the
    /// symbol (clamped), oldest first.
    pub open spec fn recent_ticks_model(s: Seq<TickView>, symbol: Seq<char>, count: int) -> Seq<
        TickView,
    > {
        let m = s.filter(|t: TickView| t.symbol == symbol);
        let lim = if count > MAX_QUERY_LIMIT as int {
            MAX_QUERY_LIMIT as int
        } else if count < 0 {
            0
        } else {
            count
        };
        let k = if lim <= m.len() {
            lim
        } else {
            m.len() as int
        };
        m.skip(m.len() - k)
    }

    /// The most recent `count` ticks of the symbol, reversed into ascending
    /// timestamp order for replay.
    pub fn recent_ticks_for_backtest(&self, symbol: &String, count: i64) -> (r: Vec<TickData>)
        requires
            self.wf(),
        ensures
            r.deep_view() == Self::recent_ticks_model(self.model(), symbol@, count as int),
            sorted_asc(r.deep_view()),
    {
        let ghost pred = |t: TickView| t.symbol == symbol@;
        let mut matches: Vec<TickData> = Vec::new();
        let ghost m = self.model();
        let n = self.rows.len();
        let mut i: usize = 0;
        proof {
            assert(m.take(0) =~= Seq::<TickView>::empty());
            reveal(Seq::filter);
            assert(matches.deep_view() =~= m.take(0).filter(pred));
        }
        while i < n
            invariant
                i <= n,
                n == self.rows@.len(),
                m == self.model(),
                matches.deep_view() == m.take(i as int).filter(pred),
                pred == (|t: TickView| t.symbol == symbol@),
            decreases n - i,
        {
            let ghost pref = m.take(i as int);
            proof {
                assert(m.take(i + 1) =~= pref.push(m[i as int]));
                reveal_with_fuel(Seq::filter, 2);
                assert(pref.push(m[i as int]).drop_last() =~= pref);
            }
            if self.rows[i].symbol == *symbol {
                matches.push(self.rows[i].duplicate());
                proof {
                    assert(matches.deep_view() =~= pref.filter(pred).push(m[i as int]));
                }
            }
            i = i + 1;
        }
        proof {
            assert(m.take(n as int) =~= m);
        }
        let ghost fm = m.filter(pred);
        let lim: usize = if count > MAX_QUERY_LIMIT as i64 {
            MAX_QUERY_LIMIT as usize
        } else if count < 0 {
            0
        } else {
            count as usize
        };
        let mlen = matches.len();
        let k = if lim <= mlen {
            lim
        } else {
            mlen
        };
        let from = mlen - k;
        let mut out: Vec<TickData> = Vec::new();
        let mut j: usize = from;
        while j < mlen
            invariant
                from <= j <= mlen,
                mlen == matches@.len(),
                fm == matches.deep_view(),
                out.deep_view() =~= fm.subrange(from as int, j as int),
            decreases mlen - j,
        {
            out.push(matches[j].duplicate());
            proof {
                assert(out.deep_view() =~= fm.subrange(from as int, j as int).push(fm[j as int]));
                assert(fm.subrange(from as int, j as int).push(fm[j as int]) =~= fm.subrange(
                    from as int,
                    j + 1,
                ));
            }
            j = j + 1;
        }
        proof {
            assert(out.deep_view() =~= fm.skip(from as int));
            lemma_filter_sorted(m, pred);
        }
        out
    }

    /// What a historical query returns: matching rows ascending, at most
    /// `limit` of them from the start of the range.
    pub open spec fn historical_model(
        s: Seq<TickView>,
        symbol: Seq<char>,
        start: int,
        end: int,
        limit: Option<int>,
    ) -> Seq<TickView> {
        let m = s.filter(
            |t: TickView| t.symbol == symbol && start <= t.timestamp && t.timestamp <= end,
        );
        let lim = (match limit {
            Some(v) => if v > MAX_QUERY_LIMIT as int {
                MAX_QUERY_LIMIT as int
            } else if v < 0 {
                0
            } else {
                v
            },
            None => MAX_QUERY_LIMIT as int,
        });
        if lim <= m.len() {
            m.take(lim)
        } else {
            m
        }
    }

    /// Ticks of the symbol inside the inclusive time range, oldest first,
    /// clamped to the limit.
    pub fn historical_for_backtest(
        &self,
        symbol: &String,
        start_time: i64,
        end_time: i64,
        limit: Option<i64>,
    ) -> (r: Vec<TickData>)
        requires
            self.wf(),
        ensures
            r.deep_view() == Self::historical_model(
                self.model(),
                symbol@,
                start_time as int,
                end_time as int,
                (match limit {
                    Some(v) => Some(v as int),
                    None => None,
                }),
            ),
            sorted_asc(r.deep_view()),
    {
        let ghost pred = |t: TickView|
            t.symbol == symbol@ && start_time as int <= t.timestamp && t.timestamp
                <= end_time as int;
        let lim: usize = match limit {
            Some(v) => if v > MAX_QUERY_LIMIT as i64 {
                MAX_QUERY_LIMIT as usize
            } else if v < 0 {
                0
            } else {
                v as usize
            },
            None => MAX_QUERY_LIMIT as usize,
        };
        let ghost m = self.model();
        let mut out: Vec<TickData> = Vec::new();
        let n = self.rows.len();
        let mut i: usize = 0;
        proof {
            assert(m.take(0) =~= Seq::<TickView>::empty());
            reveal(Seq::filter);
            assert(out.deep_view() =~= m.take(0).filter(pred));
        }
        while i < n && out.len() < lim
            invariant
                i <= n,
                n == self.rows@.len(),
                m == self.model(),
                out@.len() <= lim,
                out.deep_view() == (if m.take(i as int).filter(pred).len() <= lim {
                    m.take(i as int).filter(pred)
                } else {
                    m.take(i as int).filter(pred).take(lim as int)
                }),
                out@.len() < lim ==> out.deep_view() == m.take(i as int).filter(pred),
                pred == (|t: TickView|
                    t.symbol == symbol@ && start_time as int <= t.timestamp && t.timestamp
                        <= end_time as int),
            decreases n - i,
        {
            let ghost pref = m.take(i as int);
            proof {
                assert(m.take(i + 1) =~= pref.push(m[i as int]));
                reveal_with_fuel(Seq::filter, 2);
                assert(pref.push(m[i as int]).drop_last() =~= pref);
            }
            let row = &self.rows[i];
            if row.symbol == *symbol && row.timestamp >= start_time && row.timestamp <= end_time {
                out.push(row.duplicate());
                proof {
                    assert(out.deep_view() =~= pref.filter(pred).push(m[i as int]));
                }
            }
            proof {
                if out.deep_view().len() > lim {
                    assert(false);
                }
                if out.deep_view().len() == lim {
                    assert(out.deep_view() =~= m.take(i + 1).filter(pred).take(lim as int));
                }
            }
            i = i + 1;
        }
        proof {
            let fm = m.filter(pred);
            if i == n {
                assert(m.take(n as int) =~= m);
                if fm.len() <= lim && lim <= fm.len() {
                    assert(fm.take(lim as int) =~= fm);
                }
            } else {
                // Stopped early: the limit is reached, and what was collected
                // is exactly the first `lim` matches.
                assert(out@.len() == lim);
                assert(out.deep_view() =~= m.take(i as int).filter(pred).take(lim as int));
                lemma_filter_prefix_of(m, pred, i as int);
                assert(m.take(i as int).filter(pred) =~= fm.take(
                    m.take(i as int).filter(pred).len() as int,
                ));
                assert(m.take(i as int).filter(pred).take(lim as int) =~= fm.take(lim as int));
            }
            lemma_filter_sorted(m, pred);
        }
        out
    }

    /// The price of the most recent row for the symbol, when any.
    pub open spec fn latest_price_model(s: Seq<TickView>, symbol: Seq<char>) -> Option<int> {
        let m = s.filter(|t: TickView| t.symbol == symbol);
        if m.len() == 0 {
            None
        } else {
            Some(m.last().price)
        }
    }

    /// Price of the most recent tick of the symbol, or `None` when the store
    /// has no row for it.
    pub fn latest_price(&self, symbol: &String) -> (r: Option<Dec>)
        requires
            self.wf(),
        ensures
            (match r {
                Some(p) => Self::latest_price_model(self.model(), symbol@) == Some(p@),
                None => Self::latest_price_model(self.model(), symbol@) is None,
            }),
    {
        let ghost pred = |t: TickView| t.symbol == symbol@;
        let ghost m = self.model();
        let n = self.rows.len();
        let mut i: usize = n;
        while i > 0
            invariant
                i <= n,
                n == self.rows@.len(),
                m == self.model(),
                forall|j: int| i <= j < n ==> !pred(#[trigger] m[j]),
                pred == (|t: TickView| t.symbol == symbol@),
            decreases i,
        {
            i = i - 1;
            if self.rows[i].symbol == *symbol {
                proof {
                    lemma_filter_last(m, pred, i as int);
                }
                return Some(self.rows[i].price);
            }
        }
        proof {
            lemma_filter_empty(m, pred);
        }
        None
    }

    /// What the statistics report for a symbol filter: row count and the
    /// first and last timestamps of the matching rows.
    pub open spec fn stats_model(m: Seq<TickView>) -> (int, Option<int>, Option<int>) {
        if m.len() == 0 {
            (0int, None, None)
        } else {
            (m.len() as int, Some(m[0].timestamp), Some(m.last().timestamp))
        }
    }

    /// Row count and time range, over the whole store or one symbol.
    pub fn get_db_stats(&self, symbol: Option<&String>) -> (r: DbStats)
        requires
            self.wf(),
        ensures
            ({
                let m = (match symbol {
                    Some(s) => self.model().filter(|t: TickView| t.symbol == s@),
                    None => self.model(),
                });
                let (count, earliest, latest) = Self::stats_model(m);
                &&& r.total_records == count
                &&& (match (r.earliest_timestamp, earliest) {
                    (Some(a), Some(b)) => a == b,
                    (None, None) => true,
                    _ => false,
                })
                &&& (match (r.latest_timestamp, latest) {
                    (Some(a), Some(b)) => a == b,
                    (None, None) => true,
                    _ => false,
                })
                &&& (match (symbol, &r.symbol) {
                    (Some(s), Some(rs)) => rs@ == s@,
                    (None, None) => true,
                    _ => false,
                })
            }),
    {
        match symbol {
            Some(s) => {
                let ghost pred = |t: TickView| t.symbol == s@;
                let ghost m = self.model();
                let mut count: u64 = 0;
                let mut earliest: Option<i64> = None;
                let mut latest: Option<i64> = None;
                let n = self.rows.len();
                let mut i: usize = 0;
                proof {
                    assert(m.take(0) =~= Seq::<TickView>::empty());
                    reveal(Seq::filter);
                }
                while i < n
                    invariant
                        i <= n,
                        n == self.rows@.len(),
                        m == self.model(),
                        count == m.take(i as int).filter(pred).len(),
                        count <= i,
                        (match earliest {
                            Some(e) => m.take(i as int).filter(pred).len() > 0 && e as int
                                == m.take(i as int).filter(pred)[0].timestamp,
                            None => m.take(i as int).filter(pred).len() == 0,
                        }),
                        (match latest {
                            Some(l) => m.take(i as int).filter(pred).len() > 0 && l as int
                                == m.take(i as int).filter(pred).last().timestamp,
                            None => m.take(i as int).filter(pred).len() == 0,
                        }),
                        pred == (|t: TickView| t.symbol == s@),
                    decreases n - i,
                {
                    let ghost pref = m.take(i as int);
                    proof {
                        assert(m.take(i + 1) =~= pref.push(m[i as int]));
                        reveal_with_fuel(Seq::filter, 2);
                        assert(pref.push(m[i as int]).drop_last() =~= pref);
                        pref.lemma_filter_len(pred);
                    }
                    if self.rows[i].symbol == *s {
                        count = count + 1;
                        if earliest.is_none() {
                            earliest = Some(self.rows[i].timestamp);
                        }
                        latest = Some(self.rows[i].timestamp);
                        proof {
                            assert(m.take(i + 1).filter(pred) =~= pref.filter(pred).push(
                                m[i as int],
                            ));
                        }
                    }
                    i = i + 1;
                }
                proof {
                    assert(m.take(n as int) =~= m);
                }
                DbStats {
                    symbol: Some(clone_string(s)),
                    total_records: count,
                    earliest_timestamp: earliest,
                    latest_timestamp: latest,
                }
            },
            None => {
                let n = self.rows.len();
                if n == 0 {
                    DbStats {
                        symbol: None,
                        total_records: 0,
                        earliest_timestamp: None,
                        latest_timestamp: None,
                    }
                } else {
                    DbStats {
                        symbol: None,
                        total_records: n as u64,
                        earliest_timestamp: Some(self.rows[0].timestamp),
                        latest_timestamp: Some(self.rows[n - 1].timestamp),
                    }
                }
            },
        }
    }

    /// Per-symbol and overall statistics for choosing backtest data. Every
    /// stored symbol gets exactly one summary; each summary carries the
    /// count, time range and price range of that symbol's rows; the
    /// summaries come ordered by descending row count.
    pub fn get_backtest_data_info(&self) -> (r: BacktestDataInfo)
        requires
            self.wf(),
        ensures
            r.total_records == self.model().len(),
            r.symbols_count == r.symbol_info@.len(),
            forall|a: int, b: int|
                0 <= a < b < r.symbol_info@.len() ==> (#[trigger] r.symbol_info@[a]).records_count
                    >= (#[trigger] r.symbol_info@[b]).records_count,
            self.model().len() > 0 ==> (r.earliest_time matches Some(e) && e as int
                == self.model()[0].timestamp),
            self.model().len() > 0 ==> (r.latest_time matches Some(l) && l as int
                == self.model().last().timestamp),
            self.model().len() == 0 ==> r.earliest_time is None && r.latest_time is None
                && r.symbol_info@.len() == 0,
            forall|a: int, b: int|
                0 <= a < b < r.symbol_info@.len() ==> (#[trigger] r.symbol_info@[a]).symbol@ != (
                #[trigger] r.symbol_info@[b]).symbol@,
            forall|j: int|
                0 <= j < self.model().len() ==> (exists|k: int|
                    0 <= k < r.symbol_info@.len() && (#[trigger] r.symbol_info@[k]).symbol@ == (
                    #[trigger] self.model()[j]).symbol),
            forall|k: int|
                0 <= k < r.symbol_info@.len() ==> symbol_summary_ok(
                    self.model(),
                    #[trigger] r.symbol_info@[k],
                ),
    {
        let ghost m = self.model();
        let mut info: Vec<SymbolDataInfo> = Vec::new();
        let n = self.rows.len();
        let mut i: usize = 0;
        proof {
            assert(m.take(0) =~= Seq::<TickView>::empty());
            reveal(Seq::filter);
        }
        while i < n
            invariant
                i <= n,
                n == self.rows@.len(),
                m == self.model(),
                forall|a: int, b: int|
                    0 <= a < b < info@.len() ==> (#[trigger] info@[a]).symbol@ != (
                    #[trigger] info@[b]).symbol@,
                forall|j: int|
                    0 <= j < i ==> (exists|k: int|
                        0 <= k < info@.len() && (#[trigger] info@[k]).symbol@ == (
                        #[trigger] m[j]).symbol),
                forall|k: int|
                    0 <= k < info@.len() ==> symbol_summary_ok(
                        m.take(i as int),
                        #[trigger] info@[k],
                    ),
                forall|k: int| 0 <= k < info@.len() ==> (#[trigger] info@[k]).records_count <= i,
                info@.len() <= i,
            decreases n - i,
        {
            let ghost pref = m.take(i as int);
            proof {
                assert(m.take(i + 1) =~= pref.push(m[i as int]));
                reveal_with_fuel(Seq::filter, 2);
                assert(pref.push(m[i as int]).drop_last() =~= pref);
            }
            let row = &self.rows[i];
            let mut found: Option<usize> = None;
            let cnt = info.len();
            let mut k: usize = 0;
            while k < cnt && found.is_none()
                invariant
                    k <= cnt,
                    cnt == info@.len(),
                    (match found {
                        Some(f) => f < cnt && info@[f as int].symbol@ == row.symbol@,
                        None => forall|j: int|
                            0 <= j < k ==> (#[trigger] info@[j]).symbol@ != row.symbol@,
                    }),
                decreases cnt - k + (if found is None {
                    1int
                } else {
                    0int
                }),
            {
                if info[k].symbol == row.symbol {
                    found = Some(k);
                } else {
                    k = k + 1;
                }
            }
            match found {
                Some(f) => {
                    let ghost entries0 = info@;
                    let mut entry = info.remove(f);
                    proof {
                        let fpred = |t: TickView| t.symbol == entry.symbol@;
                        assert(pref.filter(fpred).len() > 0);
                        pref.lemma_filter_len(fpred);
                    }
                    entry.records_count = entry.records_count + 1;
                    entry.latest_time = Some(row.timestamp);
                    match &entry.min_price {
                        Some(p) => {
                            if row.price.units < p.units {
                                entry.min_price = Some(row.price);
                            }
                        },
                        None => {
                            entry.min_price = Some(row.price);
                        },
                    }
                    match &entry.max_price {
                        Some(p) => {
                            if row.price.units > p.units {
                                entry.max_price = Some(row.price);
                            }
                        },
                        None => {
                            entry.max_price = Some(row.price);
                        },
                    }
                    info.insert(f, entry);
                    proof {
                        assert(info@ =~= entries0.update(f as int, entry));
                        assert(entry.symbol@ == entries0[f as int].symbol@);
                        assert forall|k2: int|
                            0 <= k2 < info@.len() implies (#[trigger] info@[k2]).symbol@
                            == entries0[k2].symbol@ by {
                            if k2 != f {
                                assert(info@[k2] == entries0[k2]);
                            }
                        }
                        assert forall|k2: int|
                            0 <= k2 < info@.len() implies symbol_summary_ok(
                            m.take(i + 1),
                            #[trigger] info@[k2],
                        ) by {
                            let e = info@[k2];
                            let fpred = |t: TickView| t.symbol == e.symbol@;
                            assert(symbol_summary_ok(pref, entries0[k2]));
                            if k2 == f {
                                assert(m.take(i + 1).filter(fpred) =~= pref.filter(fpred).push(
                                    m[i as int],
                                ));
                                assert(pref.filter(fpred).push(m[i as int]).drop_last() =~=
                                pref.filter(fpred));
                            } else {
                                assert(entries0[k2] == info@[k2]);
                                assert(entries0[k2].symbol@ != entries0[f as int].symbol@);
                                assert(e.symbol@ != row.symbol@);
                                assert(m.take(i + 1).filter(fpred) =~= pref.filter(fpred));
                            }
                        }
                        assert forall|j: int|
                            0 <= j < i + 1 implies (exists|k2: int|
                            0 <= k2 < info@.len() && (#[trigger] info@[k2]).symbol@ == (
                            #[trigger] m[j]).symbol) by {
                            if j < i {
                                let k0 = choose|k0: int|
                                    0 <= k0 < entries0.len() && (#[trigger] entries0[k0]).symbol@
                                        == m[j].symbol;
                                assert(info@[k0].symbol@ == m[j].symbol);
                            } else {
                                assert(info@[f as int].symbol@ == m[j].symbol);
                            }
                        }
                    }
                },
                None => {
                    let entry = SymbolDataInfo {
                        symbol: clone_string(&row.symbol),
                        records_count: 1,
                        earliest_time: Some(row.timestamp),
                        latest_time: Some(row.timestamp),
                        min_price: Some(row.price),
                        max_price: Some(row.price),
                    };
                    let ghost entries0 = info@;
                    proof {
                        assert(forall|j: int|
                            0 <= j < entries0.len() ==> (#[trigger] entries0[j]).symbol@
                                != row.symbol@);
                    }
                    info.push(entry);
                    proof {
                        assert(info@ =~= entries0.push(entry));
                        assert(entry.symbol@ == row.symbol@);
                        assert forall|k2: int|
                            0 <= k2 < info@.len() implies symbol_summary_ok(
                            m.take(i + 1),
                            #[trigger] info@[k2],
                        ) by {
                            let e = info@[k2];
                            let fpred = |t: TickView| t.symbol == e.symbol@;
                            if k2 < entries0.len() {
                                assert(entries0[k2] == info@[k2]);
                                assert(symbol_summary_ok(pref, entries0[k2]));
                                assert(e.symbol@ != row.symbol@);
                                assert(m.take(i + 1).filter(fpred) =~= pref.filter(fpred));
                            } else {
                                assert(e == entry);
                                assert forall|j: int|
                                    0 <= j < pref.len() implies !fpred(#[trigger] pref[j]) by {
                                    assert(pref[j] == m[j]);
                                    if pref[j].symbol == e.symbol@ {
                                        let k3 = choose|k3: int|
                                            0 <= k3 < entries0.len() && (
                                            #[trigger] entries0[k3]).symbol@ == m[j].symbol;
                                        assert(false);
                                    }
                                }
                                lemma_filter_empty(pref, fpred);
                                assert(m.take(i + 1).filter(fpred) =~= Seq::<
                                    TickView,
                                >::empty().push(m[i as int]));
                            }
                        }
                        assert forall|j: int|
                            0 <= j < i + 1 implies (exists|k2: int|
                            0 <= k2 < info@.len() && (#[trigger] info@[k2]).symbol@ == (
                            #[trigger] m[j]).symbol) by {
                            if j < i {
                                let k0 = choose|k0: int|
                                    0 <= k0 < entries0.len() && (#[trigger] entries0[k0]).symbol@
                                        == m[j].symbol;
                                assert(info@[k0] == entries0[k0]);
                                assert(info@[k0].symbol@ == m[j].symbol);
                            } else {
                                assert(info@[entries0.len() as int].symbol@ == m[j].symbol);
                            }
                        }
                        assert forall|a: int, b: int|
                            0 <= a < b < info@.len() implies (#[trigger] info@[a]).symbol@ != (
                        #[trigger] info@[b]).symbol@ by {
                            if b < entries0.len() {
                                assert(info@[a] == entries0[a]);
                                assert(info@[b] == entries0[b]);
                            } else {
                                assert(info@[a] == entries0[a]);
                                assert(info@[b] == entry);
                            }
                        }
                    }
                },
            }
            i = i + 1;
        }
        proof {
            assert(m.take(n as int) =~= m);
        }
        let total = self.rows.len() as u64;
        let (earliest, latest) = if self.rows.len() == 0 {
            (None, None)
        } else {
            (Some(self.rows[0].timestamp), Some(self.rows[self.rows.len() - 1].timestamp))
        };
        let info = sort_by_count_desc(info, Ghost(m));
        let symbols_count = info.len() as u64;
        BacktestDataInfo {
            total_records: total,
            symbols_count,
            earliest_time: earliest,
            latest_time: latest,
            symbol_info: info,
        }
    }

    /// Drops every row strictly older than the cutoff; returns how many
    /// rows were removed.
    pub fn cleanup_old_data(&mut self, cutoff: i64) -> (r: u64)
        requires
            old(self).wf(),
        ensures
            final(self).wf(),
            final(self).model() == old(self).model().filter(
                |t: TickView| t.timestamp >= cutoff as int,
            ),
            r == old(self).model().len() - final(self).model().len(),
    {
        let ghost pred = |t: TickView| t.timestamp >= cutoff as int;
        let ghost m = self.model();
        let mut kept: Vec<TickData> = Vec::new();
        let n = self.rows.len();
        let mut i: usize = 0;
        proof {
            assert(m.take(0) =~= Seq::<TickView>::empty());
            reveal(Seq::filter);
            assert(kept.deep_view() =~= m.take(0).filter(pred));
        }
        while i < n
            invariant
                i <= n,
                n == self.rows@.len(),
                m == self.model(),
                kept.deep_view() == m.take(i as int).filter(pred),
                kept@.len() <= i,
                pred == (|t: TickView| t.timestamp >= cutoff as int),
            decreases n - i,
        {
            let ghost pref = m.take(i as int);
            proof {
                assert(m.take(i + 1) =~= pref.push(m[i as int]));
                reveal_with_fuel(Seq::filter, 2);
                assert(pref.push(m[i as int]).drop_last() =~= pref);
                pref.lemma_filter_len(pred);
            }
            if self.rows[i].timestamp >= cutoff {
                kept.push(self.rows[i].duplicate());
                proof {
                    assert(kept.deep_view() =~= pref.filter(pred).push(m[i as int]));
                }
            }
            i = i + 1;
        }
        let removed = (n - kept.len()) as u64;
        self.rows = kept;
        proof {
            assert(m.take(n as int) =~= m);
            lemma_filter_sorted(m, pred);
            lemma_filter_distinct(m, pred);
            assert forall|j: int| 0 <= j < self.model().len() implies tick_valid(
                #[trigger] self.model()[j],
            ) by {
                lemma_filter_membership(m, pred, j);
            }
        }
        removed
    }
}

/// An element of a historical query's answer is an element of the store
/// and lies inside the requested range.
pub proof fn lemma_historical_member(
    s: Seq<TickView>,
    symbol: Seq<char>,
    start: int,
    end: int,
    limit: Option<int>,
    j: int,
)
    requires
        0 <= j < TickStore::historical_model(s, symbol, start, end, limit).len(),
    ensures
        exists|k: int|
            0 <= k < s.len() && s[k] == TickStore::historical_model(s, symbol, start, end, limit)[j],
        start <= TickStore::historical_model(s, symbol, start, end, limit)[j].timestamp <= end,
{
    let pred = |t: TickView| t.symbol == symbol && start <= t.timestamp && t.timestamp <= end;
    let f = s.filter(pred);
    let hist = TickStore::historical_model(s, symbol, start, end, limit);
    assert(hist[j] == f[j]);
    s.lemma_filter_pred(pred, j);
    lemma_filter_membership(s, pred, j);
}

/// A filter over a prefix closed under the scan: when every later row is
/// irrelevant for reaching the limit, the prefix's matches are a prefix of
/// the whole sequence's matches.
proof fn lemma_filter_prefix_of(s: Seq<TickView>, pred: spec_fn(TickView) -> bool, i: int)
    requires
        0 <= i <= s.len(),
    ensures
        s.filter(pred).take(s.take(i).filter(pred).len() as int) =~= s.take(i).filter(pred),
        s.take(i).filter(pred).len() <= s.filter(pred).len(),
    decreases s.len() - i,
{
    if i == s.len() {
        assert(s.take(i) =~= s);
    } else {
        let p1 = s.take(i + 1);
        assert(p1.drop_last() =~= s.take(i));
        assert(p1.last() == s[i]);
        reveal(Seq::filter);
        lemma_filter_prefix_of(s, pred, i + 1);
    }
}

} // verus!
