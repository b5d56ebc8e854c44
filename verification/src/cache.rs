//! In-process cache tier: one bounded FIFO ring of recent ticks per symbol.
//!
//! Writes append at the tail; once a ring is full, each write evicts the
//! oldest tick at the head. Reads return a suffix of the ring, so the most
//! recent ticks come back oldest first. The remote tier lives outside the
//! process; `merge_remote_ticks` below folds its answer into a memory read.

use vstd::prelude::*;
use crate::tick::{TickData, TickView};

verus! {

/// The ring of recent ticks kept for one symbol, oldest first.
pub struct SymbolRing {
    pub symbol: String,
    pub ticks: Vec<TickData>,
}

/// The memory tier: per-symbol rings bounded by `max_ticks_per_symbol`.
pub struct MemoryCache {
    pub max_ticks_per_symbol: usize,
    pub ttl_seconds: u64,
    pub rings: Vec<SymbolRing>,
}

/// Ring contents recorded for `sym`, or the empty sequence: the first
/// matching entry decides.
pub open spec fn contents_of(rings: Seq<SymbolRing>, sym: Seq<char>) -> Seq<TickView>
    decreases rings.len(),
{
    if rings.len() == 0 {
        Seq::empty()
    } else if rings[0].symbol@ == sym {
        rings[0].ticks.deep_view()
    } else {
        contents_of(rings.skip(1), sym)
    }
}

/// A ring after one push: the tick goes to the tail, and when the ring is
/// already at capacity the head is evicted.
pub open spec fn ring_after_push(s: Seq<TickView>, t: TickView, cap: nat) -> Seq<TickView> {
    if s.len() < cap {
        s.push(t)
    } else {
        s.skip(1).push(t)
    }
}

/// A ring after pushing a whole sequence of ticks in order, starting empty.
pub open spec fn ring_after_pushes(ticks: Seq<TickView>, cap: nat) -> Seq<TickView>
    decreases ticks.len(),
{
    if ticks.len() == 0 {
        Seq::empty()
    } else {
        ring_after_push(ring_after_pushes(ticks.drop_last(), cap), ticks.last(), cap)
    }
}

/// Cache ring bound: after K pushes for one symbol the ring holds exactly
/// `min(K, capacity)` ticks, and they are the last K-pushed ticks in push
/// order, so its head is the oldest tick not yet evicted.
pub proof fn lemma_cache_ring_bound(ticks: Seq<TickView>, cap: nat)
    requires
        cap >= 1,
    ensures
        ring_after_pushes(ticks, cap).len() == (if ticks.len() <= cap {
            ticks.len()
        } else {
            cap
        }),
        ring_after_pushes(ticks, cap) =~= ticks.skip(
            (if ticks.len() <= cap {
                0
            } else {
                ticks.len() - cap
            }),
        ),
    decreases ticks.len(),
{
    if ticks.len() == 0 {
    } else {
        lemma_cache_ring_bound(ticks.drop_last(), cap);
        let prev = ring_after_pushes(ticks.drop_last(), cap);
        if prev.len() < cap {
            assert(ring_after_pushes(ticks, cap) =~= prev.push(ticks.last()));
        } else {
            assert(ring_after_pushes(ticks, cap) =~= prev.skip(1).push(ticks.last()));
        }
    }
}

proof fn lemma_contents_of_found(rings: Seq<SymbolRing>, sym: Seq<char>, i: int)
    requires
        0 <= i < rings.len(),
        rings[i].symbol@ == sym,
        forall|j: int| 0 <= j < i ==> rings[j].symbol@ != sym,
    ensures
        contents_of(rings, sym) == rings[i].ticks.deep_view(),
    decreases i,
{
    if i == 0 {
    } else {
        assert(rings.skip(1)[i - 1] == rings[i]);
        assert(forall|j: int| 0 <= j < i - 1 ==> #[trigger] rings.skip(1)[j] == rings[j + 1]);
        lemma_contents_of_found(rings.skip(1), sym, i - 1);
    }
}

proof fn lemma_contents_of_absent(rings: Seq<SymbolRing>, sym: Seq<char>)
    requires
        forall|j: int| 0 <= j < rings.len() ==> rings[j].symbol@ != sym,
    ensures
        contents_of(rings, sym) == Seq::<TickView>::empty(),
    decreases rings.len(),
{
    if rings.len() == 0 {
    } else {
        assert(forall|j: int|
            0 <= j < rings.len() - 1 ==> #[trigger] rings.skip(1)[j] == rings[j + 1]);
        lemma_contents_of_absent(rings.skip(1), sym);
    }
}

proof fn lemma_contents_of_update_other(
    rings: Seq<SymbolRing>,
    i: int,
    entry: SymbolRing,
    s: Seq<char>,
)
    requires
        0 <= i < rings.len(),
        entry.symbol@ == rings[i].symbol@,
        s != rings[i].symbol@,
    ensures
        contents_of(rings.update(i, entry), s) == contents_of(rings, s),
    decreases i,
{
    if i == 0 {
        assert(rings.update(0, entry).skip(1) =~= rings.skip(1));
    } else {
        if rings[0].symbol@ == s {
            assert(rings.update(i, entry)[0] == rings[0]);
        } else {
            assert(rings.update(i, entry).skip(1) =~= rings.skip(1).update(i - 1, entry));
            lemma_contents_of_update_other(rings.skip(1), i - 1, entry, s);
        }
    }
}

proof fn lemma_contents_of_append_target(rings: Seq<SymbolRing>, entry: SymbolRing)
    requires
        forall|j: int| 0 <= j < rings.len() ==> rings[j].symbol@ != entry.symbol@,
    ensures
        contents_of(rings.push(entry), entry.symbol@) == entry.ticks.deep_view(),
    decreases rings.len(),
{
    if rings.len() == 0 {
        assert(rings.push(entry)[0] == entry);
    } else {
        assert(forall|j: int|
            0 <= j < rings.len() - 1 ==> #[trigger] rings.skip(1)[j] == rings[j + 1]);
        assert(rings.push(entry).skip(1) =~= rings.skip(1).push(entry));
        lemma_contents_of_append_target(rings.skip(1), entry);
    }
}

proof fn lemma_contents_of_append_other(rings: Seq<SymbolRing>, entry: SymbolRing, s: Seq<char>)
    requires
        s != entry.symbol@,
    ensures
        contents_of(rings.push(entry), s) == contents_of(rings, s),
    decreases rings.len(),
{
    if rings.len() == 0 {
        reveal_with_fuel(contents_of, 3);
        assert(rings.push(entry)[0] == entry);
        assert(rings.push(entry).skip(1) =~= Seq::<SymbolRing>::empty());
    } else {
        if rings[0].symbol@ == s {
            assert(rings.push(entry)[0] == rings[0]);
        } else {
            assert(rings.push(entry).skip(1) =~= rings.skip(1).push(entry));
            lemma_contents_of_append_other(rings.skip(1), entry, s);
        }
    }
}

proof fn lemma_contents_of_remove_other(rings: Seq<SymbolRing>, i: int, s: Seq<char>)
    requires
        0 <= i < rings.len(),
        s != rings[i].symbol@,
    ensures
        contents_of(rings.remove(i), s) == contents_of(rings, s),
    decreases i,
{
    if i == 0 {
        assert(rings.remove(0) =~= rings.skip(1));
    } else {
        if rings[0].symbol@ == s {
            assert(rings.remove(i)[0] == rings[0]);
        } else {
            assert(rings.remove(i).skip(1) =~= rings.skip(1).remove(i - 1));
            lemma_contents_of_remove_other(rings.skip(1), i - 1, s);
        }
    }
}

impl MemoryCache {
    /// Symbols appear at most once, no ring exceeds the capacity, and every
    /// tick in a ring carries the ring's symbol.
    pub open spec fn wf(self) -> bool {
        &&& self.max_ticks_per_symbol >= 1
        &&& forall|i: int, j: int|
            0 <= i < j < self.rings@.len() ==> self.rings@[i].symbol@ != self.rings@[j].symbol@
        &&& forall|i: int|
            0 <= i < self.rings@.len() ==> #[trigger] self.rings@[i].ticks@.len()
                <= self.max_ticks_per_symbol
        &&& forall|i: int, k: int|
            0 <= i < self.rings@.len() && 0 <= k < self.rings@[i].ticks@.len()
                ==> (#[trigger] self.rings@[i].ticks.deep_view()[k]).symbol
                == self.rings@[i].symbol@
    }

    /// The ticks currently cached for a symbol, oldest first.
    pub open spec fn contents(self, sym: Seq<char>) -> Seq<TickView> {
        contents_of(self.rings@, sym)
    }

    /// An empty cache with the given per-symbol capacity and TTL.
    pub fn new(max_ticks_per_symbol: usize, ttl_seconds: u64) -> (r: MemoryCache)
        requires
            max_ticks_per_symbol >= 1,
        ensures
            r.wf(),
            r.max_ticks_per_symbol == max_ticks_per_symbol,
            r.ttl_seconds == ttl_seconds,
            forall|s: Seq<char>| r.contents(s) == Seq::<TickView>::empty(),
    {
        let r = MemoryCache { max_ticks_per_symbol, ttl_seconds, rings: Vec::new() };
        proof {
            assert forall|s: Seq<char>| r.contents(s) == Seq::<TickView>::empty() by {
                lemma_contents_of_absent(r.rings@, s);
            }
        }
        r
    }

    /// Index of the ring for the symbol, scanning from the front.
    fn find_ring(&self, symbol: &String) -> (r: Option<usize>)
        ensures
            (match r {
                Some(i) => i < self.rings@.len() && self.rings@[i as int].symbol@ == symbol@
                    && (forall|j: int| 0 <= j < i ==> self.rings@[j].symbol@ != symbol@),
                None => forall|j: int| 0 <= j < self.rings@.len() ==> self.rings@[j].symbol@ != symbol@,
            }),
    {
        let n = self.rings.len();
        let mut i: usize = 0;
        while i < n
            invariant
                i <= n,
                n == self.rings@.len(),
                forall|j: int| 0 <= j < i ==> self.rings@[j].symbol@ != symbol@,
            decreases n - i,
        {
            if self.rings[i].symbol == *symbol {
                return Some(i);
            }
            i = i + 1;
        }
        None
    }

    /// Records one tick: appended at the tail of its symbol's ring, evicting
    /// the head when the ring was full. Other symbols are untouched.
    pub fn push_tick(&mut self, t: &TickData)
        requires
            old(self).wf(),
        ensures
            final(self).wf(),
            final(self).max_ticks_per_symbol == old(self).max_ticks_per_symbol,
            final(self).ttl_seconds == old(self).ttl_seconds,
            final(self).contents(t.symbol@) == ring_after_push(
                old(self).contents(t.symbol@),
                t@,
                old(self).max_ticks_per_symbol as nat,
            ),
            forall|s: Seq<char>|
                s != t.symbol@ ==> final(self).contents(s) == old(self).contents(s),
    {
        let ghost rings0 = self.rings@;
        let cap = self.max_ticks_per_symbol;
        match self.find_ring(&t.symbol) {
            Some(i) => {
                proof {
                    lemma_contents_of_found(rings0, t.symbol@, i as int);
                }
                let mut entry = self.rings.remove(i);
                let ghost ring0 = entry.ticks.deep_view();
                entry.ticks.push(t.duplicate());
                if entry.ticks.len() > cap {
                    entry.ticks.remove(0);
                    proof {
                        assert(entry.ticks.deep_view() =~= ring0.skip(1).push(t@));
                    }
                } else {
                    proof {
                        assert(entry.ticks.deep_view() =~= ring0.push(t@));
                    }
                }
                self.rings.insert(i, entry);
                proof {
                    assert(self.rings@ =~= rings0.update(i as int, entry));
                    lemma_contents_of_found(self.rings@, t.symbol@, i as int);
                    assert forall|s: Seq<char>|
                        s != t.symbol@ implies contents_of(self.rings@, s) == contents_of(
                        rings0,
                        s,
                    ) by {
                        lemma_contents_of_update_other(rings0, i as int, entry, s);
                    }
                }
            },
            None => {
                proof {
                    lemma_contents_of_absent(rings0, t.symbol@);
                }
                let mut ticks: Vec<TickData> = Vec::new();
                ticks.push(t.duplicate());
                let entry = SymbolRing { symbol: t.symbol.clone(), ticks };
                proof {
                    assert(entry.ticks.deep_view() =~= Seq::<TickView>::empty().push(t@));
                }
                self.rings.push(entry);
                proof {
                    assert(self.rings@ =~= rings0.push(entry));
                    lemma_contents_of_append_target(rings0, entry);
                    assert forall|s: Seq<char>|
                        s != t.symbol@ implies contents_of(self.rings@, s) == contents_of(
                        rings0,
                        s,
                    ) by {
                        lemma_contents_of_append_other(rings0, entry, s);
                    }
                }
            },
        }
    }

    /// Returns up to `count` of the most recent ticks for the symbol,
    /// oldest first: the tail of its ring.
    pub fn get_recent_ticks(&self, symbol: &String, count: usize) -> (r: Vec<TickData>)
        ensures
            r.deep_view() == self.contents(symbol@).skip(
                (if self.contents(symbol@).len() <= count {
                    0
                } else {
                    self.contents(symbol@).len() - count
                }),
            ),
    {
        let ghost model = self.contents(symbol@);
        let mut out: Vec<TickData> = Vec::new();
        match self.find_ring(symbol) {
            Some(i) => {
                proof {
                    lemma_contents_of_found(self.rings@, symbol@, i as int);
                }
                let ring = &self.rings[i].ticks;
                let len = ring.len();
                let from: usize = if len <= count {
                    0
                } else {
                    len - count
                };
                let mut j: usize = from;
                while j < len
                    invariant
                        from <= j <= len,
                        len == ring@.len(),
                        model == ring.deep_view(),
                        out.deep_view() =~= model.subrange(from as int, j as int),
                    decreases len - j,
                {
                    out.push(ring[j].duplicate());
                    proof {
                        assert(out.deep_view() =~= model.subrange(from as int, j as int).push(
                            model[j as int],
                        ));
                        assert(model.subrange(from as int, j as int).push(model[j as int]) =~=
                        model.subrange(from as int, j + 1));
                    }
                    j = j + 1;
                }
                proof {
                    assert(model.subrange(from as int, len as int) =~= model.skip(from as int));
                }
            },
            None => {
                proof {
                    lemma_contents_of_absent(self.rings@, symbol@);
                    assert(out.deep_view() =~= model.skip(0));
                }
            },
        }
        out
    }

    /// Drops the ring for the symbol, leaving the rest of the cache as it is.
    pub fn clear_symbol(&mut self, symbol: &String)
        requires
            old(self).wf(),
        ensures
            final(self).wf(),
            final(self).max_ticks_per_symbol == old(self).max_ticks_per_symbol,
            final(self).contents(symbol@) == Seq::<TickView>::empty(),
            forall|s: Seq<char>|
                s != symbol@ ==> final(self).contents(s) == old(self).contents(s),
    {
        let ghost rings0 = self.rings@;
        match self.find_ring(symbol) {
            Some(i) => {
                self.rings.remove(i);
                proof {
                    assert forall|j: int|
                        0 <= j < self.rings@.len() implies self.rings@[j].symbol@ != symbol@ by {
                        if j < i {
                            assert(self.rings@[j] == rings0[j]);
                        } else {
                            assert(self.rings@[j] == rings0[j + 1]);
                        }
                    }
                    lemma_contents_of_absent(self.rings@, symbol@);
                    assert forall|s: Seq<char>|
                        s != symbol@ implies contents_of(self.rings@, s) == contents_of(
                        rings0,
                        s,
                    ) by {
                        lemma_contents_of_remove_other(rings0, i as int, s);
                    }
                }
            },
            None => {
                proof {
                    lemma_contents_of_absent(self.rings@, symbol@);
                }
            },
        }
    }

    /// Lists the symbols that currently have a ring.
    pub fn get_symbols(&self) -> (r: Vec<String>)
        ensures
            r@.len() == self.rings@.len(),
            forall|i: int| 0 <= i < r@.len() ==> r@[i]@ == #[trigger] self.rings@[i].symbol@,
    {
        let mut out: Vec<String> = Vec::new();
        let n = self.rings.len();
        let mut i: usize = 0;
        while i < n
            invariant
                i <= n,
                n == self.rings@.len(),
                out@.len() == i,
                forall|j: int| 0 <= j < i ==> out@[j]@ == #[trigger] self.rings@[j].symbol@,
            decreases n - i,
        {
            out.push(self.rings[i].symbol.clone());
            i = i + 1;
        }
        out
    }
}

/// Every cached tick of a symbol carries that symbol: what the cache
/// serves for a symbol is that symbol's data.
pub proof fn lemma_contents_carry_symbol(c: MemoryCache, sym: Seq<char>)
    requires
        c.wf(),
    ensures
        forall|k: int|
            0 <= k < c.contents(sym).len() ==> (#[trigger] c.contents(sym)[k]).symbol == sym,
{
    lemma_contents_of_symbols(c.rings@, sym);
}

proof fn lemma_contents_of_symbols(rings: Seq<SymbolRing>, sym: Seq<char>)
    requires
        forall|i: int, k: int|
            0 <= i < rings.len() && 0 <= k < rings[i].ticks@.len() ==> (
            #[trigger] rings[i].ticks.deep_view()[k]).symbol == rings[i].symbol@,
    ensures
        forall|k: int|
            0 <= k < contents_of(rings, sym).len() ==> (#[trigger] contents_of(rings, sym)[k]).symbol
                == sym,
    decreases rings.len(),
{
    if rings.len() == 0 {
    } else if rings[0].symbol@ == sym {
        assert forall|k: int|
            0 <= k < contents_of(rings, sym).len() implies (#[trigger] contents_of(rings, sym)[k]).symbol
            == sym by {
            assert(rings[0].ticks.deep_view()[k].symbol == rings[0].symbol@);
        }
    } else {
        assert(forall|i: int|
            0 <= i < rings.len() - 1 ==> #[trigger] rings.skip(1)[i] == rings[i + 1]);
        lemma_contents_of_symbols(rings.skip(1), sym);
    }
}

/// Ticks of `remote` whose trade id does not occur in `memory`, in order,
/// followed by all of `memory`.
pub open spec fn merged_model(remote: Seq<TickView>, memory: Seq<TickView>) -> Seq<TickView> {
    remote.filter(|t: TickView| !has_trade_id(memory, t.trade_id)) + memory
}

/// Some tick of the sequence carries this trade id.
pub open spec fn has_trade_id(s: Seq<TickView>, id: Seq<char>) -> bool {
    exists|i: int| 0 <= i < s.len() && s[i].trade_id == id
}

/// True iff some tick of `memory` has the same trade id as `t`.
fn contains_trade_id(memory: &Vec<TickData>, id: &String) -> (r: bool)
    ensures
        r == has_trade_id(memory.deep_view(), id@),
{
    let n = memory.len();
    let mut i: usize = 0;
    while i < n
        invariant
            i <= n,
            n == memory@.len(),
            forall|j: int| 0 <= j < i ==> memory.deep_view()[j].trade_id != id@,
        decreases n - i,
    {
        if memory[i].trade_id == *id {
            proof {
                assert(memory.deep_view()[i as int].trade_id == id@);
            }
            return true;
        }
        i = i + 1;
    }
    false
}

/// Merges ticks fetched from the remote tier with the memory tier's answer:
/// remote ticks whose trade id the memory tier already holds are dropped,
/// the rest precede the memory ticks.
pub fn merge_remote_ticks(remote: Vec<TickData>, memory: Vec<TickData>) -> (r: Vec<TickData>)
    ensures
        r.deep_view() == merged_model(remote.deep_view(), memory.deep_view()),
{
    let ghost rm = remote.deep_view();
    let ghost mm = memory.deep_view();
    let mut out: Vec<TickData> = Vec::new();
    let n = remote.len();
    let mut i: usize = 0;
    proof {
        assert(rm.take(0) =~= Seq::<TickView>::empty());
        assert(rm.take(0).filter(|t: TickView| !has_trade_id(mm, t.trade_id)) =~= Seq::<
            TickView,
        >::empty());
        assert(out.deep_view() =~= Seq::<TickView>::empty());
    }
    while i < n
        invariant
            i <= n,
            n == remote@.len(),
            rm == remote.deep_view(),
            mm == memory.deep_view(),
            out.deep_view() == rm.take(i as int).filter(
                |t: TickView| !has_trade_id(mm, t.trade_id),
            ),
        decreases n - i,
    {
        let ghost pref = rm.take(i as int);
        proof {
            assert(rm.take(i + 1) =~= pref.push(rm[i as int]));
            reveal_with_fuel(Seq::filter, 2);
            assert(pref.push(rm[i as int]).drop_last() =~= pref);
        }
        if !contains_trade_id(&memory, &remote[i].trade_id) {
            out.push(remote[i].duplicate());
            proof {
                assert(out.deep_view() =~= pref.filter(
                    |t: TickView| !has_trade_id(mm, t.trade_id),
                ).push(rm[i as int]));
            }
        }
        i = i + 1;
    }
    let mut j: usize = 0;
    let m = memory.len();
    let ghost filtered = rm.filter(|t: TickView| !has_trade_id(mm, t.trade_id));
    proof {
        assert(rm.take(n as int) =~= rm);
    }
    while j < m
        invariant
            j <= m,
            m == memory@.len(),
            mm == memory.deep_view(),
            out.deep_view() =~= filtered + mm.take(j as int),
        decreases m - j,
    {
        out.push(memory[j].duplicate());
        proof {
            assert(mm.take(j + 1) =~= mm.take(j as int).push(mm[j as int]));
            assert(out.deep_view() =~= (filtered + mm.take(j as int)).push(mm[j as int]));
            assert((filtered + mm.take(j as int)).push(mm[j as int]) =~= filtered + mm.take(j as int).push(
                mm[j as int],
            ));
        }
        j = j + 1;
    }
    proof {
        assert(mm.take(m as int) =~= mm);
        assert(out.deep_view() =~= merged_model(rm, mm));
    }
    out
}

} // verus!
