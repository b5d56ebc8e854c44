//! The ingest pipeline's decision core: batching of incoming ticks, flush
//! timing, retry limits, and the shutdown path, as one state machine.
//!
//! The process edge (channel reads, database writes, timers, sleeps) lives
//! outside the library. It feeds events in and carries the returned batches
//! to the store; every decision in between is verified. Ghost accounting
//! ties together what entered, what was flushed, what a failed batch
//! dropped, and what still waits in the buffer.

use vstd::prelude::*;
use crate::tick::{DataError, TickData, TickView};
use crate::venue::ExchangeError;

verus! {

/// Batch processing configuration.
#[derive(Debug)]
pub struct BatchConfig {
    /// Most ticks one batch may hold.
    pub max_batch_size: usize,
    /// Longest time a non-empty buffer may wait before a flush, in seconds.
    pub max_batch_time: u64,
    /// Most attempts for one batch before it is given up.
    pub max_retry_attempts: u32,
    /// Pause between attempts, in milliseconds.
    pub retry_delay_ms: u64,
}

impl BatchConfig {
    /// A usable configuration: batches hold at least one tick.
    pub open spec fn wf(self) -> bool {
        self.max_batch_size >= 1
    }
}

impl Default for BatchConfig {
    /// The default: batches of 100, a one-second flush timer, three
    /// attempts, a second between attempts.
    fn default() -> (r: BatchConfig)
        ensures
            r.max_batch_size == 100,
            r.max_batch_time == 1,
            r.max_retry_attempts == 3,
            r.retry_delay_ms == 1000,
            r.wf(),
    {
        BatchConfig {
            max_batch_size: 100,
            max_batch_time: 1,
            max_retry_attempts: 3,
            retry_delay_ms: 1000,
        }
    }
}

/// Counters of the processing task.
#[derive(Debug)]
pub struct BatchStats {
    pub total_ticks_processed: u64,
    pub total_batches_flushed: u64,
    pub total_retry_attempts: u64,
    pub total_failed_batches: u64,
    pub cache_update_failures: u64,
    /// Epoch microseconds of the last successful flush, when any.
    pub last_flush_time: Option<i64>,
}

impl Default for BatchStats {
    /// All counters at zero, no flush yet.
    fn default() -> (r: BatchStats)
        ensures
            r.total_ticks_processed == 0,
            r.total_batches_flushed == 0,
            r.total_retry_attempts == 0,
            r.total_failed_batches == 0,
            r.cache_update_failures == 0,
            r.last_flush_time is None,
    {
        BatchStats {
            total_ticks_processed: 0,
            total_batches_flushed: 0,
            total_retry_attempts: 0,
            total_failed_batches: 0,
            cache_update_failures: 0,
            last_flush_time: None,
        }
    }
}

/// Errors of the service layer.
#[derive(Debug)]
pub enum ServiceError {
    Exchange(ExchangeError),
    Data(DataError),
    Config(String),
    Task(String),
    Validation(String),
    Shutdown,
    RetryLimitExceeded(String),
}

impl ServiceError {
    /// Whether the service may keep running after this error: transport,
    /// data and task failures are retried; configuration and validation
    /// failures, an exhausted retry budget, and shutdown are final.
    pub fn is_recoverable(&self) -> (r: bool)
        ensures
            r == (*self is Exchange || *self is Data || *self is Task),
    {
        match self {
            ServiceError::Exchange(_) => true,
            ServiceError::Data(_) => true,
            ServiceError::Task(_) => true,
            ServiceError::Config(_) => false,
            ServiceError::Validation(_) => false,
            ServiceError::Shutdown => false,
            ServiceError::RetryLimitExceeded(_) => false,
        }
    }
}

/// The processing task's state between events.
pub struct BatchProcessor {
    pub config: BatchConfig,
    pub buffer: Vec<TickData>,
    pub stats: BatchStats,
    /// Set once the shutdown event was handled; no tick enters after it.
    pub done: bool,
    /// Every tick that entered the pipeline, in arrival order.
    pub entered: Ghost<Seq<TickView>>,
    /// Ticks of batches that were written successfully.
    pub flushed: Ghost<Seq<TickView>>,
    /// Ticks of batches that failed all their attempts and were discarded.
    pub dropped: Ghost<Seq<TickView>>,
    /// The batch handed out for writing and not yet acknowledged.
    pub in_flight: Ghost<Option<Seq<TickView>>>,
}

/// The ticks of the in-flight batch, or nothing.
pub open spec fn in_flight_seq(f: Option<Seq<TickView>>) -> Seq<TickView> {
    match f {
        Some(b) => b,
        None => Seq::empty(),
    }
}

impl BatchProcessor {
    /// Durability accounting: while no batch has been dropped, everything
    /// that entered is flushed, in flight, or still buffered — in order.
    /// Counters match the accounting.
    pub open spec fn wf(self) -> bool {
        &&& self.config.wf()
        &&& self.buffer@.len() < self.config.max_batch_size
        &&& self.stats.total_ticks_processed == self.entered@.len()
        &&& (self.dropped@.len() == 0 ==> self.entered@ == self.flushed@ + in_flight_seq(
            self.in_flight@,
        ) + self.buffer.deep_view())
    }

    /// A fresh processor.
    pub fn new(config: BatchConfig) -> (r: BatchProcessor)
        requires
            config.wf(),
        ensures
            r.wf(),
            !r.done,
            r.entered@ == Seq::<TickView>::empty(),
            r.flushed@ == Seq::<TickView>::empty(),
            r.dropped@ == Seq::<TickView>::empty(),
            r.in_flight@ is None,
            r.buffer@.len() == 0,
            r.stats.total_ticks_processed == 0,
    {
        let r = BatchProcessor {
            config,
            buffer: Vec::new(),
            stats: BatchStats::default(),
            done: false,
            entered: Ghost(Seq::empty()),
            flushed: Ghost(Seq::empty()),
            dropped: Ghost(Seq::empty()),
            in_flight: Ghost(None),
        };
        proof {
            assert(r.buffer.deep_view() =~= Seq::<TickView>::empty());
            assert(r.entered@ =~= r.flushed@ + in_flight_seq(r.in_flight@) + r.buffer.deep_view());
        }
        r
    }

    /// One tick arrives: it joins the buffer and is counted; when the
    /// buffer reaches the batch size, the whole batch is handed out for
    /// writing and the buffer empties.
    pub fn on_tick(&mut self, tick: TickData) -> (r: Option<Vec<TickData>>)
        requires
            old(self).wf(),
            !old(self).done,
            old(self).in_flight@ is None,
            old(self).entered@.len() < u64::MAX,
        ensures
            final(self).wf(),
            !final(self).done,
            final(self).entered@ == old(self).entered@.push(tick@),
            final(self).flushed@ == old(self).flushed@,
            final(self).dropped@ == old(self).dropped@,
            final(self).config == old(self).config,
            (match r {
                Some(batch) => {
                    &&& batch.deep_view() == old(self).buffer.deep_view().push(tick@)
                    &&& batch@.len() == old(self).config.max_batch_size
                    &&& final(self).buffer@.len() == 0
                    &&& final(self).in_flight@ == Some(batch.deep_view())
                },
                None => {
                    &&& final(self).buffer.deep_view() == old(self).buffer.deep_view().push(tick@)
                    &&& final(self).buffer@.len() < final(self).config.max_batch_size
                    &&& final(self).in_flight@ is None
                },
            }),
    {
        let ghost t = tick@;
        self.buffer.push(tick);
        self.stats.total_ticks_processed = self.stats.total_ticks_processed + 1;
        proof {
            self.entered = Ghost(self.entered@.push(t));
            assert(self.buffer.deep_view() =~= old(self).buffer.deep_view().push(t));
        }
        if self.buffer.len() >= self.config.max_batch_size {
            let batch = copy_ticks(&self.buffer);
            self.buffer = Vec::new();
            proof {
                self.in_flight = Ghost(Some(batch.deep_view()));
                assert(self.buffer.deep_view() =~= Seq::<TickView>::empty());
                if self.dropped@.len() == 0 {
                    assert(self.entered@ =~= self.flushed@ + in_flight_seq(self.in_flight@)
                        + self.buffer.deep_view());
                }
            }
            Some(batch)
        } else {
            proof {
                if self.dropped@.len() == 0 {
                    assert(self.entered@ =~= self.flushed@ + in_flight_seq(self.in_flight@)
                        + self.buffer.deep_view());
                }
            }
            None
        }
    }

    /// The flush timer fires: a non-empty buffer that has waited at least
    /// the configured batch time is handed out; otherwise nothing happens.
    pub fn on_timer(&mut self, elapsed_seconds: u64) -> (r: Option<Vec<TickData>>)
        requires
            old(self).wf(),
            old(self).in_flight@ is None,
        ensures
            final(self).wf(),
            final(self).entered@ == old(self).entered@,
            final(self).flushed@ == old(self).flushed@,
            final(self).dropped@ == old(self).dropped@,
            final(self).done == old(self).done,
            final(self).config == old(self).config,
            (match r {
                Some(batch) => {
                    &&& old(self).buffer@.len() > 0
                    &&& elapsed_seconds >= old(self).config.max_batch_time
                    &&& batch.deep_view() == old(self).buffer.deep_view()
                    &&& final(self).buffer@.len() == 0
                    &&& final(self).in_flight@ == Some(batch.deep_view())
                },
                None => {
                    &&& (old(self).buffer@.len() == 0 || elapsed_seconds < old(
                        self,
                    ).config.max_batch_time)
                    &&& *final(self) == *old(self)
                },
            }),
    {
        if self.buffer.len() > 0 && elapsed_seconds >= self.config.max_batch_time {
            let batch = copy_ticks(&self.buffer);
            self.buffer = Vec::new();
            proof {
                self.in_flight = Ghost(Some(batch.deep_view()));
                assert(self.buffer.deep_view() =~= Seq::<TickView>::empty());
                if self.dropped@.len() == 0 {
                    assert(self.entered@ =~= self.flushed@ + in_flight_seq(self.in_flight@)
                        + self.buffer.deep_view());
                }
            }
            Some(batch)
        } else {
            None
        }
    }

    /// Shutdown arrives: whatever waits in the buffer is handed out for a
    /// final flush and the processor stops accepting ticks.
    pub fn on_shutdown(&mut self) -> (r: Option<Vec<TickData>>)
        requires
            old(self).wf(),
            old(self).in_flight@ is None,
        ensures
            final(self).wf(),
            final(self).done,
            final(self).buffer@.len() == 0,
            final(self).entered@ == old(self).entered@,
            final(self).flushed@ == old(self).flushed@,
            final(self).dropped@ == old(self).dropped@,
            (match r {
                Some(batch) => {
                    &&& old(self).buffer@.len() > 0
                    &&& batch.deep_view() == old(self).buffer.deep_view()
                    &&& final(self).in_flight@ == Some(batch.deep_view())
                },
                None => old(self).buffer@.len() == 0 && final(self).in_flight@ is None,
            }),
    {
        self.done = true;
        if self.buffer.len() > 0 {
            let batch = copy_ticks(&self.buffer);
            self.buffer = Vec::new();
            proof {
                self.in_flight = Ghost(Some(batch.deep_view()));
                assert(self.buffer.deep_view() =~= Seq::<TickView>::empty());
                if self.dropped@.len() == 0 {
                    assert(self.entered@ =~= self.flushed@ + in_flight_seq(self.in_flight@)
                        + self.buffer.deep_view());
                }
            }
            Some(batch)
        } else {
            proof {
                assert(self.buffer.deep_view() =~= Seq::<TickView>::empty());
            }
            None
        }
    }

    /// The write of the handed-out batch concluded: on success it counts
    /// as flushed, on final failure its ticks are discarded and counted,
    /// and the attempts join the retry total.
    pub fn on_flush_outcome(&mut self, ok: bool, attempts: u32, now: i64)
        requires
            old(self).wf(),
            old(self).in_flight@ is Some,
            old(self).stats.total_batches_flushed < u64::MAX,
            old(self).stats.total_failed_batches < u64::MAX,
            old(self).stats.total_retry_attempts + attempts <= u64::MAX,
        ensures
            final(self).wf(),
            final(self).in_flight@ is None,
            final(self).entered@ == old(self).entered@,
            final(self).done == old(self).done,
            final(self).buffer == old(self).buffer,
            final(self).config == old(self).config,
            ok ==> ({
                &&& final(self).flushed@ == old(self).flushed@ + in_flight_seq(
                    old(self).in_flight@,
                )
                &&& final(self).dropped@ == old(self).dropped@
                &&& final(self).stats.total_batches_flushed == old(
                    self,
                ).stats.total_batches_flushed + 1
            }),
            !ok ==> ({
                &&& final(self).dropped@ == old(self).dropped@ + in_flight_seq(
                    old(self).in_flight@,
                )
                &&& final(self).flushed@ == old(self).flushed@
                &&& final(self).stats.total_failed_batches == old(self).stats.total_failed_batches
                    + 1
            }),
            final(self).stats.total_retry_attempts == old(self).stats.total_retry_attempts
                + attempts,
    {
        proof {
            let b = in_flight_seq(self.in_flight@);
            if ok {
                self.flushed = Ghost(self.flushed@ + b);
            } else {
                self.dropped = Ghost(self.dropped@ + b);
            }
            self.in_flight = Ghost(None);
        }
        if ok {
            self.stats.total_batches_flushed = self.stats.total_batches_flushed + 1;
            self.stats.last_flush_time = Some(now);
        } else {
            self.stats.total_failed_batches = self.stats.total_failed_batches + 1;
        }
        self.stats.total_retry_attempts = self.stats.total_retry_attempts + (attempts as u64);
        proof {
            if self.dropped@.len() == 0 {
                if self.dropped@.len() == 0 {
                    assert(self.entered@ =~= self.flushed@ + in_flight_seq(self.in_flight@)
                        + self.buffer.deep_view());
                }
            }
        }
    }

    /// Whether a failed write attempt should be retried: only while the
    /// attempt count is below the configured cap.
    pub fn should_retry(&self, attempt: u32) -> (r: bool)
        ensures
            r == (attempt < self.config.max_retry_attempts),
    {
        attempt < self.config.max_retry_attempts
    }

    /// A record of the cache tier failing during write-through.
    pub fn record_cache_failure(&mut self)
        requires
            old(self).wf(),
            old(self).stats.cache_update_failures < u64::MAX,
        ensures
            final(self).wf(),
            final(self).stats.cache_update_failures == old(self).stats.cache_update_failures + 1,
            final(self).entered@ == old(self).entered@,
            final(self).flushed@ == old(self).flushed@,
            final(self).dropped@ == old(self).dropped@,
            final(self).in_flight@ == old(self).in_flight@,
            final(self).buffer == old(self).buffer,
            final(self).done == old(self).done,
    {
        self.stats.cache_update_failures = self.stats.cache_update_failures + 1;
    }
}

/// Whether the collection task should try the venue again after a failure:
/// only while not shut down and below the reconnect cap.
pub fn should_reconnect(attempt: u32, max_attempts: u32, shutdown: bool) -> (r: bool)
    ensures
        r == (!shutdown && attempt < max_attempts),
{
    !shutdown && attempt < max_attempts
}

/// Batch durability: while no batch has failed all its attempts, a drained
/// pipeline (empty buffer, nothing in flight) has flushed exactly the ticks
/// that entered, in order. With the store's idempotent insert, the store
/// then holds every one of them.
pub proof fn lemma_batch_durability(p: BatchProcessor)
    requires
        p.wf(),
        p.dropped@.len() == 0,
        p.buffer@.len() == 0,
        p.in_flight@ is None,
    ensures
        p.flushed@ == p.entered@,
{
    assert(p.buffer.deep_view().len() == 0);
    assert(p.entered@ =~= p.flushed@);
}

/// Shutdown drains the pipeline: after the shutdown event and the final
/// flush acknowledgement, the processor is terminal, its buffer is empty,
/// and nothing is in flight, so every entered tick is accounted for.
pub proof fn lemma_shutdown_terminal(p: BatchProcessor)
    requires
        p.wf(),
        p.done,
        p.buffer@.len() == 0,
        p.in_flight@ is None,
    ensures
        p.dropped@.len() == 0 ==> p.flushed@ == p.entered@,
{
    if p.dropped@.len() == 0 {
        lemma_batch_durability(p);
    }
}

/// Copies a batch of ticks field by field.
fn copy_ticks(ticks: &Vec<TickData>) -> (r: Vec<TickData>)
    ensures
        r.deep_view() == ticks.deep_view(),
        r@.len() == ticks@.len(),
{
    let mut out: Vec<TickData> = Vec::new();
    let n = ticks.len();
    let mut i: usize = 0;
    while i < n
        invariant
            i <= n,
            n == ticks@.len(),
            out@.len() == i,
            out.deep_view() =~= ticks.deep_view().take(i as int),
        decreases n - i,
    {
        let ghost prevv = out@;
        let ghost prevd = out.deep_view();
        out.push(ticks[i].duplicate());
        proof {
            assert(prevd.len() == i);
            assert(prevv.len() == i);
            assert(out@.len() == i + 1);
            assert(out.deep_view().len() == i + 1);
            assert forall|j: int|
                0 <= j < i + 1 implies #[trigger] out.deep_view()[j] == ticks.deep_view().take(
                i + 1,
            )[j] by {
                if j < i {
                    assert(out@[j] == prevv[j]);
                    assert(prevd[j] == ticks.deep_view().take(i as int)[j]);
                } else {
                    assert(out.deep_view()[j] == out@[i as int].deep_view());
                }
            }
            assert(out.deep_view() =~= ticks.deep_view().take(i + 1));
        }
        i = i + 1;
    }
    proof {
        assert(ticks.deep_view().take(n as int) =~= ticks.deep_view());
    }
    out
}

} // verus!
