//! Verified core of a tick-data collection and backtesting system.
//!
//! The library models monetary amounts as fixed-point decimals, validates and
//! stores exchange trade prints ("ticks"), keeps a bounded per-symbol cache of
//! recent ticks, replays history through a moving-average strategy against a
//! simulated portfolio, and computes the risk and return metrics of such a run.

pub mod assoc;
pub mod cache;
pub mod decimal;
pub mod engine;
pub mod ingest;
pub mod metrics;
pub mod ohlc;
pub mod portfolio;
pub mod repository;
pub mod store;
pub mod strategy;
pub mod tick;
pub mod venue;

pub use decimal::Dec;
