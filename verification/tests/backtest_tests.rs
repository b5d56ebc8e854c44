use trading_core::decimal::{dec_from_str, Dec};
use trading_core::engine::{BacktestConfig, BacktestEngine, EquityPoint};
use trading_core::ingest::{should_reconnect, BatchConfig, BatchProcessor, ServiceError};
use trading_core::metrics::BacktestMetrics;
use trading_core::portfolio::Portfolio;
use trading_core::store::TickStore;
use trading_core::strategy::{create_strategy, list_strategies, Signal, SmaStrategy, Strategy};
use trading_core::tick::{TickData, TradeSide};
use trading_core::venue::ExchangeError;
use trading_core::ohlc::{OHLCData, Timeframe};

fn tick(symbol: &str, price: &str, trade_id: &str, timestamp: i64) -> TickData {
    TickData::new(
        timestamp,
        symbol.to_string(),
        dec_from_str(price).unwrap(),
        dec_from_str("1.0").unwrap(),
        TradeSide::Buy,
        trade_id.to_string(),
        false,
    )
}

#[test]
fn test_portfolio_commission() {
    // Buy 1 @ 5000 then sell 1 @ 5100 at a 0.1% commission.
    let mut p = Portfolio::new(dec_from_str("10000").unwrap())
        .with_commission_rate(dec_from_str("0.001").unwrap());
    p.execute_buy("BTCUSDT".to_string(), dec_from_str("1").unwrap(), dec_from_str("5000").unwrap(), 0)
        .unwrap();
    assert_eq!(p.cash, dec_from_str("4995").unwrap());

    p.execute_sell(
        "BTCUSDT".to_string(),
        dec_from_str("1").unwrap(),
        dec_from_str("5100").unwrap(),
        1,
    )
    .unwrap();
    assert_eq!(p.cash, dec_from_str("10089.9").unwrap());

    let last = p.trades.last().unwrap();
    assert_eq!(last.realized_pnl, Some(dec_from_str("89.9").unwrap()));
    assert_eq!(last.commission, dec_from_str("5.1").unwrap());
    assert!(p.positions.is_empty());
}

#[test]
fn test_portfolio_rejects_overdraft_and_naked_sell() {
    let mut p = Portfolio::new(dec_from_str("100").unwrap());
    // Cost above cash fails and changes nothing.
    assert!(p
        .execute_buy("BTCUSDT".to_string(), dec_from_str("1").unwrap(), dec_from_str("5000").unwrap(), 0)
        .is_err());
    assert_eq!(p.cash, dec_from_str("100").unwrap());
    // Selling without a position fails.
    assert!(p
        .execute_sell("BTCUSDT".to_string(), dec_from_str("1").unwrap(), dec_from_str("10").unwrap(), 0)
        .is_err());
    // Selling more than held fails.
    p.execute_buy("BTCUSDT".to_string(), dec_from_str("2").unwrap(), dec_from_str("10").unwrap(), 0)
        .unwrap();
    assert!(p
        .execute_sell("BTCUSDT".to_string(), dec_from_str("3").unwrap(), dec_from_str("10").unwrap(), 0)
        .is_err());
}

#[test]
fn test_weighted_average_entry() {
    let mut p = Portfolio::new(dec_from_str("1000").unwrap());
    p.execute_buy("AAABBB".to_string(), dec_from_str("1").unwrap(), dec_from_str("10").unwrap(), 0)
        .unwrap();
    p.execute_buy("AAABBB".to_string(), dec_from_str("1").unwrap(), dec_from_str("20").unwrap(), 1)
        .unwrap();
    assert_eq!(p.positions.len(), 1);
    assert_eq!(p.positions[0].quantity, dec_from_str("2").unwrap());
    assert_eq!(p.positions[0].average_entry_price, dec_from_str("15").unwrap());
}

#[test]
fn test_update_price_records_equity() {
    let mut p = Portfolio::new(dec_from_str("1000").unwrap());
    p.update_price(&"AAABBB".to_string(), dec_from_str("10").unwrap());
    assert_eq!(p.equity_curve.len(), 1);
    assert_eq!(p.equity_curve[0], dec_from_str("1000").unwrap());
    p.execute_buy("AAABBB".to_string(), dec_from_str("10").unwrap(), dec_from_str("10").unwrap(), 0)
        .unwrap();
    p.update_price(&"AAABBB".to_string(), dec_from_str("12").unwrap());
    // 900 cash + 10 units at 12.
    assert_eq!(p.equity_curve[1], dec_from_str("1020").unwrap());
    assert_eq!(p.total_value(), dec_from_str("1020").unwrap());
    assert_eq!(p.total_pnl(), dec_from_str("20").unwrap());
}

#[test]
fn test_max_drawdown() {
    // Equity curve [100, 120, 90, 110, 80, 95]: deepest fall is
    // (120 - 80) / 120, one third.
    let curve: Vec<Dec> = ["100", "120", "90", "110", "80", "95"]
        .iter()
        .map(|s| dec_from_str(s).unwrap())
        .collect();
    let dd = BacktestMetrics::calculate_max_drawdown(&curve);
    assert_eq!(dd, dec_from_str("0.333333333").unwrap());
}

#[test]
fn test_max_drawdown_total_collapse_is_one() {
    // A fall from a peak to zero is a full drawdown, never more, even
    // when the peak stands above the first point.
    let curve: Vec<Dec> =
        ["1", "1.5", "0"].iter().map(|s| dec_from_str(s).unwrap()).collect();
    let dd = BacktestMetrics::calculate_max_drawdown(&curve);
    assert_eq!(dd, dec_from_str("1").unwrap());
}

#[test]
fn test_returns_and_volatility() {
    let curve: Vec<Dec> = ["100", "110", "99"].iter().map(|s| dec_from_str(s).unwrap()).collect();
    let rets = BacktestMetrics::calculate_returns(&curve);
    assert_eq!(rets.len(), 2);
    assert_eq!(rets[0], dec_from_str("0.1").unwrap());
    assert_eq!(rets[1], dec_from_str("-0.1").unwrap());
    // Sample variance of {0.1, -0.1} is 0.02; its square root is about
    // 0.141421356.
    let vol = BacktestMetrics::calculate_volatility(&rets);
    assert_eq!(vol, dec_from_str("0.141421356").unwrap());
    // A flat curve has zero volatility and zero Sharpe.
    let flat: Vec<Dec> = ["5", "5", "5"].iter().map(|s| dec_from_str(s).unwrap()).collect();
    let flat_rets = BacktestMetrics::calculate_returns(&flat);
    assert_eq!(BacktestMetrics::calculate_volatility(&flat_rets), Dec { units: 0 });
    assert_eq!(
        BacktestMetrics::calculate_sharpe_ratio(&flat_rets, Dec { units: 0 }),
        Dec { units: 0 }
    );
}

#[test]
fn test_win_rate_and_profit_factor() {
    let mut p = Portfolio::new(dec_from_str("10000").unwrap());
    // Round trip with a gain, then one with a loss.
    p.execute_buy("AAABBB".to_string(), dec_from_str("1").unwrap(), dec_from_str("10").unwrap(), 0)
        .unwrap();
    p.execute_sell("AAABBB".to_string(), dec_from_str("1").unwrap(), dec_from_str("30").unwrap(), 1)
        .unwrap();
    p.execute_buy("AAABBB".to_string(), dec_from_str("1").unwrap(), dec_from_str("30").unwrap(), 2)
        .unwrap();
    p.execute_sell("AAABBB".to_string(), dec_from_str("1").unwrap(), dec_from_str("20").unwrap(), 3)
        .unwrap();
    // Two sells, one winning.
    assert_eq!(BacktestMetrics::calculate_win_rate(&p.trades), dec_from_str("0.5").unwrap());
    // Gross profit 20, gross loss 10: factor 2.
    assert_eq!(BacktestMetrics::calculate_profit_factor(&p.trades), dec_from_str("2").unwrap());
}

#[test]
fn test_profit_factor_degenerate_cases() {
    let p = Portfolio::new(dec_from_str("10").unwrap());
    // No realized trades at all: factor one.
    assert_eq!(BacktestMetrics::calculate_profit_factor(&p.trades), dec_from_str("1").unwrap());
}

#[test]
fn test_calmar_ratio() {
    assert_eq!(
        BacktestMetrics::calculate_calmar_ratio(
            dec_from_str("0.5").unwrap(),
            dec_from_str("0.25").unwrap()
        ),
        dec_from_str("2").unwrap()
    );
    assert_eq!(
        BacktestMetrics::calculate_calmar_ratio(dec_from_str("0.5").unwrap(), Dec { units: 0 }),
        Dec { units: 0 }
    );
}

#[test]
fn test_sma_crossover_signal() {
    // short 2, long 3, quantity 1 against [10, 12, 11, 15, 14]:
    // nothing before the windows fill; at the third price the short
    // average 11.5 is above the long average 11, so the strategy buys;
    // it stays above through the fifth price, so the position stays open
    // and the trade log of a run holds exactly one trade.
    let mut s = SmaStrategy::new(2, 3, dec_from_str("1").unwrap());
    let prices = ["10", "12", "11", "15", "14"];
    let mut signals = Vec::new();
    for (i, p) in prices.iter().enumerate() {
        signals.push(s.on_tick(&tick("AAABBB", p, &format!("t{}", i), i as i64)));
    }
    assert!(matches!(signals[0], Signal::Hold));
    assert!(matches!(signals[1], Signal::Hold));
    assert!(matches!(signals[2], Signal::Buy { .. }));
    assert!(matches!(signals[3], Signal::Hold));
    assert!(matches!(signals[4], Signal::Hold));
}

#[test]
fn test_sma_sell_on_cross_down() {
    let mut s = SmaStrategy::new(2, 3, dec_from_str("1").unwrap());
    // Rise to open, then fall to close.
    let prices = ["10", "12", "14", "6", "5"];
    let mut buys = 0;
    let mut sells = 0;
    for (i, p) in prices.iter().enumerate() {
        match s.on_tick(&tick("AAABBB", p, &format!("u{}", i), i as i64)) {
            Signal::Buy { .. } => buys += 1,
            Signal::Sell { .. } => sells += 1,
            Signal::Hold => {}
        }
    }
    assert_eq!(buys, 1);
    assert_eq!(sells, 1);
}

#[test]
fn test_strategy_registry() {
    let list = list_strategies();
    assert_eq!(list.len(), 1);
    assert_eq!(list[0].id, "sma_crossover");
    assert_eq!(list[0].name, "SMA Crossover");
    let s = create_strategy("sma_crossover").unwrap();
    assert_eq!(s.short_period, 5);
    assert_eq!(s.long_period, 20);
    assert_eq!(s.quantity, dec_from_str("1").unwrap());
    assert!(create_strategy("nonsense").is_err());
    assert!(create_strategy("").is_err());
}

#[test]
fn test_strategy_initialize_parses_params() {
    let mut s = create_strategy("sma_crossover").unwrap();
    let params = vec![
        ("short_period".to_string(), "2".to_string()),
        ("long_period".to_string(), "3".to_string()),
        ("quantity".to_string(), "1.5".to_string()),
    ];
    assert!(s.initialize(&params).is_ok());
    assert_eq!(s.short_period, 2);
    assert_eq!(s.long_period, 3);
    assert_eq!(s.quantity, dec_from_str("1.5").unwrap());

    let bad = vec![("short_period".to_string(), "nope".to_string())];
    assert!(s.initialize(&bad).is_err());
    // A short period at or above the long one is degenerate but defined.
    let inverted = vec![
        ("short_period".to_string(), "9".to_string()),
        ("long_period".to_string(), "3".to_string()),
    ];
    assert!(s.initialize(&inverted).is_ok());
    assert_eq!(s.short_period, 9);
    assert_eq!(s.long_period, 3);
}

#[test]
fn test_engine_run_report() {
    let strategy = create_strategy("sma_crossover").unwrap();
    let config = BacktestConfig::new(dec_from_str("10000").unwrap())
        .with_commission_rate(dec_from_str("0").unwrap())
        .with_param("short_period", "2")
        .with_param("long_period", "3");
    let mut engine = BacktestEngine::new(strategy, config).unwrap();
    let data: Vec<TickData> = ["10", "12", "11", "15", "14"]
        .iter()
        .enumerate()
        .map(|(i, p)| tick("AAABBB", p, &format!("e{}", i), i as i64))
        .collect();
    let report = engine.run(&data);
    assert_eq!(report.equity_curve.len(), 5);
    assert_eq!(report.initial_capital, dec_from_str("10000").unwrap());
    assert_eq!(report.total_trades, 1);
    assert_eq!(report.winning_trades, 0);
    assert_eq!(report.losing_trades, 0);
    // One unit bought at 11, last price 14.
    assert_eq!(report.final_value, dec_from_str("10003").unwrap());
    assert_eq!(report.total_pnl, dec_from_str("3").unwrap());
    assert!(report.is_profitable());
    assert_eq!(report.strategy_name, "SMA Crossover");
}

#[test]
fn test_engine_rejects_bad_config() {
    let strategy = create_strategy("sma_crossover").unwrap();
    let config = BacktestConfig::new(Dec { units: 0 });
    assert!(BacktestEngine::new(strategy, config).is_err());
}

#[test]
fn test_engine_rejects_capital_below_one() {
    let strategy = create_strategy("sma_crossover").unwrap();
    let config = BacktestConfig::new(dec_from_str("0.5").unwrap());
    assert!(BacktestEngine::new(strategy, config).is_err());
}

#[test]
fn test_engine_rejects_bad_strategy_param() {
    let strategy = create_strategy("sma_crossover").unwrap();
    let config = BacktestConfig::new(dec_from_str("1000").unwrap())
        .with_param("quantity", "0");
    assert!(BacktestEngine::new(strategy, config).is_err());
}

#[test]
fn test_strategy_reset_clears_run_state() {
    let mut s = SmaStrategy::new(2, 3, dec_from_str("1").unwrap());
    for (i, p) in ["10", "11", "12"].iter().enumerate() {
        s.on_tick(&tick("AAABBB", p, &format!("r{}", i), i as i64));
    }
    assert!(!s.shorts.is_empty());
    s.reset();
    assert!(s.shorts.is_empty());
    assert!(s.longs.is_empty());
    assert_eq!(s.short_sum, Dec { units: 0 });
    assert_eq!(s.long_sum, Dec { units: 0 });
    assert!(s.holding.is_none());
    // Parameters survive a reset.
    assert_eq!(s.short_period, 2);
    assert_eq!(s.long_period, 3);
}

#[test]
fn test_engine_new_uses_config() {
    let strategy = create_strategy("sma_crossover").unwrap();
    let config = BacktestConfig::new(dec_from_str("2500").unwrap())
        .with_commission_rate(dec_from_str("0.002").unwrap());
    let engine = BacktestEngine::new(strategy, config).unwrap();
    assert_eq!(engine.portfolio.initial_capital, dec_from_str("2500").unwrap());
    assert_eq!(engine.portfolio.cash, dec_from_str("2500").unwrap());
    assert_eq!(engine.portfolio.commission_rate, dec_from_str("0.002").unwrap());
    assert!(engine.portfolio.positions.is_empty());
    assert!(engine.portfolio.trades.is_empty());
    assert!(engine.portfolio.equity_curve.is_empty());
}

#[test]
fn test_equity_point() {
    let p = EquityPoint::new(7, dec_from_str("1.5").unwrap());
    assert_eq!(p.timestamp, 7);
    assert_eq!(p.value, dec_from_str("1.5").unwrap());
}

#[test]
fn test_graceful_shutdown_flushes_pipeline() {
    // Fifty ticks enter, shutdown fires: the final batch is handed out,
    // written, and the store ends up holding all fifty.
    let mut processor = BatchProcessor::new(BatchConfig::default());
    let mut store = TickStore::new();
    for k in 0..50i64 {
        let t = tick("BTCUSDT", "1.0", &format!("s{}", k), 1_000_000 + k);
        if let Some(batch) = processor.on_tick(t) {
            let ok = store.batch_insert(&batch).is_ok();
            processor.on_flush_outcome(ok, 1, 0);
        }
    }
    if let Some(batch) = processor.on_shutdown() {
        let ok = store.batch_insert(&batch).is_ok();
        processor.on_flush_outcome(ok, 1, 0);
    }
    assert!(processor.done);
    assert!(processor.buffer.is_empty());
    assert_eq!(store.rows.len(), 50);
    assert_eq!(processor.stats.total_ticks_processed, 50);
    assert_eq!(processor.stats.total_batches_flushed, 1);
    assert_eq!(processor.stats.total_failed_batches, 0);
}

#[test]
fn test_batch_flush_on_size_and_timer() {
    let mut cfg = BatchConfig::default();
    cfg.max_batch_size = 2;
    let mut processor = BatchProcessor::new(cfg);
    assert!(processor.on_tick(tick("BTCUSDT", "1.0", "a1", 1)).is_none());
    let batch = processor.on_tick(tick("BTCUSDT", "1.0", "a2", 2)).unwrap();
    assert_eq!(batch.len(), 2);
    processor.on_flush_outcome(true, 1, 0);
    // Timer below the batch time does nothing; at the batch time it
    // hands out a non-empty buffer.
    assert!(processor.on_tick(tick("BTCUSDT", "1.0", "a3", 3)).is_none());
    assert!(processor.on_timer(0).is_none());
    let timed = processor.on_timer(1).unwrap();
    assert_eq!(timed.len(), 1);
    processor.on_flush_outcome(false, 3, 0);
    assert_eq!(processor.stats.total_failed_batches, 1);
    assert_eq!(processor.stats.total_retry_attempts, 4);
}

#[test]
fn test_retry_and_reconnect_decisions() {
    let processor = BatchProcessor::new(BatchConfig::default());
    assert!(processor.should_retry(0));
    assert!(processor.should_retry(2));
    assert!(!processor.should_retry(3));
    assert!(should_reconnect(0, 10, false));
    assert!(!should_reconnect(10, 10, false));
    assert!(!should_reconnect(0, 10, true));
}

#[test]
fn test_ohlc_from_ticks() {
    let ticks = vec![
        tick("AAABBB", "10", "o1", 0),
        tick("AAABBB", "14", "o2", 1),
        tick("AAABBB", "8", "o3", 2),
        tick("AAABBB", "12", "o4", 3),
    ];
    let bar = OHLCData::from_ticks(&ticks, Timeframe::OneMinute, 0).unwrap();
    assert_eq!(bar.open, dec_from_str("10").unwrap());
    assert_eq!(bar.high, dec_from_str("14").unwrap());
    assert_eq!(bar.low, dec_from_str("8").unwrap());
    assert_eq!(bar.close, dec_from_str("12").unwrap());
    assert_eq!(bar.volume, dec_from_str("4").unwrap());
    assert_eq!(bar.timestamp, 0);

    let empty: Vec<TickData> = Vec::new();
    assert!(OHLCData::from_ticks(&empty, Timeframe::OneMinute, 0).is_none());
}

#[test]
fn test_timeframe_alignment() {
    let minute = 60_000_000i64;
    assert_eq!(Timeframe::OneMinute.align_timestamp(3 * minute + 17), 3 * minute);
    assert_eq!(Timeframe::OneMinute.align_timestamp(3 * minute), 3 * minute);
    assert_eq!(Timeframe::OneHour.as_micros(), 3_600_000_000);
}

#[test]
fn test_engine_run_with_ohlc() {
    let strategy = create_strategy("sma_crossover").unwrap();
    let config = BacktestConfig::new(dec_from_str("10000").unwrap())
        .with_commission_rate(dec_from_str("0").unwrap())
        .with_param("short_period", "2")
        .with_param("long_period", "3");
    let mut engine = BacktestEngine::new(strategy, config).unwrap();
    let bars: Vec<OHLCData> = ["10", "12", "11", "15", "14"]
        .iter()
        .enumerate()
        .map(|(i, p)| OHLCData {
            symbol: "AAABBB".to_string(),
            timeframe: Timeframe::OneMinute,
            timestamp: (i as i64) * 60_000_000,
            open: dec_from_str(p).unwrap(),
            high: dec_from_str(p).unwrap(),
            low: dec_from_str(p).unwrap(),
            close: dec_from_str(p).unwrap(),
            volume: dec_from_str("1").unwrap(),
        })
        .collect();
    let report = engine.run_with_ohlc(&bars);
    assert_eq!(report.equity_curve.len(), 5);
    assert_eq!(report.total_trades, 1);
    assert_eq!(report.final_value, dec_from_str("10003").unwrap());
}

#[test]
fn test_average_trade_duration() {
    // One round trip opened at t=0 and closed at t=5 seconds, a second
    // opened at 10 and closed at 11: mean duration three seconds.
    let mut p = Portfolio::new(dec_from_str("10000").unwrap());
    let sec = 1_000_000i64;
    p.execute_buy("AAABBB".to_string(), dec_from_str("1").unwrap(), dec_from_str("10").unwrap(), 0)
        .unwrap();
    p.execute_sell("AAABBB".to_string(), dec_from_str("1").unwrap(), dec_from_str("12").unwrap(), 5 * sec)
        .unwrap();
    p.execute_buy("AAABBB".to_string(), dec_from_str("1").unwrap(), dec_from_str("12").unwrap(), 10 * sec)
        .unwrap();
    p.execute_sell("AAABBB".to_string(), dec_from_str("1").unwrap(), dec_from_str("12").unwrap(), 11 * sec)
        .unwrap();
    let avg = BacktestMetrics::calculate_average_trade_duration(&p.trades);
    assert_eq!(avg, dec_from_str("3").unwrap());

    // A sell with no prior buy is unmatched.
    let q = Portfolio::new(dec_from_str("10000").unwrap());
    assert_eq!(
        BacktestMetrics::calculate_average_trade_duration(&q.trades),
        dec_from_str("0").unwrap()
    );
}

#[test]
fn test_is_recoverable() {
    assert!(ServiceError::Exchange(ExchangeError::Timeout).is_recoverable());
    assert!(ServiceError::Task("x".to_string()).is_recoverable());
    assert!(!ServiceError::Shutdown.is_recoverable());
    assert!(!ServiceError::Config("x".to_string()).is_recoverable());
    assert!(!ServiceError::RetryLimitExceeded("x".to_string()).is_recoverable());
}
