use trading_core::cache::{merge_remote_ticks, MemoryCache};
use trading_core::decimal::dec_from_str;
use trading_core::repository::TickDataRepository;
use trading_core::store::TickStore;
use trading_core::ohlc::Timeframe;
use trading_core::tick::{validate_tick_data, TickData, TickQuery, TradeSide};

fn create_test_tick(symbol: &str, price: &str, trade_id: &str, timestamp: i64) -> TickData {
    TickData::new(
        timestamp,
        symbol.to_string(),
        dec_from_str(price).unwrap(),
        dec_from_str("1.0").unwrap(),
        TradeSide::Buy,
        trade_id.to_string(),
        false,
    )
}

fn create_repository() -> TickDataRepository {
    TickDataRepository::new(TickStore::new(), MemoryCache::new(100, 300))
}

fn query_for(symbol: &str, limit: u32) -> TickQuery {
    TickQuery {
        symbol: symbol.to_string(),
        start_time: None,
        end_time: None,
        trade_side: None,
        limit: Some(limit),
    }
}

const NOW: i64 = 1_700_000_000_000_000;

#[test]
fn test_insert_and_read_single_tick() {
    let mut repo = create_repository();
    let symbol = "BTCUSDT_TEST_SINGLE";

    let tick = create_test_tick(symbol, "50000.0", "test1", NOW);
    repo.insert_tick(&tick).expect("Failed to insert tick");

    let query = query_for(symbol, 1);
    let ticks = repo.get_ticks(&query, NOW);

    assert_eq!(ticks.len(), 1);
    assert_eq!(ticks[0].symbol, symbol);
    assert_eq!(ticks[0].price, dec_from_str("50000.0").unwrap());
    assert_eq!(ticks[0].trade_id, "test1");
}

#[test]
fn test_batch_insert_and_read() {
    let mut repo = create_repository();
    let symbol = "BTCUSDT_TEST_BATCH";

    let ticks = vec![
        create_test_tick(symbol, "50000.0", "batch1", NOW),
        create_test_tick(symbol, "51000.0", "batch2", NOW + 1),
        create_test_tick(symbol, "52000.0", "batch3", NOW + 2),
    ];

    let inserted_count = repo.batch_insert(&ticks).expect("Failed to batch insert");
    assert_eq!(inserted_count, 3);

    let query = query_for(symbol, 3);
    let queried_ticks = repo.get_ticks(&query, NOW + 2);

    assert_eq!(queried_ticks.len(), 3);
    assert!(queried_ticks
        .iter()
        .any(|t| t.trade_id == "batch1" && t.price == dec_from_str("50000.0").unwrap()));
    assert!(queried_ticks
        .iter()
        .any(|t| t.trade_id == "batch2" && t.price == dec_from_str("51000.0").unwrap()));
    assert!(queried_ticks
        .iter()
        .any(|t| t.trade_id == "batch3" && t.price == dec_from_str("52000.0").unwrap()));
}

#[test]
fn test_cache_read_write() {
    let mut repo = create_repository();
    let symbol = "BTCUSDT_TEST_CACHE";

    let tick = create_test_tick(symbol, "50000.0", "cache1", NOW);
    repo.insert_tick(&tick).expect("Failed to insert tick");

    let cached_ticks = repo.get_cache().get_recent_ticks(&symbol.to_string(), 1);
    assert_eq!(cached_ticks.len(), 1);
    assert_eq!(cached_ticks[0].symbol, symbol);
    assert_eq!(cached_ticks[0].price, dec_from_str("50000.0").unwrap());
    assert_eq!(cached_ticks[0].trade_id, "cache1");

    let query = TickQuery {
        symbol: symbol.to_string(),
        start_time: Some(NOW - 3_600_000_000),
        end_time: None,
        trade_side: None,
        limit: Some(1),
    };
    let ticks = repo.get_ticks(&query, NOW);
    assert_eq!(ticks.len(), 1);
    assert_eq!(ticks[0].symbol, symbol);
    assert_eq!(ticks[0].price, dec_from_str("50000.0").unwrap());
}

#[test]
fn test_latest_price() {
    let mut repo = create_repository();
    let symbol = "BTCUSDT_TEST_PRICE";

    let tick1 = create_test_tick(symbol, "50000.0", "price1", NOW);
    let tick2 = create_test_tick(symbol, "51000.0", "price2", NOW + 1_000_000);
    repo.insert_tick(&tick1).expect("Failed to insert tick1");
    repo.insert_tick(&tick2).expect("Failed to insert tick2");

    let price = repo.get_latest_price(&symbol.to_string());
    assert_eq!(price, Some(dec_from_str("51000.0").unwrap()));
}

#[test]
fn test_tick_validation() {
    let valid_tick = create_test_tick("BTCUSDT", "50000.0", "test1", NOW);
    assert!(validate_tick_data(&valid_tick).is_ok());

    let invalid_tick = TickData::new(
        NOW,
        "".to_string(),
        dec_from_str("50000.0").unwrap(),
        dec_from_str("1.0").unwrap(),
        TradeSide::Buy,
        "test".to_string(),
        false,
    );
    assert!(validate_tick_data(&invalid_tick).is_err());
}

#[test]
fn test_validation_rejects_each_bad_field() {
    let mut repo = create_repository();
    let good = create_test_tick("BTCUSDT", "1.0", "id1", NOW);
    assert!(repo.insert_tick(&good).is_ok());

    let empty_id = TickData::new(
        NOW,
        "BTCUSDT".to_string(),
        dec_from_str("1.0").unwrap(),
        dec_from_str("1.0").unwrap(),
        TradeSide::Buy,
        "".to_string(),
        false,
    );
    assert!(repo.insert_tick(&empty_id).is_err());

    let zero_price = TickData::new(
        NOW,
        "BTCUSDT".to_string(),
        dec_from_str("0.0").unwrap(),
        dec_from_str("1.0").unwrap(),
        TradeSide::Buy,
        "id2".to_string(),
        false,
    );
    assert!(repo.insert_tick(&zero_price).is_err());

    let negative_qty = TickData::new(
        NOW,
        "BTCUSDT".to_string(),
        dec_from_str("1.0").unwrap(),
        dec_from_str("-1.0").unwrap(),
        TradeSide::Buy,
        "id3".to_string(),
        false,
    );
    assert!(repo.insert_tick(&negative_qty).is_err());
}

#[test]
fn test_get_recent_ticks_for_backtest() {
    let mut repo = create_repository();
    let symbol = "BTCUSDT_BACKTEST";

    let ticks = vec![
        create_test_tick(symbol, "50000.0", "bt1", NOW),
        create_test_tick(symbol, "51000.0", "bt2", NOW + 1_000_000),
        create_test_tick(symbol, "52000.0", "bt3", NOW + 2_000_000),
    ];

    for tick in ticks {
        repo.insert_tick(&tick).expect("Failed to insert tick");
    }

    let backtest_ticks = repo.get_recent_ticks_for_backtest(&symbol.to_string(), 3);

    assert_eq!(backtest_ticks.len(), 3);
    assert_eq!(backtest_ticks[0].trade_id, "bt1");
    assert_eq!(backtest_ticks[1].trade_id, "bt2");
    assert_eq!(backtest_ticks[2].trade_id, "bt3");
    assert!(backtest_ticks[0].timestamp <= backtest_ticks[1].timestamp);
    assert!(backtest_ticks[1].timestamp <= backtest_ticks[2].timestamp);
}

#[test]
fn test_get_historical_data_for_backtest() {
    let mut repo = create_repository();
    let symbol = "BTCUSDT_BACKTEST";
    let hour = 3_600_000_000i64;

    let ticks = vec![
        create_test_tick(symbol, "50000.0", "hist1", NOW - 2 * hour),
        create_test_tick(symbol, "51000.0", "hist2", NOW - hour),
        create_test_tick(symbol, "52000.0", "hist3", NOW),
    ];

    for tick in ticks {
        repo.insert_tick(&tick).expect("Failed to insert tick");
    }

    let start_time = NOW - 3 * hour;
    let end_time = NOW + hour;
    let historical_ticks =
        repo.get_historical_data_for_backtest(&symbol.to_string(), start_time, end_time, None);

    assert_eq!(historical_ticks.len(), 3);
    assert_eq!(historical_ticks[0].trade_id, "hist1");
    assert_eq!(historical_ticks[1].trade_id, "hist2");
    assert_eq!(historical_ticks[2].trade_id, "hist3");

    for tick in &historical_ticks {
        assert!(tick.timestamp >= start_time);
        assert!(tick.timestamp <= end_time);
    }
}

#[test]
fn test_idempotent_insert() {
    // Inserting the same tick twice yields one row; the second insert
    // succeeds without error.
    let mut store = TickStore::new();
    let tick = create_test_tick("BTCUSDT", "50000.0", "dup", NOW);
    assert_eq!(store.insert(&tick).unwrap(), true);
    assert_eq!(store.insert(&tick.duplicate()).unwrap(), false);
    assert_eq!(store.rows.len(), 1);
}

#[test]
fn test_batch_dedup() {
    // Three ticks with ids [b1, b2, b2], same symbol, same timestamp:
    // two rows enter.
    let mut repo = create_repository();
    let symbol = "BTCUSDT";
    let ticks = vec![
        create_test_tick(symbol, "1.0", "b1", NOW),
        create_test_tick(symbol, "2.0", "b2", NOW),
        create_test_tick(symbol, "3.0", "b2", NOW),
    ];
    let inserted = repo.batch_insert(&ticks).unwrap();
    assert_eq!(inserted, 2);

    let rows = repo.get_ticks(&query_for(symbol, 10), NOW);
    assert_eq!(rows.len(), 2);
}

#[test]
fn test_cache_ring_bound() {
    // After K pushes of distinct ticks the ring holds min(K, capacity),
    // head being the oldest not yet evicted.
    let mut cache = MemoryCache::new(3, 300);
    for k in 0..5i64 {
        let tick = create_test_tick("BTCUSDT", "1.0", &format!("t{}", k), NOW + k);
        cache.push_tick(&tick);
    }
    let recent = cache.get_recent_ticks(&"BTCUSDT".to_string(), 10);
    assert_eq!(recent.len(), 3);
    assert_eq!(recent[0].trade_id, "t2");
    assert_eq!(recent[2].trade_id, "t4");
}

#[test]
fn test_cache_clear_and_symbols() {
    let mut cache = MemoryCache::new(3, 300);
    cache.push_tick(&create_test_tick("AAABBB", "1.0", "x", NOW));
    cache.push_tick(&create_test_tick("CCCDDD", "1.0", "y", NOW));
    assert_eq!(cache.get_symbols().len(), 2);
    cache.clear_symbol(&"AAABBB".to_string());
    assert_eq!(cache.get_recent_ticks(&"AAABBB".to_string(), 5).len(), 0);
    assert_eq!(cache.get_recent_ticks(&"CCCDDD".to_string(), 5).len(), 1);
}

#[test]
fn test_merge_remote_dedup() {
    // Remote entries already known to the memory tier by trade id are
    // dropped; the rest precede the memory ticks.
    let remote = vec![
        create_test_tick("BTCUSDT", "1.0", "r1", NOW),
        create_test_tick("BTCUSDT", "2.0", "shared", NOW + 1),
    ];
    let memory = vec![
        create_test_tick("BTCUSDT", "3.0", "shared", NOW + 1),
        create_test_tick("BTCUSDT", "4.0", "m2", NOW + 2),
    ];
    let merged = merge_remote_ticks(remote, memory);
    assert_eq!(merged.len(), 3);
    assert_eq!(merged[0].trade_id, "r1");
    assert_eq!(merged[1].trade_id, "shared");
    assert_eq!(merged[2].trade_id, "m2");
}

#[test]
fn test_cleanup_old_data() {
    let mut repo = create_repository();
    repo.insert_tick(&create_test_tick("BTCUSDT", "1.0", "old", NOW - 10))
        .unwrap();
    repo.insert_tick(&create_test_tick("BTCUSDT", "2.0", "new", NOW + 10))
        .unwrap();
    let removed = repo.cleanup_old_data(NOW);
    assert_eq!(removed, 1);
    let rows = repo.get_recent_ticks_for_backtest(&"BTCUSDT".to_string(), 10);
    assert_eq!(rows.len(), 1);
    assert_eq!(rows[0].trade_id, "new");
}

#[test]
fn test_get_backtest_data_info() {
    let mut repo = create_repository();
    let symbol = "BTCUSDT_BACKTEST";

    let tick = create_test_tick(symbol, "50000.0", "info1", NOW);
    repo.insert_tick(&tick).expect("Failed to insert tick");

    let info = repo.get_backtest_data_info();

    assert!(info.total_records > 0);
    assert!(info.symbols_count > 0);
    assert!(info.earliest_time.is_some());
    assert!(info.latest_time.is_some());
    assert!(!info.symbol_info.is_empty());

    let symbols = info.get_available_symbols();
    assert!(symbols.contains(&symbol.to_string()));

    let symbol_info = info.get_symbol_info(&symbol.to_string());
    assert!(symbol_info.is_some());
    assert!(symbol_info.unwrap().records_count > 0);
}

#[test]
fn test_symbol_summaries() {
    let mut repo = create_repository();
    repo.insert_tick(&create_test_tick("AAABBB", "10.0", "a1", NOW)).unwrap();
    repo.insert_tick(&create_test_tick("AAABBB", "30.0", "a2", NOW + 1)).unwrap();
    repo.insert_tick(&create_test_tick("CCCDDD", "5.0", "c1", NOW + 2)).unwrap();

    let info = repo.get_backtest_data_info();
    assert_eq!(info.total_records, 3);
    assert_eq!(info.symbols_count, 2);

    let a = info.get_symbol_info(&"AAABBB".to_string()).unwrap();
    assert_eq!(a.records_count, 2);
    assert_eq!(a.earliest_time, Some(NOW));
    assert_eq!(a.latest_time, Some(NOW + 1));
    assert_eq!(a.min_price, Some(dec_from_str("10.0").unwrap()));
    assert_eq!(a.max_price, Some(dec_from_str("30.0").unwrap()));

    // Ordered by descending row count.
    assert_eq!(info.symbol_info[0].symbol, "AAABBB");
    assert_eq!(info.symbol_info[0].records_count, 2);
    assert_eq!(info.symbol_info[1].symbol, "CCCDDD");
    assert_eq!(info.symbol_info[1].records_count, 1);

    assert!(info.has_sufficient_data(&"AAABBB".to_string(), 2));
    assert!(!info.has_sufficient_data(&"AAABBB".to_string(), 3));
    assert!(!info.has_sufficient_data(&"EEEFFF".to_string(), 1));

    let stats = repo.get_db_stats(Some(&"AAABBB".to_string()));
    assert_eq!(stats.total_records, 2);
    assert_eq!(stats.earliest_timestamp, Some(NOW));
    assert_eq!(stats.latest_timestamp, Some(NOW + 1));
    let all = repo.get_db_stats(None);
    assert_eq!(all.total_records, 3);
}

#[test]
fn test_data_info_orders_by_count() {
    let mut repo = create_repository();
    repo.insert_tick(&create_test_tick("FEWFEW", "1.0", "f1", NOW)).unwrap();
    for k in 0..3i64 {
        repo.insert_tick(&create_test_tick("MANYMANY", "1.0", &format!("m{}", k), NOW + k))
            .unwrap();
    }
    repo.insert_tick(&create_test_tick("MIDMID", "1.0", "d1", NOW)).unwrap();
    repo.insert_tick(&create_test_tick("MIDMID", "1.0", "d2", NOW + 1)).unwrap();

    let info = repo.get_backtest_data_info();
    let counts: Vec<u64> = info.symbol_info.iter().map(|e| e.records_count).collect();
    assert_eq!(counts, vec![3, 2, 1]);
    assert_eq!(info.symbol_info[0].symbol, "MANYMANY");
}

#[test]
fn test_cache_refill_stays_ascending() {
    // A store answer written back to the cache keeps the ring in ascending
    // timestamp order, so a later cache read replays oldest first.
    let mut repo = create_repository();
    for k in 0..3i64 {
        repo.insert_tick(&create_test_tick("BTCUSDT", "1.0", &format!("r{}", k), NOW + k))
            .unwrap();
    }
    repo.cache.clear_symbol(&"BTCUSDT".to_string());
    let answer = repo.get_ticks(&query_for("BTCUSDT", 3), NOW + 2);
    // The query itself answers newest first.
    assert_eq!(answer[0].trade_id, "r2");
    // The refilled ring is oldest first.
    let ring = repo.get_cache().get_recent_ticks(&"BTCUSDT".to_string(), 3);
    assert_eq!(ring.len(), 3);
    assert_eq!(ring[0].trade_id, "r0");
    assert_eq!(ring[1].trade_id, "r1");
    assert_eq!(ring[2].trade_id, "r2");
}

#[test]
fn test_get_latest_prices() {
    let mut repo = create_repository();
    repo.insert_tick(&create_test_tick("AAABBB", "10.0", "a1", NOW)).unwrap();
    repo.insert_tick(&create_test_tick("AAABBB", "12.0", "a2", NOW + 1)).unwrap();
    repo.insert_tick(&create_test_tick("CCCDDD", "5.0", "c1", NOW)).unwrap();

    let request = vec![
        "AAABBB".to_string(),
        "EEEFFF".to_string(),
        "CCCDDD".to_string(),
    ];
    let prices = repo.get_latest_prices(&request);
    assert_eq!(prices.len(), 2);
    assert_eq!(prices[0].symbol, "AAABBB");
    assert_eq!(prices[0].price, dec_from_str("12.0").unwrap());
    assert_eq!(prices[1].symbol, "CCCDDD");
    assert_eq!(prices[1].price, dec_from_str("5.0").unwrap());
}

#[test]
fn test_generate_ohlc_from_ticks() {
    let mut repo = create_repository();
    let minute = 60_000_000i64;
    let base = (NOW / minute) * minute;
    // Three ticks in one window, one in the next.
    repo.insert_tick(&create_test_tick("AAABBB", "10.0", "w1", base)).unwrap();
    repo.insert_tick(&create_test_tick("AAABBB", "14.0", "w2", base + 1)).unwrap();
    repo.insert_tick(&create_test_tick("AAABBB", "12.0", "w3", base + 2)).unwrap();
    repo.insert_tick(&create_test_tick("AAABBB", "9.0", "x1", base + minute)).unwrap();

    let bars = repo.generate_ohlc_from_ticks(
        &"AAABBB".to_string(),
        Timeframe::OneMinute,
        base,
        base + 2 * minute,
        None,
    );
    assert_eq!(bars.len(), 2);
    let first = bars.iter().find(|b| b.timestamp == base).unwrap();
    assert_eq!(first.open, dec_from_str("10.0").unwrap());
    assert_eq!(first.high, dec_from_str("14.0").unwrap());
    assert_eq!(first.low, dec_from_str("10.0").unwrap());
    assert_eq!(first.close, dec_from_str("12.0").unwrap());
    assert_eq!(first.volume, dec_from_str("3.0").unwrap());
    let second = bars.iter().find(|b| b.timestamp == base + minute).unwrap();
    assert_eq!(second.open, dec_from_str("9.0").unwrap());
    assert_eq!(second.close, dec_from_str("9.0").unwrap());
}

#[test]
fn test_query_range_side_filter_and_order() {
    let mut store = TickStore::new();
    let mut sell = create_test_tick("BTCUSDT", "1.0", "s1", NOW + 5);
    sell.side = TradeSide::Sell;
    store.insert(&create_test_tick("BTCUSDT", "1.0", "b1", NOW)).unwrap();
    store.insert(&sell).unwrap();
    store.insert(&create_test_tick("BTCUSDT", "1.0", "b2", NOW + 9)).unwrap();

    let q = TickQuery {
        symbol: "BTCUSDT".to_string(),
        start_time: None,
        end_time: None,
        trade_side: Some(TradeSide::Buy),
        limit: Some(10),
    };
    let rows = store.query_range(&q);
    assert_eq!(rows.len(), 2);
    // Newest first.
    assert_eq!(rows[0].trade_id, "b2");
    assert_eq!(rows[1].trade_id, "b1");
}
