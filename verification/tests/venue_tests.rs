use trading_core::decimal::dec_from_str;
use trading_core::tick::TradeSide;
use trading_core::venue::{
    build_binance_trade_streams, parse_trade_message, validate_binance_symbol,
    BinanceSubscribeMessage, ExchangeError, HistoricalTradeParams,
};

#[test]
fn test_symbol_validation() {
    assert!(validate_binance_symbol("BTCUSDT").is_ok());
    assert!(validate_binance_symbol("btcusdt").is_ok());
    assert!(validate_binance_symbol("").is_err());
    assert!(validate_binance_symbol("BTC-USDT").is_err());
}

#[test]
fn test_stream_building() {
    let symbols = vec!["BTCUSDT".to_string(), "ETHUSDT".to_string()];
    let streams = build_binance_trade_streams(&symbols).unwrap();

    assert_eq!(streams.len(), 2);
    assert_eq!(streams[0], "btcusdt@trade");
    assert_eq!(streams[1], "ethusdt@trade");
}

#[test]
fn test_symbol_validation_uppercases() {
    let s = validate_binance_symbol("btcUsdt").unwrap();
    assert_eq!(s, "BTCUSDT");
    assert!(validate_binance_symbol("AB").is_err());
    assert!(validate_binance_symbol("ABCDEFGHIJKLMNOPQRSTU").is_err());
}

#[test]
fn test_stream_building_rejects_empty_list() {
    let symbols: Vec<String> = Vec::new();
    assert!(build_binance_trade_streams(&symbols).is_err());
}

#[test]
fn test_parse_trade_message() {
    // Combined stream message format.
    let stream_msg = r#"{
            "stream": "btcusdt@trade",
            "data": {
                "e": "trade",
                "E": 1672515782136,
                "s": "BTCUSDT",
                "t": 12345,
                "p": "50000.00",
                "q": "0.001",
                "b": 88,
                "a": 50,
                "T": 1672515782136,
                "m": false,
                "M": true
            }
        }"#;

    let tick_data = parse_trade_message(stream_msg).unwrap();

    assert_eq!(tick_data.symbol, "BTCUSDT");
    assert_eq!(tick_data.price, dec_from_str("50000.00").unwrap());
    assert_eq!(tick_data.quantity, dec_from_str("0.001").unwrap());
    assert_eq!(tick_data.side, TradeSide::Buy); // is_buyer_maker = false -> Buy
    assert_eq!(tick_data.trade_id, "12345");
    assert!(!tick_data.is_buyer_maker);
}

#[test]
fn test_parse_direct_trade_message() {
    // Direct trade message format.
    let trade_msg = r#"{
            "e": "trade",
            "E": 1672515782136,
            "s": "ETHUSDT",
            "t": 67890,
            "p": "3000.50",
            "q": "0.1",
            "b": 88,
            "a": 50,
            "T": 1672515782136,
            "m": true,
            "M": true
        }"#;

    let tick_data = parse_trade_message(trade_msg).unwrap();

    assert_eq!(tick_data.symbol, "ETHUSDT");
    assert_eq!(tick_data.price, dec_from_str("3000.50").unwrap());
    assert_eq!(tick_data.side, TradeSide::Sell); // is_buyer_maker = true -> Sell
    assert!(tick_data.is_buyer_maker);
}

#[test]
fn test_parse_subscription_confirmation() {
    let confirmation_msg = r#"{
            "result": null,
            "id": 1
        }"#;

    let result = parse_trade_message(confirmation_msg);
    assert!(result.is_err());

    // Should be a parse error indicating it's a control message.
    if let Err(ExchangeError::ParseError(msg)) = result {
        assert!(msg.contains("Control message"));
    } else {
        panic!("Expected ParseError with control message indication");
    }
}

#[test]
fn test_historical_trade_params() {
    let now = chrono::Utc::now().timestamp_micros();
    let hour = 3_600_000_000i64;
    let params = HistoricalTradeParams::new("BTCUSDT".to_string())
        .with_limit(100)
        .with_time_range(now - hour, now);

    assert_eq!(params.symbol, "BTCUSDT");
    assert_eq!(params.limit, Some(100));
    assert!(params.start_time.is_some());
    assert!(params.end_time.is_some());
}

#[test]
fn test_subscribe_message_shape() {
    let msg = BinanceSubscribeMessage::new(vec!["btcusdt@trade".to_string()]);
    assert_eq!(msg.method, "SUBSCRIBE");
    assert_eq!(msg.params, vec!["btcusdt@trade".to_string()]);
    assert_eq!(msg.id, 1);
}

#[test]
fn test_venue_side_mapping() {
    // side == Sell exactly when the buyer was the maker.
    let maker = r#"{"s":"BTCUSDT","t":1,"p":"1.0","q":"1.0","T":1000,"m":true}"#;
    let taker = r#"{"s":"BTCUSDT","t":2,"p":"1.0","q":"1.0","T":1000,"m":false}"#;
    assert_eq!(parse_trade_message(maker).unwrap().side, TradeSide::Sell);
    assert_eq!(parse_trade_message(taker).unwrap().side, TradeSide::Buy);
}

#[test]
fn test_parse_rejects_nonpositive_price() {
    let zero = r#"{"s":"BTCUSDT","t":1,"p":"0.0","q":"1.0","T":1000,"m":false}"#;
    assert!(parse_trade_message(zero).is_err());
    let garbage = "not json at all";
    assert!(parse_trade_message(garbage).is_err());
}

#[test]
fn test_decimal_parsing() {
    assert_eq!(dec_from_str("50000.00").unwrap().units, 50_000_000_000_000i128);
    assert_eq!(dec_from_str("0.001").unwrap().units, 1_000_000i128);
    assert_eq!(dec_from_str("-2.5").unwrap().units, -2_500_000_000i128);
    assert_eq!(dec_from_str("7").unwrap().units, 7_000_000_000i128);
    assert!(dec_from_str("").is_none());
    assert!(dec_from_str("1.").is_none());
    assert!(dec_from_str(".5").is_none());
    assert!(dec_from_str("12a").is_none());
    assert!(dec_from_str("1.0000000001").is_none());
}
