use orderbook::engine::TradingEngine;
use orderbook::types::{OrderError, Side};

// The engine works in integer units: price in cents, quantity in 1e-4 units,
// so $1000.00 is 100000 and 10.0 units are 100000.

#[test]
fn test_valcoin_trading_engine() {
    let mut engine = TradingEngine::new();

    // Test placing orders
    let trades = engine.place_order(Side::Buy, 100000, 100000).unwrap();
    assert!(trades.is_empty()); // No matching orders

    let trades = engine.place_order(Side::Sell, 100000, 50000).unwrap();
    assert_eq!(trades.len(), 1); // Should match
    assert_eq!(trades[0].quantity, 50000); // 5.0 * 10000
}

#[test]
fn test_time_and_sales() {
    let mut engine = TradingEngine::new();

    // Place orders that will trade
    engine.place_order(Side::Buy, 100000, 100000).unwrap();
    let trades = engine.place_order(Side::Sell, 100000, 50000).unwrap();

    assert_eq!(trades.len(), 1);
    assert_eq!(engine.trades_history.len(), 1);
}

#[test]
fn test_engine_ids_start_at_1000_and_skip_no_rejects() {
    let mut engine = TradingEngine::new();

    assert_eq!(engine.place_order(Side::Buy, 100, 0), Err(OrderError::InvalidQuantity));
    assert_eq!(engine.place_order(Side::Buy, 0, 100), Err(OrderError::InvalidPrice));

    // The rejected submissions drew no ids: the first accepted order is 1000.
    engine.place_order(Side::Buy, 100, 5).unwrap();
    let trades = engine.place_order(Side::Sell, 100, 5).unwrap();
    assert_eq!(trades.len(), 1);
    assert_eq!(trades[0].maker_id, 1000);
    assert_eq!(trades[0].taker_id, 1001);
}

#[test]
fn test_engine_tape_accumulates_in_execution_order() {
    let mut engine = TradingEngine::new();
    engine.place_order(Side::Sell, 100, 5).unwrap();
    engine.place_order(Side::Sell, 101, 5).unwrap();
    let trades = engine.place_order(Side::Buy, 101, 8).unwrap();
    assert_eq!(trades.len(), 2);
    assert_eq!(engine.trades_history.len(), 2);
    assert_eq!(engine.trades_history[0], trades[0]);
    assert_eq!(engine.trades_history[1], trades[1]);
    assert_eq!(engine.trades_history[0].price, 100);
    assert_eq!(engine.trades_history[1].price, 101);
}
