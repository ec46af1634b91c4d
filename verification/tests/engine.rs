use matchbook::engine::MatchingEngine;
use matchbook::order::{Order, Side};

fn order(order_id: u64, symbol: &str, side: Side, price: u64, quantity: u64) -> Order {
    Order {
        order_id,
        symbol: symbol.to_string(),
        side,
        price,
        quantity,
        timestamp: order_id * 10,
    }
}

#[test]
fn engine_routes_by_symbol() {
    let mut engine = MatchingEngine::new();
    engine.add_order(order(1, "BTC-USD", Side::Sell, 50000, 10));
    engine.add_order(order(2, "ETH-USD", Side::Sell, 3000, 10));
    // a buy on one symbol never touches the other symbol's book
    let trades = engine.add_order(order(3, "BTC-USD", Side::Buy, 50000, 4));
    assert_eq!(trades.len(), 1);
    assert_eq!(trades[0].sell_order_id, 1);
    assert_eq!(trades[0].symbol, "BTC-USD");
    assert_eq!(engine.books.len(), 2);
    let eth = engine.books.iter().find(|e| e.symbol == "ETH-USD").unwrap();
    assert_eq!(eth.book.asks.len(), 1);
    assert_eq!(eth.book.asks[0].total_quantity(), 10);
}

#[test]
fn engine_accumulates_history() {
    let mut engine = MatchingEngine::new();
    engine.add_order(order(1, "BTC-USD", Side::Sell, 50000, 10));
    engine.add_order(order(2, "BTC-USD", Side::Buy, 50000, 4));
    engine.add_order(order(3, "BTC-USD", Side::Buy, 50000, 5));
    assert_eq!(engine.trades.len(), 2);
    assert_eq!(engine.trades[0].quantity, 4);
    assert_eq!(engine.trades[1].quantity, 5);
}

#[test]
fn engine_cancel_outcomes() {
    let mut engine = MatchingEngine::new();
    engine.add_order(order(1, "BTC-USD", Side::Buy, 49000, 10));
    // unknown symbol: no book to look in
    assert_eq!(engine.cancel_order(1, "ETH-USD"), None);
    // known symbol, resting order: removed exactly once
    assert_eq!(engine.cancel_order(1, "BTC-USD"), Some(true));
    assert_eq!(engine.cancel_order(1, "BTC-USD"), Some(false));
    // known symbol, unknown id
    assert_eq!(engine.cancel_order(42, "BTC-USD"), Some(false));
}
