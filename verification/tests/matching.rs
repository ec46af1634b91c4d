use matchbook::book::SymbolBook;
use matchbook::order::{IdGen, Order, Side, Trade};

fn order(order_id: u64, side: Side, price: u64, quantity: u64, timestamp: u64) -> Order {
    Order { order_id, symbol: "BTC-USD".to_string(), side, price, quantity, timestamp }
}

/// Asks 50020x10 (id 1), 50050x5 (id 2), 50020x5 (id 3);
/// bids 49980x20 (id 4), 49950x15 (id 5), 49980x10 (id 6).
fn seeded_book() -> SymbolBook {
    let mut book = SymbolBook::new();
    assert!(book.process_order(order(1, Side::Sell, 50020, 10, 10)).is_empty());
    assert!(book.process_order(order(2, Side::Sell, 50050, 5, 20)).is_empty());
    assert!(book.process_order(order(3, Side::Sell, 50020, 5, 30)).is_empty());
    assert!(book.process_order(order(4, Side::Buy, 49980, 20, 40)).is_empty());
    assert!(book.process_order(order(5, Side::Buy, 49950, 15, 50)).is_empty());
    assert!(book.process_order(order(6, Side::Buy, 49980, 10, 60)).is_empty());
    book
}

fn resting_quantity(book: &SymbolBook, order_id: u64) -> u64 {
    for lvl in book.bids.iter().chain(book.asks.iter()) {
        for o in lvl.orders.iter() {
            if o.order_id == order_id {
                return o.quantity;
            }
        }
    }
    0
}

fn assert_uncrossed(book: &SymbolBook) {
    if let (Some(bid), Some(ask)) = (book.best_bid(), book.best_ask()) {
        assert!(bid < ask, "book rests crossed: bid {} >= ask {}", bid, ask);
    }
}

fn assert_no_empty_levels(book: &SymbolBook) {
    for lvl in book.bids.iter().chain(book.asks.iter()) {
        assert!(!lvl.orders.is_empty(), "empty level at price {}", lvl.price);
    }
}

#[test]
fn resting_orders_do_not_match() {
    let book = seeded_book();
    assert_eq!(book.asks.len(), 2); // 50020, 50050
    assert_eq!(book.bids.len(), 2); // 49950, 49980
    assert_eq!(book.best_bid(), Some(49980));
    assert_eq!(book.best_ask(), Some(50020));
    assert_uncrossed(&book);
    assert_no_empty_levels(&book);
}

#[test]
fn incoming_buy_fills_fifo_at_best_ask() {
    // Scenario: buy 50020x15 fills 10 against the first 50020 ask, then 5
    // against the second, leaves nothing resting, 50050 untouched.
    let mut book = seeded_book();
    let trades = book.process_order(order(7, Side::Buy, 50020, 15, 70));
    assert_eq!(trades.len(), 2);
    assert_eq!(trades[0].sell_order_id, 1);
    assert_eq!(trades[0].quantity, 10);
    assert_eq!(trades[0].price, 50020);
    assert_eq!(trades[0].buy_order_id, 7);
    assert_eq!(trades[1].sell_order_id, 3);
    assert_eq!(trades[1].quantity, 5);
    assert_eq!(trades[1].price, 50020);
    assert_eq!(trades[1].buy_order_id, 7);
    // the incoming order does not rest
    assert_eq!(resting_quantity(&book, 7), 0);
    assert!(!book.cancel_order(7));
    // the 50050 ask is unchanged
    assert_eq!(book.asks.len(), 1);
    assert_eq!(book.asks[0].price, 50050);
    assert_eq!(book.asks[0].total_quantity(), 5);
    assert_uncrossed(&book);
    assert_no_empty_levels(&book);
}

#[test]
fn incoming_sell_crosses_down_the_bids() {
    // Scenario: sell 49900x35 fills 20 against the first 49980 bid, 10
    // against the second, 5 against the 49950 bid, leaving 10 resting there.
    let mut book = seeded_book();
    let trades = book.process_order(order(7, Side::Sell, 49900, 35, 70));
    assert_eq!(trades.len(), 3);
    assert_eq!(trades[0].buy_order_id, 4);
    assert_eq!(trades[0].quantity, 20);
    assert_eq!(trades[0].price, 49980);
    assert_eq!(trades[1].buy_order_id, 6);
    assert_eq!(trades[1].quantity, 10);
    assert_eq!(trades[1].price, 49980);
    assert_eq!(trades[2].buy_order_id, 5);
    assert_eq!(trades[2].quantity, 5);
    assert_eq!(trades[2].price, 49950);
    for t in &trades {
        assert_eq!(t.sell_order_id, 7);
        assert_eq!(t.symbol, "BTC-USD");
    }
    // the partially filled bid keeps its remaining 10 at 49950
    assert_eq!(resting_quantity(&book, 5), 10);
    assert_eq!(book.bids.len(), 1);
    assert_eq!(book.bids[0].price, 49950);
    assert_uncrossed(&book);
    assert_no_empty_levels(&book);
}

#[test]
fn cancel_partially_filled_order_prunes_level() {
    // Scenario: after the 35-lot sell, cancelling the 49950 order removes
    // its remaining 10 and the whole 49950 level; a second cancel fails.
    let mut book = seeded_book();
    book.process_order(order(7, Side::Sell, 49900, 35, 70));
    assert!(book.cancel_order(5));
    assert_eq!(resting_quantity(&book, 5), 0);
    assert!(book.bids.is_empty());
    assert!(!book.cancel_order(5));
    assert_uncrossed(&book);
    assert_no_empty_levels(&book);
}

#[test]
fn cancel_reports_found_exactly_once() {
    let mut book = SymbolBook::new();
    book.process_order(order(11, Side::Buy, 100, 7, 1));
    assert!(book.cancel_order(11));
    assert!(!book.cancel_order(11));
    assert!(!book.cancel_order(999));
}

#[test]
fn conservation_of_quantity() {
    // Trade quantities (counted once per side) plus the resting remainder
    // equal the incoming order's original quantity.
    let mut book = seeded_book();
    let original = 35;
    let trades = book.process_order(order(7, Side::Sell, 49900, original, 70));
    let matched: u64 = trades.iter().map(|t| t.quantity).sum();
    let per_side_total: u64 = trades.iter().map(|t| t.quantity * 2).sum::<u64>() / 2;
    assert_eq!(per_side_total, matched);
    assert_eq!(matched + resting_quantity(&book, 7), original);
}

#[test]
fn opposite_side_depletion_equals_traded_quantity() {
    // The resting side loses exactly the traded quantity, never more.
    let mut book = seeded_book();
    let before: u128 = book.bids.iter().map(|l| l.total_quantity()).sum();
    let trades = book.process_order(order(7, Side::Sell, 49900, 35, 70));
    let after: u128 = book.bids.iter().map(|l| l.total_quantity()).sum();
    let matched: u128 = trades.iter().map(|t| t.quantity as u128).sum();
    assert_eq!(before - after, matched);
}

#[test]
fn conservation_when_fully_resting() {
    let mut book = SymbolBook::new();
    let trades = book.process_order(order(1, Side::Buy, 10, 42, 1));
    assert!(trades.is_empty());
    assert_eq!(resting_quantity(&book, 1), 42);
}

#[test]
fn fifo_earlier_order_fills_first() {
    // Two asks at one price: the earlier one is consumed before the later
    // one is touched, even across partial fills.
    let mut book = SymbolBook::new();
    book.process_order(order(1, Side::Sell, 500, 10, 1));
    book.process_order(order(2, Side::Sell, 500, 10, 2));
    // first taker leaves 4 of order 1
    let t1 = book.process_order(order(3, Side::Buy, 500, 6, 3));
    assert_eq!(t1.len(), 1);
    assert_eq!(t1[0].sell_order_id, 1);
    assert_eq!(resting_quantity(&book, 1), 4);
    assert_eq!(resting_quantity(&book, 2), 10);
    // second taker finishes order 1 before touching order 2
    let t2 = book.process_order(order(4, Side::Buy, 500, 6, 4));
    assert_eq!(t2.len(), 2);
    assert_eq!(t2[0].sell_order_id, 1);
    assert_eq!(t2[0].quantity, 4);
    assert_eq!(t2[1].sell_order_id, 2);
    assert_eq!(t2[1].quantity, 2);
    assert_eq!(resting_quantity(&book, 2), 8);
}

#[test]
fn partial_fill_keeps_time_priority() {
    // A partially filled resting order goes back to the front of its level:
    // it is served again before orders that arrived after it.
    let mut book = SymbolBook::new();
    book.process_order(order(1, Side::Sell, 500, 10, 1));
    book.process_order(order(2, Side::Sell, 500, 10, 2));
    book.process_order(order(3, Side::Buy, 500, 3, 3)); // order 1 now 7
    let t = book.process_order(order(4, Side::Buy, 500, 3, 4));
    assert_eq!(t[0].sell_order_id, 1);
    assert_eq!(resting_quantity(&book, 1), 4);
    assert_eq!(resting_quantity(&book, 2), 10);
}

#[test]
fn maker_price_sets_the_trade_price() {
    // An aggressive buy above the resting ask executes at the ask's price.
    let mut book = SymbolBook::new();
    book.process_order(order(1, Side::Sell, 500, 5, 1));
    let trades = book.process_order(order(2, Side::Buy, 520, 5, 2));
    assert_eq!(trades.len(), 1);
    assert_eq!(trades[0].price, 500);
}

#[test]
fn price_priority_best_level_first() {
    // A sweeping buy takes the cheapest asks first.
    let mut book = SymbolBook::new();
    book.process_order(order(1, Side::Sell, 530, 5, 1));
    book.process_order(order(2, Side::Sell, 510, 5, 2));
    book.process_order(order(3, Side::Sell, 520, 5, 3));
    let trades = book.process_order(order(4, Side::Buy, 530, 15, 4));
    assert_eq!(trades.len(), 3);
    assert_eq!(trades[0].price, 510);
    assert_eq!(trades[1].price, 520);
    assert_eq!(trades[2].price, 530);
    assert!(book.asks.is_empty());
}

#[test]
fn non_crossing_order_rests_whole() {
    let mut book = seeded_book();
    let trades = book.process_order(order(7, Side::Sell, 50500, 50, 70));
    assert!(trades.is_empty());
    assert_eq!(resting_quantity(&book, 7), 50);
    assert_eq!(book.asks.len(), 3);
    assert_uncrossed(&book);
    assert_no_empty_levels(&book);
}

#[test]
fn level_total_quantity_is_exact() {
    let book = seeded_book();
    // the 49980 bid level holds 20 + 10
    let lvl = book.bids.iter().find(|l| l.price == 49980).unwrap();
    assert_eq!(lvl.total_quantity(), 30);
    assert_eq!(lvl.orders.len(), 2);
}

#[test]
fn trade_clone_is_equal() {
    let t = Trade {
        buy_order_id: 1,
        sell_order_id: 2,
        symbol: "BTC-USD".to_string(),
        price: 3,
        quantity: 4,
    };
    let c = t.clone();
    assert_eq!(c.buy_order_id, t.buy_order_id);
    assert_eq!(c.sell_order_id, t.sell_order_id);
    assert_eq!(c.symbol, t.symbol);
    assert_eq!(c.price, t.price);
    assert_eq!(c.quantity, t.quantity);
}

#[test]
fn id_generator_is_monotonic() {
    let mut gen = IdGen::new();
    assert_eq!(gen.generate_order_id(), 1000);
    assert_eq!(gen.generate_order_id(), 1001);
    assert_eq!(gen.generate_timestamp(), 1_700_000_000_000);
    assert_eq!(gen.generate_timestamp(), 1_700_000_000_010);
    assert_eq!(gen.generate_order_id(), 1002);
}
