use cex_core::decimal::Decimal;
use cex_core::engine::Engine;
use cex_core::order_book::OrderBook;
use cex_core::types::{EngineError, Order, Side};

fn d(n: i64) -> Decimal {
    Decimal::new(n, 0)
}

fn order(id: u64, user: u64, symbol: &str, side: Side, price: i64, amount: i64) -> Order {
    Order::new(id, user, symbol, side, d(price), d(amount))
}

fn rust(d: Decimal) -> rust_decimal::Decimal {
    rust_decimal::Decimal::from_i128_with_scale(d.mantissa, d.scale)
}

fn book_total(book: &OrderBook) -> rust_decimal::Decimal {
    book.open_orders().iter().map(|o| rust(o.remaining)).sum()
}

#[test]
fn orders_are_routed_by_symbol() {
    let mut engine = Engine::new();
    engine.match_order(order(1, 1, "BTC_USDT", Side::Sell, 100, 5)).unwrap();
    engine.match_order(order(2, 1, "ETH_USDT", Side::Sell, 10, 5)).unwrap();
    // a buy on ETH does not touch the BTC book
    let trades = engine.match_order(order(3, 2, "ETH_USDT", Side::Buy, 10, 2)).unwrap();
    assert_eq!(trades.len(), 1);
    assert_eq!(trades[0].maker_order_id, 2);
    assert_eq!(trades[0].symbol, "ETH_USDT");
    let (bids, asks) = engine.depth_snapshot("BTC_USDT", 10);
    assert!(bids.is_empty());
    assert_eq!(asks, vec![(d(100), d(5))]);
    let (_, asks) = engine.depth_snapshot("ETH_USDT", 10);
    assert_eq!(asks, vec![(d(10), d(3))]);
    let mut symbols = engine.symbols();
    symbols.sort();
    assert_eq!(symbols, vec!["BTC_USDT", "ETH_USDT"]);
}

#[test]
fn unknown_symbol_has_empty_depth_and_nothing_to_cancel() {
    let mut engine = Engine::default();
    assert_eq!(engine.depth_snapshot("NOPE", 5), (vec![], vec![]));
    assert_eq!(engine.cancel_order("NOPE", 4).unwrap_err(), EngineError::OrderNotFound(4));
    assert!(engine.symbols().is_empty());
}

#[test]
fn rejected_order_still_opens_its_book() {
    let mut engine = Engine::new();
    let err = engine.match_order(order(1, 1, "SOL_USDT", Side::Buy, 0, 1)).unwrap_err();
    assert_eq!(err, EngineError::InvalidPrice(d(0)));
    assert_eq!(engine.symbols(), vec!["SOL_USDT"]);
}

#[test]
fn engine_cancel_returns_the_resting_order() {
    let mut engine = Engine::new();
    engine.match_order(order(7, 3, "BTC_USDT", Side::Buy, 99, 4)).unwrap();
    let o = engine.cancel_order("BTC_USDT", 7).unwrap();
    assert_eq!((o.id, o.user_id, o.remaining), (7, 3, d(4)));
    assert_eq!(engine.cancel_order("BTC_USDT", 7).unwrap_err(), EngineError::OrderNotFound(7));
}

#[test]
fn depth_sums_each_level_and_respects_the_limit() {
    let mut book = OrderBook::new();
    book.add_order(order(1, 1, "X_Y", Side::Buy, 100, 1)).unwrap();
    book.add_order(order(2, 1, "X_Y", Side::Buy, 100, 2)).unwrap();
    book.add_order(order(3, 1, "X_Y", Side::Buy, 99, 4)).unwrap();
    book.add_order(order(4, 2, "X_Y", Side::Sell, 101, 1)).unwrap();
    book.add_order(order(5, 2, "X_Y", Side::Sell, 103, 1)).unwrap();
    book.add_order(order(6, 2, "X_Y", Side::Sell, 102, 1)).unwrap();
    let (bids, asks) = book.depth_snapshot(2);
    assert_eq!(bids, vec![(d(100), d(3)), (d(99), d(4))]);
    assert_eq!(asks, vec![(d(101), d(1)), (d(102), d(1))]);
    let (bids, _) = book.depth_snapshot(1);
    assert_eq!(bids.len(), 1);
    let (bids, asks) = book.depth_snapshot(0);
    assert!(bids.is_empty() && asks.is_empty());
}

// Conservation: what leaves the book and the taker is exactly twice what is traded.
#[test]
fn matching_conserves_quantity() {
    let mut book = OrderBook::new();
    book.add_order(order(1, 1, "X_Y", Side::Sell, 100, 5)).unwrap();
    book.add_order(order(2, 1, "X_Y", Side::Sell, 101, 7)).unwrap();
    book.add_order(order(3, 3, "X_Y", Side::Buy, 90, 2)).unwrap();
    let before = book_total(&book);
    let taker = order(9, 2, "X_Y", Side::Buy, 101, 9);
    let taker_amount = rust(taker.amount);
    let trades = book.match_order(taker).unwrap();
    let traded: rust_decimal::Decimal = trades.iter().map(|t| rust(t.amount)).sum();
    let after = book_total(&book);
    // taker fully filled, so nothing of it rests
    let lhs = after + traded + traded;
    let rhs = before + taker_amount;
    assert_eq!(lhs, rhs);
    assert_eq!(traded, rust(d(9)));
}

// A book that is not crossed stays uncrossed after any match.
#[test]
fn matching_leaves_the_book_uncrossed() {
    let mut book = OrderBook::new();
    book.add_order(order(1, 1, "X_Y", Side::Sell, 101, 5)).unwrap();
    book.add_order(order(2, 1, "X_Y", Side::Buy, 99, 5)).unwrap();
    book.match_order(order(3, 2, "X_Y", Side::Buy, 105, 8)).unwrap();
    let bid = book.best_bid().unwrap();
    assert!(book.best_ask().is_none());
    assert_eq!(bid, d(105));
    book.match_order(order(4, 3, "X_Y", Side::Sell, 98, 4)).unwrap();
    if let (Some(b), Some(a)) = (book.best_bid(), book.best_ask()) {
        assert!(rust(b) < rust(a));
    }
}

// Adding an order and cancelling it gives the book back.
#[test]
fn add_then_cancel_restores_the_book() {
    let mut book = OrderBook::new();
    book.add_order(order(1, 1, "X_Y", Side::Buy, 100, 1)).unwrap();
    book.add_order(order(2, 1, "X_Y", Side::Sell, 102, 1)).unwrap();
    let before = book.open_orders();
    book.add_order(order(3, 1, "X_Y", Side::Buy, 101, 2)).unwrap();
    assert_eq!(book.best_bid(), Some(d(101)));
    book.cancel_order(3).unwrap();
    let after = book.open_orders();
    assert_eq!(before.len(), after.len());
    for (a, b) in before.iter().zip(after.iter()) {
        assert_eq!((a.id, a.price, a.remaining), (b.id, b.price, b.remaining));
    }
    assert_eq!(book.best_bid(), Some(d(100)));
}

// A refused request leaves the book as it was.
#[test]
fn refused_match_changes_nothing() {
    let mut book = OrderBook::new();
    book.add_order(order(1, 5, "X_Y", Side::Sell, 100, 2)).unwrap();
    let before = book.open_orders();
    assert!(book.match_order(order(1, 6, "X_Y", Side::Buy, 100, 1)).is_err());
    assert!(book.match_order(order(2, 5, "X_Y", Side::Buy, 100, 1)).is_err());
    assert!(book.match_order(order(3, 6, "X_Y", Side::Buy, 100, 0)).is_err());
    let after = book.open_orders();
    assert_eq!(before.len(), after.len());
    assert_eq!(after[0].remaining, d(2));
}

#[test]
fn duplicate_taker_id_is_rejected_by_match() {
    let mut book = OrderBook::new();
    book.add_order(order(1, 5, "X_Y", Side::Buy, 90, 2)).unwrap();
    let err = book.match_order(order(1, 6, "X_Y", Side::Sell, 95, 1)).unwrap_err();
    assert_eq!(err, EngineError::DuplicateOrderId(1));
}

#[test]
fn error_messages() {
    assert_eq!(EngineError::DuplicateOrderId(3).message(), "order id 3 already exists in the book");
    assert_eq!(EngineError::OrderNotFound(4).message(), "order id 4 not found");
    assert_eq!(EngineError::InvalidPrice(Decimal::new(-15, 1)).message(), "price must be positive, got -1.5");
    assert_eq!(EngineError::InvalidAmount(d(0)).message(), "amount must be positive, got 0");
}
