use cex_core::decimal::Decimal;
use cex_core::engine::Engine;
use cex_core::ledger::{InMemoryLedger, LedgerError, UserBalanceSnapshot};
use cex_core::trading::{cancel_and_release, place_limit_order, CancelError, PlaceError};
use cex_core::types::{EngineError, Order, Side};

fn d(n: i64) -> Decimal {
    Decimal::new(n, 0)
}

fn balance_of(ledger: &InMemoryLedger, user_id: u64, asset: &str) -> UserBalanceSnapshot {
    ledger.balances_for_user(user_id).into_iter().find(|b| b.asset == asset).unwrap()
}

fn funded_ledger() -> InMemoryLedger {
    let rows = vec![
        (1_i64, "USDT".to_string(), d(1000), d(0)),
        (1_i64, "BTC".to_string(), d(0), d(0)),
        (2_i64, "BTC".to_string(), d(5), d(0)),
        (2_i64, "USDT".to_string(), d(0), d(0)),
    ];
    InMemoryLedger::from_rows(&rows).unwrap()
}

#[test]
fn placing_without_funds_is_refused_and_changes_nothing() {
    let mut engine = Engine::new();
    let mut ledger = funded_ledger();
    let order = Order::new(1, 1, "BTC_USDT", Side::Buy, d(100), d(20));
    let r = place_limit_order(&mut engine, &mut ledger, order, "BTC", "USDT").unwrap();
    assert_eq!(
        r,
        Err(PlaceError::Reserve(LedgerError::InsufficientFreeBalance {
            user_id: 1,
            asset: "USDT".to_string(),
            required: d(2000),
            available: d(1000),
        }))
    );
    assert!(engine.symbols().is_empty());
    assert_eq!(balance_of(&ledger, 1, "USDT").free, d(1000));
    assert_eq!(balance_of(&ledger, 1, "USDT").locked, d(0));
}

#[test]
fn resting_order_locks_its_funds() {
    let mut engine = Engine::new();
    let mut ledger = funded_ledger();
    let order = Order::new(1, 1, "BTC_USDT", Side::Buy, d(100), d(2));
    let trades = place_limit_order(&mut engine, &mut ledger, order, "BTC", "USDT").unwrap().unwrap();
    assert!(trades.is_empty());
    assert_eq!(balance_of(&ledger, 1, "USDT").free, d(800));
    assert_eq!(balance_of(&ledger, 1, "USDT").locked, d(200));
    assert_eq!(engine.open_orders_by_user("BTC_USDT", 1).len(), 1);
}

#[test]
fn crossing_orders_trade_and_settle_both_users() {
    let mut engine = Engine::new();
    let mut ledger = funded_ledger();
    let ask = Order::new(1, 2, "BTC_USDT", Side::Sell, d(95), d(1));
    assert!(place_limit_order(&mut engine, &mut ledger, ask, "BTC", "USDT").unwrap().unwrap().is_empty());
    let bid = Order::new(2, 1, "BTC_USDT", Side::Buy, d(100), d(1));
    let trades = place_limit_order(&mut engine, &mut ledger, bid, "BTC", "USDT").unwrap().unwrap();
    assert_eq!(trades.len(), 1);
    assert_eq!(trades[0].price, d(95));
    assert_eq!(trades[0].amount, d(1));
    assert_eq!(balance_of(&ledger, 1, "USDT").free, d(905));
    assert_eq!(balance_of(&ledger, 1, "USDT").locked, d(0));
    assert_eq!(balance_of(&ledger, 1, "BTC").free, d(1));
    assert_eq!(balance_of(&ledger, 2, "BTC").free, d(4));
    assert_eq!(balance_of(&ledger, 2, "BTC").locked, d(0));
    assert_eq!(balance_of(&ledger, 2, "USDT").free, d(95));
}

#[test]
fn refused_match_gives_the_reservation_back() {
    let mut engine = Engine::new();
    let mut ledger = funded_ledger();
    let first = Order::new(7, 1, "BTC_USDT", Side::Buy, d(100), d(1));
    place_limit_order(&mut engine, &mut ledger, first, "BTC", "USDT").unwrap().unwrap();
    let again = Order::new(7, 1, "BTC_USDT", Side::Buy, d(100), d(1));
    let r = place_limit_order(&mut engine, &mut ledger, again, "BTC", "USDT").unwrap();
    assert_eq!(r, Err(PlaceError::Match(EngineError::DuplicateOrderId(7))));
    assert_eq!(engine.open_orders_by_user("BTC_USDT", 1).len(), 1);
}

#[test]
fn self_trade_refusal_releases_the_lock() {
    let mut engine = Engine::new();
    let rows = vec![(3_i64, "BTC".to_string(), d(2), d(0)), (3_i64, "USDT".to_string(), d(500), d(0))];
    let mut ledger = InMemoryLedger::from_rows(&rows).unwrap();
    let ask = Order::new(1, 3, "BTC_USDT", Side::Sell, d(100), d(1));
    place_limit_order(&mut engine, &mut ledger, ask, "BTC", "USDT").unwrap().unwrap();
    let bid = Order::new(2, 3, "BTC_USDT", Side::Buy, d(100), d(1));
    let r = place_limit_order(&mut engine, &mut ledger, bid, "BTC", "USDT").unwrap();
    assert_eq!(r, Err(PlaceError::Match(EngineError::SelfTradePrevented(3))));
    assert_eq!(balance_of(&ledger, 3, "USDT").free, d(500));
    assert_eq!(balance_of(&ledger, 3, "USDT").locked, d(0));
}

#[test]
fn cancel_releases_what_the_order_still_holds() {
    let mut engine = Engine::new();
    let mut ledger = funded_ledger();
    let order = Order::new(1, 1, "BTC_USDT", Side::Buy, d(100), d(2));
    place_limit_order(&mut engine, &mut ledger, order, "BTC", "USDT").unwrap().unwrap();
    let cancelled = cancel_and_release(&mut engine, &mut ledger, "BTC_USDT", 1).unwrap().unwrap();
    assert_eq!(cancelled.id, 1);
    assert_eq!(balance_of(&ledger, 1, "USDT").free, d(1000));
    assert_eq!(balance_of(&ledger, 1, "USDT").locked, d(0));
    assert!(engine.open_orders_by_user("BTC_USDT", 1).is_empty());
}

#[test]
fn cancel_of_an_unknown_order_changes_nothing() {
    let mut engine = Engine::new();
    let mut ledger = funded_ledger();
    let r = cancel_and_release(&mut engine, &mut ledger, "BTC_USDT", 42).unwrap();
    assert_eq!(r.map(|o| o.id), Err(CancelError::Engine(EngineError::OrderNotFound(42))));
    assert_eq!(balance_of(&ledger, 1, "USDT").free, d(1000));
}

#[test]
fn a_buy_locks_the_exact_product_at_the_summed_scale() {
    let mut engine = Engine::new();
    let mut ledger = funded_ledger();
    let order = Order::new(1, 1, "BTC_USDT", Side::Buy, Decimal::new(125, 2), Decimal::new(25, 1));
    place_limit_order(&mut engine, &mut ledger, order, "BTC", "USDT").unwrap().unwrap();
    let usdt = balance_of(&ledger, 1, "USDT");
    assert_eq!(usdt.locked.mantissa, 3125);
    assert_eq!(usdt.locked.scale, 3);
}

#[test]
fn after_a_partial_fill_the_lock_is_what_the_rest_of_the_order_holds() {
    let mut engine = Engine::new();
    let mut ledger = funded_ledger();
    let bid = Order::new(1, 1, "BTC_USDT", Side::Buy, d(100), d(2));
    place_limit_order(&mut engine, &mut ledger, bid, "BTC", "USDT").unwrap().unwrap();
    let ask = Order::new(2, 2, "BTC_USDT", Side::Sell, d(95), d(1));
    let trades = place_limit_order(&mut engine, &mut ledger, ask, "BTC", "USDT").unwrap().unwrap();
    assert_eq!(trades.len(), 1);
    assert_eq!(trades[0].price, d(100));
    assert_eq!(balance_of(&ledger, 1, "USDT").locked, d(100));
    assert_eq!(balance_of(&ledger, 1, "USDT").free, d(800));
    assert_eq!(balance_of(&ledger, 2, "BTC").locked, d(0));
    assert_eq!(balance_of(&ledger, 2, "USDT").free, d(100));
}
