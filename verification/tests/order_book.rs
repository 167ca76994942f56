use cex_core::decimal::Decimal;
use cex_core::order_book::OrderBook;
use cex_core::types::{EngineError, Order, Side, Trade};

fn d(n: i64) -> Decimal {
    Decimal::new(n, 0)
}

fn buy(id: u64, price: Decimal, amount: Decimal) -> Order {
    Order::new(id, 1, "BTC_USDT", Side::Buy, price, amount)
}

fn sell(id: u64, price: Decimal, amount: Decimal) -> Order {
    Order::new(id, 2, "BTC_USDT", Side::Sell, price, amount)
}

fn buy_user(id: u64, user_id: u64, price: Decimal, amount: Decimal) -> Order {
    Order::new(id, user_id, "BTC_USDT", Side::Buy, price, amount)
}

fn sell_user(id: u64, user_id: u64, price: Decimal, amount: Decimal) -> Order {
    Order::new(id, user_id, "BTC_USDT", Side::Sell, price, amount)
}

fn rust(d: Decimal) -> rust_decimal::Decimal {
    rust_decimal::Decimal::from_i128_with_scale(d.mantissa, d.scale)
}

fn total_amount(trades: &[Trade]) -> rust_decimal::Decimal {
    trades.iter().map(|t| rust(t.amount)).sum()
}

#[test]
fn buy_order_appears_in_bids() {
    let mut book = OrderBook::new();
    book.add_order(buy(1, d(100), d(10))).unwrap();
    assert_eq!(book.len(), 1);
    assert_eq!(book.best_bid(), Some(d(100)));
    assert!(book.best_ask().is_none());
}

#[test]
fn sell_order_appears_in_asks() {
    let mut book = OrderBook::new();
    book.add_order(sell(1, d(101), d(10))).unwrap();
    assert_eq!(book.len(), 1);
    assert_eq!(book.best_ask(), Some(d(101)));
    assert!(book.best_bid().is_none());
}

#[test]
fn bids_sorted_highest_first() {
    let mut book = OrderBook::new();
    book.add_order(buy(1, d(99), d(1))).unwrap();
    book.add_order(buy(2, d(101), d(1))).unwrap();
    book.add_order(buy(3, d(100), d(1))).unwrap();
    assert_eq!(book.best_bid(), Some(d(101)));
}

#[test]
fn asks_sorted_lowest_first() {
    let mut book = OrderBook::new();
    book.add_order(sell(1, d(102), d(1))).unwrap();
    book.add_order(sell(2, d(100), d(1))).unwrap();
    book.add_order(sell(3, d(101), d(1))).unwrap();
    assert_eq!(book.best_ask(), Some(d(100)));
}

#[test]
fn multiple_orders_at_same_price_level_fifo() {
    let mut book = OrderBook::new();
    book.add_order(buy(1, d(100), d(5))).unwrap();
    book.add_order(buy(2, d(100), d(3))).unwrap();
    let queue = book.bid_level(&d(100)).unwrap();
    assert_eq!(queue.len(), 2);
    assert_eq!(queue.first().unwrap().id, 1);
    assert_eq!(queue.last().unwrap().id, 2);
}

#[test]
fn duplicate_order_id_is_rejected() {
    let mut book = OrderBook::new();
    book.add_order(buy(42, d(100), d(1))).unwrap();
    let err = book.add_order(buy(42, d(100), d(1))).unwrap_err();
    assert_eq!(err, EngineError::DuplicateOrderId(42));
}

#[test]
fn zero_price_is_rejected() {
    let mut book = OrderBook::new();
    let err = book.add_order(buy(1, d(0), d(1))).unwrap_err();
    assert_eq!(err, EngineError::InvalidPrice(d(0)));
}

#[test]
fn negative_price_is_rejected() {
    let mut book = OrderBook::new();
    let err = book.add_order(buy(1, d(-1), d(1))).unwrap_err();
    assert_eq!(err, EngineError::InvalidPrice(d(-1)));
}

#[test]
fn zero_amount_is_rejected() {
    let mut book = OrderBook::new();
    let err = book.add_order(sell(1, d(100), d(0))).unwrap_err();
    assert_eq!(err, EngineError::InvalidAmount(d(0)));
}

#[test]
fn cancel_buy_order_removes_from_bids() {
    let mut book = OrderBook::new();
    book.add_order(buy(1, d(100), d(10))).unwrap();
    let cancelled = book.cancel_order(1).unwrap();
    assert_eq!(cancelled.id, 1);
    assert_eq!(book.len(), 0);
    assert!(book.best_bid().is_none());
}

#[test]
fn cancel_sell_order_removes_from_asks() {
    let mut book = OrderBook::new();
    book.add_order(sell(1, d(101), d(5))).unwrap();
    let cancelled = book.cancel_order(1).unwrap();
    assert_eq!(cancelled.id, 1);
    assert_eq!(book.len(), 0);
    assert!(book.best_ask().is_none());
}

#[test]
fn cancel_removes_empty_price_level() {
    let mut book = OrderBook::new();
    book.add_order(buy(1, d(100), d(1))).unwrap();
    book.cancel_order(1).unwrap();
    assert_eq!(book.bid_level_count(), 0);
    assert!(book.best_bid().is_none());
}

#[test]
fn cancel_middle_order_in_queue_preserves_others() {
    let mut book = OrderBook::new();
    book.add_order(buy(1, d(100), d(1))).unwrap();
    book.add_order(buy(2, d(100), d(2))).unwrap();
    book.add_order(buy(3, d(100), d(3))).unwrap();
    book.cancel_order(2).unwrap();
    let queue = book.bid_level(&d(100)).unwrap();
    assert_eq!(queue.len(), 2);
    assert_eq!(queue.first().unwrap().id, 1);
    assert_eq!(queue.last().unwrap().id, 3);
    assert_eq!(book.len(), 2);
}

#[test]
fn cancel_updates_best_bid_when_top_level_removed() {
    let mut book = OrderBook::new();
    book.add_order(buy(1, d(101), d(1))).unwrap();
    book.add_order(buy(2, d(100), d(1))).unwrap();
    book.cancel_order(1).unwrap();
    assert_eq!(book.best_bid(), Some(d(100)));
}

#[test]
fn cancel_nonexistent_order_returns_error() {
    let mut book = OrderBook::new();
    let err = book.cancel_order(99).unwrap_err();
    assert_eq!(err, EngineError::OrderNotFound(99));
}

#[test]
fn cancel_same_order_twice_returns_error() {
    let mut book = OrderBook::new();
    book.add_order(buy(1, d(100), d(1))).unwrap();
    book.cancel_order(1).unwrap();
    let err = book.cancel_order(1).unwrap_err();
    assert_eq!(err, EngineError::OrderNotFound(1));
}

#[test]
fn no_crossing_buy_rests_on_book() {
    let mut book = OrderBook::new();
    book.add_order(sell(1, d(101), d(10))).unwrap();
    let trades = book.match_order(buy(2, d(100), d(5))).unwrap();
    assert!(trades.is_empty());
    assert_eq!(book.len(), 2);
    assert_eq!(book.best_bid(), Some(d(100)));
}

#[test]
fn no_crossing_sell_rests_on_book() {
    let mut book = OrderBook::new();
    book.add_order(buy(1, d(99), d(10))).unwrap();
    let trades = book.match_order(sell(2, d(100), d(5))).unwrap();
    assert!(trades.is_empty());
    assert_eq!(book.len(), 2);
    assert_eq!(book.best_ask(), Some(d(100)));
}

#[test]
fn full_fill_buy_taker_consumes_ask() {
    let mut book = OrderBook::new();
    book.add_order(sell(1, d(100), d(10))).unwrap();
    let trades = book.match_order(buy(2, d(100), d(10))).unwrap();
    assert_eq!(trades.len(), 1);
    assert_eq!(trades[0].price, d(100));
    assert_eq!(trades[0].amount, d(10));
    assert_eq!(trades[0].maker_order_id, 1);
    assert_eq!(trades[0].taker_order_id, 2);
    assert!(book.is_empty());
}

#[test]
fn full_fill_sell_taker_consumes_bid() {
    let mut book = OrderBook::new();
    book.add_order(buy(1, d(101), d(5))).unwrap();
    let trades = book.match_order(sell(2, d(101), d(5))).unwrap();
    assert_eq!(trades.len(), 1);
    assert_eq!(trades[0].price, d(101));
    assert_eq!(trades[0].amount, d(5));
    assert!(book.is_empty());
}

#[test]
fn partial_fill_taker_larger_than_maker() {
    let mut book = OrderBook::new();
    book.add_order(sell(1, d(100), d(3))).unwrap();
    let trades = book.match_order(buy(2, d(100), d(10))).unwrap();
    assert_eq!(trades.len(), 1);
    assert_eq!(trades[0].amount, d(3));
    assert_eq!(book.len(), 1);
    assert_eq!(book.best_bid(), Some(d(100)));
    assert!(book.best_ask().is_none());
}

#[test]
fn partial_fill_maker_larger_than_taker() {
    let mut book = OrderBook::new();
    book.add_order(sell(1, d(100), d(10))).unwrap();
    let trades = book.match_order(buy(2, d(100), d(3))).unwrap();
    assert_eq!(trades.len(), 1);
    assert_eq!(trades[0].amount, d(3));
    assert_eq!(book.len(), 1);
    assert_eq!(book.best_ask(), Some(d(100)));
    let queue = book.ask_level(&d(100)).unwrap();
    assert_eq!(queue.first().unwrap().remaining, d(7));
}

#[test]
fn buy_taker_walks_multiple_ask_levels() {
    let mut book = OrderBook::new();
    book.add_order(sell(1, d(100), d(5))).unwrap();
    book.add_order(sell(2, d(101), d(5))).unwrap();
    book.add_order(sell(3, d(102), d(5))).unwrap();
    let trades = book.match_order(buy(10, d(102), d(12))).unwrap();
    assert_eq!(trades.len(), 3);
    assert_eq!(trades[0].price, d(100));
    assert_eq!(trades[0].amount, d(5));
    assert_eq!(trades[1].price, d(101));
    assert_eq!(trades[1].amount, d(5));
    assert_eq!(trades[2].price, d(102));
    assert_eq!(trades[2].amount, d(2));
    assert_eq!(book.best_ask(), Some(d(102)));
    assert_eq!(book.len(), 1);
}

#[test]
fn sell_taker_walks_multiple_bid_levels() {
    let mut book = OrderBook::new();
    book.add_order(buy(1, d(102), d(5))).unwrap();
    book.add_order(buy(2, d(101), d(5))).unwrap();
    book.add_order(buy(3, d(100), d(5))).unwrap();
    let trades = book.match_order(sell(10, d(100), d(12))).unwrap();
    assert_eq!(trades.len(), 3);
    assert_eq!(trades[0].price, d(102));
    assert_eq!(trades[0].amount, d(5));
    assert_eq!(trades[1].price, d(101));
    assert_eq!(trades[1].amount, d(5));
    assert_eq!(trades[2].price, d(100));
    assert_eq!(trades[2].amount, d(2));
    assert_eq!(book.best_bid(), Some(d(100)));
    assert_eq!(book.len(), 1);
}

#[test]
fn execution_price_is_maker_price_not_taker() {
    let mut book = OrderBook::new();
    book.add_order(sell(1, d(100), d(10))).unwrap();
    let trades = book.match_order(buy(2, d(105), d(10))).unwrap();
    assert_eq!(trades.len(), 1);
    assert_eq!(trades[0].price, d(100));
}

#[test]
fn stp_rejects_buy_when_best_ask_has_same_user() {
    let mut book = OrderBook::new();
    book.add_order(sell_user(1, 7, d(100), d(2))).unwrap();
    let err = book.match_order(buy_user(2, 7, d(100), d(1))).unwrap_err();
    assert_eq!(err, EngineError::SelfTradePrevented(7));
    assert_eq!(book.len(), 1);
    assert_eq!(book.best_ask(), Some(d(100)));
}

#[test]
fn stp_rejects_sell_when_best_bid_has_same_user() {
    let mut book = OrderBook::new();
    book.add_order(buy_user(1, 11, d(100), d(2))).unwrap();
    let err = book.match_order(sell_user(2, 11, d(100), d(1))).unwrap_err();
    assert_eq!(err, EngineError::SelfTradePrevented(11));
    assert_eq!(book.len(), 1);
    assert_eq!(book.best_bid(), Some(d(100)));
}

#[test]
fn matching_stops_before_a_deeper_maker_of_the_same_user() {
    let mut book = OrderBook::new();
    book.add_order(sell_user(1, 2, d(100), d(1))).unwrap();
    book.add_order(sell_user(2, 1, d(101), d(1))).unwrap();
    let trades = book.match_order(buy_user(3, 1, d(101), d(2))).unwrap();
    assert_eq!(trades.len(), 1);
    assert_eq!(trades[0].maker_order_id, 1);
    assert_eq!(trades[0].price, d(100));
    assert_eq!(trades[0].amount, d(1));
    assert_eq!(book.best_ask(), Some(d(101)));
    assert_eq!(book.best_bid(), Some(d(101)));
    assert_eq!(book.len(), 2);
}

#[test]
fn sell_matching_stops_before_a_same_user_bid_at_the_same_level() {
    let mut book = OrderBook::new();
    book.add_order(buy_user(1, 5, d(100), d(1))).unwrap();
    book.add_order(buy_user(2, 6, d(100), d(1))).unwrap();
    let trades = book.match_order(sell_user(3, 6, d(99), d(3))).unwrap();
    assert_eq!(trades.len(), 1);
    assert_eq!(trades[0].maker_order_id, 1);
    assert_eq!(book.best_bid(), Some(d(100)));
    assert_eq!(book.best_ask(), Some(d(99)));
}

#[test]
fn buy_taker_matches_makers_at_same_level_in_fifo_order() {
    let mut book = OrderBook::new();
    book.add_order(sell(1, d(100), d(3))).unwrap();
    book.add_order(sell(2, d(100), d(3))).unwrap();
    book.add_order(sell(3, d(100), d(3))).unwrap();
    let trades = book.match_order(buy(10, d(100), d(7))).unwrap();
    assert_eq!(trades.len(), 3);
    assert_eq!(trades[0].maker_order_id, 1);
    assert_eq!(trades[0].amount, d(3));
    assert_eq!(trades[1].maker_order_id, 2);
    assert_eq!(trades[1].amount, d(3));
    assert_eq!(trades[2].maker_order_id, 3);
    assert_eq!(trades[2].amount, d(1));
    let queue = book.ask_level(&d(100)).unwrap();
    assert_eq!(queue.len(), 1);
    assert_eq!(queue.first().unwrap().id, 3);
    assert_eq!(queue.first().unwrap().remaining, d(2));
}

#[test]
fn sell_taker_matches_makers_at_same_level_in_fifo_order() {
    let mut book = OrderBook::new();
    book.add_order(buy(1, d(100), d(3))).unwrap();
    book.add_order(buy(2, d(100), d(3))).unwrap();
    book.add_order(buy(3, d(100), d(3))).unwrap();
    let trades = book.match_order(sell(10, d(100), d(7))).unwrap();
    assert_eq!(trades.len(), 3);
    assert_eq!(trades[0].maker_order_id, 1);
    assert_eq!(trades[0].amount, d(3));
    assert_eq!(trades[1].maker_order_id, 2);
    assert_eq!(trades[1].amount, d(3));
    assert_eq!(trades[2].maker_order_id, 3);
    assert_eq!(trades[2].amount, d(1));
    let queue = book.bid_level(&d(100)).unwrap();
    assert_eq!(queue.first().unwrap().remaining, d(2));
}

#[test]
fn buy_taker_exhausts_entire_ask_book_and_rests_with_leftover() {
    let mut book = OrderBook::new();
    book.add_order(sell(1, d(100), d(5))).unwrap();
    book.add_order(sell(2, d(101), d(5))).unwrap();
    let trades = book.match_order(buy(10, d(102), d(20))).unwrap();
    assert_eq!(trades.len(), 2);
    let filled = total_amount(&trades);
    assert_eq!(filled, rust(d(10)));
    assert!(book.best_ask().is_none());
    assert_eq!(book.best_bid(), Some(d(102)));
    assert_eq!(book.len(), 1);
}

#[test]
fn partially_filled_maker_can_be_cancelled() {
    let mut book = OrderBook::new();
    book.add_order(sell(1, d(100), d(10))).unwrap();
    book.match_order(buy(2, d(100), d(3))).unwrap();
    let cancelled = book.cancel_order(1).unwrap();
    assert_eq!(cancelled.remaining, d(7));
    assert!(book.is_empty());
}

#[test]
fn sum_of_trade_amounts_equals_taker_filled_quantity() {
    let mut book = OrderBook::new();
    book.add_order(sell(1, d(100), d(5))).unwrap();
    book.add_order(sell(2, d(101), d(5))).unwrap();
    book.add_order(sell(3, d(102), d(5))).unwrap();
    let trades = book.match_order(buy(10, d(102), d(12))).unwrap();
    let total_traded = total_amount(&trades);
    assert_eq!(total_traded, rust(d(12)));
}

#[test]
fn order_map_len_stays_consistent_through_add_match_cancel() {
    let mut book = OrderBook::new();
    book.add_order(sell(1, d(100), d(5))).unwrap();
    book.add_order(sell(2, d(101), d(5))).unwrap();
    book.add_order(buy(3, d(99), d(5))).unwrap();
    book.add_order(buy(4, d(98), d(5))).unwrap();
    assert_eq!(book.len(), 4);
    book.match_order(buy(5, d(100), d(5))).unwrap();
    assert_eq!(book.len(), 3);
    book.cancel_order(3).unwrap();
    assert_eq!(book.len(), 2);
}

#[test]
fn fractional_decimal_amounts_fill_correctly() {
    let mut book = OrderBook::new();
    book.add_order(sell(1, Decimal::new(10050, 2), Decimal::new(5, 3))).unwrap();
    let trades = book.match_order(buy(2, Decimal::new(10050, 2), Decimal::new(5, 3))).unwrap();
    assert_eq!(trades.len(), 1);
    assert_eq!(trades[0].amount, Decimal::new(5, 3));
    assert_eq!(trades[0].price, Decimal::new(10050, 2));
    assert!(book.is_empty());
}

#[test]
fn quantity_is_conserved_beside_a_fine_grained_resting_order() {
    let mut book = OrderBook::new();
    book.add_order(sell_user(1, 2, d(100), d(2))).unwrap();
    let fine = Decimal { mantissa: 10_000_000_000_000_000_000_000_000_001, scale: 28 };
    book.add_order(sell_user(2, 3, d(150), fine)).unwrap();
    let before: rust_decimal::Decimal = book.open_orders().iter().map(|o| rust(o.remaining)).sum();
    let trades = book.match_order(buy_user(3, 1, d(100), d(1))).unwrap();
    let after: rust_decimal::Decimal = book.open_orders().iter().map(|o| rust(o.remaining)).sum();
    assert_eq!(before + rust(d(1)), after + total_amount(&trades) + total_amount(&trades));
    assert_eq!(rust(fine).to_string(), "1.0000000000000000000000000001");
}
