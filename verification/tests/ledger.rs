use cex_core::decimal::Decimal;
use cex_core::ledger::{InMemoryLedger, LedgerError, UserBalanceSnapshot};
use cex_core::types::{Order, Side, Trade};

fn d(n: i64) -> Decimal {
    Decimal::new(n, 0)
}

fn balance_of(ledger: &InMemoryLedger, user_id: u64, asset: &str) -> UserBalanceSnapshot {
    ledger.balances_for_user(user_id).into_iter().find(|b| b.asset == asset).unwrap()
}

#[test]
fn reserve_and_cancel_buy_moves_between_free_and_locked() {
    let rows = vec![(1_i64, "USDT".to_string(), d(1000), d(0))];
    let mut ledger = InMemoryLedger::from_rows(&rows).unwrap();
    let order = Order::new(10, 1, "BTC_USDT", Side::Buy, d(100), d(2));

    ledger.reserve_for_new_order(&order, "BTC", "USDT").unwrap();
    let usdt_after_reserve = balance_of(&ledger, 1, "USDT");
    assert_eq!(usdt_after_reserve.free, d(800));
    assert_eq!(usdt_after_reserve.locked, d(200));

    ledger.cancel_reservation(10).unwrap();
    let usdt_after_cancel = balance_of(&ledger, 1, "USDT");
    assert_eq!(usdt_after_cancel.free, d(1000));
    assert_eq!(usdt_after_cancel.locked, d(0));
}

#[test]
fn fill_buy_trade_refunds_price_improvement() {
    let rows = vec![
        (1_i64, "USDT".to_string(), d(1000), d(0)),
        (1_i64, "BTC".to_string(), d(0), d(0)),
        (2_i64, "BTC".to_string(), d(2), d(0)),
        (2_i64, "USDT".to_string(), d(0), d(0)),
    ];
    let mut ledger = InMemoryLedger::from_rows(&rows).unwrap();

    let taker = Order::new(100, 1, "BTC_USDT", Side::Buy, d(100), d(1));
    let maker = Order::new(99, 2, "BTC_USDT", Side::Sell, d(95), d(1));

    ledger.reserve_for_new_order(&maker, "BTC", "USDT").unwrap();
    ledger.reserve_for_new_order(&taker, "BTC", "USDT").unwrap();

    let trade = Trade {
        maker_order_id: 99,
        taker_order_id: 100,
        symbol: "BTC_USDT".to_string(),
        price: d(95),
        amount: d(1),
    };

    ledger.apply_trade_fill(&trade).unwrap();

    let buyer_usdt = balance_of(&ledger, 1, "USDT");
    let buyer_btc = balance_of(&ledger, 1, "BTC");
    assert_eq!(buyer_usdt.locked, d(0));
    assert_eq!(buyer_usdt.free, d(905));
    assert_eq!(buyer_btc.free, d(1));
}

#[test]
fn seller_receives_quote_and_gives_up_locked_base() {
    let rows = vec![
        (1_i64, "USDT".to_string(), d(1000), d(0)),
        (2_i64, "BTC".to_string(), d(2), d(0)),
    ];
    let mut ledger = InMemoryLedger::from_rows(&rows).unwrap();
    let maker = Order::new(99, 2, "BTC_USDT", Side::Sell, d(95), d(1));
    let taker = Order::new(100, 1, "BTC_USDT", Side::Buy, d(100), d(1));
    ledger.reserve_for_new_order(&maker, "BTC", "USDT").unwrap();
    ledger.reserve_for_new_order(&taker, "BTC", "USDT").unwrap();
    let seller_btc = balance_of(&ledger, 2, "BTC");
    assert_eq!(seller_btc.free, d(1));
    assert_eq!(seller_btc.locked, d(1));

    let trade = Trade {
        maker_order_id: 99,
        taker_order_id: 100,
        symbol: "BTC_USDT".to_string(),
        price: d(95),
        amount: d(1),
    };
    ledger.apply_trade_fill(&trade).unwrap();
    let seller_btc = balance_of(&ledger, 2, "BTC");
    let seller_usdt = balance_of(&ledger, 2, "USDT");
    assert_eq!(seller_btc.free, d(1));
    assert_eq!(seller_btc.locked, d(0));
    assert_eq!(seller_usdt.free, d(95));
    // both reservations are used up, so a second cancel finds nothing
    assert_eq!(ledger.cancel_reservation(99), Err(LedgerError::ReservationNotFound(99)));
    assert_eq!(ledger.cancel_reservation(100), Err(LedgerError::ReservationNotFound(100)));
}

#[test]
fn reserve_beyond_free_balance_is_refused_and_changes_nothing() {
    let rows = vec![(1_i64, "USDT".to_string(), d(100), d(0))];
    let mut ledger = InMemoryLedger::from_rows(&rows).unwrap();
    let order = Order::new(10, 1, "BTC_USDT", Side::Buy, d(100), d(2));
    let err = ledger.reserve_for_new_order(&order, "BTC", "USDT").unwrap_err();
    assert_eq!(
        err,
        LedgerError::InsufficientFreeBalance {
            user_id: 1,
            asset: "USDT".to_string(),
            required: d(200),
            available: d(100),
        }
    );
    let usdt = balance_of(&ledger, 1, "USDT");
    assert_eq!(usdt.free, d(100));
    assert_eq!(usdt.locked, d(0));
    assert_eq!(ledger.cancel_reservation(10), Err(LedgerError::ReservationNotFound(10)));
}

#[test]
fn sell_reservation_locks_base_amount() {
    let rows = vec![(3_i64, "ETH".to_string(), d(5), d(0))];
    let mut ledger = InMemoryLedger::from_rows(&rows).unwrap();
    let order = Order::new(7, 3, "ETH_USDT", Side::Sell, d(2000), d(2));
    ledger.reserve_for_new_order(&order, "ETH", "USDT").unwrap();
    let eth = balance_of(&ledger, 3, "ETH");
    assert_eq!(eth.free, d(3));
    assert_eq!(eth.locked, d(2));
    ledger.cancel_reservation(7).unwrap();
    let eth = balance_of(&ledger, 3, "ETH");
    assert_eq!(eth.free, d(5));
    assert_eq!(eth.locked, d(0));
}

#[test]
fn rows_with_non_positive_user_id_are_refused() {
    let rows = vec![(0_i64, "USDT".to_string(), d(1), d(0))];
    assert_eq!(InMemoryLedger::from_rows(&rows).err(), Some(LedgerError::InvalidUserId));
}

#[test]
fn deposit_adds_to_free_balance_and_returns_it() {
    let mut ledger = InMemoryLedger::new();
    assert_eq!(ledger.deposit(4, "BTC", d(3)).unwrap(), d(3));
    assert_eq!(ledger.deposit(4, "BTC", Decimal::new(5, 1)).unwrap(), Decimal::new(35, 1));
    let btc = balance_of(&ledger, 4, "BTC");
    assert_eq!(btc.free, Decimal::new(35, 1));
    assert_eq!(btc.locked, d(0));
}

#[test]
fn balances_come_out_sorted_by_asset() {
    let rows = vec![
        (1_i64, "USDT".to_string(), d(1), d(0)),
        (1_i64, "BTC".to_string(), d(2), d(0)),
        (1_i64, "ETH".to_string(), d(3), d(0)),
        (2_i64, "AAA".to_string(), d(4), d(0)),
    ];
    let ledger = InMemoryLedger::from_rows(&rows).unwrap();
    let assets: Vec<String> = ledger.balances_for_user(1).into_iter().map(|b| b.asset).collect();
    assert_eq!(assets, vec!["BTC".to_string(), "ETH".to_string(), "USDT".to_string()]);
    assert!(ledger.balances_for_user(9).is_empty());
}

#[test]
fn fill_of_unknown_reservation_is_refused() {
    let mut ledger = InMemoryLedger::new();
    let trade = Trade {
        maker_order_id: 1,
        taker_order_id: 2,
        symbol: "BTC_USDT".to_string(),
        price: d(95),
        amount: d(1),
    };
    assert_eq!(ledger.apply_trade_fill(&trade), Err(LedgerError::ReservationNotFound(1)));
}

fn rust(d: Decimal) -> rust_decimal::Decimal {
    rust_decimal::Decimal::from_i128_with_scale(d.mantissa, d.scale)
}

fn holding(ledger: &InMemoryLedger, user_id: u64, asset: &str) -> rust_decimal::Decimal {
    match ledger.balances_for_user(user_id).into_iter().find(|b| b.asset == asset) {
        Some(b) => rust(b.free) + rust(b.locked),
        None => rust_decimal::Decimal::ZERO,
    }
}

#[test]
fn settlement_moves_value_between_the_two_users_only() {
    let rows = vec![
        (1_i64, "USDT".to_string(), d(1000), d(0)),
        (2_i64, "BTC".to_string(), d(3), d(0)),
    ];
    let mut ledger = InMemoryLedger::from_rows(&rows).unwrap();
    let maker = Order::new(1, 2, "BTC_USDT", Side::Sell, d(90), d(2));
    let taker = Order::new(2, 1, "BTC_USDT", Side::Buy, d(100), Decimal::new(15, 1));
    ledger.reserve_for_new_order(&maker, "BTC", "USDT").unwrap();
    ledger.reserve_for_new_order(&taker, "BTC", "USDT").unwrap();
    let base_before = holding(&ledger, 1, "BTC") + holding(&ledger, 2, "BTC");
    let quote_before = holding(&ledger, 1, "USDT") + holding(&ledger, 2, "USDT");
    let trade = Trade {
        maker_order_id: 1,
        taker_order_id: 2,
        symbol: "BTC_USDT".to_string(),
        price: d(90),
        amount: Decimal::new(15, 1),
    };
    ledger.apply_trade_fill(&trade).unwrap();
    let base_after = holding(&ledger, 1, "BTC") + holding(&ledger, 2, "BTC");
    let quote_after = holding(&ledger, 1, "USDT") + holding(&ledger, 2, "USDT");
    assert_eq!(base_before, base_after);
    assert_eq!(quote_before, quote_after);
    // the buyer paid 1.5 * 90 = 135 and got the 15 of price improvement back
    assert_eq!(holding(&ledger, 1, "USDT"), rust(d(865)));
    assert_eq!(holding(&ledger, 2, "USDT"), rust(d(135)));
    // the maker's remaining 0.5 stays reserved
    assert!(ledger.cancel_reservation(1).is_ok());
    let btc = balance_of(&ledger, 2, "BTC");
    assert_eq!((btc.free, btc.locked), (Decimal::new(15, 1), d(0)));
}

#[test]
fn ledger_error_messages() {
    let e = LedgerError::InsufficientFreeBalance {
        user_id: 3,
        asset: "USDT".to_string(),
        required: Decimal::new(2500, 2),
        available: d(7),
    };
    assert_eq!(e.message(), "insufficient free balance: user_id=3, asset=USDT, required=25.00, available=7");
    assert_eq!(LedgerError::ReservationNotFound(9).message(), "order reservation not found: order_id=9");
    let e = LedgerError::ReservationUnderflow { order_id: 4, remaining: d(1), fill: d(2) };
    assert_eq!(e.message(), "reservation underflow: order_id=4, remaining=1, fill=2");
    assert_eq!(LedgerError::InvalidUserId.message(), "invalid user id in balances snapshot");
}

#[test]
fn overfill_of_a_reservation_is_refused() {
    let rows = vec![(2_i64, "BTC".to_string(), d(5), d(0))];
    let mut ledger = InMemoryLedger::from_rows(&rows).unwrap();
    let sell = Order::new(1, 2, "BTC_USDT", Side::Sell, d(10), d(1));
    ledger.reserve_for_new_order(&sell, "BTC", "USDT").unwrap();
    let trade = Trade { maker_order_id: 1, taker_order_id: 2, symbol: "BTC_USDT".to_string(), price: d(10), amount: d(2) };
    assert_eq!(
        ledger.apply_trade_fill(&trade),
        Err(LedgerError::ReservationUnderflow { order_id: 1, remaining: d(1), fill: d(2) })
    );
    let btc = balance_of(&ledger, 2, "BTC");
    assert_eq!((btc.free, btc.locked), (d(4), d(1)));
}

#[test]
fn withdraw_debits_the_free_balance() {
    let rows = vec![(1_i64, "USDT".to_string(), d(100), d(5))];
    let mut ledger = InMemoryLedger::from_rows(&rows).unwrap();
    assert_eq!(ledger.try_withdraw(1, "USDT", d(30)), Some(Ok(d(70))));
    let usdt = balance_of(&ledger, 1, "USDT");
    assert_eq!(usdt.free, d(70));
    assert_eq!(usdt.locked, d(5));
}

#[test]
fn withdraw_beyond_the_free_balance_is_refused() {
    let rows = vec![(1_i64, "USDT".to_string(), d(10), d(50))];
    let mut ledger = InMemoryLedger::from_rows(&rows).unwrap();
    assert_eq!(
        ledger.try_withdraw(1, "USDT", d(11)),
        Some(Err(LedgerError::InsufficientFreeBalance {
            user_id: 1,
            asset: "USDT".to_string(),
            required: d(11),
            available: d(10),
        }))
    );
    assert_eq!(balance_of(&ledger, 1, "USDT").free, d(10));
}

#[test]
fn transfer_moves_the_amount_between_assets() {
    let rows = vec![(1_i64, "USDT".to_string(), d(100), d(0)), (1_i64, "BTC".to_string(), d(1), d(0))];
    let mut ledger = InMemoryLedger::from_rows(&rows).unwrap();
    assert_eq!(ledger.try_transfer(1, "USDT", "BTC", d(40)), Some(Ok(())));
    assert_eq!(balance_of(&ledger, 1, "USDT").free, d(60));
    assert_eq!(balance_of(&ledger, 1, "BTC").free, d(41));
}

#[test]
fn refused_transfer_credits_nothing() {
    let rows = vec![(1_i64, "USDT".to_string(), d(10), d(0))];
    let mut ledger = InMemoryLedger::from_rows(&rows).unwrap();
    let r = ledger.try_transfer(1, "USDT", "BTC", d(40)).unwrap();
    assert!(matches!(r, Err(LedgerError::InsufficientFreeBalance { .. })));
    assert_eq!(balance_of(&ledger, 1, "USDT").free, d(10));
    assert!(ledger.balances_for_user(1).iter().all(|b| b.asset != "BTC"));
}
