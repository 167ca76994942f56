use cex_core::admin::try_solvency_ratio_text;
use cex_core::decimal::{Decimal, MAX_MANTISSA};
use cex_core::ledger::InMemoryLedger;
use cex_core::market_data::{micro_fits, try_average_price_response, try_mid_price, try_micro_price, try_open_order_dto};
use cex_core::order_entry::{band_fits, try_matched_amount, try_reference_price, try_validate_price_band};
use cex_core::persistence::{try_persistence_plan, PersistenceEvent};
use cex_core::types::{Order, Side, Trade};

fn d(n: i64) -> Decimal {
    Decimal::new(n, 0)
}

fn huge() -> Decimal {
    Decimal { mantissa: MAX_MANTISSA, scale: 0 }
}

fn trade(amount: Decimal, price: Decimal) -> Trade {
    Trade { maker_order_id: 1, taker_order_id: 2, symbol: "BTC_USDT".to_string(), price, amount }
}

#[test]
fn guarded_prices_answer_or_report_overflow() {
    assert_eq!(try_reference_price(None, Some(d(100)), Some(d(101))), Some(Some(Decimal::new(1005, 1))));
    assert_eq!(try_reference_price(None, Some(huge()), Some(huge())), None);
    assert_eq!(try_reference_price(Some(d(5)), Some(huge()), Some(huge())), Some(Some(d(5))));
    assert_eq!(try_mid_price(Some(huge()), Some(huge())), None);
    assert_eq!(try_mid_price(Some(d(100)), None), Some(None));
    assert!(micro_fits(d(100), d(1), d(102), d(3)));
    assert!(!micro_fits(huge(), d(2), d(102), d(3)));
    assert_eq!(try_micro_price(Some((huge(), d(2))), Some((d(102), d(3)))), None);
    assert_eq!(try_micro_price(Some((d(100), d(1))), Some((d(102), d(3)))), Some(Some(Decimal::new(1005, 1))));
    assert!(try_average_price_response("X".to_string(), Some((huge(), d(1))), Some((huge(), d(1)))).is_none());
    let r = try_average_price_response("X".to_string(), Some((d(100), d(1))), None).unwrap();
    assert_eq!(r.best_bid.as_deref(), Some("100"));
}

#[test]
fn guarded_band_and_sums() {
    assert!(band_fits(d(100)));
    assert!(!band_fits(huge()));
    assert!(try_validate_price_band(d(100), huge()).is_none());
    assert!(try_validate_price_band(d(100), d(100)).unwrap().is_ok());
    assert!(try_validate_price_band(d(200), d(100)).unwrap().is_err());
    assert!(try_validate_price_band(d(200), d(0)).unwrap().is_ok());
    assert_eq!(try_matched_amount(&vec![trade(d(2), d(1)), trade(d(3), d(1))]), Some(d(5)));
    assert_eq!(try_matched_amount(&vec![trade(huge(), d(1)), trade(huge(), d(1))]), None);
    assert_eq!(try_solvency_ratio_text(d(3), d(2)).as_deref(), Some("1.50"));
    assert_eq!(try_solvency_ratio_text(d(3), d(0)).as_deref(), Some("infinity"));
    assert_eq!(try_solvency_ratio_text(huge(), Decimal::new(1, 28)), None);
}

#[test]
fn guarded_dto_and_plan() {
    let mut o = Order::new(1, 1, "BTC_USDT", Side::Buy, d(1), d(5));
    assert_eq!(try_open_order_dto(&o).unwrap().filled, "0");
    o.amount = huge();
    o.remaining = Decimal { mantissa: -MAX_MANTISSA, scale: 0 };
    assert!(try_open_order_dto(&o).is_none());
    let event = PersistenceEvent::TradeFilled {
        trade: trade(huge(), d(2)),
        maker_user_id: 1,
        taker_user_id: 2,
        taker_side: Side::Buy,
        base_asset: "BTC".to_string(),
        quote_asset: "USDT".to_string(),
    };
    assert!(try_persistence_plan(&event, 0).is_none());
    let same_user = PersistenceEvent::TradeFilled {
        trade: trade(huge(), d(2)),
        maker_user_id: 1,
        taker_user_id: 1,
        taker_side: Side::Buy,
        base_asset: "BTC".to_string(),
        quote_asset: "USDT".to_string(),
    };
    assert_eq!(try_persistence_plan(&same_user, 0).unwrap().len(), 7);
}

#[test]
fn guarded_ledger_operations() {
    let rows = vec![(1_i64, "USDT".to_string(), huge(), d(0)), (2_i64, "BTC".to_string(), d(5), d(0))];
    let mut ledger = InMemoryLedger::from_rows(&rows).unwrap();
    // the free balance cannot grow past the largest decimal: nothing changes
    assert!(ledger.try_deposit(1, "USDT", d(1)).is_none());
    assert_eq!(ledger.balances_for_user(1)[0].free, huge());
    assert_eq!(ledger.try_deposit(1, "BTC", d(1)), Some(Ok(d(1))));
    // price * amount overflows
    let big_buy = Order::new(10, 1, "BTC_USDT", Side::Buy, huge(), d(2));
    assert!(!ledger.reserve_fits(&big_buy, "BTC", "USDT"));
    assert!(ledger.try_reserve_for_new_order(&big_buy, "BTC", "USDT").is_none());
    assert!(ledger.try_cancel_reservation(10).unwrap().is_err());
    let sell = Order::new(11, 2, "BTC_USDT", Side::Sell, d(100), d(2));
    assert_eq!(ledger.try_reserve_for_new_order(&sell, "BTC", "USDT"), Some(Ok(())));
    let buy = Order::new(12, 1, "BTC_USDT", Side::Buy, d(100), d(2));
    assert_eq!(ledger.try_reserve_for_new_order(&buy, "BTC", "USDT"), Some(Ok(())));
    let t = Trade { maker_order_id: 11, taker_order_id: 12, symbol: "BTC_USDT".to_string(), price: d(100), amount: d(2) };
    assert_eq!(ledger.try_apply_trade_fill(&t), Some(Ok(())));
    let btc = ledger.balances_for_user(1).into_iter().find(|b| b.asset == "BTC").unwrap();
    assert_eq!(btc.free, d(3));
    assert!(ledger.cancel_fits(11));
    assert_eq!(ledger.try_cancel_reservation(11), Some(Err(cex_core::ledger::LedgerError::ReservationNotFound(11))));
}
