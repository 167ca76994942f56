use cex_core::admin::solvency_ratio_text;
use cex_core::decimal::{min, Decimal, MAX_MANTISSA};
use cex_core::market_data::{mid_price, try_open_order_dto};
use cex_core::order_entry::{matched_amount, parse_limit_price, parse_side, try_matched_amount};
use cex_core::persistence::{persistence_plan, DbAction, PersistenceEvent};
use cex_core::proof_check::hash_to_hex;
use cex_core::solvency::scaled_balance;
use cex_core::text::{chars_of, text_lt, u64_text};
use cex_core::types::{Order, Side, Trade};
use cex_core::wallet::{deposit_response, normalized_required_asset, split_symbol_assets};

fn d(n: i64) -> Decimal {
    Decimal::new(n, 0)
}

fn trade(amount: Decimal, price: Decimal) -> Trade {
    Trade { maker_order_id: 1, taker_order_id: 2, symbol: "X_Y".to_string(), price, amount }
}

#[test]
fn equality_and_min_go_by_value_across_scales() {
    assert_eq!(Decimal::new(100, 2), d(1));
    assert_ne!(Decimal::new(101, 2), d(1));
    assert_eq!(min(d(3), Decimal::new(25, 1)), Decimal::new(25, 1));
    assert_eq!(min(Decimal::new(-15, 1), d(-1)), Decimal::new(-15, 1));
}

#[test]
fn sums_differences_products_and_quotients_are_exact() {
    let trades = vec![trade(Decimal::new(15, 1), d(1)), trade(Decimal::new(25, 2), d(1))];
    assert_eq!(matched_amount(&trades), Decimal::new(175, 2));
    let mut o = Order::new(1, 1, "X_Y", Side::Buy, d(1), d(1));
    o.remaining = Decimal::new(1, 3);
    assert_eq!(try_open_order_dto(&o).unwrap().filled, "0.999");
    let event = PersistenceEvent::TradeFilled {
        trade: trade(Decimal::new(15, 1), d(4)),
        maker_user_id: 1,
        taker_user_id: 2,
        taker_side: Side::Buy,
        base_asset: "X".to_string(),
        quote_asset: "Y".to_string(),
    };
    match &persistence_plan(&event, 0)[4] {
        DbAction::AdjustAvailable { amount, .. } => assert_eq!(*amount, d(6)),
        _ => panic!("expected a balance write"),
    }
    assert_eq!(solvency_ratio_text(d(1), d(4)), "0.25");
}

#[test]
fn overflowing_sum_is_reported() {
    let big = Decimal { mantissa: MAX_MANTISSA, scale: 0 };
    assert_eq!(try_matched_amount(&vec![trade(big, d(1)), trade(d(1), d(1))]), None);
}

#[test]
fn decimals_parse_and_print_as_rust_decimal_does() {
    assert_eq!(parse_limit_price("12.50").unwrap(), Decimal::new(1250, 2));
    assert!(parse_limit_price("abc").is_err());
    assert!(parse_limit_price("").is_err());
    assert_eq!(parse_limit_price("1e3").unwrap(), d(1000));
    let r = deposit_response("X".to_string(), Decimal::new(1250, 2), Decimal::new(-1, 3));
    assert_eq!((r.deposited.as_str(), r.new_available.as_str()), ("12.50", "-0.001"));
}

#[test]
fn rounding_and_rescaling() {
    // (12.3456 + 12.3457) / 2 = 12.34565, rounded to 4 places (banker's rounding)
    assert_eq!(mid_price(Some(Decimal::new(123456, 4)), Some(Decimal::new(123457, 4))), Some(Decimal::new(123456, 4)));
    assert_eq!(scaled_balance(Decimal::new(15, 1)).ok(), Some(150_000_000));
}

#[test]
fn text_helpers() {
    assert_eq!(normalized_required_asset("  btc \n").unwrap(), "BTC");
    assert_eq!(parse_side("BuY").unwrap(), Side::Buy);
    assert_eq!(split_symbol_assets("a_b_c"), ("a".to_string(), "b_c".to_string()));
    assert_eq!(hash_to_hex(&[255u8; 32]), "ff".repeat(32));
    assert_eq!(u64_text(0), "0");
    assert_eq!(u64_text(18446744073709551615), "18446744073709551615");
    assert!(text_lt("BTC", "ETH"));
    assert!(text_lt("BTC", "BTCB"));
    assert!(!text_lt("ETH", "ETH"));
    assert_eq!(chars_of("hé"), vec!['h', 'é']);
}
