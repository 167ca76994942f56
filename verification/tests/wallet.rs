use cex_core::api_error::{bad_request, forbidden, internal_error, not_found, unauthorized};
use cex_core::decimal::Decimal;
use cex_core::wallet::{
    balance_update_refused, deposit_response, normalized_required_asset, normalized_transfer_asset,
    parse_positive_amount, split_symbol_assets, swap_assets, swap_response, user_trade_dto,
    validate_asset_symbol, wallet_pair, wallet_transfer_available, wallet_transfer_response,
    withdraw_response,
};

fn d(n: i64) -> Decimal {
    Decimal::new(n, 0)
}

#[test]
fn error_constructors_carry_status_and_message() {
    let cases = [
        (bad_request("a"), 400),
        (unauthorized("a"), 401),
        (forbidden("a"), 403),
        (not_found("a"), 404),
        (internal_error("a"), 500),
    ];
    for (e, status) in cases {
        assert_eq!(e.status, status);
        assert_eq!(e.message, "a");
    }
}

#[test]
fn symbol_splits_at_first_underscore() {
    assert_eq!(split_symbol_assets("BTC_USDT"), ("BTC".to_string(), "USDT".to_string()));
    assert_eq!(split_symbol_assets("A_B_C"), ("A".to_string(), "B_C".to_string()));
    assert_eq!(split_symbol_assets("BTCUSDT"), ("BTCUSDT".to_string(), String::new()));
}

#[test]
fn asset_symbol_length_and_characters_are_checked() {
    assert!(validate_asset_symbol("BTC").is_ok());
    assert!(validate_asset_symbol("usd_t1").is_ok());
    let e = validate_asset_symbol("B").unwrap_err();
    assert_eq!(e.status, 400);
    assert_eq!(e.message, "asset length must be between 2 and 16 characters");
    let e = validate_asset_symbol("ABCDEFGHIJKLMNOPQ").unwrap_err();
    assert_eq!(e.message, "asset length must be between 2 and 16 characters");
    let e = validate_asset_symbol("BT-C").unwrap_err();
    assert_eq!(e.message, "asset may only contain [A-Z0-9_]");
}

#[test]
fn transfer_asset_defaults_to_usdt_and_is_normalized() {
    assert_eq!(normalized_transfer_asset(None).unwrap(), "USDT");
    assert_eq!(normalized_transfer_asset(Some("  btc ")).unwrap(), "BTC");
    let e = normalized_transfer_asset(Some("x")).unwrap_err();
    assert_eq!(e.status, 400);
    assert_eq!(normalized_required_asset(" eth").unwrap(), "ETH");
    assert!(normalized_required_asset("e th").is_err());
}

#[test]
fn amount_must_be_a_positive_decimal() {
    assert_eq!(parse_positive_amount("2.5").unwrap(), Decimal::new(25, 1));
    let e = parse_positive_amount("abc").unwrap_err();
    assert_eq!((e.status, e.message.as_str()), (400, "amount must be a valid decimal string"));
    let e = parse_positive_amount("0").unwrap_err();
    assert_eq!(e.message, "amount must be greater than 0");
    let e = parse_positive_amount("-3").unwrap_err();
    assert_eq!(e.message, "amount must be greater than 0");
}

#[test]
fn refused_balance_update_explains_why() {
    let e = balance_update_refused(true);
    assert_eq!((e.status, e.message.as_str()), (400, "insufficient available balance"));
    let e = balance_update_refused(false);
    assert_eq!((e.status, e.message.as_str()), (404, "user/asset combination not found"));
}

#[test]
fn wallet_pair_requires_two_different_names() {
    assert_eq!(
        wallet_pair(Some(" spot "), Some("funding")).unwrap(),
        ("spot".to_string(), "funding".to_string())
    );
    let e = wallet_pair(Some("spot"), Some("  ")).unwrap_err();
    assert_eq!(e.message, "from_wallet and to_wallet are required for wallet transfer");
    let e = wallet_pair(None, Some("spot")).unwrap_err();
    assert_eq!(e.message, "from_wallet and to_wallet are required for wallet transfer");
    let e = wallet_pair(Some("spot"), Some(" spot")).unwrap_err();
    assert_eq!(e.message, "from_wallet and to_wallet must be different");
}

#[test]
fn wallet_transfer_needs_enough_available() {
    assert_eq!(wallet_transfer_available(Some(d(10)), d(10)).unwrap(), d(10));
    let e = wallet_transfer_available(Some(d(9)), d(10)).unwrap_err();
    assert_eq!((e.status, e.message.as_str()), (400, "insufficient available balance"));
    let e = wallet_transfer_available(None, d(1)).unwrap_err();
    assert_eq!((e.status, e.message.as_str()), (404, "user/asset combination not found"));
}

#[test]
fn swap_assets_are_checked_in_order() {
    assert_eq!(swap_assets(Some("btc"), Some("usdt")).unwrap(), ("BTC".to_string(), "USDT".to_string()));
    assert_eq!(swap_assets(None, Some("usdt")).unwrap_err().message, "from_asset is required");
    assert_eq!(swap_assets(Some("btc"), None).unwrap_err().message, "to_asset is required");
    assert_eq!(
        swap_assets(Some("x"), None).unwrap_err().message,
        "asset length must be between 2 and 16 characters"
    );
    assert_eq!(
        swap_assets(Some("btc"), Some(" BTC ")).unwrap_err().message,
        "from_asset and to_asset must be different"
    );
}

#[test]
fn wallet_answers_show_decimal_texts() {
    let r = deposit_response("BTC".to_string(), Decimal::new(15, 1), Decimal::new(1050, 2));
    assert_eq!((r.asset.as_str(), r.deposited.as_str(), r.new_available.as_str()), ("BTC", "1.5", "10.50"));
    let r = withdraw_response("BTC".to_string(), d(2), d(8));
    assert_eq!((r.withdrawn.as_str(), r.new_available.as_str()), ("2", "8"));
    let r = wallet_transfer_response("USDT".to_string(), "spot".to_string(), "funding".to_string(), d(3), d(7));
    assert_eq!(r.from_wallet.as_deref(), Some("spot"));
    assert_eq!(r.new_from_available.as_deref(), Some("7"));
    assert_eq!(r.new_to_available.as_deref(), Some("7"));
    assert!(r.from_asset.is_none());
    let r = swap_response("BTC".to_string(), "USDT".to_string(), d(1), d(4), d(95));
    assert_eq!(r.asset, "BTC");
    assert_eq!(r.to_asset.as_deref(), Some("USDT"));
    assert_eq!(r.new_to_available.as_deref(), Some("95"));
    assert!(r.from_wallet.is_none());
}

#[test]
fn trade_history_row_names_role_and_assets() {
    let r = user_trade_dto("t1".to_string(), 1, 2, 5, 5, d(100), Decimal::new(25, 2), "ETH_USDT", "now".to_string());
    assert_eq!(r.side, "maker");
    assert_eq!((r.base_asset.as_str(), r.quote_asset.as_str()), ("ETH", "USDT"));
    assert_eq!((r.price.as_str(), r.amount.as_str()), ("100", "0.25"));
    let r = user_trade_dto("t2".to_string(), 1, 2, 5, 6, d(100), d(1), "ETH_USDT", "now".to_string());
    assert_eq!(r.side, "taker");
}
