use cex_core::admin::{solvency_ratio_text, volume_text};
use cex_core::auth::{parse_u64, user_id_from_header, UserIdHeader};
use cex_core::decimal::Decimal;
use cex_core::ledger::UserBalanceSnapshot;
use cex_core::market_data::{
    average_price_response, balance_dto, balance_for_asset, candle_interval, candle_limit, micro_price,
    mid_price, open_order_dto, orderbook_response, orderbook_symbol, price_levels, recent_trade_dto,
    symbols_json, ticker_base_url, ticker_symbols, ticker_url,
};
use cex_core::order_entry::{
    check_order_owner, feed_step, market_from_row, market_symbol_for, matched_amount, owner_from_log,
    parse_limit_price, parse_order_amount, parse_side, place_order_response, reference_price,
    updated_balances, validate_price_band, ws_levels, FeedAction, FeedInput, MarketRow,
};
use cex_core::persistence::{
    floor_to_interval_secs, persistence_plan, worker_step, DbAction, PersistenceEvent, WorkerAction, WorkerEvent,
    WORKER_BATCH_SIZE,
};
use cex_core::solvency::{
    cached_package_fresh, cold_wallet_env_key, liabilities_covered, parse_cold_wallet_value, proof_asset,
    resolve_cold_wallet_assets, resolve_cold_wallet_assets_optional, scaled_balance, solvency_snapshots,
    user_leaf, SnarkError,
};
use cex_core::types::{side_str, Order, Side, Trade};

fn d(n: i64) -> Decimal {
    Decimal::new(n, 0)
}

fn snap(asset: &str, free: Decimal, locked: Decimal) -> UserBalanceSnapshot {
    UserBalanceSnapshot { asset: asset.to_string(), free, locked }
}

fn trade(maker: u64, taker: u64, price: Decimal, amount: Decimal) -> Trade {
    Trade { maker_order_id: maker, taker_order_id: taker, symbol: "BTC_USDT".to_string(), price, amount }
}

// ─── orders ───

#[test]
fn side_is_read_case_insensitively() {
    assert_eq!(parse_side("BUY").unwrap(), Side::Buy);
    assert_eq!(parse_side("Sell").unwrap(), Side::Sell);
    let e = parse_side("hold").unwrap_err();
    assert_eq!((e.status, e.message.as_str()), (400, "side must be 'buy' or 'sell'"));
    assert_eq!(side_str(Side::Buy), "buy");
    assert_eq!(side_str(Side::Sell), "sell");
}

#[test]
fn price_and_amount_must_be_decimals() {
    assert_eq!(parse_limit_price("101.5").unwrap(), Decimal::new(1015, 1));
    assert_eq!(parse_limit_price("x").unwrap_err().message, "price must be a valid decimal number");
    assert_eq!(parse_order_amount("0.25").unwrap(), Decimal::new(25, 2));
    assert_eq!(parse_order_amount("").unwrap_err().message, "amount must be a valid decimal number");
}

#[test]
fn market_symbol_comes_from_symbol_or_assets() {
    assert_eq!(market_symbol_for(Some(" btc_usdt "), None, None).unwrap(), "BTC_USDT");
    assert_eq!(market_symbol_for(Some("  "), Some("BTC"), Some("USDT")).unwrap_err().message, "market_symbol must not be empty");
    assert_eq!(market_symbol_for(None, Some("eth"), Some(" usdt")).unwrap(), "ETH_USDT");
    assert_eq!(
        market_symbol_for(None, Some("eth"), None).unwrap_err().message,
        "provide market_symbol or both base_asset and quote_asset"
    );
}

#[test]
fn halted_or_unknown_markets_are_refused() {
    let row = MarketRow { symbol: "BTC_USDT".to_string(), base_asset: "BTC".to_string(), quote_asset: "USDT".to_string(), is_active: true };
    assert_eq!(market_from_row(Some(row)).unwrap().symbol, "BTC_USDT");
    let halted = MarketRow { symbol: "X_Y".to_string(), base_asset: "X".to_string(), quote_asset: "Y".to_string(), is_active: false };
    let e = market_from_row(Some(halted)).unwrap_err();
    assert_eq!((e.status, e.message.as_str()), (400, "market is halted"));
    let e = market_from_row(None).unwrap_err();
    assert_eq!((e.status, e.message.as_str()), (404, "market not found"));
}

#[test]
fn reference_price_prefers_last_trade_then_mid() {
    assert_eq!(reference_price(Some(d(7)), Some(d(100)), Some(d(102))), Some(d(7)));
    assert_eq!(reference_price(None, Some(d(100)), Some(d(101))), Some(Decimal::new(1005, 1)));
    assert_eq!(reference_price(None, Some(d(100)), None), Some(d(100)));
    assert_eq!(reference_price(None, None, Some(d(102))), Some(d(102)));
    assert_eq!(reference_price(None, None, None), None);
}

#[test]
fn price_band_allows_twenty_percent_either_side() {
    assert!(validate_price_band(d(80), d(100)).is_ok());
    assert!(validate_price_band(d(120), d(100)).is_ok());
    let e = validate_price_band(d(121), d(100)).unwrap_err();
    assert_eq!(e.status, 400);
    assert_eq!(e.message, "price out of allowed band: incoming=121, reference=100, allowed=[80.00, 120.00]");
    assert!(validate_price_band(d(79), d(100)).is_err());
    assert!(validate_price_band(d(1_000_000), d(0)).is_ok());
}

#[test]
fn matched_amount_sums_trades() {
    let trades = vec![trade(1, 9, d(100), Decimal::new(15, 1)), trade(2, 9, d(101), Decimal::new(25, 1))];
    assert_eq!(matched_amount(&trades), d(4));
    assert_eq!(matched_amount(&Vec::new()), d(0));
}

#[test]
fn updated_balances_keep_the_market_assets_in_order() {
    let snaps = vec![snap("BTC", d(1), d(0)), snap("ETH", d(2), d(0)), snap("USDT", Decimal::new(905, 0), d(5))];
    let out = updated_balances(snaps, "BTC", "USDT");
    assert_eq!(out.len(), 2);
    assert_eq!((out[0].asset.as_str(), out[0].available.as_str(), out[0].locked.as_str()), ("BTC", "1", "0"));
    assert_eq!((out[1].asset.as_str(), out[1].available.as_str(), out[1].locked.as_str()), ("USDT", "905", "5"));
    let trades = vec![trade(1, 9, d(100), d(4))];
    let r = place_order_response(9, &trades, d(4), out);
    assert_eq!((r.order_id, r.trades_count, r.matched_amount.as_str()), (9, 1, "4"));
    assert_eq!(r.updated_balances.len(), 2);
}

#[test]
fn order_ownership_is_checked() {
    assert_eq!(owner_from_log(5).unwrap(), 5);
    let e = owner_from_log(0).unwrap_err();
    assert_eq!((e.status, e.message.as_str()), (500, "invalid order owner in database"));
    assert!(check_order_owner(5, 5).is_ok());
    let e = check_order_owner(5, 6).unwrap_err();
    assert_eq!((e.status, e.message.as_str()), (403, "forbidden: order belongs to a different user"));
}

#[test]
fn depth_levels_become_texts() {
    let levels = vec![(d(100), Decimal::new(25, 1)), (d(99), d(1))];
    let ws = ws_levels(&levels);
    assert_eq!((ws[0].price.as_str(), ws[0].amount.as_str()), ("100", "2.5"));
    let dto = price_levels(&levels);
    assert_eq!((dto[1].price.as_str(), dto[1].amount.as_str()), ("99", "1"));
    let resp = orderbook_response(&(levels, vec![(d(101), d(3))]));
    assert_eq!(resp.bids.len(), 2);
    assert_eq!(resp.asks[0].price, "101");
}

// ─── market data ───

#[test]
fn query_defaults() {
    assert_eq!(orderbook_symbol(None), "BTC_USDT");
    assert_eq!(orderbook_symbol(Some("ETH_USDT")), "ETH_USDT");
    assert_eq!(candle_interval(None), "1m");
    assert_eq!(candle_interval(Some("1h")), "1h");
    assert_eq!(candle_limit(None), 100);
    assert_eq!(candle_limit(Some(0)), 1);
    assert_eq!(candle_limit(Some(9999)), 500);
    assert_eq!(candle_limit(Some(42)), 42);
}

#[test]
fn balance_lookup_normalizes_the_asset() {
    let snaps = vec![snap("BTC", d(1), d(2)), snap("USDT", d(3), d(4))];
    let b = balance_for_asset(&snaps, " usdt ").unwrap();
    assert_eq!((b.asset.as_str(), b.available.as_str(), b.locked.as_str()), ("USDT", "3", "4"));
    let e = balance_for_asset(&snaps, "eth").unwrap_err();
    assert_eq!((e.status, e.message.as_str()), (404, "no balance found for asset ETH"));
    let b = balance_dto(&snaps[0]);
    assert_eq!(b.available, "1");
}

#[test]
fn mid_and_micro_prices() {
    assert_eq!(mid_price(Some(d(100)), Some(d(101))), Some(Decimal::new(1005, 1)));
    assert_eq!(mid_price(Some(d(100)), None), None);
    assert_eq!(micro_price(Some((d(100), d(1))), Some((d(102), d(3)))), Some(Decimal::new(1005, 1)));
    assert_eq!(micro_price(Some((d(100), d(0))), Some((d(102), d(0)))), None);
    let r = average_price_response("BTC_USDT".to_string(), Some((d(100), d(1))), Some((d(102), d(3))));
    assert_eq!(r.best_bid.as_deref(), Some("100"));
    assert_eq!(r.mid_price.as_deref(), Some("101"));
    assert_eq!(r.micro_price.as_deref(), Some("100.50"));
    let r = average_price_response("BTC_USDT".to_string(), None, Some((d(102), d(3))));
    assert!(r.mid_price.is_none() && r.micro_price.is_none());
    assert_eq!(r.best_ask.as_deref(), Some("102"));
}

#[test]
fn open_order_shows_fill_status() {
    let mut o = Order::new(3, 1, "ETH_USDT", Side::Sell, d(2000), d(5));
    let dto = open_order_dto(&o);
    assert_eq!((dto.order_id, dto.side.as_str(), dto.status.as_str(), dto.filled.as_str()), (3, "sell", "open", "0"));
    assert_eq!((dto.base_asset.as_str(), dto.quote_asset.as_str()), ("ETH", "USDT"));
    o.remaining = d(2);
    let dto = open_order_dto(&o);
    assert_eq!((dto.status.as_str(), dto.filled.as_str()), ("partial", "3"));
    let t = recent_trade_dto("BTC_USDT".to_string(), d(100), d(1), "t".to_string());
    assert_eq!((t.base_asset.as_str(), t.quote_asset.as_str(), t.price.as_str()), ("BTC", "USDT", "100"));
}

#[test]
fn ticker_symbols_are_split_trimmed_and_upper_cased() {
    assert_eq!(ticker_symbols(None).unwrap(), vec!["BTCUSDT", "ETHUSDT", "SOLUSDT", "BNBUSDT"]);
    assert_eq!(ticker_symbols(Some(" btcusdt, ,ethusdt,")).unwrap(), vec!["BTCUSDT", "ETHUSDT"]);
    let e = ticker_symbols(Some(" , ")).unwrap_err();
    assert_eq!((e.status, e.message.as_str()), (400, "symbols must not be empty"));
    let syms = vec!["BTCUSDT".to_string(), "ETHUSDT".to_string()];
    assert_eq!(symbols_json(&syms), "[\"BTCUSDT\",\"ETHUSDT\"]");
    assert_eq!(symbols_json(&Vec::new()), "[]");
}

#[test]
fn ticker_urls() {
    assert_eq!(ticker_base_url(None), "https://api.binance.com/api/v3");
    assert_eq!(ticker_base_url(Some("  ")), "https://api.binance.com/api/v3");
    assert_eq!(ticker_base_url(Some("http://x/")), "http://x/");
    assert_eq!(ticker_url("http://x//"), "http://x/ticker/24hr");
    assert_eq!(ticker_url("http://x"), "http://x/ticker/24hr");
}

// ─── auth ───

#[test]
fn user_id_header_rules() {
    assert_eq!(parse_u64("42"), Some(42));
    assert_eq!(parse_u64("18446744073709551615"), Some(u64::MAX));
    assert_eq!(parse_u64("18446744073709551616"), None);
    assert_eq!(parse_u64("+7"), Some(7));
    assert_eq!(parse_u64(""), None);
    assert_eq!(parse_u64("-1"), None);
    assert_eq!(user_id_from_header(UserIdHeader::Text("17")).unwrap().0, 17);
    let e = user_id_from_header(UserIdHeader::Missing).unwrap_err();
    assert_eq!((e.status, e.message.as_str()), (401, "missing x-user-id header"));
    let e = user_id_from_header(UserIdHeader::NotAscii).unwrap_err();
    assert_eq!((e.status, e.message.as_str()), (400, "x-user-id must be valid ASCII"));
    let e = user_id_from_header(UserIdHeader::Text("abc")).unwrap_err();
    assert_eq!(e.message, "x-user-id must be a positive integer (u64)");
    let e = user_id_from_header(UserIdHeader::Text("0")).unwrap_err();
    assert_eq!(e.message, "x-user-id must be greater than 0");
}

// ─── admin ───

#[test]
fn admin_texts() {
    assert_eq!(volume_text(None), "0");
    assert_eq!(volume_text(Some(Decimal::new(125, 1))), "12.5");
    assert_eq!(solvency_ratio_text(d(150), d(100)), "1.50");
    assert_eq!(solvency_ratio_text(d(150), d(0)), "infinity");
}

// ─── solvency ───

#[test]
fn balances_scale_to_eight_decimals() {
    assert_eq!(scaled_balance(Decimal::new(15, 1)).ok(), Some(150_000_000));
    assert_eq!(scaled_balance(d(0)).ok(), Some(0));
    assert!(matches!(scaled_balance(d(-1)), Err(SnarkError::NegativeBalance)));
    assert_eq!(SnarkError::NegativeBalance.message(), "balance must be non-negative");
    assert_eq!(SnarkError::Groth16("x".to_string()).message(), "groth16 error: x");
}

#[test]
fn solvency_query_defaults_and_snapshots() {
    assert_eq!(proof_asset(None), "USDT");
    assert_eq!(proof_asset(Some(" btc ")), "BTC");
    assert_eq!(proof_asset(Some("   ")), "USDT");
    let rows = vec![(3_i64, d(10)), (5_i64, d(2)), (3_i64, d(1))];
    let (snaps, leaf) = solvency_snapshots(&rows, Some(5)).unwrap();
    assert_eq!(snaps.len(), 3);
    assert_eq!((snaps[1].user_id, snaps[1].balance), (5, d(2)));
    assert_eq!(leaf, Some(1));
    let (_, leaf) = solvency_snapshots(&rows, Some(3)).unwrap();
    assert_eq!(leaf, Some(2));
    let (_, leaf) = solvency_snapshots(&rows, Some(9)).unwrap();
    assert_eq!(leaf, None);
    assert_eq!(user_leaf(Some(4)).unwrap(), 4);
    assert_eq!(user_leaf(None).unwrap_err().message, "user balance not found for selected asset");
    let e = solvency_snapshots(&[], None).unwrap_err();
    assert_eq!((e.status, e.message.as_str()), (404, "no balances found for selected asset"));
    let e = solvency_snapshots(&[(0, d(1))], None).unwrap_err();
    assert_eq!((e.status, e.message.as_str()), (500, "invalid user_id in balances snapshot"));
}

#[test]
fn cold_wallet_value_comes_from_query_then_env() {
    assert_eq!(cold_wallet_env_key("BTC"), "COLD_WALLET_ASSETS_BTC");
    assert_eq!(parse_cold_wallet_value("12.5", "p").unwrap(), Decimal::new(125, 1));
    assert_eq!(parse_cold_wallet_value("x", "p").unwrap_err().message, "p: x");
    assert_eq!(parse_cold_wallet_value("-1", "p").unwrap_err().message, "p: value must be non-negative");
    assert_eq!(resolve_cold_wallet_assets("BTC", Some(" 5 "), Some("7")).unwrap(), d(5));
    assert_eq!(resolve_cold_wallet_assets("BTC", Some("  "), Some(" 7 ")).unwrap(), d(7));
    assert_eq!(
        resolve_cold_wallet_assets("BTC", None, Some("oops")).unwrap_err().message,
        "invalid env COLD_WALLET_ASSETS_BTC: oops"
    );
    assert_eq!(
        resolve_cold_wallet_assets("BTC", None, None).unwrap_err().message,
        "missing cold wallet assets value; pass ?cold_wallet_assets=... or set env COLD_WALLET_ASSETS_BTC"
    );
    assert_eq!(resolve_cold_wallet_assets_optional("BTC", None, None).unwrap(), None);
    assert_eq!(resolve_cold_wallet_assets_optional("BTC", Some("3"), None).unwrap(), Some(d(3)));
    assert!(liabilities_covered(d(5), d(5)));
    assert!(!liabilities_covered(d(6), d(5)));
    assert!(cached_package_fresh("a", "b", "a", "b"));
    assert!(!cached_package_fresh("a", "b", "a", "c"));
}

// ─── persistence ───

#[test]
fn candle_open_times() {
    assert_eq!(floor_to_interval_secs(46053, 60), 46020);
    assert_eq!(floor_to_interval_secs(46053, 3600), 43200);
    assert_eq!(floor_to_interval_secs(-61, 60), -120);
    assert_eq!(floor_to_interval_secs(-1, 60), -60);
    assert_eq!(floor_to_interval_secs(-60, 60), -60);
    assert_eq!(floor_to_interval_secs(0, 86400), 0);
}

#[test]
fn trade_plan_settles_both_users_and_updates_candles() {
    let event = PersistenceEvent::TradeFilled {
        trade: trade(1, 2, d(100), d(3)),
        maker_user_id: 20,
        taker_user_id: 10,
        taker_side: Side::Buy,
        base_asset: "BTC".to_string(),
        quote_asset: "USDT".to_string(),
    };
    let plan = persistence_plan(&event, 3661);
    assert_eq!(plan.len(), 11);
    assert!(matches!(&plan[0], DbAction::InsertTrade { maker_order_id: 1, taker_order_id: 2, maker_user_id: 20, taker_user_id: 10, .. }));
    assert!(matches!(&plan[1], DbAction::ApplyFill { order_id: 1, .. }));
    assert!(matches!(&plan[2], DbAction::ApplyFill { order_id: 2, .. }));
    match &plan[3] {
        DbAction::AdjustAvailable { user_id, asset, amount, credit } => {
            assert_eq!((*user_id, asset.as_str(), *amount, *credit), (10, "BTC", d(3), true));
        }
        _ => panic!("expected a balance write"),
    }
    match &plan[4] {
        DbAction::AdjustAvailable { user_id, asset, amount, credit } => {
            assert_eq!((*user_id, asset.as_str(), *amount, *credit), (10, "USDT", d(300), false));
        }
        _ => panic!("expected a balance write"),
    }
    match &plan[6] {
        DbAction::AdjustAvailable { user_id, asset, amount, credit } => {
            assert_eq!((*user_id, asset.as_str(), *amount, *credit), (20, "USDT", d(300), true));
        }
        _ => panic!("expected a balance write"),
    }
    match &plan[9] {
        DbAction::UpsertCandle { symbol, interval, open_time, .. } => {
            assert_eq!((symbol.as_str(), interval.as_str(), *open_time), ("BTC_USDT", "1h", 3600));
        }
        _ => panic!("expected a candle write"),
    }
}

#[test]
fn self_trade_plan_moves_no_balance() {
    let event = PersistenceEvent::TradeFilled {
        trade: trade(1, 2, d(100), d(3)),
        maker_user_id: 10,
        taker_user_id: 10,
        taker_side: Side::Sell,
        base_asset: "BTC".to_string(),
        quote_asset: "USDT".to_string(),
    };
    let plan = persistence_plan(&event, 0);
    assert_eq!(plan.len(), 7);
    assert!(plan.iter().all(|a| !matches!(a, DbAction::AdjustAvailable { .. })));
}

#[test]
fn order_events_plan_one_write() {
    let placed = PersistenceEvent::OrderPlaced {
        order: Order::new(8, 3, "BTC_USDT", Side::Buy, d(100), d(1)),
        base_asset: "BTC".to_string(),
        quote_asset: "USDT".to_string(),
    };
    let plan = persistence_plan(&placed, 0);
    assert_eq!(plan.len(), 1);
    assert!(matches!(&plan[0], DbAction::InsertOrder { order_id: 8, user_id: 3, side: Side::Buy, .. }));
    let cancelled = persistence_plan(&PersistenceEvent::OrderCancelled { order_id: 8 }, 0);
    assert_eq!(cancelled.len(), 1);
    assert!(matches!(&cancelled[0], DbAction::MarkCancelled { order_id: 8 }));
}

#[test]
fn worker_batches_until_full_deadline_or_close() {
    assert_eq!(worker_step(0, WorkerEvent::Received), (1, WorkerAction::WaitMore));
    assert_eq!(worker_step(WORKER_BATCH_SIZE - 1, WorkerEvent::Received), (WORKER_BATCH_SIZE, WorkerAction::Flush));
    assert_eq!(worker_step(5, WorkerEvent::DeadlinePassed), (5, WorkerAction::Flush));
    assert_eq!(worker_step(5, WorkerEvent::ChannelClosed), (5, WorkerAction::FlushAndStop));
    assert_eq!(worker_step(0, WorkerEvent::ChannelClosed), (0, WorkerAction::Stop));
    assert_eq!(worker_step(0, WorkerEvent::DeadlinePassed), (0, WorkerAction::WaitFirst));
}

#[test]
fn feed_forwards_events_answers_pings_and_stops_on_close() {
    assert_eq!(feed_step(FeedInput::BusEvent), FeedAction::Forward);
    assert_eq!(feed_step(FeedInput::ClientPing), FeedAction::Pong);
    assert_eq!(feed_step(FeedInput::ClientOther), FeedAction::Wait);
    assert_eq!(feed_step(FeedInput::BusLagged), FeedAction::Warn);
    assert_eq!(feed_step(FeedInput::EncodeFailed), FeedAction::Warn);
    assert_eq!(feed_step(FeedInput::BusClosed), FeedAction::Stop);
    assert_eq!(feed_step(FeedInput::ClientClosed), FeedAction::Stop);
    assert_eq!(feed_step(FeedInput::SendFailed), FeedAction::Stop);
}
