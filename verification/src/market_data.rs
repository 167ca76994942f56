//! Logic of the public market-data and balance endpoints: depth answers,
//! top-of-book averages, open-order and trade rows, candle query defaults,
//! and the live-ticker request to the external price feed.

use vstd::prelude::*;
use vstd::string::StringExecFns;

use crate::api_error::{ApiError, fails_with};
use crate::decimal::{Decimal, checked_add, checked_div, checked_mul, checked_sub, decimal_product, decimal_quotient,
    decimal_rounded, decimal_sum, decimal_difference, decimal_text};
use crate::ledger::{UserBalanceSnapshot, add_r, mul_r, sub_r};
use crate::order_book::{DepthLevel, DepthSnapshot};
use crate::text::{ascii_upper, chars_of, string_from_chars, to_ascii_uppercase, trim, trim_spec};
use crate::types::{Order, Side};
use crate::wallet::{split_symbol_assets, symbol_assets};

verus! {

/// Query of GET /api/orderbook.
#[derive(Debug)]
pub struct OrderbookQuery {
    pub symbol: Option<String>,
}

/// Query of GET /api/candles.
#[derive(Debug)]
pub struct CandlesQuery {
    pub symbol: String,
    pub interval: Option<String>,
    pub limit: Option<i64>,
}

/// Query of GET /api/market/tickers/live.
#[derive(Debug)]
pub struct LiveTickersQuery {
    pub symbols: Option<String>,
}

/// One aggregated price level: total resting quantity at one price.
#[derive(Debug)]
pub struct PriceLevelDto {
    pub price: String,
    pub amount: String,
}

/// Answer of GET /api/orderbook: bids best first, asks best first.
#[derive(Debug)]
pub struct OrderBookResponse {
    pub bids: Vec<PriceLevelDto>,
    pub asks: Vec<PriceLevelDto>,
}

/// A balance as returned to its owner.
#[derive(Debug)]
pub struct BalanceDto {
    pub asset: String,
    pub available: String,
    pub locked: String,
}

/// A supported asset.
#[derive(Debug)]
pub struct AssetDto {
    pub symbol: String,
    pub name: String,
    pub decimals: i16,
}

/// A resting order of the caller.
#[derive(Debug)]
pub struct OpenOrderDto {
    pub order_id: i64,
    pub side: String,
    pub price: String,
    pub amount: String,
    pub filled: String,
    pub status: String,
    pub base_asset: String,
    pub quote_asset: String,
    pub created_at: String,
}

/// One of the latest trades.
#[derive(Debug)]
pub struct RecentTradeDto {
    pub market_symbol: String,
    pub price: String,
    pub amount: String,
    pub base_asset: String,
    pub quote_asset: String,
    pub executed_at: String,
}

/// One OHLCV candle.
#[derive(Debug)]
pub struct CandleDto {
    pub time: i64,
    pub open: String,
    pub high: String,
    pub low: String,
    pub close: String,
    pub volume: String,
}

/// Answer of GET /api/price/average.
#[derive(Debug)]
pub struct AveragePriceResponse {
    pub symbol: String,
    pub best_bid: Option<String>,
    pub best_ask: Option<String>,
    pub mid_price: Option<String>,
    pub micro_price: Option<String>,
}

/// A 24-hour ticker of the external price feed.
#[derive(Debug)]
pub struct LiveTickerDto {
    pub symbol: String,
    pub last_price: String,
    pub price_change_percent_24h: String,
    pub quote_volume_24h: String,
}

/// Levels per side in an order-book answer.
pub const ORDERBOOK_DEPTH: usize = 50;

/// The symbol of an order-book query, `BTC_USDT` by default.
pub fn orderbook_symbol(symbol: Option<&str>) -> (r: &str)
    ensures
        r@ == match symbol {
            Some(s) => s@,
            None => "BTC_USDT"@,
        },
{
    match symbol {
        Some(s) => s,
        None => "BTC_USDT",
    }
}

/// Depth levels as text.
pub fn price_levels(levels: &Vec<DepthLevel>) -> (r: Vec<PriceLevelDto>)
    requires
        forall|k: int| 0 <= k < levels@.len() ==> (#[trigger] levels@[k]).0.wf() && levels@[k].1.wf(),
    ensures
        r@.len() == levels@.len(),
        forall|k: int|
            0 <= k < r@.len() ==> (#[trigger] r@[k]).price@ == decimal_text(levels@[k].0) && r@[k].amount@
                == decimal_text(levels@[k].1),
{
    let mut out: Vec<PriceLevelDto> = Vec::new();
    let mut i: usize = 0;
    while i < levels.len()
        invariant
            i <= levels@.len(),
            forall|k: int| 0 <= k < levels@.len() ==> (#[trigger] levels@[k]).0.wf() && levels@[k].1.wf(),
            out@.len() == i,
            forall|k: int|
                0 <= k < i ==> (#[trigger] out@[k]).price@ == decimal_text(levels@[k].0) && out@[k].amount@
                    == decimal_text(levels@[k].1),
        decreases levels@.len() - i,
    {
        let (price, amount) = levels[i];
        out.push(PriceLevelDto { price: price.to_text(), amount: amount.to_text() });
        i = i + 1;
    }
    out
}

/// The order-book answer for a depth snapshot.
pub fn orderbook_response(snapshot: &DepthSnapshot) -> (r: OrderBookResponse)
    requires
        forall|k: int| 0 <= k < snapshot.0@.len() ==> (#[trigger] snapshot.0@[k]).0.wf() && snapshot.0@[k].1.wf(),
        forall|k: int| 0 <= k < snapshot.1@.len() ==> (#[trigger] snapshot.1@[k]).0.wf() && snapshot.1@[k].1.wf(),
    ensures
        r.bids@.len() == snapshot.0@.len(),
        r.asks@.len() == snapshot.1@.len(),
        forall|k: int|
            0 <= k < r.bids@.len() ==> (#[trigger] r.bids@[k]).price@ == decimal_text(snapshot.0@[k].0)
                && r.bids@[k].amount@ == decimal_text(snapshot.0@[k].1),
        forall|k: int|
            0 <= k < r.asks@.len() ==> (#[trigger] r.asks@[k]).price@ == decimal_text(snapshot.1@[k].0)
                && r.asks@[k].amount@ == decimal_text(snapshot.1@[k].1),
{
    OrderBookResponse { bids: price_levels(&snapshot.0), asks: price_levels(&snapshot.1) }
}

/// A balance as text.
pub fn balance_dto(s: &UserBalanceSnapshot) -> (r: BalanceDto)
    requires
        s.free.wf(),
        s.locked.wf(),
    ensures
        r.asset@ == s.asset@,
        r.available@ == decimal_text(s.free),
        r.locked@ == decimal_text(s.locked),
{
    BalanceDto { asset: s.asset.clone(), available: s.free.to_text(), locked: s.locked.to_text() }
}

/// The caller's balance of one asset, named in any case and with spaces
/// around it; refused when the caller holds no such asset.
pub fn balance_for_asset(snapshots: &Vec<UserBalanceSnapshot>, asset: &str) -> (r: Result<BalanceDto, ApiError>)
    requires
        forall|k: int| 0 <= k < snapshots@.len() ==> (#[trigger] snapshots@[k]).free.wf() && snapshots@[k].locked.wf(),
    ensures
        ({
            let a = trim_spec(asset@).map_values(|c: char| ascii_upper(c));
            &&& (forall|k: int| 0 <= k < snapshots@.len() ==> (#[trigger] snapshots@[k]).asset@ != a) ==> fails_with(
                r,
                404,
                "no balance found for asset "@ + a,
            )
            &&& (exists|k: int| 0 <= k < snapshots@.len() && (#[trigger] snapshots@[k]).asset@ == a) ==> r is Ok
                && exists|k: int|
                0 <= k < snapshots@.len() && (#[trigger] snapshots@[k]).asset@ == a && (forall|j: int|
                    0 <= j < k ==> (#[trigger] snapshots@[j]).asset@ != a) && r->Ok_0.asset@ == a
                    && r->Ok_0.available@ == decimal_text(snapshots@[k].free) && r->Ok_0.locked@ == decimal_text(
                    snapshots@[k].locked,
                )
        }),
{
    let wanted = to_ascii_uppercase(trim(asset));
    let mut i: usize = 0;
    while i < snapshots.len()
        invariant
            i <= snapshots@.len(),
            wanted@ == trim_spec(asset@).map_values(|c: char| ascii_upper(c)),
            forall|j: int| 0 <= j < i ==> (#[trigger] snapshots@[j]).asset@ != wanted@,
            forall|k: int| 0 <= k < snapshots@.len() ==> (#[trigger] snapshots@[k]).free.wf() && snapshots@[k].locked.wf(),
        decreases snapshots@.len() - i,
    {
        if snapshots[i].asset == wanted {
            let dto = balance_dto(&snapshots[i]);
            return Ok(dto);
        }
        i = i + 1;
    }
    proof {
        reveal_strlit("no balance found for asset ");
    }
    let msg = String::from_str("no balance found for asset ").concat(wanted.as_str());
    Err(ApiError { status: 404, message: msg })
}

/// The midpoint of the best bid and ask, rounded to 4 places.
pub open spec fn mid_spec(bid: Decimal, ask: Decimal) -> Decimal {
    let q = match decimal_quotient(add_r(bid, ask), Decimal { mantissa: 2, scale: 0 }) {
        Some(x) => x,
        None => bid,
    };
    decimal_rounded(q, 4)
}

/// The midpoint of the best bid and ask, when both exist.
pub fn mid_price(best_bid: Option<Decimal>, best_ask: Option<Decimal>) -> (r: Option<Decimal>)
    requires
        best_bid is Some ==> best_bid->0.wf(),
        best_ask is Some ==> best_ask->0.wf(),
        best_bid is Some && best_ask is Some ==> decimal_sum(best_bid->0, best_ask->0) is Some,
    ensures
        best_bid is Some && best_ask is Some ==> r == Some(mid_spec(best_bid->0, best_ask->0)),
        !(best_bid is Some && best_ask is Some) ==> r is None,
        r is Some ==> r->0.wf(),
{
    match (best_bid, best_ask) {
        (Some(bid), Some(ask)) => {
            let sum = checked_add(&bid, &ask).unwrap();
            proof {
                crate::decimal::lemma_pow10_positive(28);
            }
            let q = checked_div(&sum, &Decimal::from_u64(2)).unwrap();
            Some(q.round_dp(4))
        },
        _ => None,
    }
}

/// The top-of-book midpoint weighted by the opposite quantities:
/// `(bid * ask_qty + ask * bid_qty) / (bid_qty + ask_qty)`, rounded to 4
/// places; none when the quantities add up to zero.
pub open spec fn micro_spec(bid: Decimal, bid_qty: Decimal, ask: Decimal, ask_qty: Decimal) -> Option<Decimal> {
    let denom = add_r(bid_qty, ask_qty);
    if denom.value() == 0 {
        None
    } else {
        let weighted = add_r(mul_r(bid, ask_qty), mul_r(ask, bid_qty));
        Some(
            decimal_rounded(
                match decimal_quotient(weighted, denom) {
                    Some(x) => x,
                    None => weighted,
                },
                4,
            ),
        )
    }
}

/// The micro-price's arithmetic does not overflow.
pub open spec fn micro_ok(bid: Decimal, bid_qty: Decimal, ask: Decimal, ask_qty: Decimal) -> bool {
    let denom = add_r(bid_qty, ask_qty);
    &&& decimal_sum(bid_qty, ask_qty) is Some
    &&& denom.value() != 0 ==> {
        &&& decimal_product(bid, ask_qty) is Some
        &&& decimal_product(ask, bid_qty) is Some
        &&& decimal_sum(mul_r(bid, ask_qty), mul_r(ask, bid_qty)) is Some
        &&& decimal_quotient(add_r(mul_r(bid, ask_qty), mul_r(ask, bid_qty)), denom) is Some
    }
}

/// The liquidity-weighted midpoint of the top levels, when both exist.
pub fn micro_price(best_bid: Option<DepthLevel>, best_ask: Option<DepthLevel>) -> (r: Option<Decimal>)
    requires
        best_bid is Some ==> (best_bid->0).0.wf() && (best_bid->0).1.wf(),
        best_ask is Some ==> (best_ask->0).0.wf() && (best_ask->0).1.wf(),
        best_bid is Some && best_ask is Some ==> micro_ok((best_bid->0).0, (best_bid->0).1, (best_ask->0).0, (best_ask->0).1),
    ensures
        best_bid is Some && best_ask is Some ==> r == micro_spec((best_bid->0).0, (best_bid->0).1, (best_ask->0).0, (best_ask->0).1),
        !(best_bid is Some && best_ask is Some) ==> r is None,
        r is Some ==> r->0.wf(),
{
    match (best_bid, best_ask) {
        (Some((bid_price, bid_qty)), Some((ask_price, ask_qty))) => {
            let denom = checked_add(&bid_qty, &ask_qty).unwrap();
            if denom.is_zero() {
                return None;
            }
            let a = checked_mul(&bid_price, &ask_qty).unwrap();
            let b = checked_mul(&ask_price, &bid_qty).unwrap();
            let weighted = checked_add(&a, &b).unwrap();
            let q = checked_div(&weighted, &denom).unwrap();
            Some(q.round_dp(4))
        },
        _ => None,
    }
}

/// The midpoint, or `None` when adding the best bid and ask overflows.
pub fn try_mid_price(best_bid: Option<Decimal>, best_ask: Option<Decimal>) -> (r: Option<Option<Decimal>>)
    requires
        best_bid is Some ==> best_bid->0.wf(),
        best_ask is Some ==> best_ask->0.wf(),
    ensures
        r is None <==> (best_bid is Some && best_ask is Some && decimal_sum(best_bid->0, best_ask->0) is None),
        r is Some && best_bid is Some && best_ask is Some ==> r->0 == Some(mid_spec(best_bid->0, best_ask->0)),
        r is Some && !(best_bid is Some && best_ask is Some) ==> r->0 is None,
{
    if let (Some(bid), Some(ask)) = (best_bid, best_ask) {
        if checked_add(&bid, &ask).is_none() {
            return None;
        }
    }
    Some(mid_price(best_bid, best_ask))
}

/// Whether the micro-price can be computed without overflow.
pub fn micro_fits(bid: Decimal, bid_qty: Decimal, ask: Decimal, ask_qty: Decimal) -> (r: bool)
    requires
        bid.wf(),
        bid_qty.wf(),
        ask.wf(),
        ask_qty.wf(),
    ensures
        r == micro_ok(bid, bid_qty, ask, ask_qty),
{
    let denom = match checked_add(&bid_qty, &ask_qty) {
        Some(x) => x,
        None => {
            return false;
        },
    };
    if denom.is_zero() {
        return true;
    }
    let a = match checked_mul(&bid, &ask_qty) {
        Some(x) => x,
        None => {
            return false;
        },
    };
    let b = match checked_mul(&ask, &bid_qty) {
        Some(x) => x,
        None => {
            return false;
        },
    };
    let weighted = match checked_add(&a, &b) {
        Some(x) => x,
        None => {
            return false;
        },
    };
    checked_div(&weighted, &denom).is_some()
}

/// The micro-price, or `None` when its arithmetic overflows.
pub fn try_micro_price(best_bid: Option<DepthLevel>, best_ask: Option<DepthLevel>) -> (r: Option<Option<Decimal>>)
    requires
        best_bid is Some ==> (best_bid->0).0.wf() && (best_bid->0).1.wf(),
        best_ask is Some ==> (best_ask->0).0.wf() && (best_ask->0).1.wf(),
    ensures
        r is None <==> (best_bid is Some && best_ask is Some && !micro_ok(
            (best_bid->0).0,
            (best_bid->0).1,
            (best_ask->0).0,
            (best_ask->0).1,
        )),
        r is Some && best_bid is Some && best_ask is Some ==> r->0 == micro_spec(
            (best_bid->0).0,
            (best_bid->0).1,
            (best_ask->0).0,
            (best_ask->0).1,
        ),
        r is Some && !(best_bid is Some && best_ask is Some) ==> r->0 is None,
{
    if let (Some((bp, bq)), Some((ap, aq))) = (best_bid, best_ask) {
        if !micro_fits(bp, bq, ap, aq) {
            return None;
        }
    }
    Some(micro_price(best_bid, best_ask))
}

fn opt_text(d: Option<Decimal>) -> (r: Option<String>)
    requires
        d is Some ==> d->0.wf(),
    ensures
        r is Some <==> d is Some,
        r is Some ==> r->0@ == decimal_text(d->0),
{
    match d {
        Some(x) => Some(x.to_text()),
        None => None,
    }
}

/// The answer of GET /api/price/average from the top level of each side.
pub fn average_price_response(symbol: String, best_bid: Option<DepthLevel>, best_ask: Option<DepthLevel>) -> (r: AveragePriceResponse)
    requires
        best_bid is Some ==> (best_bid->0).0.wf() && (best_bid->0).1.wf(),
        best_ask is Some ==> (best_ask->0).0.wf() && (best_ask->0).1.wf(),
        best_bid is Some && best_ask is Some ==> decimal_sum((best_bid->0).0, (best_ask->0).0) is Some && micro_ok(
            (best_bid->0).0,
            (best_bid->0).1,
            (best_ask->0).0,
            (best_ask->0).1,
        ),
    ensures
        r.symbol == symbol,
        r.best_bid is Some <==> best_bid is Some,
        best_bid is Some ==> r.best_bid->0@ == decimal_text((best_bid->0).0),
        r.best_ask is Some <==> best_ask is Some,
        best_ask is Some ==> r.best_ask->0@ == decimal_text((best_ask->0).0),
        best_bid is Some && best_ask is Some ==> r.mid_price is Some && r.mid_price->0@ == decimal_text(
            mid_spec((best_bid->0).0, (best_ask->0).0),
        ),
        !(best_bid is Some && best_ask is Some) ==> r.mid_price is None && r.micro_price is None,
        best_bid is Some && best_ask is Some ==> (r.micro_price is Some <==> micro_spec(
            (best_bid->0).0,
            (best_bid->0).1,
            (best_ask->0).0,
            (best_ask->0).1,
        ) is Some),
        r.micro_price is Some ==> r.micro_price->0@ == decimal_text(
            micro_spec((best_bid->0).0, (best_bid->0).1, (best_ask->0).0, (best_ask->0).1)->0,
        ),
{
    let bid_price = match best_bid {
        Some((p, _)) => Some(p),
        None => None,
    };
    let ask_price = match best_ask {
        Some((p, _)) => Some(p),
        None => None,
    };
    let mid = mid_price(bid_price, ask_price);
    let micro = micro_price(best_bid, best_ask);
    AveragePriceResponse {
        symbol,
        best_bid: opt_text(bid_price),
        best_ask: opt_text(ask_price),
        mid_price: opt_text(mid),
        micro_price: opt_text(micro),
    }
}

/// The answer of GET /api/price/average, or `None` when the midpoint or the
/// micro-price overflows.
pub fn try_average_price_response(symbol: String, best_bid: Option<DepthLevel>, best_ask: Option<DepthLevel>) -> (r: Option<AveragePriceResponse>)
    requires
        best_bid is Some ==> (best_bid->0).0.wf() && (best_bid->0).1.wf(),
        best_ask is Some ==> (best_ask->0).0.wf() && (best_ask->0).1.wf(),
    ensures
        r is None <==> (best_bid is Some && best_ask is Some && !(decimal_sum((best_bid->0).0, (best_ask->0).0) is Some
            && micro_ok((best_bid->0).0, (best_bid->0).1, (best_ask->0).0, (best_ask->0).1))),
        r is Some ==> ({
            let a = r->0;
            &&& a.symbol == symbol
            &&& a.best_bid is Some <==> best_bid is Some
            &&& best_bid is Some ==> a.best_bid->0@ == decimal_text((best_bid->0).0)
            &&& a.best_ask is Some <==> best_ask is Some
            &&& best_ask is Some ==> a.best_ask->0@ == decimal_text((best_ask->0).0)
            &&& best_bid is Some && best_ask is Some ==> a.mid_price is Some && a.mid_price->0@ == decimal_text(
                mid_spec((best_bid->0).0, (best_ask->0).0),
            )
            &&& !(best_bid is Some && best_ask is Some) ==> a.mid_price is None && a.micro_price is None
            &&& best_bid is Some && best_ask is Some ==> (a.micro_price is Some <==> micro_spec(
                (best_bid->0).0,
                (best_bid->0).1,
                (best_ask->0).0,
                (best_ask->0).1,
            ) is Some)
            &&& a.micro_price is Some ==> a.micro_price->0@ == decimal_text(
                micro_spec((best_bid->0).0, (best_bid->0).1, (best_ask->0).0, (best_ask->0).1)->0,
            )
        }),
{
    if let (Some((bp, bq)), Some((ap, aq))) = (best_bid, best_ask) {
        if checked_add(&bp, &ap).is_none() || !micro_fits(bp, bq, ap, aq) {
            return None;
        }
    }
    Some(average_price_response(symbol, best_bid, best_ask))
}

/// A resting order of the caller as returned: the filled part is the
/// amount less what remains, and the status is `open` while nothing is
/// filled, else `partial`.
pub fn open_order_dto(order: &Order) -> (r: OpenOrderDto)
    requires
        order.wf(),
        decimal_difference(order.amount, order.remaining) is Some,
    ensures
        r.order_id == order.id as i64,
        r.side@ == (match order.side {
            Side::Buy => "buy"@,
            Side::Sell => "sell"@,
        }),
        r.price@ == decimal_text(order.price),
        r.amount@ == decimal_text(order.amount),
        r.filled@ == decimal_text(sub_r(order.amount, order.remaining)),
        r.status@ == (if sub_r(order.amount, order.remaining).value() == 0 {
            "open"@
        } else {
            "partial"@
        }),
        r.base_asset@ == symbol_assets(order.symbol@).0,
        r.quote_asset@ == symbol_assets(order.symbol@).1,
        r.created_at@ == Seq::<char>::empty(),
{
    let (base_asset, quote_asset) = split_symbol_assets(order.symbol.as_str());
    let filled = checked_sub(&order.amount, &order.remaining).unwrap();
    let status = if filled.is_zero() {
        String::from_str("open")
    } else {
        String::from_str("partial")
    };
    let side = match order.side {
        Side::Buy => String::from_str("buy"),
        Side::Sell => String::from_str("sell"),
    };
    OpenOrderDto {
        order_id: order.id as i64,
        side,
        price: order.price.to_text(),
        amount: order.amount.to_text(),
        filled: filled.to_text(),
        status,
        base_asset,
        quote_asset,
        created_at: String::new(),
    }
}

/// An open order as returned, or `None` when `amount - remaining` overflows.
pub fn try_open_order_dto(order: &Order) -> (r: Option<OpenOrderDto>)
    requires
        order.wf(),
    ensures
        r is None <==> decimal_difference(order.amount, order.remaining) is None,
        r is Some ==> ({
            let d = r->0;
            &&& d.order_id == order.id as i64
            &&& d.side@ == (match order.side {
                Side::Buy => "buy"@,
                Side::Sell => "sell"@,
            })
            &&& d.price@ == decimal_text(order.price)
            &&& d.amount@ == decimal_text(order.amount)
            &&& d.filled@ == decimal_text(sub_r(order.amount, order.remaining))
            &&& d.status@ == (if sub_r(order.amount, order.remaining).value() == 0 {
                "open"@
            } else {
                "partial"@
            })
            &&& d.base_asset@ == symbol_assets(order.symbol@).0
            &&& d.quote_asset@ == symbol_assets(order.symbol@).1
            &&& d.created_at@ == Seq::<char>::empty()
        }),
{
    if checked_sub(&order.amount, &order.remaining).is_none() {
        return None;
    }
    Some(open_order_dto(order))
}

/// One of the latest trades as returned.
pub fn recent_trade_dto(market_symbol: String, price: Decimal, amount: Decimal, executed_at: String) -> (r: RecentTradeDto)
    requires
        price.wf(),
        amount.wf(),
    ensures
        r.market_symbol == market_symbol,
        r.price@ == decimal_text(price),
        r.amount@ == decimal_text(amount),
        r.base_asset@ == symbol_assets(market_symbol@).0,
        r.quote_asset@ == symbol_assets(market_symbol@).1,
        r.executed_at == executed_at,
{
    let (base_asset, quote_asset) = split_symbol_assets(market_symbol.as_str());
    RecentTradeDto { market_symbol, price: price.to_text(), amount: amount.to_text(), base_asset, quote_asset, executed_at }
}

/// The candle interval of a query, `1m` by default.
pub fn candle_interval(interval: Option<&str>) -> (r: &str)
    ensures
        r@ == match interval {
            Some(s) => s@,
            None => "1m"@,
        },
{
    match interval {
        Some(s) => s,
        None => "1m",
    }
}

/// The number of candles of a query: 100 by default, kept within 1 to 500.
pub fn candle_limit(limit: Option<i64>) -> (r: i64)
    ensures
        r == match limit {
            Some(l) => if l < 1 {
                1
            } else if l > 500 {
                500
            } else {
                l
            },
            None => 100,
        },
{
    let l = match limit {
        Some(l) => l,
        None => 100,
    };
    if l < 1 {
        1
    } else if l > 500 {
        500
    } else {
        l
    }
}

/// The pieces of `s` between commas, in order (`"a,,b"` has three).
pub open spec fn comma_parts(s: Seq<char>) -> Seq<Seq<char>>
    decreases s.len(),
{
    if s.len() == 0 {
        seq![Seq::empty()]
    } else {
        let parts = comma_parts(s.drop_last());
        if s.last() == ',' {
            parts.push(Seq::empty())
        } else {
            parts.update(parts.len() - 1, parts.last().push(s.last()))
        }
    }
}

pub proof fn lemma_comma_parts_nonempty(s: Seq<char>)
    ensures
        comma_parts(s).len() >= 1,
    decreases s.len(),
{
    if s.len() > 0 {
        lemma_comma_parts_nonempty(s.drop_last());
    }
}

/// The symbols named by the pieces: trimmed, blank ones dropped,
/// upper-cased.
pub open spec fn symbols_of(parts: Seq<Seq<char>>) -> Seq<Seq<char>>
    decreases parts.len(),
{
    if parts.len() == 0 {
        Seq::empty()
    } else {
        let rest = symbols_of(parts.drop_last());
        let t = trim_spec(parts.last());
        if t.len() > 0 {
            rest.push(t.map_values(|c: char| ascii_upper(c)))
        } else {
            rest
        }
    }
}

/// The symbols of a live-ticker query, by default BTC, ETH, SOL and BNB
/// against USDT.
pub open spec fn ticker_symbols_spec(param: Option<Seq<char>>) -> Seq<Seq<char>> {
    let text = match param {
        Some(s) => s,
        None => "BTCUSDT,ETHUSDT,SOLUSDT,BNBUSDT"@,
    };
    symbols_of(comma_parts(text))
}

/// The texts of a list of strings.
pub open spec fn texts(v: Seq<String>) -> Seq<Seq<char>> {
    v.map_values(|s: String| s@)
}

/// Splits `s` at its commas.
fn split_commas(s: &str) -> (r: Vec<String>)
    ensures
        texts(r@) == comma_parts(s@),
{
    let cs = chars_of(s);
    let mut parts: Vec<String> = Vec::new();
    let mut cur: Vec<char> = Vec::new();
    let mut i: usize = 0;
    assert(cs@.take(0) =~= Seq::<char>::empty());
    while i < cs.len()
        invariant
            i <= cs@.len(),
            cs@ == s@,
            texts(parts@).push(cur@) == comma_parts(cs@.take(i as int)),
        decreases cs@.len() - i,
    {
        let c = cs[i];
        proof {
            let next = cs@.take(i as int + 1);
            assert(next.drop_last() =~= cs@.take(i as int));
            assert(next.last() == c);
        }
        if c == ',' {
            let piece = string_from_chars(cur.as_slice());
            let ghost before = parts@;
            parts.push(piece);
            cur = Vec::new();
            proof {
                assert(texts(parts@) =~= texts(before).push(piece@));
                assert(texts(parts@).push(cur@) =~= texts(before).push(piece@).push(Seq::<char>::empty()));
            }
        } else {
            let ghost before_cur = cur@;
            cur.push(c);
            proof {
                let t = texts(parts@);
                assert(t.push(cur@) =~= t.push(before_cur).update(t.push(before_cur).len() - 1, before_cur.push(c)));
            }
        }
        i = i + 1;
    }
    assert(cs@.take(i as int) =~= cs@);
    let last = string_from_chars(cur.as_slice());
    let ghost before = parts@;
    parts.push(last);
    assert(texts(parts@) =~= texts(before).push(last@));
    parts
}

/// The symbols of a live-ticker query; refused when none is left.
pub fn ticker_symbols(param: Option<&str>) -> (r: Result<Vec<String>, ApiError>)
    ensures
        ({
            let syms = ticker_symbols_spec(match param {
                Some(s) => Some(s@),
                None => None,
            });
            &&& syms.len() == 0 ==> fails_with(r, 400, "symbols must not be empty"@)
            &&& syms.len() > 0 ==> r is Ok && texts(r->Ok_0@) == syms
        }),
{
    let text = match param {
        Some(s) => s,
        None => "BTCUSDT,ETHUSDT,SOLUSDT,BNBUSDT",
    };
    let parts = split_commas(text);
    let mut out: Vec<String> = Vec::new();
    let mut i: usize = 0;
    assert(texts(parts@).take(0) =~= Seq::<Seq<char>>::empty());
    while i < parts.len()
        invariant
            i <= parts@.len(),
            texts(out@) == symbols_of(texts(parts@).take(i as int)),
        decreases parts@.len() - i,
    {
        proof {
            let next = texts(parts@).take(i as int + 1);
            assert(next.drop_last() =~= texts(parts@).take(i as int));
            assert(next.last() == parts@[i as int]@);
        }
        let t = trim(parts[i].as_str());
        if !t.is_empty() {
            let ghost before = out@;
            out.push(to_ascii_uppercase(t));
            assert(texts(out@) =~= texts(before).push(out@.last()@));
        }
        i = i + 1;
    }
    assert(texts(parts@).take(i as int) =~= texts(parts@));
    if out.len() == 0 {
        return Err(crate::api_error::bad_request("symbols must not be empty"));
    }
    Ok(out)
}

/// `["A","B"]`: the symbols as a JSON array of strings.
pub open spec fn symbols_json_spec(symbols: Seq<Seq<char>>) -> Seq<char>
    decreases symbols.len(),
{
    if symbols.len() == 0 {
        "[]"@
    } else {
        json_items(symbols) + "]"@
    }
}

/// `["A","B"` without the closing bracket.
pub open spec fn json_items(symbols: Seq<Seq<char>>) -> Seq<char>
    decreases symbols.len(),
{
    if symbols.len() == 0 {
        "["@
    } else if symbols.len() == 1 {
        "[\""@ + symbols[0] + "\""@
    } else {
        json_items(symbols.drop_last()) + ",\""@ + symbols.last() + "\""@
    }
}

/// The `symbols` parameter of the ticker request: the symbols as a JSON
/// array of strings.
pub fn symbols_json(symbols: &Vec<String>) -> (r: String)
    ensures
        r@ == symbols_json_spec(texts(symbols@)),
{
    proof {
        reveal_strlit("[]");
        reveal_strlit("[");
        reveal_strlit("]");
        reveal_strlit("[\"");
        reveal_strlit("\"");
        reveal_strlit(",\"");
    }
    if symbols.len() == 0 {
        return String::from_str("[]");
    }
    let mut out = String::from_str("[\"").concat(symbols[0].as_str()).concat("\"");
    let mut i: usize = 1;
    proof {
        assert(texts(symbols@).take(1).len() == 1);
        assert(texts(symbols@).take(1)[0] == symbols@[0]@);
    }
    while i < symbols.len()
        invariant
            1 <= i <= symbols@.len(),
            out@ == json_items(texts(symbols@).take(i as int)),
        decreases symbols@.len() - i,
    {
        proof {
            let next = texts(symbols@).take(i as int + 1);
            assert(next.drop_last() =~= texts(symbols@).take(i as int));
            assert(next.last() == symbols@[i as int]@);
        }
        out = out.concat(",\"").concat(symbols[i].as_str()).concat("\"");
        i = i + 1;
    }
    assert(texts(symbols@).take(i as int) =~= texts(symbols@));
    out.concat("]")
}

/// The base URL of the external price feed: the configured one unless it is
/// blank, else the public default.
pub fn ticker_base_url(configured: Option<&str>) -> (r: String)
    ensures
        r@ == match configured {
            Some(v) => if trim_spec(v@).len() > 0 {
                v@
            } else {
                "https://api.binance.com/api/v3"@
            },
            None => "https://api.binance.com/api/v3"@,
        },
{
    match configured {
        Some(v) => {
            if trim(v).is_empty() {
                String::from_str("https://api.binance.com/api/v3")
            } else {
                String::from_str(v)
            }
        },
        None => String::from_str("https://api.binance.com/api/v3"),
    }
}

/// `s` without its trailing `/` characters.
pub open spec fn without_trailing_slashes(s: Seq<char>) -> Seq<char>
    decreases s.len(),
{
    if s.len() > 0 && s.last() == '/' {
        without_trailing_slashes(s.drop_last())
    } else {
        s
    }
}

/// The 24-hour ticker endpoint under `base_url`.
pub fn ticker_url(base_url: &str) -> (r: String)
    ensures
        r@ == without_trailing_slashes(base_url@) + "/ticker/24hr"@,
{
    let cs = chars_of(base_url);
    let mut n: usize = cs.len();
    assert(cs@.take(n as int) =~= cs@);
    while n > 0 && cs[n - 1] == '/'
        invariant
            n <= cs@.len(),
            cs@ == base_url@,
            without_trailing_slashes(base_url@) == without_trailing_slashes(cs@.take(n as int)),
        decreases n,
    {
        proof {
            assert(cs@.take(n as int).drop_last() =~= cs@.take(n as int - 1));
        }
        n = n - 1;
    }
    proof {
        assert(cs@.take(n as int) =~= cs@.take(n as int));
    }
    let mut kept: Vec<char> = Vec::new();
    let mut i: usize = 0;
    while i < n
        invariant
            i <= n <= cs@.len(),
            kept@ == cs@.take(i as int),
        decreases n - i,
    {
        kept.push(cs[i]);
        i = i + 1;
        assert(kept@ =~= cs@.take(i as int));
    }
    string_from_chars(kept.as_slice()).concat("/ticker/24hr")
}

} // verus!
