//! Logic of the order endpoints: reading an order request, resolving its
//! market, the price band around the reference price, ownership checks for
//! cancels, and the answer to a placed order.

use vstd::prelude::*;
use vstd::string::StringExecFns;

use crate::api_error::{ApiError, bad_request, fails_with, forbidden, internal_error, not_found};
use crate::decimal::{
    Comparison, Decimal, checked_add, checked_div, checked_mul, checked_sub, compare, decimal_parse, decimal_product,
    decimal_quotient, decimal_sum, decimal_difference, decimal_text, parse,
};
use crate::ledger::{UserBalanceSnapshot, add_r, mul_r, sub_r};
use crate::order_book::DepthLevel;
use crate::text::{ascii_upper, to_ascii_uppercase, to_lowercase, trim, trim_spec, unicode_lowercase};
use crate::types::{Side, Trade};

verus! {

/// Body of POST /api/orders.
#[derive(Debug)]
pub struct PlaceOrderRequest {
    /// "buy" or "sell", in any case.
    pub side: String,
    /// Limit price, e.g. "100.50".
    pub price: String,
    /// Order quantity, e.g. "0.5".
    pub amount: String,
    pub market_symbol: Option<String>,
    pub base_asset: Option<String>,
    pub quote_asset: Option<String>,
}

/// A balance of one asset after an order, as returned to its owner.
#[derive(Debug)]
pub struct UpdatedBalanceDto {
    pub asset: String,
    pub available: String,
    pub locked: String,
}

/// Answer of POST /api/orders.
#[derive(Debug)]
pub struct PlaceOrderResponse {
    pub order_id: u64,
    /// Number of trades generated immediately (0 = order rested on the book).
    pub trades_count: usize,
    /// How much of the order was matched immediately.
    pub matched_amount: String,
    pub updated_balances: Vec<UpdatedBalanceDto>,
}

/// A market as stored: its symbol, assets and whether trading is open.
#[derive(Debug)]
pub struct MarketRow {
    pub symbol: String,
    pub base_asset: String,
    pub quote_asset: String,
    pub is_active: bool,
}

/// One price level as pushed over the WebSocket feed.
#[derive(Debug)]
pub struct WsPriceLevel {
    pub price: String,
    pub amount: String,
}

/// An event of the WebSocket feed.
#[derive(Debug)]
pub enum WsEvent {
    /// Full top-N depth snapshot, sent after every book change.
    OrderbookUpdate { symbol: String, bids: Vec<WsPriceLevel>, asks: Vec<WsPriceLevel> },
    /// One fill.
    TradeExecuted { symbol: String, price: String, amount: String },
}

/// Maximum deviation from the reference price, in basis points.
pub const MAX_PRICE_DEVIATION_BPS: u64 = 2000;

/// The side named in a request, compared after Unicode lower-casing.
pub fn parse_side(side: &str) -> (r: Result<Side, ApiError>)
    ensures
        unicode_lowercase(side@) == "buy"@ ==> r == Ok::<Side, ApiError>(Side::Buy),
        unicode_lowercase(side@) == "sell"@ ==> r == Ok::<Side, ApiError>(Side::Sell),
        unicode_lowercase(side@) != "buy"@ && unicode_lowercase(side@) != "sell"@ ==> fails_with(
            r,
            400,
            "side must be 'buy' or 'sell'"@,
        ),
{
    let lower = to_lowercase(side);
    let buy = String::from_str("buy");
    let sell = String::from_str("sell");
    proof {
        reveal_strlit("buy");
        reveal_strlit("sell");
        assert("buy"@.len() == 3);
        assert("sell"@.len() == 4);
        assert("buy"@ != "sell"@);
    }
    if lower == buy {
        Ok(Side::Buy)
    } else if lower == sell {
        Ok(Side::Sell)
    } else {
        Err(bad_request("side must be 'buy' or 'sell'"))
    }
}

/// The limit price of a request.
pub fn parse_limit_price(price: &str) -> (r: Result<Decimal, ApiError>)
    ensures
        decimal_parse(price@) is Some ==> r == Ok::<Decimal, ApiError>(decimal_parse(price@)->0),
        decimal_parse(price@) is None ==> fails_with(r, 400, "price must be a valid decimal number"@),
        r is Ok ==> r->Ok_0.wf(),
{
    match parse(price) {
        Some(d) => Ok(d),
        None => Err(bad_request("price must be a valid decimal number")),
    }
}

/// The quantity of a request.
pub fn parse_order_amount(amount: &str) -> (r: Result<Decimal, ApiError>)
    ensures
        decimal_parse(amount@) is Some ==> r == Ok::<Decimal, ApiError>(decimal_parse(amount@)->0),
        decimal_parse(amount@) is None ==> fails_with(r, 400, "amount must be a valid decimal number"@),
        r is Ok ==> r->Ok_0.wf(),
{
    match parse(amount) {
        Some(d) => Ok(d),
        None => Err(bad_request("amount must be a valid decimal number")),
    }
}

/// Trimmed and upper-cased.
pub open spec fn normalized(s: Seq<char>) -> Seq<char> {
    trim_spec(s).map_values(|c: char| ascii_upper(c))
}

/// The market symbol a request names: its `market_symbol` normalized, or
/// `BASE_QUOTE` from its normalized assets; refused when what it names is
/// empty.
pub fn market_symbol_for(market_symbol: Option<&str>, base_asset: Option<&str>, quote_asset: Option<&str>) -> (r: Result<String, ApiError>)
    ensures
        market_symbol is Some ==> ({
            let s = normalized(market_symbol->0@);
            &&& s.len() == 0 ==> fails_with(r, 400, "market_symbol must not be empty"@)
            &&& s.len() > 0 ==> r is Ok && r->Ok_0@ == s
        }),
        market_symbol is None ==> ({
            let b = match base_asset {
                Some(v) => normalized(v@),
                None => Seq::empty(),
            };
            let q = match quote_asset {
                Some(v) => normalized(v@),
                None => Seq::empty(),
            };
            &&& (b.len() == 0 || q.len() == 0) ==> fails_with(
                r,
                400,
                "provide market_symbol or both base_asset and quote_asset"@,
            )
            &&& (b.len() > 0 && q.len() > 0) ==> r is Ok && r->Ok_0@ == b + "_"@ + q
        }),
{
    if let Some(raw) = market_symbol {
        let symbol = to_ascii_uppercase(trim(raw));
        if symbol.as_str().is_empty() {
            return Err(bad_request("market_symbol must not be empty"));
        }
        return Ok(symbol);
    }
    let base = match base_asset {
        Some(v) => to_ascii_uppercase(trim(v)),
        None => String::new(),
    };
    let quote = match quote_asset {
        Some(v) => to_ascii_uppercase(trim(v)),
        None => String::new(),
    };
    if base.as_str().is_empty() || quote.as_str().is_empty() {
        return Err(bad_request("provide market_symbol or both base_asset and quote_asset"));
    }
    proof {
        reveal_strlit("_");
    }
    Ok(base.concat("_").concat(quote.as_str()))
}

/// The market of an order: it must exist and be open for trading.
pub fn market_from_row(row: Option<MarketRow>) -> (r: Result<MarketRow, ApiError>)
    ensures
        row is None ==> fails_with(r, 404, "market not found"@),
        row is Some && !row->0.is_active ==> fails_with(r, 400, "market is halted"@),
        row is Some && row->0.is_active ==> r == Ok::<MarketRow, ApiError>(row->0),
{
    match row {
        None => Err(not_found("market not found")),
        Some(m) => {
            if !m.is_active {
                Err(bad_request("market is halted"))
            } else {
                Ok(m)
            }
        },
    }
}

/// Two, the divisor of a midpoint.
pub open spec fn two() -> Decimal {
    Decimal { mantissa: 2, scale: 0 }
}

/// The reference price of a market: the last trade price when there is
/// one, else the midpoint of the best bid and ask, else whichever of them
/// exists.
pub open spec fn reference_spec(last: Option<Decimal>, bid: Option<Decimal>, ask: Option<Decimal>) -> Option<Decimal> {
    match last {
        Some(p) => Some(p),
        None => match (bid, ask) {
            (Some(b), Some(a)) => Some(match decimal_quotient(add_r(b, a), two()) {
                Some(x) => x,
                None => b,
            }),
            (Some(b), None) => Some(b),
            (None, Some(a)) => Some(a),
            (None, None) => None,
        },
    }
}

/// The reference price used for the price band.
pub fn reference_price(last_trade: Option<Decimal>, best_bid: Option<Decimal>, best_ask: Option<Decimal>) -> (r: Option<Decimal>)
    requires
        best_bid is Some ==> best_bid->0.wf(),
        best_ask is Some ==> best_ask->0.wf(),
        last_trade is None && best_bid is Some && best_ask is Some ==> decimal_sum(best_bid->0, best_ask->0) is Some,
    ensures
        r == reference_spec(last_trade, best_bid, best_ask),
{
    if let Some(p) = last_trade {
        return Some(p);
    }
    match (best_bid, best_ask) {
        (Some(bid), Some(ask)) => {
            let sum = checked_add(&bid, &ask).unwrap();
            let two = Decimal::from_u64(2);
            proof {
                crate::decimal::lemma_pow10_positive(28);
            }
            let mid = checked_div(&sum, &two).unwrap();
            Some(mid)
        },
        (Some(bid), None) => Some(bid),
        (None, Some(ask)) => Some(ask),
        (None, None) => None,
    }
}

/// The reference price, or `None` when the midpoint's sum overflows.
pub fn try_reference_price(last_trade: Option<Decimal>, best_bid: Option<Decimal>, best_ask: Option<Decimal>) -> (r: Option<Option<Decimal>>)
    requires
        best_bid is Some ==> best_bid->0.wf(),
        best_ask is Some ==> best_ask->0.wf(),
    ensures
        r is None <==> (last_trade is None && best_bid is Some && best_ask is Some && decimal_sum(
            best_bid->0,
            best_ask->0,
        ) is None),
        r is Some ==> r->0 == reference_spec(last_trade, best_bid, best_ask),
{
    if last_trade.is_none() {
        if let (Some(bid), Some(ask)) = (best_bid, best_ask) {
            if checked_add(&bid, &ask).is_none() {
                return None;
            }
        }
    }
    Some(reference_price(last_trade, best_bid, best_ask))
}

/// The band factor `MAX_PRICE_DEVIATION_BPS / 10000` as computed.
pub open spec fn band_bps() -> Decimal {
    match decimal_quotient(Decimal { mantissa: 2000, scale: 0 }, Decimal { mantissa: 10000, scale: 0 }) {
        Some(x) => x,
        None => Decimal { mantissa: 0, scale: 0 },
    }
}

/// The lowest price allowed around `reference`: `reference * (1 - bps)`.
pub open spec fn band_lower(reference: Decimal) -> Decimal {
    mul_r(reference, sub_r(Decimal { mantissa: 1, scale: 0 }, band_bps()))
}

/// The highest price allowed around `reference`: `reference * (1 + bps)`.
pub open spec fn band_upper(reference: Decimal) -> Decimal {
    mul_r(reference, add_r(Decimal { mantissa: 1, scale: 0 }, band_bps()))
}

/// The band's arithmetic does not overflow.
pub open spec fn band_ok(reference: Decimal) -> bool {
    &&& decimal_difference(Decimal { mantissa: 1, scale: 0 }, band_bps()) is Some
    &&& decimal_sum(Decimal { mantissa: 1, scale: 0 }, band_bps()) is Some
    &&& decimal_product(reference, sub_r(Decimal { mantissa: 1, scale: 0 }, band_bps())) is Some
    &&& decimal_product(reference, add_r(Decimal { mantissa: 1, scale: 0 }, band_bps())) is Some
}

/// The message of a price outside the band.
pub open spec fn band_message(incoming: Decimal, reference: Decimal) -> Seq<char> {
    "price out of allowed band: incoming="@ + decimal_text(incoming) + ", reference="@ + decimal_text(reference)
        + ", allowed=["@ + decimal_text(band_lower(reference)) + ", "@ + decimal_text(band_upper(reference)) + "]"@
}

/// Rejects a price more than 20% away from a positive reference price.
pub fn validate_price_band(incoming_price: Decimal, reference_price: Decimal) -> (r: Result<(), ApiError>)
    requires
        incoming_price.wf(),
        reference_price.wf(),
        reference_price.value() > 0 ==> band_ok(reference_price),
    ensures
        reference_price.value() <= 0 ==> r is Ok,
        reference_price.value() > 0 ==> ({
            let out = incoming_price.value() < band_lower(reference_price).value() || incoming_price.value()
                > band_upper(reference_price).value();
            &&& !out ==> r is Ok
            &&& out ==> fails_with(r, 400, band_message(incoming_price, reference_price))
        }),
{
    if compare(&reference_price, &Decimal::zero()) != Comparison::Greater {
        return Ok(());
    }
    let bps_num = Decimal::from_u64(MAX_PRICE_DEVIATION_BPS);
    let bps_den = Decimal::from_u64(10000);
    proof {
        crate::decimal::lemma_pow10_positive(28);
        assert(bps_den.value() == 10000 * crate::decimal::unit());
    }
    let bps = checked_div(&bps_num, &bps_den).unwrap();
    let one = Decimal::one();
    let lower_factor = checked_sub(&one, &bps).unwrap();
    let upper_factor = checked_add(&one, &bps).unwrap();
    let lower = checked_mul(&reference_price, &lower_factor).unwrap();
    let upper = checked_mul(&reference_price, &upper_factor).unwrap();
    if compare(&incoming_price, &lower) == Comparison::Less || compare(&incoming_price, &upper) == Comparison::Greater {
        proof {
            reveal_strlit("price out of allowed band: incoming=");
            reveal_strlit(", reference=");
            reveal_strlit(", allowed=[");
            reveal_strlit(", ");
            reveal_strlit("]");
        }
        let msg = String::from_str("price out of allowed band: incoming=").concat(incoming_price.to_text().as_str()).concat(
            ", reference=",
        ).concat(reference_price.to_text().as_str()).concat(", allowed=[").concat(lower.to_text().as_str()).concat(
            ", ",
        ).concat(upper.to_text().as_str()).concat("]");
        return Err(ApiError { status: 400, message: msg });
    }
    Ok(())
}

/// Whether the band around `reference` can be computed without overflow.
pub fn band_fits(reference: Decimal) -> (r: bool)
    requires
        reference.wf(),
    ensures
        r == band_ok(reference),
{
    let bps_num = Decimal::from_u64(MAX_PRICE_DEVIATION_BPS);
    let bps_den = Decimal::from_u64(10000);
    proof {
        crate::decimal::lemma_pow10_positive(28);
        assert(bps_den.value() == 10000 * crate::decimal::unit());
    }
    let bps = checked_div(&bps_num, &bps_den).unwrap();
    let one = Decimal::one();
    let lower_factor = match checked_sub(&one, &bps) {
        Some(x) => x,
        None => {
            return false;
        },
    };
    let upper_factor = match checked_add(&one, &bps) {
        Some(x) => x,
        None => {
            return false;
        },
    };
    checked_mul(&reference, &lower_factor).is_some() && checked_mul(&reference, &upper_factor).is_some()
}

/// The price-band check, or `None` when the band around a positive
/// reference price overflows.
pub fn try_validate_price_band(incoming_price: Decimal, reference_price: Decimal) -> (r: Option<Result<(), ApiError>>)
    requires
        incoming_price.wf(),
        reference_price.wf(),
    ensures
        r is None <==> (reference_price.value() > 0 && !band_ok(reference_price)),
        r is Some && reference_price.value() <= 0 ==> r->0 is Ok,
        r is Some && reference_price.value() > 0 ==> ({
            let out = incoming_price.value() < band_lower(reference_price).value() || incoming_price.value()
                > band_upper(reference_price).value();
            &&& !out ==> r->0 is Ok
            &&& out ==> fails_with(r->0, 400, band_message(incoming_price, reference_price))
        }),
{
    if compare(&reference_price, &Decimal::zero()) == Comparison::Greater && !band_fits(reference_price) {
        return None;
    }
    Some(validate_price_band(incoming_price, reference_price))
}

/// The sum of the traded amounts, added in order from zero as `Sum` does.
pub open spec fn traded_sum(t: Seq<Trade>) -> Option<Decimal>
    decreases t.len(),
{
    if t.len() == 0 {
        Some(Decimal { mantissa: 0, scale: 0 })
    } else {
        match traded_sum(t.drop_last()) {
            Some(s) => decimal_sum(s, t.last().amount),
            None => None,
        }
    }
}

/// How much of an order was matched: the sum of its trades' amounts.
pub fn matched_amount(trades: &Vec<Trade>) -> (r: Decimal)
    requires
        forall|k: int| 0 <= k < trades@.len() ==> (#[trigger] trades@[k]).amount.wf(),
        traded_sum(trades@) is Some,
    ensures
        r == traded_sum(trades@)->0,
{
    let mut total = Decimal::zero();
    let mut i: usize = 0;
    assert(trades@.take(0) =~= Seq::<Trade>::empty());
    while i < trades.len()
        invariant
            i <= trades@.len(),
            forall|k: int| 0 <= k < trades@.len() ==> (#[trigger] trades@[k]).amount.wf(),
            traded_sum(trades@) is Some,
            traded_sum(trades@.take(i as int)) == Some(total),
            total.wf(),
        decreases trades@.len() - i,
    {
        proof {
            lemma_traded_sum_prefix(trades@, i as int + 1);
            let next = trades@.take(i as int + 1);
            assert(next.drop_last() =~= trades@.take(i as int));
            assert(next.last() == trades@[i as int]);
        }
        total = checked_add(&total, &trades[i].amount).unwrap();
        i = i + 1;
    }
    assert(trades@.take(i as int) =~= trades@);
    total
}

/// The total traded amount, or `None` when the sum overflows.
pub fn try_matched_amount(trades: &Vec<Trade>) -> (r: Option<Decimal>)
    requires
        forall|k: int| 0 <= k < trades@.len() ==> (#[trigger] trades@[k]).amount.wf(),
    ensures
        r == traded_sum(trades@),
{
    let mut total = Decimal::zero();
    let mut i: usize = 0;
    assert(trades@.take(0) =~= Seq::<Trade>::empty());
    while i < trades.len()
        invariant
            i <= trades@.len(),
            forall|k: int| 0 <= k < trades@.len() ==> (#[trigger] trades@[k]).amount.wf(),
            traded_sum(trades@.take(i as int)) == Some(total),
            total.wf(),
        decreases trades@.len() - i,
    {
        proof {
            let next = trades@.take(i as int + 1);
            assert(next.drop_last() =~= trades@.take(i as int));
            assert(next.last() == trades@[i as int]);
        }
        match checked_add(&total, &trades[i].amount) {
            Some(t) => {
                total = t;
            },
            None => {
                proof {
                    lemma_traded_sum_none_extends(trades@, i as int + 1);
                }
                return None;
            },
        }
        i = i + 1;
    }
    assert(trades@.take(i as int) =~= trades@);
    Some(matched_amount(trades))
}

/// Once a prefix's sum overflows, so does the whole sum.
proof fn lemma_traded_sum_none_extends(t: Seq<Trade>, k: int)
    requires
        0 <= k <= t.len(),
        traded_sum(t.take(k)) is None,
    ensures
        traded_sum(t) is None,
    decreases t.len(),
{
    if k < t.len() {
        assert(t.drop_last().take(k) =~= t.take(k));
        lemma_traded_sum_none_extends(t.drop_last(), k);
    } else {
        assert(t.take(k) =~= t);
    }
}

/// A prefix of a summable list is summable.
proof fn lemma_traded_sum_prefix(t: Seq<Trade>, k: int)
    requires
        0 <= k <= t.len(),
        traded_sum(t) is Some,
    ensures
        traded_sum(t.take(k)) is Some,
    decreases t.len(),
{
    if k < t.len() {
        assert(t.drop_last().take(k) =~= t.take(k));
        lemma_traded_sum_prefix(t.drop_last(), k);
    } else {
        assert(t.take(k) =~= t);
    }
}

/// The snapshots of asset `base` or `quote`, in order.
pub open spec fn of_assets(s: Seq<UserBalanceSnapshot>, base: Seq<char>, quote: Seq<char>) -> Seq<UserBalanceSnapshot>
    decreases s.len(),
{
    if s.len() == 0 {
        s
    } else {
        let rest = of_assets(s.drop_last(), base, quote);
        if s.last().asset@ == base || s.last().asset@ == quote {
            rest.push(s.last())
        } else {
            rest
        }
    }
}

/// The balances of the order's two assets, from all of the user's
/// balances (which come ordered by asset).
pub fn updated_balances(snapshots: Vec<UserBalanceSnapshot>, base_asset: &str, quote_asset: &str) -> (r: Vec<UpdatedBalanceDto>)
    requires
        forall|k: int| 0 <= k < snapshots@.len() ==> (#[trigger] snapshots@[k]).free.wf() && snapshots@[k].locked.wf(),
    ensures
        r@.len() == of_assets(snapshots@, base_asset@, quote_asset@).len(),
        forall|k: int|
            0 <= k < r@.len() ==> ({
                let s = of_assets(snapshots@, base_asset@, quote_asset@)[k];
                &&& (#[trigger] r@[k]).asset@ == s.asset@
                &&& r@[k].available@ == decimal_text(s.free)
                &&& r@[k].locked@ == decimal_text(s.locked)
            }),
{
    let ghost all = snapshots@;
    let mut out: Vec<UpdatedBalanceDto> = Vec::new();
    let mut i: usize = 0;
    let base = String::from_str(base_asset);
    let quote = String::from_str(quote_asset);
    assert(all.take(0) =~= Seq::<UserBalanceSnapshot>::empty());
    while i < snapshots.len()
        invariant
            i <= all.len(),
            all == snapshots@,
            base@ == base_asset@,
            quote@ == quote_asset@,
            forall|k: int| 0 <= k < all.len() ==> (#[trigger] all[k]).free.wf() && all[k].locked.wf(),
            out@.len() == of_assets(all.take(i as int), base_asset@, quote_asset@).len(),
            forall|k: int|
                0 <= k < out@.len() ==> ({
                    let s = of_assets(all.take(i as int), base_asset@, quote_asset@)[k];
                    &&& (#[trigger] out@[k]).asset@ == s.asset@
                    &&& out@[k].available@ == decimal_text(s.free)
                    &&& out@[k].locked@ == decimal_text(s.locked)
                }),
        decreases all.len() - i,
    {
        let s = &snapshots[i];
        proof {
            let next = all.take(i as int + 1);
            assert(next.drop_last() =~= all.take(i as int));
            assert(next.last() == all[i as int]);
        }
        if s.asset == base || s.asset == quote {
            out.push(UpdatedBalanceDto { asset: s.asset.clone(), available: s.free.to_text(), locked: s.locked.to_text() });
        }
        i = i + 1;
    }
    assert(all.take(i as int) =~= all);
    out
}

/// The answer to a placed order.
pub fn place_order_response(
    order_id: u64,
    trades: &Vec<Trade>,
    matched: Decimal,
    updated_balances: Vec<UpdatedBalanceDto>,
) -> (r: PlaceOrderResponse)
    requires
        matched.wf(),
    ensures
        r.order_id == order_id,
        r.trades_count == trades@.len(),
        r.matched_amount@ == decimal_text(matched),
        r.updated_balances == updated_balances,
{
    PlaceOrderResponse { order_id, trades_count: trades.len(), matched_amount: matched.to_text(), updated_balances }
}

/// The owner of an order as stored in the orders log, which must be a
/// positive id.
pub fn owner_from_log(user_id: i64) -> (r: Result<u64, ApiError>)
    ensures
        user_id <= 0 ==> fails_with(r, 500, "invalid order owner in database"@),
        user_id > 0 ==> r == Ok::<u64, ApiError>(user_id as u64),
{
    if user_id <= 0 {
        Err(internal_error("invalid order owner in database"))
    } else {
        Ok(user_id as u64)
    }
}

/// Only the owner may cancel an order.
pub fn check_order_owner(owner_id: u64, user_id: u64) -> (r: Result<(), ApiError>)
    ensures
        owner_id != user_id ==> fails_with(r, 403, "forbidden: order belongs to a different user"@),
        owner_id == user_id ==> r is Ok,
{
    if owner_id != user_id {
        Err(forbidden("forbidden: order belongs to a different user"))
    } else {
        Ok(())
    }
}

/// One depth level as pushed over the WebSocket feed.
pub fn ws_levels(levels: &Vec<DepthLevel>) -> (r: Vec<WsPriceLevel>)
    requires
        forall|k: int| 0 <= k < levels@.len() ==> (#[trigger] levels@[k]).0.wf() && levels@[k].1.wf(),
    ensures
        r@.len() == levels@.len(),
        forall|k: int|
            0 <= k < r@.len() ==> (#[trigger] r@[k]).price@ == decimal_text(levels@[k].0) && r@[k].amount@
                == decimal_text(levels@[k].1),
{
    let mut out: Vec<WsPriceLevel> = Vec::new();
    let mut i: usize = 0;
    while i < levels.len()
        invariant
            i <= levels@.len(),
            forall|k: int| 0 <= k < levels@.len() ==> (#[trigger] levels@[k]).0.wf() && levels@[k].1.wf(),
            out@.len() == i,
            forall|k: int|
                0 <= k < i ==> (#[trigger] out@[k]).price@ == decimal_text(levels@[k].0) && out@[k].amount@
                    == decimal_text(levels@[k].1),
        decreases levels@.len() - i,
    {
        let (price, amount) = levels[i];
        out.push(WsPriceLevel { price: price.to_text(), amount: amount.to_text() });
        i = i + 1;
    }
    out
}

/// What a WebSocket feed connection learns while it waits.
#[derive(Debug, Clone, Copy, PartialEq, Eq, Structural)]
pub enum FeedInput {
    /// An event came off the bus.
    BusEvent,
    /// The connection fell behind and the bus skipped events.
    BusLagged,
    /// The bus closed.
    BusClosed,
    /// An event could not be serialized.
    EncodeFailed,
    /// Sending to the client failed.
    SendFailed,
    /// The client sent a close frame or went away.
    ClientClosed,
    /// The client sent a ping.
    ClientPing,
    /// The client sent anything else.
    ClientOther,
}

/// What the connection does next.
#[derive(Debug, Clone, Copy, PartialEq, Eq, Structural)]
pub enum FeedAction {
    /// Serialize the event and send it.
    Forward,
    /// Answer the ping with a pong.
    Pong,
    /// Log a warning and keep waiting.
    Warn,
    /// Keep waiting.
    Wait,
    /// Close the connection.
    Stop,
}

/// The feed is push-only: bus events are forwarded, pings answered, other
/// client frames ignored; a lagging connection is warned and goes on; the
/// connection ends when the bus or the client closes or a send fails.
pub fn feed_step(input: FeedInput) -> (r: FeedAction)
    ensures
        r == (match input {
            FeedInput::BusEvent => FeedAction::Forward,
            FeedInput::BusLagged => FeedAction::Warn,
            FeedInput::EncodeFailed => FeedAction::Warn,
            FeedInput::ClientPing => FeedAction::Pong,
            FeedInput::ClientOther => FeedAction::Wait,
            FeedInput::BusClosed => FeedAction::Stop,
            FeedInput::SendFailed => FeedAction::Stop,
            FeedInput::ClientClosed => FeedAction::Stop,
        }),
{
    match input {
        FeedInput::BusEvent => FeedAction::Forward,
        FeedInput::BusLagged => FeedAction::Warn,
        FeedInput::EncodeFailed => FeedAction::Warn,
        FeedInput::ClientPing => FeedAction::Pong,
        FeedInput::ClientOther => FeedAction::Wait,
        FeedInput::BusClosed => FeedAction::Stop,
        FeedInput::SendFailed => FeedAction::Stop,
        FeedInput::ClientClosed => FeedAction::Stop,
    }
}

} // verus!
