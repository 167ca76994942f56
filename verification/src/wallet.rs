//! Checks and answers of the wallet endpoints: deposit, withdraw, transfer
//! and the personal trade history.

use vstd::prelude::*;
use vstd::string::StringExecFns;
use vstd::utf8::encode_utf8;

use crate::api_error::{ApiError, bad_request, fails_with, not_found};
use crate::decimal::{Comparison, Decimal, compare, decimal_parse, decimal_text, parse};
use crate::text::{ascii_upper, find_char, split_once, to_ascii_uppercase, trim, trim_spec};

verus! {

/// Body of POST /api/deposit.
#[derive(Debug)]
pub struct DepositRequest {
    pub asset: Option<String>,
    pub amount: String,
}

/// Answer of POST /api/deposit.
#[derive(Debug)]
pub struct DepositResponse {
    pub asset: String,
    pub deposited: String,
    pub new_available: String,
}

/// Body of POST /api/withdraw.
#[derive(Debug)]
pub struct WithdrawRequest {
    pub asset: Option<String>,
    pub amount: String,
}

/// Answer of POST /api/withdraw.
#[derive(Debug)]
pub struct WithdrawResponse {
    pub asset: String,
    pub withdrawn: String,
    pub new_available: String,
}

/// Body of POST /api/transfer: either a wallet move of `asset`, or a swap
/// from `from_asset` to `to_asset`.
#[derive(Debug)]
pub struct TransferRequest {
    pub from_asset: Option<String>,
    pub to_asset: Option<String>,
    pub asset: Option<String>,
    pub from_wallet: Option<String>,
    pub to_wallet: Option<String>,
    pub amount: String,
}

/// Answer of POST /api/transfer.
#[derive(Debug)]
pub struct TransferResponse {
    pub from_asset: Option<String>,
    pub to_asset: Option<String>,
    pub asset: String,
    pub from_wallet: Option<String>,
    pub to_wallet: Option<String>,
    pub transferred: String,
    pub new_from_available: Option<String>,
    pub new_to_available: Option<String>,
}

/// One entry of GET /api/trades/user.
#[derive(Debug)]
pub struct UserTradeDto {
    pub id: String,
    pub maker_order_id: i64,
    pub taker_order_id: i64,
    pub side: String,
    pub price: String,
    pub amount: String,
    pub base_asset: String,
    pub quote_asset: String,
    pub executed_at: String,
}

/// The base and quote assets of `BASE_QUOTE`: the text before and after the
/// first `_`, or the whole symbol and an empty quote when there is none.
pub open spec fn symbol_assets(symbol: Seq<char>) -> (Seq<char>, Seq<char>) {
    match find_char(symbol, '_') {
        Some(i) => (symbol.take(i as int), symbol.skip(i as int + 1)),
        None => (symbol, Seq::empty()),
    }
}

/// Splits a market symbol into its base and quote assets.
pub fn split_symbol_assets(symbol: &str) -> (r: (String, String))
    ensures
        r.0@ == symbol_assets(symbol@).0,
        r.1@ == symbol_assets(symbol@).1,
{
    match split_once(symbol, '_') {
        Some((base, quote)) => (String::from_str(base), String::from_str(quote)),
        None => (String::from_str(symbol), String::new()),
    }
}

/// A byte allowed in an asset symbol: an ASCII letter, digit or `_`.
pub open spec fn asset_byte_ok(b: u8) -> bool {
    (48 <= b <= 57) || (65 <= b <= 90) || (97 <= b <= 122) || b == 95
}

/// What is wrong with an asset symbol, if anything: its length in bytes
/// must be 2 to 16, and every byte a letter, digit or underscore.
pub open spec fn asset_problem(s: Seq<char>) -> Option<Seq<char>> {
    let b = encode_utf8(s);
    if b.len() < 2 || b.len() > 16 {
        Some("asset length must be between 2 and 16 characters"@)
    } else if exists|i: int| 0 <= i < b.len() && !asset_byte_ok(#[trigger] b[i]) {
        Some("asset may only contain [A-Z0-9_]"@)
    } else {
        None
    }
}

/// Rejects an asset symbol of the wrong length or with other characters
/// than letters, digits and underscores.
pub fn validate_asset_symbol(asset: &str) -> (r: Result<(), ApiError>)
    ensures
        asset_problem(asset@) is None ==> r is Ok,
        asset_problem(asset@) is Some ==> fails_with(r, 400, asset_problem(asset@)->0),
{
    let bytes = asset.as_bytes();
    let n = bytes.len();
    if n < 2 || n > 16 {
        return Err(bad_request("asset length must be between 2 and 16 characters"));
    }
    assert(2 <= encode_utf8(asset@).len() <= 16);
    let mut i: usize = 0;
    while i < bytes.len()
        invariant
            i <= bytes@.len(),
            bytes@ == encode_utf8(asset@),
            2 <= encode_utf8(asset@).len() <= 16,
            forall|j: int| 0 <= j < i ==> asset_byte_ok(#[trigger] bytes@[j]),
        decreases bytes@.len() - i,
    {
        let b = bytes[i];
        if !((48 <= b && b <= 57) || (65 <= b && b <= 90) || (97 <= b && b <= 122) || b == 95) {
            assert(!asset_byte_ok(encode_utf8(asset@)[i as int]));
            assert(2 <= encode_utf8(asset@).len() <= 16);
            assert(asset_problem(asset@) == Some("asset may only contain [A-Z0-9_]"@));
            return Err(bad_request("asset may only contain [A-Z0-9_]"));
        }
        i = i + 1;
    }
    Ok(())
}

/// An asset symbol as given, trimmed and upper-cased.
pub open spec fn normalize_asset(s: Seq<char>) -> Seq<char> {
    trim_spec(s).map_values(|c: char| ascii_upper(c))
}

/// The asset of a deposit or withdrawal: the given one normalized, USDT when
/// none is given; rejected when it is not a valid symbol.
pub fn normalized_transfer_asset(asset: Option<&str>) -> (r: Result<String, ApiError>)
    ensures
        ({
            let n = match asset {
                Some(v) => normalize_asset(v@),
                None => "USDT"@,
            };
            &&& asset_problem(n) is None ==> r is Ok && r->Ok_0@ == n
            &&& asset_problem(n) is Some ==> fails_with(r, 400, asset_problem(n)->0)
        }),
{
    let normalized = match asset {
        Some(value) => to_ascii_uppercase(trim(value)),
        None => String::from_str("USDT"),
    };
    match validate_asset_symbol(normalized.as_str()) {
        Ok(()) => Ok(normalized),
        Err(e) => Err(e),
    }
}

/// A required asset symbol, normalized; rejected when it is not valid.
pub fn normalized_required_asset(asset: &str) -> (r: Result<String, ApiError>)
    ensures
        asset_problem(normalize_asset(asset@)) is None ==> r is Ok && r->Ok_0@ == normalize_asset(asset@),
        asset_problem(normalize_asset(asset@)) is Some ==> fails_with(
            r,
            400,
            asset_problem(normalize_asset(asset@))->0,
        ),
{
    let normalized = to_ascii_uppercase(trim(asset));
    match validate_asset_symbol(normalized.as_str()) {
        Ok(()) => Ok(normalized),
        Err(e) => Err(e),
    }
}

/// The amount of a wallet request: a decimal text greater than zero.
pub fn parse_positive_amount(amount: &str) -> (r: Result<Decimal, ApiError>)
    ensures
        decimal_parse(amount@) is None ==> fails_with(r, 400, "amount must be a valid decimal string"@),
        decimal_parse(amount@) is Some && decimal_parse(amount@)->0.value() <= 0 ==> fails_with(
            r,
            400,
            "amount must be greater than 0"@,
        ),
        decimal_parse(amount@) is Some && decimal_parse(amount@)->0.value() > 0 ==> r == Ok::<
            Decimal,
            ApiError,
        >(decimal_parse(amount@)->0),
{
    let parsed = match parse(amount) {
        Some(d) => d,
        None => {
            return Err(bad_request("amount must be a valid decimal string"));
        },
    };
    if compare(&parsed, &Decimal::zero()) != Comparison::Greater {
        return Err(bad_request("amount must be greater than 0"));
    }
    Ok(parsed)
}

/// The answer when a conditional balance update found no row to change:
/// the balance was too small when the row exists, else the row is missing.
pub fn balance_update_refused(row_exists: bool) -> (r: ApiError)
    ensures
        row_exists ==> r.status == 400 && r.message@ == "insufficient available balance"@,
        !row_exists ==> r.status == 404 && r.message@ == "user/asset combination not found"@,
{
    if row_exists {
        bad_request("insufficient available balance")
    } else {
        not_found("user/asset combination not found")
    }
}

/// The text of an optional string slice.
pub open spec fn opt_text(w: Option<&str>) -> Option<Seq<char>> {
    match w {
        Some(s) => Some(s@),
        None => None,
    }
}

/// A wallet name as given: trimmed, absent when empty.
pub open spec fn wallet_name(w: Option<Seq<char>>) -> Option<Seq<char>> {
    match w {
        Some(v) => if trim_spec(v).len() > 0 {
            Some(trim_spec(v))
        } else {
            None
        },
        None => None,
    }
}

fn trimmed_name(w: Option<&str>) -> (r: Option<String>)
    ensures
        r is Some <==> wallet_name(opt_text(w)) is Some,
        r is Some ==> r->0@ == wallet_name(opt_text(w))->0,
{
    match w {
        Some(v) => {
            let t = trim(v);
            if t.is_empty() {
                None
            } else {
                Some(String::from_str(t))
            }
        },
        None => None,
    }
}

/// The two wallets of a wallet transfer, trimmed: both required, and
/// different.
pub fn wallet_pair(from_wallet: Option<&str>, to_wallet: Option<&str>) -> (r: Result<(String, String), ApiError>)
    ensures
        ({
            let f = wallet_name(opt_text(from_wallet));
            let t = wallet_name(opt_text(to_wallet));
            &&& (f is None || t is None) ==> fails_with(
                r,
                400,
                "from_wallet and to_wallet are required for wallet transfer"@,
            )
            &&& (f is Some && t is Some && f == t) ==> fails_with(r, 400, "from_wallet and to_wallet must be different"@)
            &&& (f is Some && t is Some && f != t) ==> r is Ok && r->Ok_0.0@ == f->0 && r->Ok_0.1@ == t->0
        }),
{
    let f = trimmed_name(from_wallet);
    let t = trimmed_name(to_wallet);
    match (f, t) {
        (Some(a), Some(b)) => {
            if a == b {
                Err(bad_request("from_wallet and to_wallet must be different"))
            } else {
                Ok((a, b))
            }
        },
        _ => Err(bad_request("from_wallet and to_wallet are required for wallet transfer")),
    }
}

/// The available balance for a wallet transfer: the row must exist and hold
/// at least the amount.
pub fn wallet_transfer_available(available: Option<Decimal>, amount: Decimal) -> (r: Result<Decimal, ApiError>)
    requires
        available is Some ==> available->0.wf(),
        amount.wf(),
    ensures
        available is None ==> fails_with(r, 404, "user/asset combination not found"@),
        available is Some && available->0.value() < amount.value() ==> fails_with(
            r,
            400,
            "insufficient available balance"@,
        ),
        available is Some && available->0.value() >= amount.value() ==> r == Ok::<Decimal, ApiError>(
            available->0,
        ),
{
    match available {
        None => Err(not_found("user/asset combination not found")),
        Some(a) => {
            if compare(&a, &amount) == Comparison::Less {
                Err(bad_request("insufficient available balance"))
            } else {
                Ok(a)
            }
        },
    }
}

/// The two assets of a swap: both required and valid, and different.
pub fn swap_assets(from_asset: Option<&str>, to_asset: Option<&str>) -> (r: Result<(String, String), ApiError>)
    ensures
        from_asset is None ==> fails_with(r, 400, "from_asset is required"@),
        from_asset is Some && asset_problem(normalize_asset(from_asset->0@)) is Some ==> fails_with(
            r,
            400,
            asset_problem(normalize_asset(from_asset->0@))->0,
        ),
        from_asset is Some && asset_problem(normalize_asset(from_asset->0@)) is None && to_asset is None
            ==> fails_with(r, 400, "to_asset is required"@),
        from_asset is Some && asset_problem(normalize_asset(from_asset->0@)) is None && to_asset is Some
            && asset_problem(normalize_asset(to_asset->0@)) is Some ==> fails_with(
            r,
            400,
            asset_problem(normalize_asset(to_asset->0@))->0,
        ),
        from_asset is Some && asset_problem(normalize_asset(from_asset->0@)) is None && to_asset is Some
            && asset_problem(normalize_asset(to_asset->0@)) is None ==> (if normalize_asset(from_asset->0@)
            == normalize_asset(to_asset->0@) {
            fails_with(r, 400, "from_asset and to_asset must be different"@)
        } else {
            r is Ok && r->Ok_0.0@ == normalize_asset(from_asset->0@) && r->Ok_0.1@ == normalize_asset(
                to_asset->0@,
            )
        }),
{
    let from_raw = match from_asset {
        Some(v) => v,
        None => {
            return Err(bad_request("from_asset is required"));
        },
    };
    let from = match normalized_required_asset(from_raw) {
        Ok(a) => a,
        Err(e) => {
            return Err(e);
        },
    };
    let to_raw = match to_asset {
        Some(v) => v,
        None => {
            return Err(bad_request("to_asset is required"));
        },
    };
    let to = match normalized_required_asset(to_raw) {
        Ok(a) => a,
        Err(e) => {
            return Err(e);
        },
    };
    if from == to {
        return Err(bad_request("from_asset and to_asset must be different"));
    }
    Ok((from, to))
}

/// The answer of a deposit.
pub fn deposit_response(asset: String, amount: Decimal, new_available: Decimal) -> (r: DepositResponse)
    requires
        amount.wf(),
        new_available.wf(),
    ensures
        r.asset == asset,
        r.deposited@ == decimal_text(amount),
        r.new_available@ == decimal_text(new_available),
{
    DepositResponse { asset, deposited: amount.to_text(), new_available: new_available.to_text() }
}

/// The answer of a withdrawal.
pub fn withdraw_response(asset: String, amount: Decimal, new_available: Decimal) -> (r: WithdrawResponse)
    requires
        amount.wf(),
        new_available.wf(),
    ensures
        r.asset == asset,
        r.withdrawn@ == decimal_text(amount),
        r.new_available@ == decimal_text(new_available),
{
    WithdrawResponse { asset, withdrawn: amount.to_text(), new_available: new_available.to_text() }
}

/// The answer of a wallet transfer: the balance does not change, so both
/// sides report the available balance.
pub fn wallet_transfer_response(
    asset: String,
    from_wallet: String,
    to_wallet: String,
    amount: Decimal,
    available: Decimal,
) -> (r: TransferResponse)
    requires
        amount.wf(),
        available.wf(),
    ensures
        r.from_asset is None,
        r.to_asset is None,
        r.asset == asset,
        r.from_wallet == Some(from_wallet),
        r.to_wallet == Some(to_wallet),
        r.transferred@ == decimal_text(amount),
        r.new_from_available is Some && r.new_from_available->0@ == decimal_text(available),
        r.new_to_available is Some && r.new_to_available->0@ == decimal_text(available),
{
    TransferResponse {
        from_asset: None,
        to_asset: None,
        asset,
        from_wallet: Some(from_wallet),
        to_wallet: Some(to_wallet),
        transferred: amount.to_text(),
        new_from_available: Some(available.to_text()),
        new_to_available: Some(available.to_text()),
    }
}

/// The answer of a swap between two assets.
pub fn swap_response(
    from_asset: String,
    to_asset: String,
    amount: Decimal,
    from_available: Decimal,
    to_available: Decimal,
) -> (r: TransferResponse)
    requires
        amount.wf(),
        from_available.wf(),
        to_available.wf(),
    ensures
        r.from_asset == Some(from_asset),
        r.to_asset == Some(to_asset),
        r.asset == from_asset,
        r.from_wallet is None,
        r.to_wallet is None,
        r.transferred@ == decimal_text(amount),
        r.new_from_available is Some && r.new_from_available->0@ == decimal_text(from_available),
        r.new_to_available is Some && r.new_to_available->0@ == decimal_text(to_available),
{
    let asset = from_asset.clone();
    TransferResponse {
        from_asset: Some(from_asset),
        to_asset: Some(to_asset),
        asset,
        from_wallet: None,
        to_wallet: None,
        transferred: amount.to_text(),
        new_from_available: Some(from_available.to_text()),
        new_to_available: Some(to_available.to_text()),
    }
}

/// One row of the personal trade history: the user's role is `maker` when
/// it made the resting order, else `taker`; the assets come from the symbol.
pub fn user_trade_dto(
    id: String,
    maker_order_id: i64,
    taker_order_id: i64,
    maker_user_id: i64,
    user_id: i64,
    price: Decimal,
    amount: Decimal,
    symbol: &str,
    executed_at: String,
) -> (r: UserTradeDto)
    requires
        price.wf(),
        amount.wf(),
    ensures
        r.id == id,
        r.maker_order_id == maker_order_id,
        r.taker_order_id == taker_order_id,
        r.side@ == (if maker_user_id == user_id {
            "maker"@
        } else {
            "taker"@
        }),
        r.price@ == decimal_text(price),
        r.amount@ == decimal_text(amount),
        r.base_asset@ == symbol_assets(symbol@).0,
        r.quote_asset@ == symbol_assets(symbol@).1,
        r.executed_at == executed_at,
{
    let (base, quote) = split_symbol_assets(symbol);
    let side = if maker_user_id == user_id {
        String::from_str("maker")
    } else {
        String::from_str("taker")
    };
    UserTradeDto {
        id,
        maker_order_id,
        taker_order_id,
        side,
        price: price.to_text(),
        amount: amount.to_text(),
        base_asset: base,
        quote_asset: quote,
        executed_at,
    }
}

} // verus!
