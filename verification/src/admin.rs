//! Answers and requests of the admin endpoints, and the treasury's
//! solvency ratio.

use vstd::prelude::*;
use vstd::string::StringExecFns;

use crate::decimal::{Comparison, Decimal, checked_div, compare, decimal_quotient, decimal_text};

verus! {

/// Dashboard figures.
#[derive(Debug)]
pub struct AdminMetrics {
    pub volume_24h_usdt: String,
    pub total_users: i64,
    pub active_orders: i64,
}

/// Treasury figures.
#[derive(Debug)]
pub struct TreasuryMetrics {
    pub exchange_capital: String,
    pub exchange_revenue: String,
    pub total_user_liabilities: String,
    pub total_exchange_funds: String,
    pub solvency_ratio: String,
}

/// An asset as shown to admins.
#[derive(Debug)]
pub struct AdminAssetDto {
    pub symbol: String,
    pub name: String,
    pub decimals: i32,
    pub is_active: bool,
}

/// Body of the add-asset request.
#[derive(Debug)]
pub struct AddAssetReq {
    pub symbol: String,
    pub name: String,
}

/// Body of the halt-market request.
#[derive(Debug)]
pub struct MarketHaltReq {
    pub symbol: String,
}

/// A user as shown to admins.
#[derive(Debug)]
pub struct UserListDto {
    pub user_id: i64,
    pub username: String,
    pub is_suspended: bool,
}

/// The 24-hour volume as text: zero when there were no trades.
pub fn volume_text(volume: Option<Decimal>) -> (r: String)
    requires
        volume is Some ==> volume->0.wf(),
    ensures
        r@ == decimal_text(
            match volume {
                Some(v) => v,
                None => Decimal { mantissa: 0, scale: 0 },
            },
        ),
{
    match volume {
        Some(v) => v.to_text(),
        None => Decimal::zero().to_text(),
    }
}

/// The solvency ratio as text: the exchange's funds over the users'
/// liabilities, or `infinity` when there are no liabilities.
pub fn solvency_ratio_text(total_exchange_funds: Decimal, total_liabilities: Decimal) -> (r: String)
    requires
        total_exchange_funds.wf(),
        total_liabilities.wf(),
        total_liabilities.value() > 0 ==> decimal_quotient(total_exchange_funds, total_liabilities) is Some,
    ensures
        total_liabilities.value() > 0 ==> r@ == decimal_text(
            decimal_quotient(total_exchange_funds, total_liabilities)->0,
        ),
        total_liabilities.value() <= 0 ==> r@ == "infinity"@,
{
    if compare(&total_liabilities, &Decimal::zero()) == Comparison::Greater {
        let q = checked_div(&total_exchange_funds, &total_liabilities).unwrap();
        q.to_text()
    } else {
        String::from_str("infinity")
    }
}

/// The solvency ratio as text, or `None` when the division overflows.
pub fn try_solvency_ratio_text(total_exchange_funds: Decimal, total_liabilities: Decimal) -> (r: Option<String>)
    requires
        total_exchange_funds.wf(),
        total_liabilities.wf(),
    ensures
        r is None <==> (total_liabilities.value() > 0 && decimal_quotient(total_exchange_funds, total_liabilities) is None),
        r is Some && total_liabilities.value() > 0 ==> r->0@ == decimal_text(
            decimal_quotient(total_exchange_funds, total_liabilities)->0,
        ),
        r is Some && total_liabilities.value() <= 0 ==> r->0@ == "infinity"@,
{
    if compare(&total_liabilities, &Decimal::zero()) == Comparison::Greater && checked_div(
        &total_exchange_funds,
        &total_liabilities,
    ).is_none() {
        return None;
    }
    Some(solvency_ratio_text(total_exchange_funds, total_liabilities))
}

} // verus!
