//! In-memory balance ledger: free and locked balances per (user, asset),
//! and the reservations that lock funds for open orders.
//!
//! A buy order locks `price * amount` of the quote asset, a sell order locks
//! `amount` of the base asset. Fills release the locked funds, refund any
//! price improvement to a buyer, and credit what was received.

use std::collections::HashMap;
use vstd::prelude::*;
use vstd::string::StringExecFns;

use crate::decimal::{decimal_text, Comparison, Decimal, checked_add, checked_mul, checked_sub, compare, decimal_difference,
    decimal_product, decimal_sum};
use crate::text::{u64_text, ascii_bytes, digits_spec, lemma_lex_total, lemma_lex_transitive, lex_lt, text_lt, u64_digits};
use crate::types::{Order, Side, Trade};

verus! {

broadcast use vstd::std_specs::hash::group_hash_axioms;

/// Free and locked balance of one asset of one user.
#[derive(Clone, Copy, Debug)]
pub struct BalanceState {
    pub free: Decimal,
    pub locked: Decimal,
}

/// One asset's balance of a user, as reported to that user.
#[derive(Debug)]
pub struct UserBalanceSnapshot {
    pub asset: String,
    pub free: Decimal,
    pub locked: Decimal,
}

/// Funds locked for one open order.
#[derive(Debug)]
struct Reservation {
    side: Side,
    user_id: u64,
    base_asset: String,
    quote_asset: String,
    limit_price: Decimal,
    remaining: Decimal,
    internal_id: String,
}

/// A reservation as a mathematical value.
pub struct ReservationModel {
    pub side: Side,
    pub user_id: u64,
    pub base_asset: Seq<char>,
    pub quote_asset: Seq<char>,
    pub limit_price: Decimal,
    pub remaining: Decimal,
    pub internal_id: Seq<char>,
}

impl View for Reservation {
    type V = ReservationModel;

    closed spec fn view(&self) -> ReservationModel {
        ReservationModel {
            side: self.side,
            user_id: self.user_id,
            base_asset: self.base_asset@,
            quote_asset: self.quote_asset@,
            limit_price: self.limit_price,
            remaining: self.remaining,
            internal_id: self.internal_id@,
        }
    }
}

impl Clone for Reservation {
    fn clone(&self) -> (r: Reservation)
        ensures
            r@ == self@,
    {
        Reservation {
            side: self.side,
            user_id: self.user_id,
            base_asset: self.base_asset.clone(),
            quote_asset: self.quote_asset.clone(),
            limit_price: self.limit_price,
            remaining: self.remaining,
            internal_id: self.internal_id.clone(),
        }
    }
}

/// Why the ledger refused an operation.
#[derive(Debug, PartialEq, Eq)]
pub enum LedgerError {
    /// Not enough free (or locked) balance for the operation.
    InsufficientFreeBalance { user_id: u64, asset: String, required: Decimal, available: Decimal },
    /// No reservation for this order id.
    ReservationNotFound(u64),
    /// A fill larger than what the reservation still holds.
    ReservationUnderflow { order_id: u64, remaining: Decimal, fill: Decimal },
    /// A balance row with a non-positive user id.
    InvalidUserId,
}

/// A ledger error as a mathematical value.
pub enum LedgerFault {
    InsufficientFreeBalance { user_id: u64, asset: Seq<char>, required: Decimal, available: Decimal },
    ReservationNotFound(u64),
    ReservationUnderflow { order_id: u64, remaining: Decimal, fill: Decimal },
    InvalidUserId,
}

impl View for LedgerError {
    type V = LedgerFault;

    open spec fn view(&self) -> LedgerFault {
        match self {
            LedgerError::InsufficientFreeBalance { user_id, asset, required, available } =>
                LedgerFault::InsufficientFreeBalance {
                user_id: *user_id,
                asset: asset@,
                required: *required,
                available: *available,
            },
            LedgerError::ReservationNotFound(id) => LedgerFault::ReservationNotFound(*id),
            LedgerError::ReservationUnderflow { order_id, remaining, fill } =>
                LedgerFault::ReservationUnderflow { order_id: *order_id, remaining: *remaining, fill: *fill },
            LedgerError::InvalidUserId => LedgerFault::InvalidUserId,
        }
    }
}

/// The stored balance of one (user, asset) pair.
#[derive(Debug)]
struct BalanceEntry {
    user_id: u64,
    asset: String,
    state: BalanceState,
}

/// Balances by (user, asset).
pub type Balances = Map<(u64, Seq<char>), BalanceState>;

/// The ledger as a mathematical value.
pub struct LedgerModel {
    pub balances: Balances,
    pub reservations: Map<u64, ReservationModel>,
    pub nonce: u64,
}

/// In-memory ledger of balances and order reservations.
#[derive(Debug)]
pub struct InMemoryLedger {
    balances: Vec<BalanceEntry>,
    reservations: HashMap<u64, Reservation>,
    nonce: u64,
}

// ───────────────────────── balances as a map ─────────────────────────

spec fn has_key(s: Seq<BalanceEntry>, k: (u64, Seq<char>)) -> bool {
    exists|i: int| 0 <= i < s.len() && (#[trigger] s[i].user_id, s[i].asset@) == k
}

spec fn key_index(s: Seq<BalanceEntry>, k: (u64, Seq<char>)) -> int {
    choose|i: int| 0 <= i < s.len() && (#[trigger] s[i].user_id, s[i].asset@) == k
}

spec fn keys_unique(s: Seq<BalanceEntry>) -> bool {
    forall|i: int, j: int|
        0 <= i < s.len() && 0 <= j < s.len() && (#[trigger] s[i].user_id, s[i].asset@) == (
        #[trigger] s[j].user_id, s[j].asset@) ==> i == j
}

spec fn entries_view(s: Seq<BalanceEntry>) -> Balances {
    Map::new(|k: (u64, Seq<char>)| has_key(s, k), |k: (u64, Seq<char>)| s[key_index(s, k)].state)
}

proof fn lemma_key_index(s: Seq<BalanceEntry>, i: int)
    requires
        keys_unique(s),
        0 <= i < s.len(),
    ensures
        has_key(s, (s[i].user_id, s[i].asset@)),
        key_index(s, (s[i].user_id, s[i].asset@)) == i,
{
    assert(has_key(s, (s[i].user_id, s[i].asset@)));
}

proof fn lemma_entries_update(s: Seq<BalanceEntry>, i: int, e: BalanceEntry)
    requires
        keys_unique(s),
        0 <= i < s.len(),
        e.user_id == s[i].user_id,
        e.asset@ == s[i].asset@,
    ensures
        keys_unique(s.update(i, e)),
        entries_view(s.update(i, e)) == entries_view(s).insert((e.user_id, e.asset@), e.state),
{
    let s2 = s.update(i, e);
    let k0 = (e.user_id, e.asset@);
    assert forall|a: int, c: int|
        0 <= a < s2.len() && 0 <= c < s2.len() && (#[trigger] s2[a].user_id, s2[a].asset@) == (
        #[trigger] s2[c].user_id, s2[c].asset@) implies a == c by {
        assert((s2[a].user_id, s2[a].asset@) == (s[a].user_id, s[a].asset@));
        assert((s2[c].user_id, s2[c].asset@) == (s[c].user_id, s[c].asset@));
    }
    assert forall|k: (u64, Seq<char>)| has_key(s2, k) == (has_key(s, k) || k == k0) by {
        if has_key(s, k) {
            let j = key_index(s, k);
            assert((s2[j].user_id, s2[j].asset@) == (s[j].user_id, s[j].asset@));
        }
        if has_key(s2, k) {
            let j = key_index(s2, k);
            assert((s2[j].user_id, s2[j].asset@) == (s[j].user_id, s[j].asset@));
        }
        if k == k0 {
            assert((s2[i].user_id, s2[i].asset@) == k);
        }
    }
    assert forall|k: (u64, Seq<char>)| #[trigger] entries_view(s2).contains_key(k) implies entries_view(s2)[k]
        == entries_view(s).insert(k0, e.state)[k] by {
        let j = key_index(s2, k);
        lemma_key_index(s2, j);
        if k == k0 {
            lemma_key_index(s2, i);
        } else {
            assert((s2[j].user_id, s2[j].asset@) == (s[j].user_id, s[j].asset@));
            lemma_key_index(s, j);
        }
    }
    assert(entries_view(s2) =~= entries_view(s).insert(k0, e.state));
}

proof fn lemma_entries_push(s: Seq<BalanceEntry>, e: BalanceEntry)
    requires
        keys_unique(s),
        !has_key(s, (e.user_id, e.asset@)),
    ensures
        keys_unique(s.push(e)),
        entries_view(s.push(e)) == entries_view(s).insert((e.user_id, e.asset@), e.state),
{
    let s2 = s.push(e);
    let n = s.len() as int;
    let k0 = (e.user_id, e.asset@);
    assert forall|a: int, c: int|
        0 <= a < s2.len() && 0 <= c < s2.len() && (#[trigger] s2[a].user_id, s2[a].asset@) == (
        #[trigger] s2[c].user_id, s2[c].asset@) implies a == c by {
        if a < n {
            assert(s2[a] == s[a]);
        }
        if c < n {
            assert(s2[c] == s[c]);
        }
    }
    assert forall|k: (u64, Seq<char>)| has_key(s2, k) == (has_key(s, k) || k == k0) by {
        if has_key(s, k) {
            let j = key_index(s, k);
            assert(s2[j] == s[j]);
        }
        if has_key(s2, k) {
            let j = key_index(s2, k);
            if j < n {
                assert(s2[j] == s[j]);
            }
        }
        if k == k0 {
            assert((s2[n].user_id, s2[n].asset@) == k);
        }
    }
    assert forall|k: (u64, Seq<char>)| #[trigger] entries_view(s2).contains_key(k) implies entries_view(s2)[k]
        == entries_view(s).insert(k0, e.state)[k] by {
        let j = key_index(s2, k);
        lemma_key_index(s2, j);
        if k == k0 {
            lemma_key_index(s2, n);
        } else {
            assert(j < n);
            assert(s2[j] == s[j]);
            lemma_key_index(s, j);
        }
    }
    assert(entries_view(s2) =~= entries_view(s).insert(k0, e.state));
}

// ───────────────────────── what each step does ─────────────────────────

/// Zero free and zero locked, as a new balance row starts.
pub open spec fn zero_state() -> BalanceState {
    BalanceState { free: Decimal { mantissa: 0, scale: 0 }, locked: Decimal { mantissa: 0, scale: 0 } }
}

/// The balance of (user, asset); zero when there is no row.
pub open spec fn bal(m: Balances, u: u64, a: Seq<char>) -> BalanceState {
    if m.contains_key((u, a)) {
        m[(u, a)]
    } else {
        zero_state()
    }
}

/// The balances with a row for (user, asset), created at zero if missing.
pub open spec fn touch(m: Balances, u: u64, a: Seq<char>) -> Balances {
    m.insert((u, a), bal(m, u, a))
}

/// `a + b` as `rust_decimal` computes it.
pub open spec fn add_r(a: Decimal, b: Decimal) -> Decimal {
    match decimal_sum(a, b) {
        Some(x) => x,
        None => a,
    }
}

/// `a - b` as `rust_decimal` computes it.
pub open spec fn sub_r(a: Decimal, b: Decimal) -> Decimal {
    match decimal_difference(a, b) {
        Some(x) => x,
        None => a,
    }
}

/// `a * b` as `rust_decimal` computes it.
pub open spec fn mul_r(a: Decimal, b: Decimal) -> Decimal {
    match decimal_product(a, b) {
        Some(x) => x,
        None => a,
    }
}

/// The fault for an operation that needs `required` where `available` is.
pub open spec fn insufficient(u: u64, a: Seq<char>, required: Decimal, available: Decimal) -> LedgerFault {
    LedgerFault::InsufficientFreeBalance { user_id: u, asset: a, required, available }
}

/// Adding `amt` to the free balance.
pub open spec fn increase_free_spec(m: Balances, u: u64, a: Seq<char>, amt: Decimal) -> Balances {
    m.insert((u, a), BalanceState { free: add_r(bal(m, u, a).free, amt), locked: bal(m, u, a).locked })
}

/// Adding `amt` to the free balance does not overflow.
pub open spec fn increase_free_ok(m: Balances, u: u64, a: Seq<char>, amt: Decimal) -> bool {
    decimal_sum(bal(m, u, a).free, amt) is Some
}

/// Taking `amt` off the locked balance, refused when less is locked; the
/// row exists afterwards either way.
pub open spec fn decrease_locked_spec(m: Balances, u: u64, a: Seq<char>, amt: Decimal) -> (Balances, Option<LedgerFault>) {
    let b = bal(m, u, a);
    if b.locked.value() < amt.value() {
        (touch(m, u, a), Some(insufficient(u, a, amt, b.locked)))
    } else {
        (m.insert((u, a), BalanceState { free: b.free, locked: sub_r(b.locked, amt) }), None)
    }
}

/// Taking `amt` off the locked balance does not overflow.
pub open spec fn decrease_locked_ok(m: Balances, u: u64, a: Seq<char>, amt: Decimal) -> bool {
    bal(m, u, a).locked.value() >= amt.value() ==> decimal_difference(bal(m, u, a).locked, amt) is Some
}

/// Moving `amt` from free to locked, refused when less is free; the row
/// exists afterwards either way.
pub open spec fn move_free_to_locked_spec(m: Balances, u: u64, a: Seq<char>, amt: Decimal) -> (Balances, Option<LedgerFault>) {
    let b = bal(m, u, a);
    if b.free.value() < amt.value() {
        (touch(m, u, a), Some(insufficient(u, a, amt, b.free)))
    } else {
        (m.insert((u, a), BalanceState { free: sub_r(b.free, amt), locked: add_r(b.locked, amt) }), None)
    }
}

/// Moving `amt` from free to locked does not overflow.
pub open spec fn move_free_to_locked_ok(m: Balances, u: u64, a: Seq<char>, amt: Decimal) -> bool {
    bal(m, u, a).free.value() >= amt.value() ==> decimal_difference(bal(m, u, a).free, amt) is Some
        && decimal_sum(bal(m, u, a).locked, amt) is Some
}

/// Taking `amt` off the free balance, refused when less is free; the row
/// exists afterwards either way.
pub open spec fn decrease_free_spec(m: Balances, u: u64, a: Seq<char>, amt: Decimal) -> (Balances, Option<LedgerFault>) {
    let b = bal(m, u, a);
    if b.free.value() < amt.value() {
        (touch(m, u, a), Some(insufficient(u, a, amt, b.free)))
    } else {
        (m.insert((u, a), BalanceState { free: sub_r(b.free, amt), locked: b.locked }), None)
    }
}

/// Taking `amt` off the free balance does not overflow.
pub open spec fn decrease_free_ok(m: Balances, u: u64, a: Seq<char>, amt: Decimal) -> bool {
    bal(m, u, a).free.value() >= amt.value() ==> decimal_difference(bal(m, u, a).free, amt) is Some
}

/// Moving `amt` of free balance from asset `from` to asset `to` of one
/// user: the withdrawal from `from`, then, if it was not refused, the
/// deposit to `to`.
pub open spec fn transfer_spec(m: Balances, u: u64, from: Seq<char>, to: Seq<char>, amt: Decimal) -> (
    Balances,
    Option<LedgerFault>,
) {
    let (m1, f) = decrease_free_spec(m, u, from, amt);
    if f is Some {
        (m1, f)
    } else {
        (increase_free_spec(m1, u, to, amt), None)
    }
}

/// The transfer's arithmetic does not overflow.
pub open spec fn transfer_ok(m: Balances, u: u64, from: Seq<char>, to: Seq<char>, amt: Decimal) -> bool {
    &&& decrease_free_ok(m, u, from, amt)
    &&& decrease_free_spec(m, u, from, amt).1 is None ==> increase_free_ok(
        decrease_free_spec(m, u, from, amt).0,
        u,
        to,
        amt,
    )
}

/// Moving `amt` from locked back to free.
pub open spec fn move_locked_to_free_spec(m: Balances, u: u64, a: Seq<char>, amt: Decimal) -> (Balances, Option<LedgerFault>) {
    let (m1, f) = decrease_locked_spec(m, u, a, amt);
    if f is Some {
        (m1, f)
    } else {
        (increase_free_spec(m1, u, a, amt), None)
    }
}

/// Moving `amt` from locked back to free does not overflow.
pub open spec fn move_locked_to_free_ok(m: Balances, u: u64, a: Seq<char>, amt: Decimal) -> bool {
    &&& decrease_locked_ok(m, u, a, amt)
    &&& decrease_locked_spec(m, u, a, amt).1 is None ==> increase_free_ok(
        decrease_locked_spec(m, u, a, amt).0,
        u,
        a,
        amt,
    )
}


// ───────────────────────── reservations ─────────────────────────

/// The reservations as mathematical values.
spec fn res_view(m: Map<u64, Reservation>) -> Map<u64, ReservationModel> {
    Map::new(|k: u64| m.contains_key(k), |k: u64| m[k]@)
}

proof fn lemma_res_view_insert(m: Map<u64, Reservation>, k: u64, r: Reservation)
    ensures
        res_view(m.insert(k, r)) == res_view(m).insert(k, r@),
{
    assert(res_view(m.insert(k, r)) =~= res_view(m).insert(k, r@));
}

proof fn lemma_res_view_remove(m: Map<u64, Reservation>, k: u64)
    ensures
        res_view(m.remove(k)) == res_view(m).remove(k),
{
    assert(res_view(m.remove(k)) =~= res_view(m).remove(k));
}

/// The 64 lowercase hex digits of the BLAKE3 hash of `data`.
pub uninterp spec fn blake3_hex(data: Seq<u8>) -> Seq<char>;

/// `blake3::Hasher`: hashes `a` then `b` and returns the digest in hex.
///
/// Claims that the digest is the BLAKE3 hash of the concatenation (the
/// hasher is incremental: updates in turn hash their concatenation).
#[verifier::external_body]
fn blake3_hex_of(a: &[u8], b: &[u8]) -> (r: String)
    ensures
        r@ == blake3_hex(a@ + b@),
{
    let mut hasher = blake3::Hasher::new();
    hasher.update(a);
    hasher.update(b);
    hasher.finalize().to_hex().to_string()
}

/// The nonce after one more id: `wrapping_add(1)`.
pub open spec fn next_nonce(n: u64) -> u64 {
    if n == u64::MAX {
        0
    } else {
        (n + 1) as u64
    }
}

/// The internal id of a reservation made with this seed and nonce.
pub open spec fn internal_id_spec(seed: u64, nonce: u64) -> Seq<char> {
    blake3_hex(ascii_bytes(digits_spec(seed as nat)) + ascii_bytes(digits_spec(nonce as nat)))
}

/// The asset and amount that an order locks: `price * amount` of the quote
/// asset for a buy, `amount` of the base asset for a sell.
pub open spec fn lock_of(o: Order, base: Seq<char>, quote: Seq<char>) -> (Seq<char>, Decimal) {
    match o.side {
        Side::Buy => (quote, mul_r(o.price, o.amount)),
        Side::Sell => (base, o.amount),
    }
}

/// Reserving for `o` does not overflow.
pub open spec fn reserve_ok(l: LedgerModel, o: Order, base: Seq<char>, quote: Seq<char>) -> bool {
    &&& o.side == Side::Buy ==> decimal_product(o.price, o.amount) is Some
    &&& move_free_to_locked_ok(l.balances, o.user_id, lock_of(o, base, quote).0, lock_of(o, base, quote).1)
}

/// The reservation made for `o`.
pub open spec fn reservation_for(o: Order, base: Seq<char>, quote: Seq<char>, nonce: u64) -> ReservationModel {
    ReservationModel {
        side: o.side,
        user_id: o.user_id,
        base_asset: base,
        quote_asset: quote,
        limit_price: o.price,
        remaining: o.amount,
        internal_id: internal_id_spec(o.id, next_nonce(nonce)),
    }
}

/// What `reserve_for_new_order` does: lock the funds, then record the
/// reservation under the order's id.
pub open spec fn reserve_spec(l: LedgerModel, o: Order, base: Seq<char>, quote: Seq<char>) -> (LedgerModel, Option<LedgerFault>) {
    let (asset, amt) = lock_of(o, base, quote);
    let (m, f) = move_free_to_locked_spec(l.balances, o.user_id, asset, amt);
    if f is Some {
        (LedgerModel { balances: m, reservations: l.reservations, nonce: l.nonce }, f)
    } else {
        (
            LedgerModel {
                balances: m,
                reservations: l.reservations.insert(o.id, reservation_for(o, base, quote, l.nonce)),
                nonce: next_nonce(l.nonce),
            },
            None,
        )
    }
}

/// The asset and amount that a reservation still holds locked.
pub open spec fn release_of(r: ReservationModel) -> (Seq<char>, Decimal) {
    match r.side {
        Side::Buy => (r.quote_asset, mul_r(r.remaining, r.limit_price)),
        Side::Sell => (r.base_asset, r.remaining),
    }
}

/// Cancelling the reservation of `id` does not overflow.
pub open spec fn cancel_ok(l: LedgerModel, id: u64) -> bool {
    l.reservations.contains_key(id) ==> {
        let r = l.reservations[id];
        &&& r.side == Side::Buy ==> decimal_product(r.remaining, r.limit_price) is Some
        &&& move_locked_to_free_ok(l.balances, r.user_id, release_of(r).0, release_of(r).1)
    }
}

/// What `cancel_reservation` does: drop the reservation, then release what
/// it held.
pub open spec fn cancel_spec(l: LedgerModel, id: u64) -> (LedgerModel, Option<LedgerFault>) {
    if !l.reservations.contains_key(id) {
        (l, Some(LedgerFault::ReservationNotFound(id)))
    } else {
        let r = l.reservations[id];
        let (m, f) = move_locked_to_free_spec(l.balances, r.user_id, release_of(r).0, release_of(r).1);
        (LedgerModel { balances: m, reservations: l.reservations.remove(id), nonce: l.nonce }, f)
    }
}

/// The balance changes of a fill of `fill` at `price` for reservation `r`:
/// a buyer's locked quote goes down by `limit * fill`, the price
/// improvement `(limit - price) * fill` returns to free when positive, and
/// the base asset arrives; a seller's locked base goes down by `fill` and
/// the proceeds `price * fill` arrive.
pub open spec fn fill_balances(m: Balances, r: ReservationModel, fill: Decimal, price: Decimal) -> (Balances, Option<LedgerFault>) {
    let u = r.user_id;
    match r.side {
        Side::Buy => {
            let max_quote = mul_r(r.limit_price, fill);
            let refund = sub_r(max_quote, mul_r(price, fill));
            let (m1, f) = decrease_locked_spec(m, u, r.quote_asset, max_quote);
            if f is Some {
                (m1, f)
            } else {
                let m2 = if refund.value() > 0 {
                    increase_free_spec(m1, u, r.quote_asset, refund)
                } else {
                    m1
                };
                (increase_free_spec(m2, u, r.base_asset, fill), None)
            }
        },
        Side::Sell => {
            let (m1, f) = decrease_locked_spec(m, u, r.base_asset, fill);
            if f is Some {
                (m1, f)
            } else {
                (increase_free_spec(m1, u, r.quote_asset, mul_r(price, fill)), None)
            }
        },
    }
}

/// The fill's arithmetic does not overflow.
pub open spec fn fill_balances_ok(m: Balances, r: ReservationModel, fill: Decimal, price: Decimal) -> bool {
    let u = r.user_id;
    match r.side {
        Side::Buy => {
            let max_quote = mul_r(r.limit_price, fill);
            let refund = sub_r(max_quote, mul_r(price, fill));
            let (m1, f) = decrease_locked_spec(m, u, r.quote_asset, max_quote);
            let m2 = if refund.value() > 0 {
                increase_free_spec(m1, u, r.quote_asset, refund)
            } else {
                m1
            };
            &&& decimal_product(r.limit_price, fill) is Some
            &&& decimal_product(price, fill) is Some
            &&& decimal_difference(max_quote, mul_r(price, fill)) is Some
            &&& decrease_locked_ok(m, u, r.quote_asset, max_quote)
            &&& f is None && refund.value() > 0 ==> increase_free_ok(m1, u, r.quote_asset, refund)
            &&& f is None ==> increase_free_ok(m2, u, r.base_asset, fill)
        },
        Side::Sell => {
            let (m1, f) = decrease_locked_spec(m, u, r.base_asset, fill);
            &&& decimal_product(price, fill) is Some
            &&& decrease_locked_ok(m, u, r.base_asset, fill)
            &&& f is None ==> increase_free_ok(m1, u, r.quote_asset, mul_r(price, fill))
        },
    }
}

/// What a fill of `fill` at `price` does to the order `id`'s reservation
/// and to the balances: refused when there is no reservation or the fill
/// exceeds what remains; otherwise the balances move as `fill_balances`
/// says and, when that succeeds, the remaining quantity goes down by the
/// fill and the reservation goes when nothing remains.
pub open spec fn fill_order_spec(l: LedgerModel, id: u64, fill: Decimal, price: Decimal) -> (LedgerModel, Option<LedgerFault>) {
    if !l.reservations.contains_key(id) {
        (l, Some(LedgerFault::ReservationNotFound(id)))
    } else {
        let r = l.reservations[id];
        if fill.value() > r.remaining.value() {
            (l, Some(LedgerFault::ReservationUnderflow { order_id: id, remaining: r.remaining, fill }))
        } else {
            let (m, f) = fill_balances(l.balances, r, fill, price);
            if f is Some {
                (LedgerModel { balances: m, reservations: l.reservations, nonce: l.nonce }, f)
            } else {
                let left = sub_r(r.remaining, fill);
                let res = if left.value() == 0 {
                    l.reservations.remove(id)
                } else {
                    l.reservations.insert(id, ReservationModel { remaining: left, ..r })
                };
                (LedgerModel { balances: m, reservations: res, nonce: l.nonce }, None)
            }
        }
    }
}

/// A fill does not overflow.
pub open spec fn fill_order_ok(l: LedgerModel, id: u64, fill: Decimal, price: Decimal) -> bool {
    l.reservations.contains_key(id) && fill.value() <= l.reservations[id].remaining.value() ==> {
        let r = l.reservations[id];
        &&& fill_balances_ok(l.balances, r, fill, price)
        &&& fill_balances(l.balances, r, fill, price).1 is None ==> decimal_difference(r.remaining, fill) is Some
    }
}

/// What `apply_trade_fill` does: the maker's fill, then the taker's.
pub open spec fn trade_fill_spec(l: LedgerModel, t: Trade) -> (LedgerModel, Option<LedgerFault>) {
    let (l1, f) = fill_order_spec(l, t.maker_order_id, t.amount, t.price);
    if f is Some {
        (l1, f)
    } else {
        fill_order_spec(l1, t.taker_order_id, t.amount, t.price)
    }
}

/// Settling a trade does not overflow.
pub open spec fn trade_fill_ok(l: LedgerModel, t: Trade) -> bool {
    &&& fill_order_ok(l, t.maker_order_id, t.amount, t.price)
    &&& fill_order_spec(l, t.maker_order_id, t.amount, t.price).1 is None ==> fill_order_ok(
        fill_order_spec(l, t.maker_order_id, t.amount, t.price).0,
        t.taker_order_id,
        t.amount,
        t.price,
    )
}

/// The balances that a list of rows gives, later rows of the same (user,
/// asset) winning.
pub open spec fn rows_map(rows: Seq<(i64, String, Decimal, Decimal)>) -> Balances
    decreases rows.len(),
{
    if rows.len() == 0 {
        Map::empty()
    } else {
        let r = rows.last();
        rows_map(rows.drop_last()).insert((r.0 as u64, r.1@), BalanceState { free: r.2, locked: r.3 })
    }
}

/// Some row has a non-positive user id.
pub open spec fn has_invalid_user(rows: Seq<(i64, String, Decimal, Decimal)>) -> bool {
    exists|i: int| 0 <= i < rows.len() && (#[trigger] rows[i]).0 <= 0
}

/// `out` lists exactly the balances of `user` in `m`, by asset in strictly
/// increasing order.
pub open spec fn lists_balances_of(out: Seq<UserBalanceSnapshot>, m: Balances, user: u64) -> bool {
    &&& forall|i: int|
        0 <= i < out.len() ==> m.contains_key((user, (#[trigger] out[i]).asset@)) && m[(user, out[i].asset@)]
            == (BalanceState { free: out[i].free, locked: out[i].locked })
    &&& forall|a: Seq<char>| #[trigger] m.contains_key((user, a)) ==> exists|i: int| 0 <= i < out.len() && (#[trigger] out[i]).asset@ == a
    &&& forall|i: int, j: int| 0 <= i < j < out.len() ==> lex_lt((#[trigger] out[i]).asset@, (#[trigger] out[j]).asset@)
}

/// Row `j` is a row of `user` whose asset and balance `s` reports.
spec fn from_row(rows: Seq<BalanceEntry>, j: int, user: u64, s: UserBalanceSnapshot) -> bool {
    0 <= j < rows.len() && rows[j].user_id == user && rows[j].asset@ == s.asset@ && rows[j].state == (
    BalanceState { free: s.free, locked: s.locked })
}

/// Every row of `user` among the first `i` rows has a snapshot.
spec fn complete(out: Seq<UserBalanceSnapshot>, rows: Seq<BalanceEntry>, i: int, user: u64) -> bool {
    forall|j: int|
        0 <= j < i && #[trigger] rows[j].user_id == user ==> exists|k: int|
            0 <= k < out.len() && (#[trigger] out[k]).asset@ == rows[j].asset@
}

/// Strictly increasing by asset name.
pub open spec fn sorted_assets(out: Seq<UserBalanceSnapshot>) -> bool {
    forall|a: int, b: int| 0 <= a < b < out.len() ==> lex_lt((#[trigger] out[a]).asset@, (#[trigger] out[b]).asset@)
}

/// Snapshot `k` comes from row `idx[k]`, one of the first `i` rows.
spec fn drawn_from(out: Seq<UserBalanceSnapshot>, idx: Seq<int>, rows: Seq<BalanceEntry>, i: int, user: u64) -> bool {
    &&& idx.len() == out.len()
    &&& forall|k: int| 0 <= k < out.len() ==> 0 <= #[trigger] idx[k] < i && from_row(rows, idx[k], user, out[k])
}

/// The asset of row `i` is not among the snapshots taken so far.
proof fn lemma_new_asset(out: Seq<UserBalanceSnapshot>, idx: Seq<int>, rows: Seq<BalanceEntry>, i: int, user: u64)
    requires
        keys_unique(rows),
        0 <= i < rows.len(),
        rows[i].user_id == user,
        drawn_from(out, idx, rows, i, user),
    ensures
        forall|k: int| 0 <= k < out.len() ==> (#[trigger] out[k]).asset@ != rows[i].asset@,
{
    assert forall|k: int| 0 <= k < out.len() implies (#[trigger] out[k]).asset@ != rows[i].asset@ by {
        let j = idx[k];
        assert(from_row(rows, j, user, out[k]));
        if out[k].asset@ == rows[i].asset@ {
            assert((rows[j].user_id, rows[j].asset@) == (rows[i].user_id, rows[i].asset@));
        }
    }
}

/// A row of another user leaves the snapshots as they are.
proof fn lemma_skip_keeps(out: Seq<UserBalanceSnapshot>, idx: Seq<int>, rows: Seq<BalanceEntry>, i: int, user: u64)
    requires
        0 <= i < rows.len(),
        rows[i].user_id != user,
        drawn_from(out, idx, rows, i, user),
        complete(out, rows, i, user),
    ensures
        drawn_from(out, idx, rows, i + 1, user),
        complete(out, rows, i + 1, user),
{
}

/// Inserting the snapshot of row `i` keeps the snapshots complete.
proof fn lemma_insert_complete(
    out: Seq<UserBalanceSnapshot>,
    rows: Seq<BalanceEntry>,
    i: int,
    user: u64,
    snap: UserBalanceSnapshot,
    p: int,
)
    requires
        0 <= i < rows.len(),
        snap.asset@ == rows[i].asset@,
        complete(out, rows, i, user),
        0 <= p <= out.len(),
    ensures
        complete(out.insert(p, snap), rows, i + 1, user),
{
    let o2 = out.insert(p, snap);
    assert forall|j: int|
        0 <= j < i + 1 && #[trigger] rows[j].user_id == user implies exists|k: int|
            0 <= k < o2.len() && (#[trigger] o2[k]).asset@ == rows[j].asset@ by {
        if j == i {
            assert(o2[p] == snap);
            assert(0 <= p < o2.len() && o2[p].asset@ == rows[j].asset@);
        } else {
            let k = choose|k: int| 0 <= k < out.len() && (#[trigger] out[k]).asset@ == rows[j].asset@;
            if k < p {
                assert(o2[k] == out[k]);
                assert(0 <= k < o2.len() && o2[k].asset@ == rows[j].asset@);
            } else {
                assert(o2[k + 1] == out[k]);
                assert(0 <= k + 1 < o2.len() && o2[k + 1].asset@ == rows[j].asset@);
            }
        }
    }
}

/// Inserts `snap` in its place by asset name; returns where.
fn insert_sorted(out: &mut Vec<UserBalanceSnapshot>, snap: UserBalanceSnapshot) -> (p: usize)
    requires
        sorted_assets(old(out)@),
        forall|k: int| 0 <= k < old(out)@.len() ==> (#[trigger] old(out)@[k]).asset@ != snap.asset@,
    ensures
        p <= old(out)@.len(),
        final(out)@ == old(out)@.insert(p as int, snap),
        sorted_assets(final(out)@),
{
    let ghost x = snap.asset@;
    let mut p: usize = 0;
    while p < out.len()
        invariant
            p <= out@.len(),
            snap.asset@ == x,
            forall|k: int| 0 <= k < out@.len() ==> (#[trigger] out@[k]).asset@ != x,
            forall|k: int| 0 <= k < p ==> lex_lt((#[trigger] out@[k]).asset@, x),
        ensures
            p <= out@.len(),
            forall|k: int| 0 <= k < p ==> lex_lt((#[trigger] out@[k]).asset@, x),
            p < out@.len() ==> lex_lt(x, out@[p as int].asset@),
        decreases out@.len() - p,
    {
        if text_lt(snap.asset.as_str(), out[p].asset.as_str()) {
            break;
        }
        proof {
            lemma_lex_total(x, out@[p as int].asset@);
        }
        p = p + 1;
    }
    let ghost before = out@;
    out.insert(p, snap);
    proof {
        assert forall|a: int, b: int| 0 <= a < b < out@.len() implies lex_lt(
            (#[trigger] out@[a]).asset@,
            (#[trigger] out@[b]).asset@,
        ) by {
            if b < p {
                assert(out@[a] == before[a] && out@[b] == before[b]);
            } else if b == p {
                assert(out@[a] == before[a]);
            } else if a < p {
                assert(out@[a] == before[a] && out@[b] == before[b - 1]);
            } else if a == p {
                assert(out@[b] == before[b - 1]);
                if b - 1 > p {
                    lemma_lex_transitive(x, before[p as int].asset@, before[b - 1].asset@);
                }
            } else {
                assert(out@[a] == before[a - 1] && out@[b] == before[b - 1]);
            }
        }
    }
    p
}

impl InMemoryLedger {
    /// The ledger's balances, reservations and nonce.
    pub closed spec fn view(&self) -> LedgerModel {
        LedgerModel {
            balances: entries_view(self.balances@),
            reservations: res_view(self.reservations@),
            nonce: self.nonce,
        }
    }

    /// Each (user, asset) has at most one row; every stored amount is
    /// representable.
    pub closed spec fn wf(&self) -> bool {
        &&& keys_unique(self.balances@)
        &&& forall|i: int| 0 <= i < self.balances@.len() ==> (#[trigger] self.balances@[i]).state.free.wf()
            && self.balances@[i].state.locked.wf()
        &&& forall|k: u64| #[trigger] self.reservations@.contains_key(k) ==> self.reservations@[k].limit_price.wf()
            && self.reservations@[k].remaining.wf()
    }

    pub fn new() -> (r: InMemoryLedger)
        ensures
            r.wf(),
            r@.balances == Map::<(u64, Seq<char>), BalanceState>::empty(),
            r@.reservations == Map::<u64, ReservationModel>::empty(),
            r@.nonce == 0,
    {
        let r = InMemoryLedger { balances: Vec::new(), reservations: HashMap::new(), nonce: 0 };
        assert(r@.balances =~= Map::<(u64, Seq<char>), BalanceState>::empty());
        assert(r@.reservations =~= Map::<u64, ReservationModel>::empty());
        r
    }

    /// The row of (user, asset), if there is one.
    fn find(&self, user_id: u64, key: &String) -> (r: Option<usize>)
        requires
            self.wf(),
        ensures
            r is Some <==> self@.balances.contains_key((user_id, key@)),
            r is Some ==> r->0 < self.balances@.len() && self.balances@[r->0 as int].user_id == user_id
                && self.balances@[r->0 as int].asset@ == key@ && self@.balances[(user_id, key@)]
                == self.balances@[r->0 as int].state,
    {
        let mut i: usize = 0;
        while i < self.balances.len()
            invariant
                i <= self.balances@.len(),
                self.wf(),
                forall|j: int| 0 <= j < i ==> (#[trigger] self.balances@[j].user_id, self.balances@[j].asset@) != (
                user_id, key@),
            decreases self.balances@.len() - i,
        {
            if self.balances[i].user_id == user_id && self.balances[i].asset == *key {
                proof {
                    lemma_key_index(self.balances@, i as int);
                }
                return Some(i);
            }
            i = i + 1;
        }
        None
    }

    /// The row of (user, asset), created at zero when missing.
    fn entry_index(&mut self, user_id: u64, asset: &str) -> (r: usize)
        requires
            old(self).wf(),
        ensures
            final(self).wf(),
            final(self)@.balances == touch(old(self)@.balances, user_id, asset@),
            final(self)@.reservations == old(self)@.reservations,
            final(self)@.nonce == old(self)@.nonce,
            r < final(self).balances@.len(),
            final(self).balances@[r as int].user_id == user_id,
            final(self).balances@[r as int].asset@ == asset@,
            final(self).balances@[r as int].state == bal(old(self)@.balances, user_id, asset@),
    {
        let key = String::from_str(asset);
        match self.find(user_id, &key) {
            Some(i) => {
                proof {
                    assert(touch(old(self)@.balances, user_id, asset@) =~= old(self)@.balances);
                }
                i
            },
            None => {
                let zero = Decimal::zero();
                let e = BalanceEntry { user_id, asset: key, state: BalanceState { free: zero, locked: zero } };
                proof {
                    assert(!has_key(self.balances@, (user_id, asset@)));
                    lemma_entries_push(self.balances@, e);
                }
                self.balances.push(e);
                proof {
                    assert(e.state == zero_state());
                    assert(self@.reservations =~= old(self)@.reservations);
                }
                self.balances.len() - 1
            },
        }
    }

    /// Stores `state` in row `i`.
    fn set_state(&mut self, i: usize, state: BalanceState)
        requires
            old(self).wf(),
            i < old(self).balances@.len(),
            state.free.wf(),
            state.locked.wf(),
        ensures
            final(self).wf(),
            final(self)@.balances == old(self)@.balances.insert(
                (old(self).balances@[i as int].user_id, old(self).balances@[i as int].asset@),
                state,
            ),
            final(self)@.reservations == old(self)@.reservations,
            final(self)@.nonce == old(self)@.nonce,
            final(self).balances@.len() == old(self).balances@.len(),
            forall|j: int|
                0 <= j < final(self).balances@.len() ==> (#[trigger] final(self).balances@[j]).user_id == old(
                    self,
                ).balances@[j].user_id && final(self).balances@[j].asset@ == old(self).balances@[j].asset@,
    {
        let mut e = self.balances.remove(i);
        e.state = state;
        self.balances.insert(i, e);
        proof {
            assert(self.balances@ =~= old(self).balances@.update(i as int, e));
            lemma_entries_update(old(self).balances@, i as int, e);
            assert(self@.reservations =~= old(self)@.reservations);
            assert forall|j: int| 0 <= j < self.balances@.len() implies (#[trigger] self.balances@[j]).state.free.wf()
                && self.balances@[j].state.locked.wf() by {
                if j != i as int {
                    assert(self.balances@[j] == old(self).balances@[j]);
                }
            }
        }
    }

    fn increase_free(&mut self, user_id: u64, asset: &str, amount: Decimal)
        requires
            old(self).wf(),
            amount.wf(),
            increase_free_ok(old(self)@.balances, user_id, asset@, amount),
        ensures
            final(self).wf(),
            final(self)@.balances == increase_free_spec(old(self)@.balances, user_id, asset@, amount),
            final(self)@.reservations == old(self)@.reservations,
            final(self)@.nonce == old(self)@.nonce,
    {
        let i = self.entry_index(user_id, asset);
        let cur = self.balances[i].state;
        let free = checked_add(&cur.free, &amount).unwrap();
        self.set_state(i, BalanceState { free, locked: cur.locked });
        proof {
            assert(self@.balances =~= increase_free_spec(old(self)@.balances, user_id, asset@, amount));
        }
    }

    fn decrease_locked(&mut self, user_id: u64, asset: &str, amount: Decimal) -> (r: Result<(), LedgerError>)
        requires
            old(self).wf(),
            amount.wf(),
            decrease_locked_ok(old(self)@.balances, user_id, asset@, amount),
        ensures
            final(self).wf(),
            final(self)@.balances == decrease_locked_spec(old(self)@.balances, user_id, asset@, amount).0,
            r is Ok <==> decrease_locked_spec(old(self)@.balances, user_id, asset@, amount).1 is None,
            r is Err ==> Some(r->Err_0@) == decrease_locked_spec(old(self)@.balances, user_id, asset@, amount).1,
            final(self)@.reservations == old(self)@.reservations,
            final(self)@.nonce == old(self)@.nonce,
    {
        let i = self.entry_index(user_id, asset);
        let cur = self.balances[i].state;
        if compare(&cur.locked, &amount) == Comparison::Less {
            return Err(
                LedgerError::InsufficientFreeBalance {
                    user_id,
                    asset: String::from_str(asset),
                    required: amount,
                    available: cur.locked,
                },
            );
        }
        let locked = checked_sub(&cur.locked, &amount).unwrap();
        self.set_state(i, BalanceState { free: cur.free, locked });
        Ok(())
    }

    fn move_free_to_locked(&mut self, user_id: u64, asset: &str, amount: Decimal) -> (r: Result<(), LedgerError>)
        requires
            old(self).wf(),
            amount.wf(),
            move_free_to_locked_ok(old(self)@.balances, user_id, asset@, amount),
        ensures
            final(self).wf(),
            final(self)@.balances == move_free_to_locked_spec(old(self)@.balances, user_id, asset@, amount).0,
            r is Ok <==> move_free_to_locked_spec(old(self)@.balances, user_id, asset@, amount).1 is None,
            r is Err ==> Some(r->Err_0@) == move_free_to_locked_spec(old(self)@.balances, user_id, asset@, amount).1,
            final(self)@.reservations == old(self)@.reservations,
            final(self)@.nonce == old(self)@.nonce,
    {
        let i = self.entry_index(user_id, asset);
        let cur = self.balances[i].state;
        if compare(&cur.free, &amount) == Comparison::Less {
            return Err(
                LedgerError::InsufficientFreeBalance {
                    user_id,
                    asset: String::from_str(asset),
                    required: amount,
                    available: cur.free,
                },
            );
        }
        let free = checked_sub(&cur.free, &amount).unwrap();
        let locked = checked_add(&cur.locked, &amount).unwrap();
        self.set_state(i, BalanceState { free, locked });
        Ok(())
    }

    fn move_locked_to_free(&mut self, user_id: u64, asset: &str, amount: Decimal) -> (r: Result<(), LedgerError>)
        requires
            old(self).wf(),
            amount.wf(),
            move_locked_to_free_ok(old(self)@.balances, user_id, asset@, amount),
        ensures
            final(self).wf(),
            final(self)@.balances == move_locked_to_free_spec(old(self)@.balances, user_id, asset@, amount).0,
            r is Ok <==> move_locked_to_free_spec(old(self)@.balances, user_id, asset@, amount).1 is None,
            r is Err ==> Some(r->Err_0@) == move_locked_to_free_spec(old(self)@.balances, user_id, asset@, amount).1,
            final(self)@.reservations == old(self)@.reservations,
            final(self)@.nonce == old(self)@.nonce,
    {
        match self.decrease_locked(user_id, asset, amount) {
            Ok(()) => {},
            Err(e) => {
                return Err(e);
            },
        }
        self.increase_free(user_id, asset, amount);
        Ok(())
    }

    /// Credits `amount` to the free balance of (user, asset), creating the
    /// row if needed, and returns the new free balance.
    pub fn deposit(&mut self, user_id: u64, asset: &str, amount: Decimal) -> (r: Result<Decimal, LedgerError>)
        requires
            old(self).wf(),
            amount.wf(),
            increase_free_ok(old(self)@.balances, user_id, asset@, amount),
        ensures
            final(self).wf(),
            final(self)@.balances == increase_free_spec(old(self)@.balances, user_id, asset@, amount),
            final(self)@.reservations == old(self)@.reservations,
            final(self)@.nonce == old(self)@.nonce,
            r == Ok::<Decimal, LedgerError>(final(self)@.balances[(user_id, asset@)].free),
    {
        self.increase_free(user_id, asset, amount);
        let key = String::from_str(asset);
        let i = self.find(user_id, &key).unwrap();
        Ok(self.balances[i].state.free)
    }

    /// Debits `amount` from the free balance of (user, asset) and returns
    /// the new free balance; refused, with the row created at zero if it
    /// was missing and nothing else changed, when less is free.
    pub fn withdraw(&mut self, user_id: u64, asset: &str, amount: Decimal) -> (r: Result<Decimal, LedgerError>)
        requires
            old(self).wf(),
            amount.wf(),
            decrease_free_ok(old(self)@.balances, user_id, asset@, amount),
        ensures
            final(self).wf(),
            final(self)@.balances == decrease_free_spec(old(self)@.balances, user_id, asset@, amount).0,
            final(self)@.reservations == old(self)@.reservations,
            final(self)@.nonce == old(self)@.nonce,
            match decrease_free_spec(old(self)@.balances, user_id, asset@, amount).1 {
                None => r == Ok::<Decimal, LedgerError>(final(self)@.balances[(user_id, asset@)].free),
                Some(f) => r matches Err(e) && e@ == f,
            },
    {
        let i = self.entry_index(user_id, asset);
        let cur = self.balances[i].state;
        if compare(&cur.free, &amount) == Comparison::Less {
            return Err(
                LedgerError::InsufficientFreeBalance {
                    user_id,
                    asset: String::from_str(asset),
                    required: amount,
                    available: cur.free,
                },
            );
        }
        let free = checked_sub(&cur.free, &amount).unwrap();
        self.set_state(i, BalanceState { free, locked: cur.locked });
        proof {
            assert(self@.balances =~= decrease_free_spec(old(self)@.balances, user_id, asset@, amount).0);
        }
        Ok(free)
    }

    /// Whether taking `amount` off the free balance fits.
    fn free_decrease_fits(&self, user_id: u64, asset: &str, amount: Decimal) -> (r: bool)
        requires
            self.wf(),
            amount.wf(),
        ensures
            r == decrease_free_ok(self@.balances, user_id, asset@, amount),
    {
        let b = self.balance_state(user_id, asset);
        if compare(&b.free, &amount) == Comparison::Less {
            true
        } else {
            checked_sub(&b.free, &amount).is_some()
        }
    }

    /// `withdraw`, or `None`, with nothing changed, when the new free
    /// balance does not fit.
    pub fn try_withdraw(&mut self, user_id: u64, asset: &str, amount: Decimal) -> (r: Option<Result<Decimal, LedgerError>>)
        requires
            old(self).wf(),
            amount.wf(),
        ensures
            final(self).wf(),
            r is None <==> !decrease_free_ok(old(self)@.balances, user_id, asset@, amount),
            r is None ==> final(self)@ == old(self)@,
            r is Some ==> final(self)@.balances == decrease_free_spec(old(self)@.balances, user_id, asset@, amount).0
                && final(self)@.reservations == old(self)@.reservations && final(self)@.nonce == old(self)@.nonce,
            r is Some ==> match decrease_free_spec(old(self)@.balances, user_id, asset@, amount).1 {
                None => r->0 == Ok::<Decimal, LedgerError>(final(self)@.balances[(user_id, asset@)].free),
                Some(f) => r->0 matches Err(e) && e@ == f,
            },
    {
        if !self.free_decrease_fits(user_id, asset, amount) {
            return None;
        }
        Some(self.withdraw(user_id, asset, amount))
    }

    /// Moves `amount` of the user's free balance from asset `from` to asset
    /// `to`: the withdrawal first, then the deposit; a refused withdrawal
    /// stops there. `None` when an amount does not fit: nothing changed
    /// when it is the withdrawal's, the withdrawal applied when it is the
    /// deposit's.
    pub fn try_transfer(&mut self, user_id: u64, from: &str, to: &str, amount: Decimal) -> (r: Option<
        Result<(), LedgerError>,
    >)
        requires
            old(self).wf(),
            amount.wf(),
        ensures
            final(self).wf(),
            final(self)@.reservations == old(self)@.reservations,
            final(self)@.nonce == old(self)@.nonce,
            r is None <==> !transfer_ok(old(self)@.balances, user_id, from@, to@, amount),
            r is None ==> final(self)@.balances == (if decrease_free_ok(old(self)@.balances, user_id, from@, amount) {
                decrease_free_spec(old(self)@.balances, user_id, from@, amount).0
            } else {
                old(self)@.balances
            }),
            r is Some ==> final(self)@.balances == transfer_spec(old(self)@.balances, user_id, from@, to@, amount).0,
            r is Some ==> match transfer_spec(old(self)@.balances, user_id, from@, to@, amount).1 {
                None => r->0 is Ok,
                Some(f) => r->0 matches Err(e) && e@ == f,
            },
    {
        match self.try_withdraw(user_id, from, amount) {
            None => {
                return None;
            },
            Some(Err(e)) => {
                return Some(Err(e));
            },
            Some(Ok(_)) => {},
        }
        if !self.free_increase_fits(user_id, to, amount) {
            return None;
        }
        self.increase_free(user_id, to, amount);
        Some(Ok(()))
    }

    /// A fresh internal id for a reservation: bumps the nonce and hashes the
    /// order id with it.
    fn next_internal_id(&mut self, seed_order_id: u64) -> (r: String)
        requires
            old(self).wf(),
        ensures
            final(self).wf(),
            final(self)@.balances == old(self)@.balances,
            final(self)@.reservations == old(self)@.reservations,
            final(self)@.nonce == next_nonce(old(self)@.nonce),
            r@ == internal_id_spec(seed_order_id, final(self)@.nonce),
    {
        self.nonce = if self.nonce == u64::MAX {
            0
        } else {
            self.nonce + 1
        };
        let a = u64_digits(seed_order_id);
        let b = u64_digits(self.nonce);
        blake3_hex_of(a.as_slice(), b.as_slice())
    }

    /// Locks the funds that `order` needs (the quote asset `price * amount`
    /// for a buy, the base asset `amount` for a sell) and records the
    /// reservation; refused, with nothing recorded, when the free balance is
    /// short.
    pub fn reserve_for_new_order(&mut self, order: &Order, base_asset: &str, quote_asset: &str) -> (r: Result<(), LedgerError>)
        requires
            old(self).wf(),
            order.wf(),
            reserve_ok(old(self)@, *order, base_asset@, quote_asset@),
        ensures
            final(self).wf(),
            final(self)@ == reserve_spec(old(self)@, *order, base_asset@, quote_asset@).0,
            r is Ok <==> reserve_spec(old(self)@, *order, base_asset@, quote_asset@).1 is None,
            r is Err ==> Some(r->Err_0@) == reserve_spec(old(self)@, *order, base_asset@, quote_asset@).1,
    {
        let (asset, lock_amount) = match order.side {
            Side::Buy => (quote_asset, checked_mul(&order.price, &order.amount).unwrap()),
            Side::Sell => (base_asset, order.amount),
        };
        match self.move_free_to_locked(order.user_id, asset, lock_amount) {
            Ok(()) => {},
            Err(e) => {
                return Err(e);
            },
        }
        let internal_id = self.next_internal_id(order.id);
        let reservation = Reservation {
            side: order.side,
            user_id: order.user_id,
            base_asset: String::from_str(base_asset),
            quote_asset: String::from_str(quote_asset),
            limit_price: order.price,
            remaining: order.amount,
            internal_id,
        };
        let ghost before = self.reservations@;
        proof {
            lemma_res_view_insert(before, order.id, reservation);
        }
        self.reservations.insert(order.id, reservation);
        Ok(())
    }

    /// Drops the reservation of `order_id` and releases what it still holds
    /// locked back to free.
    pub fn cancel_reservation(&mut self, order_id: u64) -> (r: Result<(), LedgerError>)
        requires
            old(self).wf(),
            cancel_ok(old(self)@, order_id),
        ensures
            final(self).wf(),
            final(self)@ == cancel_spec(old(self)@, order_id).0,
            r is Ok <==> cancel_spec(old(self)@, order_id).1 is None,
            r is Err ==> Some(r->Err_0@) == cancel_spec(old(self)@, order_id).1,
    {
        let ghost before = self.reservations@;
        let removed = self.reservations.remove(&order_id);
        let reservation = match removed {
            Some(v) => v,
            None => {
                assert(self.reservations@ =~= before);
                assert(self@.reservations =~= old(self)@.reservations);
                return Err(LedgerError::ReservationNotFound(order_id));
            },
        };
        proof {
            lemma_res_view_remove(before, order_id);
        }
        match reservation.side {
            Side::Buy => {
                let release = checked_mul(&reservation.remaining, &reservation.limit_price).unwrap();
                self.move_locked_to_free(reservation.user_id, reservation.quote_asset.as_str(), release)
            },
            Side::Sell => {
                self.move_locked_to_free(
                    reservation.user_id,
                    reservation.base_asset.as_str(),
                    reservation.remaining,
                )
            },
        }
    }

    /// Applies a fill of `fill_qty` at `exec_price` to the reservation of
    /// `order_id`.
    fn apply_fill_for_order(&mut self, order_id: u64, fill_qty: Decimal, exec_price: Decimal) -> (r: Result<(), LedgerError>)
        requires
            old(self).wf(),
            fill_qty.wf(),
            exec_price.wf(),
            fill_order_ok(old(self)@, order_id, fill_qty, exec_price),
        ensures
            final(self).wf(),
            final(self)@ == fill_order_spec(old(self)@, order_id, fill_qty, exec_price).0,
            r is Ok <==> fill_order_spec(old(self)@, order_id, fill_qty, exec_price).1 is None,
            r is Err ==> Some(r->Err_0@) == fill_order_spec(old(self)@, order_id, fill_qty, exec_price).1,
    {
        let reservation = match self.reservations.get(&order_id) {
            Some(v) => v.clone(),
            None => {
                return Err(LedgerError::ReservationNotFound(order_id));
            },
        };
        if compare(&fill_qty, &reservation.remaining) == Comparison::Greater {
            return Err(
                LedgerError::ReservationUnderflow { order_id, remaining: reservation.remaining, fill: fill_qty },
            );
        }
        let user = reservation.user_id;
        match reservation.side {
            Side::Buy => {
                let max_quote_for_fill = checked_mul(&reservation.limit_price, &fill_qty).unwrap();
                let spent_quote = checked_mul(&exec_price, &fill_qty).unwrap();
                let refund = checked_sub(&max_quote_for_fill, &spent_quote).unwrap();
                match self.decrease_locked(user, reservation.quote_asset.as_str(), max_quote_for_fill) {
                    Ok(()) => {},
                    Err(e) => {
                        return Err(e);
                    },
                }
                if compare(&refund, &Decimal::zero()) == Comparison::Greater {
                    self.increase_free(user, reservation.quote_asset.as_str(), refund);
                }
                self.increase_free(user, reservation.base_asset.as_str(), fill_qty);
            },
            Side::Sell => {
                let proceeds = checked_mul(&exec_price, &fill_qty).unwrap();
                match self.decrease_locked(user, reservation.base_asset.as_str(), fill_qty) {
                    Ok(()) => {},
                    Err(e) => {
                        return Err(e);
                    },
                }
                self.increase_free(user, reservation.quote_asset.as_str(), proceeds);
            },
        }
        let left = checked_sub(&reservation.remaining, &fill_qty).unwrap();
        let ghost before = self.reservations@;
        if left.is_zero() {
            proof {
                lemma_res_view_remove(before, order_id);
            }
            self.reservations.remove(&order_id);
        } else {
            let updated = Reservation {
                side: reservation.side,
                user_id: reservation.user_id,
                base_asset: reservation.base_asset,
                quote_asset: reservation.quote_asset,
                limit_price: reservation.limit_price,
                remaining: left,
                internal_id: reservation.internal_id,
            };
            proof {
                lemma_res_view_insert(before, order_id, updated);
            }
            self.reservations.insert(order_id, updated);
        }
        Ok(())
    }

    /// Settles a trade: the maker's fill first, then the taker's; stops at
    /// the first refusal.
    pub fn apply_trade_fill(&mut self, trade: &Trade) -> (r: Result<(), LedgerError>)
        requires
            old(self).wf(),
            trade.price.wf(),
            trade.amount.wf(),
            trade_fill_ok(old(self)@, *trade),
        ensures
            final(self).wf(),
            final(self)@ == trade_fill_spec(old(self)@, *trade).0,
            r is Ok <==> trade_fill_spec(old(self)@, *trade).1 is None,
            r is Err ==> Some(r->Err_0@) == trade_fill_spec(old(self)@, *trade).1,
    {
        match self.apply_fill_for_order(trade.maker_order_id, trade.amount, trade.price) {
            Ok(()) => {},
            Err(e) => {
                return Err(e);
            },
        }
        self.apply_fill_for_order(trade.taker_order_id, trade.amount, trade.price)
    }


    /// The balance of (user, asset); zero when there is no row.
    fn balance_state(&self, user_id: u64, asset: &str) -> (r: BalanceState)
        requires
            self.wf(),
        ensures
            r == bal(self@.balances, user_id, asset@),
            r.free.wf(),
            r.locked.wf(),
    {
        let key = String::from_str(asset);
        match self.find(user_id, &key) {
            Some(i) => self.balances[i].state,
            None => {
                let zero = Decimal::zero();
                BalanceState { free: zero, locked: zero }
            },
        }
    }

    /// Whether adding `amount` to the free balance fits.
    fn free_increase_fits(&self, user_id: u64, asset: &str, amount: Decimal) -> (r: bool)
        requires
            self.wf(),
            amount.wf(),
        ensures
            r == increase_free_ok(self@.balances, user_id, asset@, amount),
    {
        let b = self.balance_state(user_id, asset);
        checked_add(&b.free, &amount).is_some()
    }

    /// Whether moving `amount` from free to locked fits.
    fn lock_fits(&self, user_id: u64, asset: &str, amount: Decimal) -> (r: bool)
        requires
            self.wf(),
            amount.wf(),
        ensures
            r == move_free_to_locked_ok(self@.balances, user_id, asset@, amount),
    {
        let b = self.balance_state(user_id, asset);
        if compare(&b.free, &amount) == Comparison::Less {
            true
        } else {
            checked_sub(&b.free, &amount).is_some() && checked_add(&b.locked, &amount).is_some()
        }
    }

    /// Whether moving `amount` from locked back to free fits.
    fn release_fits(&self, user_id: u64, asset: &str, amount: Decimal) -> (r: bool)
        requires
            self.wf(),
            amount.wf(),
        ensures
            r == move_locked_to_free_ok(self@.balances, user_id, asset@, amount),
    {
        let b = self.balance_state(user_id, asset);
        if compare(&b.locked, &amount) == Comparison::Less {
            true
        } else {
            checked_sub(&b.locked, &amount).is_some() && checked_add(&b.free, &amount).is_some()
        }
    }

    /// Whether a fill of `fill` at `price` on reservation `r` fits.
    fn fill_balances_fit(&self, r: &Reservation, fill: Decimal, price: Decimal) -> (ok: bool)
        requires
            self.wf(),
            r.limit_price.wf(),
            r.remaining.wf(),
            fill.wf(),
            price.wf(),
        ensures
            ok == fill_balances_ok(self@.balances, r@, fill, price),
    {
        let u = r.user_id;
        match r.side {
            Side::Buy => {
                let max_quote = match checked_mul(&r.limit_price, &fill) {
                    Some(x) => x,
                    None => {
                        return false;
                    },
                };
                let spent = match checked_mul(&price, &fill) {
                    Some(x) => x,
                    None => {
                        return false;
                    },
                };
                let refund = match checked_sub(&max_quote, &spent) {
                    Some(x) => x,
                    None => {
                        return false;
                    },
                };
                let bq = self.balance_state(u, r.quote_asset.as_str());
                if compare(&bq.locked, &max_quote) == Comparison::Less {
                    return true;
                }
                if checked_sub(&bq.locked, &max_quote).is_none() {
                    return false;
                }
                let mut quote_free = bq.free;
                if compare(&refund, &Decimal::zero()) == Comparison::Greater {
                    quote_free = match checked_add(&bq.free, &refund) {
                        Some(x) => x,
                        None => {
                            return false;
                        },
                    };
                }
                let base_free = if r.base_asset == r.quote_asset {
                    quote_free
                } else {
                    self.balance_state(u, r.base_asset.as_str()).free
                };
                checked_add(&base_free, &fill).is_some()
            },
            Side::Sell => {
                let proceeds = match checked_mul(&price, &fill) {
                    Some(x) => x,
                    None => {
                        return false;
                    },
                };
                let bb = self.balance_state(u, r.base_asset.as_str());
                if compare(&bb.locked, &fill) == Comparison::Less {
                    return true;
                }
                if checked_sub(&bb.locked, &fill).is_none() {
                    return false;
                }
                let quote_free = if r.quote_asset == r.base_asset {
                    bb.free
                } else {
                    self.balance_state(u, r.quote_asset.as_str()).free
                };
                checked_add(&quote_free, &proceeds).is_some()
            },
        }
    }

    /// Whether a fill of `fill` at `price` for order `order_id` fits.
    fn fill_fits(&self, order_id: u64, fill: Decimal, price: Decimal) -> (ok: bool)
        requires
            self.wf(),
            fill.wf(),
            price.wf(),
        ensures
            ok == fill_order_ok(self@, order_id, fill, price),
    {
        let r = match self.reservations.get(&order_id) {
            Some(v) => v,
            None => {
                return true;
            },
        };
        if compare(&fill, &r.remaining) == Comparison::Greater {
            return true;
        }
        if !self.fill_balances_fit(r, fill, price) {
            return false;
        }
        let short = match r.side {
            Side::Buy => {
                let max_quote = checked_mul(&r.limit_price, &fill).unwrap();
                compare(&self.balance_state(r.user_id, r.quote_asset.as_str()).locked, &max_quote) == Comparison::Less
            },
            Side::Sell => compare(&self.balance_state(r.user_id, r.base_asset.as_str()).locked, &fill)
                == Comparison::Less,
        };
        short || checked_sub(&r.remaining, &fill).is_some()
    }

    /// Whether reserving for `order` can be computed without overflow.
    pub fn reserve_fits(&self, order: &Order, base_asset: &str, quote_asset: &str) -> (r: bool)
        requires
            self.wf(),
            order.wf(),
        ensures
            r == reserve_ok(self@, *order, base_asset@, quote_asset@),
    {
        match order.side {
            Side::Buy => match checked_mul(&order.price, &order.amount) {
                Some(amount) => self.lock_fits(order.user_id, quote_asset, amount),
                None => false,
            },
            Side::Sell => self.lock_fits(order.user_id, base_asset, order.amount),
        }
    }

    /// Whether cancelling `order_id` can be computed without overflow.
    pub fn cancel_fits(&self, order_id: u64) -> (r: bool)
        requires
            self.wf(),
        ensures
            r == cancel_ok(self@, order_id),
    {
        let res = match self.reservations.get(&order_id) {
            Some(v) => v,
            None => {
                return true;
            },
        };
        match res.side {
            Side::Buy => match checked_mul(&res.remaining, &res.limit_price) {
                Some(amount) => self.release_fits(res.user_id, res.quote_asset.as_str(), amount),
                None => false,
            },
            Side::Sell => self.release_fits(res.user_id, res.base_asset.as_str(), res.remaining),
        }
    }

    /// `deposit`, or `None`, with nothing changed, when the new free
    /// balance overflows.
    pub fn try_deposit(&mut self, user_id: u64, asset: &str, amount: Decimal) -> (r: Option<Result<Decimal, LedgerError>>)
        requires
            old(self).wf(),
            amount.wf(),
        ensures
            final(self).wf(),
            r is None <==> !increase_free_ok(old(self)@.balances, user_id, asset@, amount),
            r is None ==> final(self)@ == old(self)@,
            r is Some ==> final(self)@.balances == increase_free_spec(old(self)@.balances, user_id, asset@, amount)
                && final(self)@.reservations == old(self)@.reservations && final(self)@.nonce == old(self)@.nonce
                && r->0 == Ok::<Decimal, LedgerError>(final(self)@.balances[(user_id, asset@)].free),
    {
        if !self.free_increase_fits(user_id, asset, amount) {
            return None;
        }
        Some(self.deposit(user_id, asset, amount))
    }

    /// `reserve_for_new_order`, or `None`, with nothing changed, when the
    /// amount to lock or the new balances overflow.
    pub fn try_reserve_for_new_order(&mut self, order: &Order, base_asset: &str, quote_asset: &str) -> (r: Option<Result<(), LedgerError>>)
        requires
            old(self).wf(),
            order.wf(),
        ensures
            final(self).wf(),
            r is None <==> !reserve_ok(old(self)@, *order, base_asset@, quote_asset@),
            r is None ==> final(self)@ == old(self)@,
            r is Some ==> final(self)@ == reserve_spec(old(self)@, *order, base_asset@, quote_asset@).0,
            r is Some ==> (r->0 is Ok <==> reserve_spec(old(self)@, *order, base_asset@, quote_asset@).1 is None),
            r is Some && r->0 is Err ==> Some(r->0->Err_0@) == reserve_spec(old(self)@, *order, base_asset@, quote_asset@).1,
    {
        if !self.reserve_fits(order, base_asset, quote_asset) {
            return None;
        }
        Some(self.reserve_for_new_order(order, base_asset, quote_asset))
    }

    /// `cancel_reservation`, or `None`, with nothing changed, when the
    /// amount to release or the new balances overflow.
    pub fn try_cancel_reservation(&mut self, order_id: u64) -> (r: Option<Result<(), LedgerError>>)
        requires
            old(self).wf(),
        ensures
            final(self).wf(),
            r is None <==> !cancel_ok(old(self)@, order_id),
            r is None ==> final(self)@ == old(self)@,
            r is Some ==> final(self)@ == cancel_spec(old(self)@, order_id).0,
            r is Some ==> (r->0 is Ok <==> cancel_spec(old(self)@, order_id).1 is None),
            r is Some && r->0 is Err ==> Some(r->0->Err_0@) == cancel_spec(old(self)@, order_id).1,
    {
        if !self.cancel_fits(order_id) {
            return None;
        }
        Some(self.cancel_reservation(order_id))
    }

    /// `apply_trade_fill`, or `None` when a fill's arithmetic overflows:
    /// nothing changed when it is the maker's, the maker's fill applied
    /// when it is the taker's.
    pub fn try_apply_trade_fill(&mut self, trade: &Trade) -> (r: Option<Result<(), LedgerError>>)
        requires
            old(self).wf(),
            trade.price.wf(),
            trade.amount.wf(),
        ensures
            final(self).wf(),
            r is None <==> !trade_fill_ok(old(self)@, *trade),
            r is None ==> final(self)@ == (if fill_order_ok(old(self)@, trade.maker_order_id, trade.amount, trade.price) {
                fill_order_spec(old(self)@, trade.maker_order_id, trade.amount, trade.price).0
            } else {
                old(self)@
            }),
            r is Some ==> final(self)@ == trade_fill_spec(old(self)@, *trade).0,
            r is Some ==> (r->0 is Ok <==> trade_fill_spec(old(self)@, *trade).1 is None),
            r is Some && r->0 is Err ==> Some(r->0->Err_0@) == trade_fill_spec(old(self)@, *trade).1,
    {
        if !self.fill_fits(trade.maker_order_id, trade.amount, trade.price) {
            return None;
        }
        match self.apply_fill_for_order(trade.maker_order_id, trade.amount, trade.price) {
            Ok(()) => {},
            Err(e) => {
                return Some(Err(e));
            },
        }
        if !self.fill_fits(trade.taker_order_id, trade.amount, trade.price) {
            return None;
        }
        Some(self.apply_fill_for_order(trade.taker_order_id, trade.amount, trade.price))
    }

    /// A ledger holding the balance rows `(user_id, asset, free, locked)`;
    /// refused when a row has a non-positive user id.
    pub fn from_rows(rows: &[(i64, String, Decimal, Decimal)]) -> (r: Result<InMemoryLedger, LedgerError>)
        requires
            forall|i: int| 0 <= i < rows@.len() ==> (#[trigger] rows@[i]).2.wf() && rows@[i].3.wf(),
        ensures
            r is Err <==> has_invalid_user(rows@),
            r is Err ==> r->Err_0 == LedgerError::InvalidUserId,
            r is Ok ==> r->Ok_0.wf() && r->Ok_0@.balances == rows_map(rows@) && r->Ok_0@.reservations
                == Map::<u64, ReservationModel>::empty() && r->Ok_0@.nonce == 0,
    {
        let mut ledger = InMemoryLedger::new();
        let mut i: usize = 0;
        assert(rows@.take(0) =~= Seq::<(i64, String, Decimal, Decimal)>::empty());
        while i < rows.len()
            invariant
                i <= rows@.len(),
                forall|j: int| 0 <= j < rows@.len() ==> (#[trigger] rows@[j]).2.wf() && rows@[j].3.wf(),
                forall|j: int| 0 <= j < i ==> (#[trigger] rows@[j]).0 > 0,
                ledger.wf(),
                ledger@.balances == rows_map(rows@.take(i as int)),
                ledger@.reservations == Map::<u64, ReservationModel>::empty(),
                ledger@.nonce == 0,
            decreases rows@.len() - i,
        {
            let row = &rows[i];
            if row.0 <= 0 {
                return Err(LedgerError::InvalidUserId);
            }
            let user_id = row.0 as u64;
            let k = ledger.entry_index(user_id, row.1.as_str());
            ledger.set_state(k, BalanceState { free: row.2, locked: row.3 });
            proof {
                let next = rows@.take(i as int + 1);
                assert(next.drop_last() =~= rows@.take(i as int));
                assert(next.last() == rows@[i as int]);
                assert(ledger@.balances =~= rows_map(next));
            }
            i = i + 1;
        }
        assert(rows@.take(i as int) =~= rows@);
        Ok(ledger)
    }

    /// The balances of `user_id`, one per asset, ordered by asset name.
    pub fn balances_for_user(&self, user_id: u64) -> (r: Vec<UserBalanceSnapshot>)
        requires
            self.wf(),
        ensures
            lists_balances_of(r@, self@.balances, user_id),
    {
        let mut out: Vec<UserBalanceSnapshot> = Vec::new();
        let ghost mut idx: Seq<int> = Seq::empty();
        let mut i: usize = 0;
        while i < self.balances.len()
            invariant
                i <= self.balances@.len(),
                self.wf(),
                drawn_from(out@, idx, self.balances@, i as int, user_id),
                complete(out@, self.balances@, i as int, user_id),
                sorted_assets(out@),
            decreases self.balances@.len() - i,
        {
            if self.balances[i].user_id == user_id {
                let e = &self.balances[i];
                let snap = UserBalanceSnapshot { asset: e.asset.clone(), free: e.state.free, locked: e.state.locked };
                proof {
                    lemma_new_asset(out@, idx, self.balances@, i as int, user_id);
                }
                let ghost before = out@;
                let p = insert_sorted(&mut out, snap);
                proof {
                    lemma_insert_complete(before, self.balances@, i as int, user_id, snap, p as int);
                    let idx2 = idx.insert(p as int, i as int);
                    assert forall|k: int| 0 <= k < out@.len() implies 0 <= #[trigger] idx2[k] < i + 1 && from_row(
                        self.balances@,
                        idx2[k],
                        user_id,
                        out@[k],
                    ) by {
                        if k < p {
                            assert(idx2[k] == idx[k] && out@[k] == before[k]);
                        } else if k > p {
                            assert(idx2[k] == idx[k - 1] && out@[k] == before[k - 1]);
                        }
                    }
                    idx = idx2;
                }
            } else {
                proof {
                    lemma_skip_keeps(out@, idx, self.balances@, i as int, user_id);
                }
            }
            i = i + 1;
        }
        proof {
            assert forall|k: int| 0 <= k < out@.len() implies self@.balances.contains_key(
                (user_id, (#[trigger] out@[k]).asset@),
            ) && self@.balances[(user_id, out@[k].asset@)] == (BalanceState { free: out@[k].free, locked: out@[k].locked }) by {
                let j = idx[k];
                assert(from_row(self.balances@, j, user_id, out@[k]));
                lemma_key_index(self.balances@, j);
            }
            assert forall|a: Seq<char>| #[trigger] self@.balances.contains_key((user_id, a)) implies exists|k: int|
                0 <= k < out@.len() && (#[trigger] out@[k]).asset@ == a by {
                let j = key_index(self.balances@, (user_id, a));
                assert(self.balances@[j].user_id == user_id);
            }
        }
        out
    }
}

impl LedgerError {
    /// The error's message.
    pub fn message(&self) -> (r: String)
        requires
            match self {
                LedgerError::InsufficientFreeBalance { required, available, .. } => required.wf() && available.wf(),
                LedgerError::ReservationUnderflow { remaining, fill, .. } => remaining.wf() && fill.wf(),
                _ => true,
            },
        ensures
            r@ == match self {
                LedgerError::InsufficientFreeBalance { user_id, asset, required, available } =>
                    "insufficient free balance: user_id="@ + digits_spec(*user_id as nat) + ", asset="@ + asset@
                    + ", required="@ + decimal_text(*required) + ", available="@ + decimal_text(*available),
                LedgerError::ReservationNotFound(id) => "order reservation not found: order_id="@ + digits_spec(
                    *id as nat,
                ),
                LedgerError::ReservationUnderflow { order_id, remaining, fill } => "reservation underflow: order_id="@
                    + digits_spec(*order_id as nat) + ", remaining="@ + decimal_text(*remaining) + ", fill="@
                    + decimal_text(*fill),
                LedgerError::InvalidUserId => "invalid user id in balances snapshot"@,
            },
    {
        proof {
            reveal_strlit("insufficient free balance: user_id=");
            reveal_strlit(", asset=");
            reveal_strlit(", required=");
            reveal_strlit(", available=");
            reveal_strlit("order reservation not found: order_id=");
            reveal_strlit("reservation underflow: order_id=");
            reveal_strlit(", remaining=");
            reveal_strlit(", fill=");
        }
        match self {
            LedgerError::InsufficientFreeBalance { user_id, asset, required, available } => String::from_str(
                "insufficient free balance: user_id=",
            ).concat(u64_text(*user_id).as_str()).concat(", asset=").concat(asset.as_str()).concat(", required=").concat(
                required.to_text().as_str(),
            ).concat(", available=").concat(available.to_text().as_str()),
            LedgerError::ReservationNotFound(id) => String::from_str("order reservation not found: order_id=").concat(
                u64_text(*id).as_str(),
            ),
            LedgerError::ReservationUnderflow { order_id, remaining, fill } => String::from_str(
                "reservation underflow: order_id=",
            ).concat(u64_text(*order_id).as_str()).concat(", remaining=").concat(remaining.to_text().as_str()).concat(
                ", fill=",
            ).concat(fill.to_text().as_str()),
            LedgerError::InvalidUserId => String::from_str("invalid user id in balances snapshot"),
        }
    }
}

} // verus!
