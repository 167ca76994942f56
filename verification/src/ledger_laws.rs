//! Laws of the ledger that span several operations.

use vstd::prelude::*;

use crate::decimal::Decimal;
use crate::ledger::{
    Balances, BalanceState, LedgerModel, ReservationModel, add_r, bal, cancel_spec, fill_balances, fill_order_spec,
    increase_free_spec, lock_of, transfer_spec, mul_r, release_of, reservation_for, reserve_spec, sub_r, trade_fill_spec,
};
use crate::types::{Order, Side, Trade};

verus! {

/// The arithmetic of locking the funds of `o` and releasing them again is
/// exact: `rust_decimal` gives the exact sums and differences here (it
/// rounds only past 28 significant digits), the amount released equals the
/// amount locked, and the locked balance is not negative.
pub open spec fn round_trip_exact(l: LedgerModel, o: Order, base: Seq<char>, quote: Seq<char>) -> bool {
    let (a, amt) = lock_of(o, base, quote);
    let b = bal(l.balances, o.user_id, a);
    let rel = release_of(reservation_for(o, base, quote, l.nonce)).1;
    let free1 = sub_r(b.free, amt);
    let locked1 = add_r(b.locked, amt);
    &&& b.locked.value() >= 0
    &&& rel.value() == amt.value()
    &&& free1.value() == b.free.value() - amt.value()
    &&& locked1.value() == b.locked.value() + amt.value()
    &&& sub_r(locked1, rel).value() == locked1.value() - rel.value()
    &&& add_r(free1, rel).value() == free1.value() + rel.value()
}

/// Cancelling an order right after its funds were reserved gives the funds
/// back: the reservation is gone, the free and locked balances of the
/// locked asset have their former values, and no other balance changed.
pub proof fn law_cancel_returns_reserved_funds(l: LedgerModel, o: Order, base: Seq<char>, quote: Seq<char>)
    requires
        !l.reservations.contains_key(o.id),
        reserve_spec(l, o, base, quote).1 is None,
        round_trip_exact(l, o, base, quote),
    ensures
        ({
            let l2 = reserve_spec(l, o, base, quote).0;
            let (l3, fault) = cancel_spec(l2, o.id);
            let a = lock_of(o, base, quote).0;
            &&& fault is None
            &&& l3.reservations == l.reservations
            &&& bal(l3.balances, o.user_id, a).free.value() == bal(l.balances, o.user_id, a).free.value()
            &&& bal(l3.balances, o.user_id, a).locked.value() == bal(l.balances, o.user_id, a).locked.value()
            &&& forall|k: (u64, Seq<char>)|
                k != (o.user_id, a) ==> l3.balances.contains_key(k) == l.balances.contains_key(k) && (
                l.balances.contains_key(k) ==> l3.balances[k] == l.balances[k])
        }),
{
    let l2 = reserve_spec(l, o, base, quote).0;
    let r = reservation_for(o, base, quote, l.nonce);
    assert(l2.reservations.contains_key(o.id));
    assert(l2.reservations[o.id] == r);
    assert(release_of(r).0 == lock_of(o, base, quote).0) by {
        match o.side {
            Side::Buy => {},
            Side::Sell => {},
        }
    }
    let l3 = cancel_spec(l2, o.id).0;
    assert(l3.reservations =~= l.reservations);
}

/// The free plus locked balance of (user, asset).
pub open spec fn holding(m: Balances, u: u64, a: Seq<char>) -> int {
    bal(m, u, a).free.value() + bal(m, u, a).locked.value()
}

/// The arithmetic of one fill on reservation `r`, from balances `m`, is
/// exact, and a buyer's limit covers the price.
pub open spec fn fill_exact(m: Balances, r: ReservationModel, fill: Decimal, price: Decimal) -> bool {
    let u = r.user_id;
    let bq = bal(m, u, r.quote_asset);
    let bb = bal(m, u, r.base_asset);
    let spent = mul_r(price, fill);
    match r.side {
        Side::Buy => {
            let max_quote = mul_r(r.limit_price, fill);
            let refund = sub_r(max_quote, spent);
            &&& refund.value() == max_quote.value() - spent.value()
            &&& refund.value() >= 0
            &&& sub_r(bq.locked, max_quote).value() == bq.locked.value() - max_quote.value()
            &&& refund.value() > 0 ==> add_r(bq.free, refund).value() == bq.free.value() + refund.value()
            &&& add_r(bb.free, fill).value() == bb.free.value() + fill.value()
        },
        Side::Sell => {
            &&& sub_r(bb.locked, fill).value() == bb.locked.value() - fill.value()
            &&& add_r(bq.free, spent).value() == bq.free.value() + spent.value()
        },
    }
}

/// What a successful fill does to the holdings of its user: a buyer's quote
/// holding goes down by `price * fill` and its base holding up by `fill`; a
/// seller's base holding goes down by `fill` and its quote holding up by
/// `price * fill`; no other balance changes.
proof fn lemma_fill_moves(m: Balances, r: ReservationModel, fill: Decimal, price: Decimal)
    requires
        r.base_asset != r.quote_asset,
        fill_balances(m, r, fill, price).1 is None,
        fill_exact(m, r, fill, price),
    ensures
        ({
            let m2 = fill_balances(m, r, fill, price).0;
            let u = r.user_id;
            let spent = mul_r(price, fill).value();
            &&& holding(m2, u, r.base_asset) == holding(m, u, r.base_asset) + (if r.side == Side::Buy {
                fill.value()
            } else {
                -fill.value()
            })
            &&& holding(m2, u, r.quote_asset) == holding(m, u, r.quote_asset) + (if r.side == Side::Buy {
                -spent
            } else {
                spent
            })
            &&& forall|k: (u64, Seq<char>)|
                k.0 != u ==> m2.contains_key(k) == m.contains_key(k) && (m.contains_key(k) ==> m2[k] == m[k])
        }),
{
}

/// Settling a trade between two different users creates and destroys
/// nothing: for the base and the quote asset, the holdings of the buyer
/// and the seller add up to the same before and after.
pub proof fn law_settlement_conserves_holdings(l: LedgerModel, t: Trade)
    requires
        l.reservations.contains_key(t.maker_order_id),
        l.reservations.contains_key(t.taker_order_id),
        t.maker_order_id != t.taker_order_id,
        ({
            let rm = l.reservations[t.maker_order_id];
            let rt = l.reservations[t.taker_order_id];
            &&& rm.side != rt.side
            &&& rm.user_id != rt.user_id
            &&& rm.base_asset == rt.base_asset
            &&& rm.quote_asset == rt.quote_asset
            &&& rm.base_asset != rm.quote_asset
            &&& fill_exact(l.balances, rm, t.amount, t.price)
            &&& fill_exact(l.balances, rt, t.amount, t.price)
        }),
        trade_fill_spec(l, t).1 is None,
    ensures
        ({
            let l2 = trade_fill_spec(l, t).0;
            let um = l.reservations[t.maker_order_id].user_id;
            let ut = l.reservations[t.taker_order_id].user_id;
            let base = l.reservations[t.maker_order_id].base_asset;
            let quote = l.reservations[t.maker_order_id].quote_asset;
            &&& holding(l2.balances, um, base) + holding(l2.balances, ut, base) == holding(l.balances, um, base)
                + holding(l.balances, ut, base)
            &&& holding(l2.balances, um, quote) + holding(l2.balances, ut, quote) == holding(l.balances, um, quote)
                + holding(l.balances, ut, quote)
        }),
{
    let rm = l.reservations[t.maker_order_id];
    let rt = l.reservations[t.taker_order_id];
    let l1 = fill_order_spec(l, t.maker_order_id, t.amount, t.price).0;
    assert(fill_order_spec(l, t.maker_order_id, t.amount, t.price).1 is None);
    assert(fill_balances(l.balances, rm, t.amount, t.price).1 is None);
    lemma_fill_moves(l.balances, rm, t.amount, t.price);
    let m1 = l1.balances;
    assert(m1 == fill_balances(l.balances, rm, t.amount, t.price).0);
    assert(l1.reservations.contains_key(t.taker_order_id));
    assert(l1.reservations[t.taker_order_id] == rt);
    assert(bal(m1, rt.user_id, rt.base_asset) == bal(l.balances, rt.user_id, rt.base_asset));
    assert(bal(m1, rt.user_id, rt.quote_asset) == bal(l.balances, rt.user_id, rt.quote_asset));
    assert(fill_exact(m1, rt, t.amount, t.price));
    assert(fill_balances(m1, rt, t.amount, t.price).1 is None);
    lemma_fill_moves(m1, rt, t.amount, t.price);
    assert(bal(m1, rm.user_id, rm.base_asset) == bal(fill_balances(m1, rt, t.amount, t.price).0, rm.user_id, rm.base_asset));
    assert(bal(m1, rm.user_id, rm.quote_asset) == bal(fill_balances(m1, rt, t.amount, t.price).0, rm.user_id, rm.quote_asset));
}

// ───────────────────────── locked balances and open reservations ─────────────────────────

/// What reservation `r` holds locked of asset `a` of user `u`.
pub open spec fn hold_of(r: ReservationModel, u: u64, a: Seq<char>) -> int {
    if r.user_id == u && release_of(r).0 == a {
        release_of(r).1.value()
    } else {
        0
    }
}

/// One step of summing the holds of the reservations `res` by id.
pub open spec fn hold_step(res: Map<u64, ReservationModel>, u: u64, a: Seq<char>) -> spec_fn(int, u64) -> int {
    |acc: int, id: u64| acc + hold_of(res[id], u, a)
}

/// The holds on (u, a) of the reservations of `res` whose ids are in `s`.
pub open spec fn hold_sum(s: Set<u64>, res: Map<u64, ReservationModel>, u: u64, a: Seq<char>) -> int {
    s.fold(0int, hold_step(res, u, a))
}

/// What the open reservations hold locked of asset `a` of user `u`.
pub open spec fn held(res: Map<u64, ReservationModel>, u: u64, a: Seq<char>) -> int {
    hold_sum(res.dom(), res, u, a)
}

/// The locked balance of every (user, asset) is exactly what the open
/// reservations hold of it.
pub open spec fn locks_match(l: LedgerModel) -> bool {
    &&& l.reservations.dom().finite()
    &&& forall|u: u64, a: Seq<char>| #[trigger] bal(l.balances, u, a).locked.value() == held(l.reservations, u, a)
}

proof fn lemma_hold_sum_insert(s: Set<u64>, res: Map<u64, ReservationModel>, u: u64, a: Seq<char>, n: u64)
    requires
        s.finite(),
        !s.contains(n),
    ensures
        hold_sum(s.insert(n), res, u, a) == hold_sum(s, res, u, a) + hold_of(res[n], u, a),
{
    let f = hold_step(res, u, a);
    assert(vstd::set::fold::is_fun_commutative(f));
    vstd::set::fold::lemma_fold_insert(s, 0int, f, n);
}

proof fn lemma_hold_sum_agree(
    s: Set<u64>,
    r1: Map<u64, ReservationModel>,
    r2: Map<u64, ReservationModel>,
    u: u64,
    a: Seq<char>,
)
    requires
        s.finite(),
        forall|id: u64| s.contains(id) ==> hold_of(r1[id], u, a) == hold_of(r2[id], u, a),
    ensures
        hold_sum(s, r1, u, a) == hold_sum(s, r2, u, a),
    decreases s.len(),
{
    if s.len() == 0 {
        assert(s =~= Set::<u64>::empty());
        vstd::set::fold::lemma_fold_empty(0int, hold_step(r1, u, a));
        vstd::set::fold::lemma_fold_empty(0int, hold_step(r2, u, a));
    } else {
        let c = s.choose();
        let s0 = s.remove(c);
        lemma_hold_sum_agree(s0, r1, r2, u, a);
        lemma_hold_sum_insert(s0, r1, u, a, c);
        lemma_hold_sum_insert(s0, r2, u, a, c);
        assert(s0.insert(c) =~= s);
    }
}

/// Setting or removing one reservation changes the holds by its part only.
proof fn lemma_held_update(res: Map<u64, ReservationModel>, n: u64, r: ReservationModel, u: u64, a: Seq<char>)
    requires
        res.dom().finite(),
    ensures
        held(res, u, a) == held(res.remove(n), u, a) + (if res.contains_key(n) {
            hold_of(res[n], u, a)
        } else {
            0
        }),
        held(res.insert(n, r), u, a) == held(res.remove(n), u, a) + hold_of(r, u, a),
{
    let d0 = res.dom().remove(n);
    assert(res.remove(n).dom() =~= d0);
    assert(res.insert(n, r).dom() =~= d0.insert(n));
    lemma_hold_sum_agree(d0, res, res.remove(n), u, a);
    lemma_hold_sum_agree(d0, res.insert(n, r), res.remove(n), u, a);
    lemma_hold_sum_insert(d0, res.insert(n, r), u, a, n);
    if res.contains_key(n) {
        assert(d0.insert(n) =~= res.dom());
        lemma_hold_sum_insert(d0, res, u, a, n);
    } else {
        assert(d0 =~= res.dom());
    }
}

/// A ledger with no balances and no reservations: nothing is locked and
/// nothing is held.
pub proof fn law_empty_ledger_locks_match(nonce: u64)
    ensures
        locks_match(
            LedgerModel {
                balances: Map::<(u64, Seq<char>), BalanceState>::empty(),
                reservations: Map::<u64, ReservationModel>::empty(),
                nonce,
            },
        ),
{
    let res = Map::<u64, ReservationModel>::empty();
    assert forall|u: u64, a: Seq<char>| #[trigger]
        bal(Map::<(u64, Seq<char>), BalanceState>::empty(), u, a).locked.value() == held(res, u, a) by {
        assert(res.dom() =~= Set::<u64>::empty());
        vstd::set::fold::lemma_fold_empty(0int, hold_step(res, u, a));
    }
}

/// A deposit changes no locked balance and no reservation.
pub proof fn law_deposit_keeps_locks(l: LedgerModel, u: u64, a: Seq<char>, amount: Decimal)
    requires
        locks_match(l),
    ensures
        locks_match(
            LedgerModel {
                balances: increase_free_spec(l.balances, u, a, amount),
                reservations: l.reservations,
                nonce: l.nonce,
            },
        ),
{
    let m2 = increase_free_spec(l.balances, u, a, amount);
    assert forall|u2: u64, a2: Seq<char>| #[trigger] bal(m2, u2, a2).locked.value() == held(l.reservations, u2, a2) by {
        assert(bal(l.balances, u2, a2).locked.value() == held(l.reservations, u2, a2));
    }
}

/// Reserving for a new order keeps every locked balance equal to what the
/// reservations hold: the new reservation holds what was locked for it
/// (where the lock's addition is exact and the amount it will release is
/// the amount locked), and a refused reservation changes neither.
pub proof fn law_reserve_keeps_locks(l: LedgerModel, o: Order, base: Seq<char>, quote: Seq<char>)
    requires
        locks_match(l),
        !l.reservations.contains_key(o.id),
        reserve_spec(l, o, base, quote).1 is None ==> ({
            let (a, amt) = lock_of(o, base, quote);
            let b = bal(l.balances, o.user_id, a);
            &&& add_r(b.locked, amt).value() == b.locked.value() + amt.value()
            &&& release_of(reservation_for(o, base, quote, l.nonce)).1.value() == amt.value()
        }),
    ensures
        locks_match(reserve_spec(l, o, base, quote).0),
{
    let l2 = reserve_spec(l, o, base, quote).0;
    let (a, amt) = lock_of(o, base, quote);
    let r = reservation_for(o, base, quote, l.nonce);
    assert(release_of(r).0 == a) by {
        match o.side {
            Side::Buy => {},
            Side::Sell => {},
        }
    }
    if reserve_spec(l, o, base, quote).1 is None {
        assert(l2.reservations == l.reservations.insert(o.id, r));
        assert(l.reservations.remove(o.id) =~= l.reservations);
        assert forall|u2: u64, a2: Seq<char>| #[trigger] bal(l2.balances, u2, a2).locked.value() == held(
            l2.reservations,
            u2,
            a2,
        ) by {
            lemma_held_update(l.reservations, o.id, r, u2, a2);
            assert(bal(l.balances, u2, a2).locked.value() == held(l.reservations, u2, a2));
        }
    } else {
        assert forall|u2: u64, a2: Seq<char>| #[trigger] bal(l2.balances, u2, a2).locked.value() == held(
            l2.reservations,
            u2,
            a2,
        ) by {
            assert(bal(l.balances, u2, a2).locked.value() == held(l.reservations, u2, a2));
        }
    }
}

/// Cancelling a reservation keeps every locked balance equal to what the
/// reservations hold: what it released leaves the locked balance (where
/// that subtraction is exact). A refused release is left out: the
/// reservation is dropped while its funds stay locked.
pub proof fn law_cancel_keeps_locks(l: LedgerModel, id: u64)
    requires
        locks_match(l),
        cancel_spec(l, id).1 is None,
        ({
            let r = l.reservations[id];
            let (a, amt) = release_of(r);
            let b = bal(l.balances, r.user_id, a);
            sub_r(b.locked, amt).value() == b.locked.value() - amt.value()
        }),
    ensures
        locks_match(cancel_spec(l, id).0),
{
    let l2 = cancel_spec(l, id).0;
    let r = l.reservations[id];
    assert(l2.reservations == l.reservations.remove(id));
    assert forall|u2: u64, a2: Seq<char>| #[trigger] bal(l2.balances, u2, a2).locked.value() == held(
        l2.reservations,
        u2,
        a2,
    ) by {
        lemma_held_update(l.reservations, id, r, u2, a2);
        assert(bal(l.balances, u2, a2).locked.value() == held(l.reservations, u2, a2));
    }
}

/// What a fill of `fill` on reservation `r` takes off its locked balance:
/// `limit * fill` of the quote asset for a buy, `fill` of the base asset
/// for a sell.
pub open spec fn taken_by_fill(r: ReservationModel, fill: Decimal) -> Decimal {
    if r.side == Side::Buy {
        mul_r(r.limit_price, fill)
    } else {
        fill
    }
}

/// The arithmetic of a fill of `fill` on the reservation of `id` is exact
/// as far as the locks go: the locked balance goes down by exactly what the
/// fill takes, and what the reservation holds goes down by the same (to
/// nothing when it is used up).
pub open spec fn fill_locks_exact(l: LedgerModel, id: u64, fill: Decimal) -> bool {
    let r = l.reservations[id];
    let a = release_of(r).0;
    let taken = taken_by_fill(r, fill);
    let b = bal(l.balances, r.user_id, a);
    let left = sub_r(r.remaining, fill);
    &&& sub_r(b.locked, taken).value() == b.locked.value() - taken.value()
    &&& left.value() == 0 ==> release_of(r).1.value() == taken.value()
    &&& left.value() != 0 ==> release_of(ReservationModel { remaining: left, ..r }).1.value() == release_of(r).1.value()
        - taken.value()
}

/// Settling a fill keeps every locked balance equal to what the
/// reservations hold, where the fill's arithmetic is exact.
pub proof fn law_fill_keeps_locks(l: LedgerModel, id: u64, fill: Decimal, price: Decimal)
    requires
        locks_match(l),
        fill_order_spec(l, id, fill, price).1 is None,
        fill_locks_exact(l, id, fill),
    ensures
        locks_match(fill_order_spec(l, id, fill, price).0),
{
    let l2 = fill_order_spec(l, id, fill, price).0;
    let r = l.reservations[id];
    let u = r.user_id;
    let a = release_of(r).0;
    let left = sub_r(r.remaining, fill);
    let r2 = ReservationModel { remaining: left, ..r };
    let m2 = fill_balances(l.balances, r, fill, price).0;
    assert(l2.balances == m2);
    assert(forall|u2: u64, a2: Seq<char>| #[trigger] bal(m2, u2, a2).locked.value() == bal(l.balances, u2, a2).locked.value()
        - (if u2 == u && a2 == a { taken_by_fill(r, fill).value() } else { 0 })) by {
        match r.side {
            Side::Buy => {},
            Side::Sell => {},
        }
    }
    assert forall|u2: u64, a2: Seq<char>| #[trigger] bal(l2.balances, u2, a2).locked.value() == held(
        l2.reservations,
        u2,
        a2,
    ) by {
        lemma_held_update(l.reservations, id, r2, u2, a2);
        assert(bal(l.balances, u2, a2).locked.value() == held(l.reservations, u2, a2));
        assert(bal(m2, u2, a2).locked.value() == bal(l.balances, u2, a2).locked.value() - (if u2 == u && a2 == a {
            taken_by_fill(r, fill).value()
        } else {
            0
        }));
        assert(release_of(r2).0 == a);
    }
}

/// Settling a trade (the maker's fill, then the taker's) keeps every
/// locked balance equal to what the reservations hold, where both fills'
/// arithmetic is exact.
pub proof fn law_trade_fill_keeps_locks(l: LedgerModel, t: Trade)
    requires
        locks_match(l),
        trade_fill_spec(l, t).1 is None,
        fill_locks_exact(l, t.maker_order_id, t.amount),
        fill_locks_exact(fill_order_spec(l, t.maker_order_id, t.amount, t.price).0, t.taker_order_id, t.amount),
    ensures
        locks_match(trade_fill_spec(l, t).0),
{
    law_fill_keeps_locks(l, t.maker_order_id, t.amount, t.price);
    let l1 = fill_order_spec(l, t.maker_order_id, t.amount, t.price).0;
    law_fill_keeps_locks(l1, t.taker_order_id, t.amount, t.price);
}

/// A transfer between two assets of one user moves exactly the amount:
/// the free balance of `from` goes down by it and that of `to` up by it
/// (where the two decimal operations are exact), no locked balance changes,
/// and no other row changes; it is refused exactly when less than the
/// amount is free in `from`.
pub proof fn law_transfer_moves_amount(m: Balances, u: u64, from: Seq<char>, to: Seq<char>, amt: Decimal)
    requires
        from != to,
        sub_r(bal(m, u, from).free, amt).value() == bal(m, u, from).free.value() - amt.value(),
        add_r(bal(m, u, to).free, amt).value() == bal(m, u, to).free.value() + amt.value(),
    ensures
        (transfer_spec(m, u, from, to, amt).1 is Some) <==> bal(m, u, from).free.value() < amt.value(),
        transfer_spec(m, u, from, to, amt).1 is None ==> ({
            let m2 = transfer_spec(m, u, from, to, amt).0;
            &&& bal(m2, u, from).free.value() == bal(m, u, from).free.value() - amt.value()
            &&& bal(m2, u, to).free.value() == bal(m, u, to).free.value() + amt.value()
            &&& bal(m2, u, from).locked == bal(m, u, from).locked
            &&& bal(m2, u, to).locked == bal(m, u, to).locked
            &&& forall|k: (u64, Seq<char>)|
                k != (u, from) && k != (u, to) ==> m2.contains_key(k) == m.contains_key(k) && (m.contains_key(k)
                    ==> m2[k] == m[k])
        }),
{
}

} // verus!
