//! Order placement and cancellation across the engine and the ledger: funds
//! are reserved before an order meets the book, a refused order gives its
//! reservation back, every trade is settled, and a cancelled order releases
//! what it still holds.

use vstd::prelude::*;

use crate::engine::{empty_book, Engine};
use crate::ledger::{
    bal, cancel_ok, fill_order_ok, fill_order_spec, lock_of, reserve_ok, reserve_spec, trade_fill_ok, trade_fill_spec,
    InMemoryLedger, LedgerError, LedgerFault, LedgerModel,
};
use crate::ledger_laws::{law_cancel_returns_reserved_funds, round_trip_exact};
use crate::order_book::{match_spec, BookModel};
use crate::types::{EngineError, Order, Trade};

verus! {

/// Why placing an order failed, by the step that refused it.
#[derive(Debug, PartialEq, Eq)]
pub enum PlaceError {
    /// The ledger could not lock the funds the order needs.
    Reserve(LedgerError),
    /// The book refused the order; its reservation was given back.
    Match(EngineError),
    /// Settling one of the trades was refused; the ones before it stand.
    Settle(LedgerError),
}

/// Why cancelling an order failed.
#[derive(Debug, PartialEq, Eq)]
pub enum CancelError {
    /// The book has no such order; nothing changed.
    Engine(EngineError),
    /// The order left the book but its reservation could not be released.
    Release(LedgerError),
}

/// How settling a run of trades ended.
pub enum SettleEnd {
    Settled,
    Refused(LedgerFault),
    Overflow,
}

/// How placing an order ended.
pub enum PlaceOutcome {
    Placed(Seq<Trade>),
    Reserve(LedgerFault),
    Match(EngineError),
    Settle(LedgerFault),
    Overflow,
}

/// Settling `ts` in order on ledger `l`: each trade as `apply_trade_fill`
/// settles it, stopping at the first refusal; `Overflow` where a fill's
/// arithmetic does not fit (the maker's fill stands when only the taker's
/// overflows).
pub open spec fn settle_spec(l: LedgerModel, ts: Seq<Trade>) -> (LedgerModel, SettleEnd)
    decreases ts.len(),
{
    if ts.len() == 0 {
        (l, SettleEnd::Settled)
    } else if !trade_fill_ok(l, ts[0]) {
        (
            if fill_order_ok(l, ts[0].maker_order_id, ts[0].amount, ts[0].price) {
                fill_order_spec(l, ts[0].maker_order_id, ts[0].amount, ts[0].price).0
            } else {
                l
            },
            SettleEnd::Overflow,
        )
    } else {
        let (l2, f) = trade_fill_spec(l, ts[0]);
        match f {
            Some(e) => (l2, SettleEnd::Refused(e)),
            None => settle_spec(l2, ts.drop_first()),
        }
    }
}

/// The ledgers that applying the trades `ts` one by one from `l` passes
/// through: `l`, then each ledger after `apply_trade_fill` of the next
/// trade.
pub open spec fn fill_chain(l: LedgerModel, ts: Seq<Trade>) -> Seq<LedgerModel>
    decreases ts.len(),
{
    if ts.len() == 0 {
        seq![l]
    } else {
        seq![l] + fill_chain(trade_fill_spec(l, ts[0]).0, ts.drop_first())
    }
}

/// Settling runs every trade through the ledger: a run that ends settled
/// applied every trade in order, each fill succeeding, and ends at the
/// ledger after the last one.
pub proof fn law_settled_run_fills_every_trade(l: LedgerModel, ts: Seq<Trade>)
    ensures
        fill_chain(l, ts).len() == ts.len() + 1,
        fill_chain(l, ts)[0] == l,
        settle_spec(l, ts).1 is Settled ==> {
            &&& settle_spec(l, ts).0 == fill_chain(l, ts)[ts.len() as int]
            &&& forall|k: int|
                #![trigger ts[k]]
                0 <= k < ts.len() ==> trade_fill_ok(fill_chain(l, ts)[k], ts[k]) && trade_fill_spec(
                    fill_chain(l, ts)[k],
                    ts[k],
                ) == (fill_chain(l, ts)[k + 1], None::<LedgerFault>)
        },
    decreases ts.len(),
{
    if ts.len() > 0 {
        let l2 = trade_fill_spec(l, ts[0]).0;
        let rest = ts.drop_first();
        law_settled_run_fills_every_trade(l2, rest);
        let c = fill_chain(l, ts);
        let c0 = fill_chain(l2, rest);
        assert(c == seq![l] + c0);
        if settle_spec(l, ts).1 is Settled {
            assert(trade_fill_ok(l, ts[0]) && trade_fill_spec(l, ts[0]).1 is None);
            assert(settle_spec(l, ts) == settle_spec(l2, rest));
            assert(settle_spec(l2, rest).1 is Settled);
            assert(settle_spec(l2, rest).0 == c0[rest.len() as int]);
            assert forall|k: int| #![trigger ts[k]] 0 <= k < ts.len() implies trade_fill_ok(c[k], ts[k]) && trade_fill_spec(
                c[k],
                ts[k],
            ) == (c[k + 1], None::<LedgerFault>) by {
                if k > 0 {
                    assert(c[k] == c0[k - 1]);
                    assert(c[k + 1] == c0[k]);
                    assert(ts[k] == rest[k - 1]);
                } else {
                    assert(c[1] == c0[0]);
                }
            }
            assert(c[ts.len() as int] == c0[rest.len() as int]);
        }
    } else {
        assert(fill_chain(l, ts) == seq![l]);
    }
}

/// Settling two runs of trades one after the other is settling them as one
/// run: the second run starts from where a settled first run ended, and a
/// first run that stopped early stops the whole.
pub proof fn law_settle_concat(l: LedgerModel, a: Seq<Trade>, b: Seq<Trade>)
    ensures
        settle_spec(l, a + b) == (if settle_spec(l, a).1 is Settled {
            settle_spec(settle_spec(l, a).0, b)
        } else {
            settle_spec(l, a)
        }),
    decreases a.len(),
{
    if a.len() == 0 {
        assert(a + b =~= b);
    } else {
        assert((a + b)[0] == a[0]);
        assert((a + b).drop_first() =~= a.drop_first() + b);
        let l2 = trade_fill_spec(l, a[0]).0;
        law_settle_concat(l2, a.drop_first(), b);
    }
}

/// The book of `sym` in the books `e`, or an empty one.
pub open spec fn book_in(e: Map<Seq<char>, BookModel>, sym: Seq<char>) -> BookModel {
    if e.contains_key(sym) {
        e[sym]
    } else {
        empty_book()
    }
}

/// Placing `order` on books `e` and ledger `l`: reserve its funds, match it
/// against its symbol's book (created if missing), give the reservation
/// back if the book refuses it, else settle the trades. The books and the
/// ledger after, and the outcome.
pub open spec fn place_spec(
    e: Map<Seq<char>, BookModel>,
    l: LedgerModel,
    order: Order,
    base: Seq<char>,
    quote: Seq<char>,
) -> (Map<Seq<char>, BookModel>, LedgerModel, PlaceOutcome) {
    if !reserve_ok(l, order, base, quote) {
        (e, l, PlaceOutcome::Overflow)
    } else {
        let (l1, f1) = reserve_spec(l, order, base, quote);
        match f1 {
            Some(f) => (e, l1, PlaceOutcome::Reserve(f)),
            None => {
                let sym = order.symbol@;
                let b0 = book_in(e, sym);
                match match_spec(b0, order) {
                    Err(err) => {
                        let e2 = e.insert(sym, b0);
                        if cancel_ok(l1, order.id) {
                            (e2, crate::ledger::cancel_spec(l1, order.id).0, PlaceOutcome::Match(err))
                        } else {
                            (e2, l1, PlaceOutcome::Overflow)
                        }
                    },
                    Ok((b, ts)) => {
                        let (l2, end) = settle_spec(l1, ts);
                        (
                            e.insert(sym, b),
                            l2,
                            match end {
                                SettleEnd::Settled => PlaceOutcome::Placed(ts),
                                SettleEnd::Refused(f) => PlaceOutcome::Settle(f),
                                SettleEnd::Overflow => PlaceOutcome::Overflow,
                            },
                        )
                    },
                }
            },
        }
    }
}

/// `r` is what `place_limit_order` returns for `outcome`.
pub open spec fn place_result(r: Option<Result<Vec<Trade>, PlaceError>>, outcome: PlaceOutcome) -> bool {
    match outcome {
        PlaceOutcome::Placed(ts) => r matches Some(Ok(v)) && v@ == ts,
        PlaceOutcome::Reserve(f) => r matches Some(Err(PlaceError::Reserve(e))) && e@ == f,
        PlaceOutcome::Match(err) => r == Some(Err::<Vec<Trade>, PlaceError>(PlaceError::Match(err))),
        PlaceOutcome::Settle(f) => r matches Some(Err(PlaceError::Settle(e))) && e@ == f,
        PlaceOutcome::Overflow => r is None,
    }
}

/// How cancelling an order ended.
pub enum CancelOutcome {
    Cancelled(Order),
    NotInBook(EngineError),
    ReleaseRefused(LedgerFault),
    Overflow,
}

/// Cancelling `id` in the book of `sym`: the book gives the order up, then
/// the ledger releases its reservation. The books and the ledger after, and
/// the outcome.
pub open spec fn cancel_release_spec(e: Map<Seq<char>, BookModel>, l: LedgerModel, sym: Seq<char>, id: u64) -> (
    Map<Seq<char>, BookModel>,
    LedgerModel,
    CancelOutcome,
) {
    if !e.contains_key(sym) {
        (e, l, CancelOutcome::NotInBook(EngineError::OrderNotFound(id)))
    } else {
        match crate::order_book::cancel_spec(e[sym], id) {
            Err(err) => (e, l, CancelOutcome::NotInBook(err)),
            Ok((b, o)) => {
                if !cancel_ok(l, id) {
                    (e.insert(sym, b), l, CancelOutcome::Overflow)
                } else {
                    let (l2, f) = crate::ledger::cancel_spec(l, id);
                    (
                        e.insert(sym, b),
                        l2,
                        match f {
                            None => CancelOutcome::Cancelled(o),
                            Some(fault) => CancelOutcome::ReleaseRefused(fault),
                        },
                    )
                }
            },
        }
    }
}

/// `r` is what `cancel_and_release` returns for `outcome`.
pub open spec fn cancel_result(r: Option<Result<Order, CancelError>>, outcome: CancelOutcome) -> bool {
    match outcome {
        CancelOutcome::Cancelled(o) => r == Some(Ok::<Order, CancelError>(o)),
        CancelOutcome::NotInBook(err) => r == Some(Err::<Order, CancelError>(CancelError::Engine(err))),
        CancelOutcome::ReleaseRefused(f) => r matches Some(Err(CancelError::Release(e))) && e@ == f,
        CancelOutcome::Overflow => r is None,
    }
}

/// An order that the book refuses costs its user nothing: when the funds
/// were reserved and the match was refused, the reservations are as before
/// and the free and locked balances of the locked asset have their former
/// values (on inputs where locking and releasing are exact), and no other
/// balance changed.
pub proof fn law_refused_order_returns_funds(
    e: Map<Seq<char>, BookModel>,
    l: LedgerModel,
    o: Order,
    base: Seq<char>,
    quote: Seq<char>,
)
    requires
        !l.reservations.contains_key(o.id),
        round_trip_exact(l, o, base, quote),
        place_spec(e, l, o, base, quote).2 is Match,
    ensures
        ({
            let l3 = place_spec(e, l, o, base, quote).1;
            let a = lock_of(o, base, quote).0;
            &&& l3.reservations == l.reservations
            &&& bal(l3.balances, o.user_id, a).free.value() == bal(l.balances, o.user_id, a).free.value()
            &&& bal(l3.balances, o.user_id, a).locked.value() == bal(l.balances, o.user_id, a).locked.value()
            &&& forall|k: (u64, Seq<char>)|
                k != (o.user_id, a) ==> l3.balances.contains_key(k) == l.balances.contains_key(k) && (
                l.balances.contains_key(k) ==> l3.balances[k] == l.balances[k])
        }),
{
    law_cancel_returns_reserved_funds(l, o, base, quote);
}

/// Settles `trades` in order, stopping at the first refusal; `None` when a
/// fill's arithmetic does not fit.
fn settle_trades(ledger: &mut InMemoryLedger, trades: &Vec<Trade>) -> (r: Option<Result<(), LedgerError>>)
    requires
        old(ledger).wf(),
        forall|k: int| 0 <= k < trades@.len() ==> (#[trigger] trades@[k]).price.wf() && trades@[k].amount.wf(),
    ensures
        final(ledger).wf(),
        final(ledger)@ == settle_spec(old(ledger)@, trades@).0,
        match settle_spec(old(ledger)@, trades@).1 {
            SettleEnd::Settled => r == Some(Ok::<(), LedgerError>(())),
            SettleEnd::Refused(f) => r matches Some(Err(e)) && e@ == f,
            SettleEnd::Overflow => r is None,
        },
{
    let ghost l0 = ledger@;
    let mut i: usize = 0;
    assert(trades@.subrange(0, trades@.len() as int) =~= trades@);
    while i < trades.len()
        invariant
            i <= trades@.len(),
            l0 == old(ledger)@,
            ledger.wf(),
            forall|k: int| 0 <= k < trades@.len() ==> (#[trigger] trades@[k]).price.wf() && trades@[k].amount.wf(),
            settle_spec(ledger@, trades@.subrange(i as int, trades@.len() as int)) == settle_spec(l0, trades@),
        decreases trades@.len() - i,
    {
        let ghost rest = trades@.subrange(i as int, trades@.len() as int);
        let ghost lb = ledger@;
        assert(rest[0] == trades@[i as int]);
        match ledger.try_apply_trade_fill(&trades[i]) {
            None => {
                assert(!trade_fill_ok(lb, rest[0]));
                assert(settle_spec(lb, rest).0 == ledger@);
                return None;
            },
            Some(Err(e)) => {
                assert(settle_spec(lb, rest).0 == ledger@);
                return Some(Err(e));
            },
            Some(Ok(())) => {},
        }
        assert(rest.drop_first() =~= trades@.subrange(i + 1, trades@.len() as int));
        i = i + 1;
    }
    assert(trades@.subrange(i as int, trades@.len() as int) =~= Seq::<Trade>::empty());
    Some(Ok(()))
}

/// Places a limit order: locks the funds it needs (the quote asset
/// `price * amount` for a buy, the base `amount` for a sell), matches it
/// against the book of its symbol, and settles every trade in the ledger.
/// A refused reservation changes nothing; a refused match gives the
/// reservation back; a refused settlement leaves the trades before it
/// settled. Returns the trades, or `None` where a decimal result would not
/// fit.
pub fn place_limit_order(
    engine: &mut Engine,
    ledger: &mut InMemoryLedger,
    order: Order,
    base_asset: &str,
    quote_asset: &str,
) -> (r: Option<Result<Vec<Trade>, PlaceError>>)
    requires
        old(engine).wf(),
        old(ledger).wf(),
        order.wf(),
        order.price.value() > 0 && order.amount.value() > 0 ==> order.remaining.value() > 0,
    ensures
        final(engine).wf(),
        final(ledger).wf(),
        ({
            let (e2, l2, outcome) = place_spec(old(engine)@, old(ledger)@, order, base_asset@, quote_asset@);
            final(engine)@ == e2 && final(ledger)@ == l2 && place_result(r, outcome)
        }),
{
    match ledger.try_reserve_for_new_order(&order, base_asset, quote_asset) {
        None => {
            return None;
        },
        Some(Err(e)) => {
            return Some(Err(PlaceError::Reserve(e)));
        },
        Some(Ok(())) => {},
    }
    let order_id = order.id;
    let ghost o = order;
    assert(old(engine).book_for(o.symbol@) == book_in(old(engine)@, o.symbol@));
    match engine.match_order(order) {
        Err(e) => {
            match ledger.try_cancel_reservation(order_id) {
                None => None,
                Some(_) => Some(Err(PlaceError::Match(e))),
            }
        },
        Ok(trades) => {
            match settle_trades(ledger, &trades) {
                None => None,
                Some(Err(e)) => Some(Err(PlaceError::Settle(e))),
                Some(Ok(())) => Some(Ok(trades)),
            }
        },
    }
}

/// Cancels the resting order `order_id` of the `symbol` book and releases
/// what its reservation still holds. A book without the order changes
/// nothing; `None` when the release's arithmetic does not fit.
pub fn cancel_and_release(engine: &mut Engine, ledger: &mut InMemoryLedger, symbol: &str, order_id: u64) -> (r: Option<
    Result<Order, CancelError>,
>)
    requires
        old(engine).wf(),
        old(ledger).wf(),
    ensures
        final(engine).wf(),
        final(ledger).wf(),
        ({
            let (e2, l2, outcome) = cancel_release_spec(old(engine)@, old(ledger)@, symbol@, order_id);
            final(engine)@ == e2 && final(ledger)@ == l2 && cancel_result(r, outcome)
        }),
{
    match engine.cancel_order(symbol, order_id) {
        Err(e) => Some(Err(CancelError::Engine(e))),
        Ok(o) => {
            match ledger.try_cancel_reservation(order_id) {
                None => None,
                Some(Err(e)) => Some(Err(CancelError::Release(e))),
                Some(Ok(())) => Some(Ok(o)),
            }
        },
    }
}

} // verus!
