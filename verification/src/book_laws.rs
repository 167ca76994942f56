//! Laws of the order book that relate its operations.

use vstd::prelude::*;

use crate::decimal::Decimal;
use crate::order_book::{
    BookModel, LevelModel, add_spec, book_has, cancel_spec, fill_spec, has_id, insert_order, insert_pos,
    lemma_count_remove_at, lemma_insert_has_id, lemma_insert_new_order, lemma_insert_pos, lemma_insert_side, level_has,
    match_spec, opposite, pos_of, remove_at, resting_ok, valid_book,
};
use crate::types::{EngineError, Order, Side, Trade};

verus! {

/// After inserting `o` into a side that did not hold its id, the order
/// with that id is `o` and removing it gives the side back.
proof fn lemma_remove_inserted(levels: Seq<LevelModel>, o: Order, is_bid: bool)
    requires
        !has_id(levels, o.id),
        levels_ok(levels, is_bid),
        resting_ok(o),
        o.side == (if is_bid { Side::Buy } else { Side::Sell }),
    ensures
        has_id(insert_order(levels, o, is_bid), o.id),
        ({
            let s2 = insert_order(levels, o, is_bid);
            let (i, j) = pos_of(s2, o.id);
            s2[i].orders[j] == o && remove_at(s2, i, j) == levels
        }),
{
    let s2 = insert_order(levels, o, is_bid);
    lemma_insert_has_id(levels, o, is_bid, o.id);
    lemma_insert_side(levels, o, is_bid);
    lemma_insert_pos(levels, o.price, is_bid);
    let (i, j) = pos_of(s2, o.id);
    assert(level_has(s2, i, j) && s2[i].orders[j].id == o.id);
    lemma_insert_new_order(levels, o, is_bid, i, j);
    let k = insert_pos(levels, o.price, is_bid) as int;
    if k < levels.len() && levels[k].price.value() == o.price.value() {
        let n = levels[k].orders.len() as int;
        assert(s2[k].orders[n] == o);
        assert(level_has(s2, k, n));
        assert(i == k && j == n);
        assert(s2[k].orders.len() == n + 1);
        assert(levels[k].orders.len() > 0);
        assert(s2[k].orders.remove(n) =~= levels[k].orders);
        assert(remove_at(s2, i, j) =~= levels);
    } else {
        assert(s2[k].orders[0] == o);
        assert(level_has(s2, k, 0));
        assert(i == k && j == 0);
        assert(remove_at(s2, i, j) =~= levels);
    }
}

/// The parts of the book invariant that one side keeps on its own.
pub open spec fn levels_ok(levels: Seq<LevelModel>, is_bid: bool) -> bool {
    &&& crate::order_book::sorted_levels(levels, is_bid)
    &&& crate::order_book::levels_wf(levels, is_bid)
    &&& crate::order_book::ids_unique(levels)
}

/// Adding an order and then cancelling it by its id gives back the book as
/// it was, and the cancel returns the order as it was added.
pub proof fn law_add_then_cancel(b: BookModel, o: Order)
    requires
        valid_book(b),
        o.wf(),
        o.remaining.value() > 0,
        add_spec(b, o) is Ok,
    ensures
        cancel_spec(add_spec(b, o)->Ok_0, o.id) == Ok::<(BookModel, Order), EngineError>((b, o)),
{
    let b2 = add_spec(b, o)->Ok_0;
    assert(!book_has(b, o.id));
    match o.side {
        Side::Buy => {
            lemma_remove_inserted(b.bids, o, true);
            assert(b2.bids == insert_order(b.bids, o, true));
            let (i, j) = pos_of(b2.bids, o.id);
            assert(BookModel { bids: remove_at(b2.bids, i, j), asks: b2.asks } == b);
        },
        Side::Sell => {
            lemma_remove_inserted(b.asks, o, false);
            assert(b2.bids == b.bids);
            assert(!has_id(b2.bids, o.id));
            let (i, j) = pos_of(b2.asks, o.id);
            assert(BookModel { bids: b2.bids, asks: remove_at(b2.asks, i, j) } == b);
        },
    }
}

/// The best bid is the highest price of any resting buy order.
pub proof fn law_best_bid_is_highest(b: BookModel)
    requires
        valid_book(b),
    ensures
        forall|i: int, j: int|
            level_has(b.bids, i, j) ==> (#[trigger] b.bids[i].orders[j]).price.value() <= b.bids[0].price.value(),
{
    assert forall|i: int, j: int| level_has(b.bids, i, j) implies (#[trigger] b.bids[i].orders[j]).price.value()
        <= b.bids[0].price.value() by {
        if i > 0 {
            assert(crate::order_book::better(true, b.bids[0].price, b.bids[i].price));
        }
    }
}

/// The best ask is the lowest price of any resting sell order.
pub proof fn law_best_ask_is_lowest(b: BookModel)
    requires
        valid_book(b),
    ensures
        forall|i: int, j: int|
            level_has(b.asks, i, j) ==> (#[trigger] b.asks[i].orders[j]).price.value() >= b.asks[0].price.value(),
{
    assert forall|i: int, j: int| level_has(b.asks, i, j) implies (#[trigger] b.asks[i].orders[j]).price.value()
        >= b.asks[0].price.value() by {
        if i > 0 {
            assert(crate::order_book::better(false, b.asks[0].price, b.asks[i].price));
        }
    }
}

/// The resting orders of a side in priority order, each as its id, its
/// level's price and its user: the best level first, the oldest order first
/// within it.
pub open spec fn priority_queue(levels: Seq<LevelModel>) -> Seq<(u64, Decimal, u64)>
    decreases levels.len(),
{
    if levels.len() == 0 {
        Seq::empty()
    } else {
        levels[0].orders.map_values(|o: Order| (o.id, levels[0].price, o.user_id)) + priority_queue(
            levels.drop_first(),
        )
    }
}

/// Taking the first order of the best level takes the head of the queue.
proof fn lemma_queue_pop_front(levels: Seq<LevelModel>)
    requires
        levels.len() > 0,
        levels[0].orders.len() > 0,
    ensures
        priority_queue(levels).len() > 0,
        priority_queue(levels)[0] == (levels[0].orders[0].id, levels[0].price, levels[0].orders[0].user_id),
        priority_queue(remove_at(levels, 0, 0)) == priority_queue(levels).drop_first(),
{
    let head = levels[0].orders.map_values(|o: Order| (o.id, levels[0].price, o.user_id));
    let rest = priority_queue(levels.drop_first());
    assert(priority_queue(levels) == head + rest);
    assert((head + rest)[0] == head[0]);
    if levels[0].orders.len() == 1 {
        assert(levels.remove(0) =~= levels.drop_first());
        assert(head.drop_first() =~= Seq::<(u64, Decimal, u64)>::empty());
        assert((head + rest).drop_first() =~= rest);
    } else {
        let l2 = LevelModel { price: levels[0].price, orders: levels[0].orders.remove(0) };
        let s2 = levels.update(0, l2);
        assert(s2.drop_first() =~= levels.drop_first());
        assert(l2.orders.map_values(|o: Order| (o.id, l2.price, o.user_id)) =~= head.drop_first());
        assert((head + rest).drop_first() =~= head.drop_first() + rest);
    }
}

/// On a side sorted best first, the queue's prices never get better: each
/// is no better than the best level's, and a later one is no better than an
/// earlier one.
proof fn lemma_queue_prices_worsen(levels: Seq<LevelModel>, is_bid: bool)
    requires
        crate::order_book::sorted_levels(levels, is_bid),
    ensures
        ({
            let q = priority_queue(levels);
            &&& forall|m: int|
                0 <= m < q.len() ==> !crate::order_book::better(is_bid, (#[trigger] q[m]).1, levels[0].price)
            &&& forall|k: int, l: int|
                0 <= k < l < q.len() ==> !crate::order_book::better(is_bid, (#[trigger] q[l]).1, (#[trigger] q[k]).1)
        }),
    decreases levels.len(),
{
    if levels.len() > 0 {
        let rest_levels = levels.drop_first();
        assert(crate::order_book::sorted_levels(rest_levels, is_bid)) by {
            assert forall|i: int, j: int| 0 <= i < j < rest_levels.len() implies crate::order_book::better(
                is_bid,
                #[trigger] rest_levels[i].price,
                #[trigger] rest_levels[j].price,
            ) by {
                assert(rest_levels[i] == levels[i + 1] && rest_levels[j] == levels[j + 1]);
            }
        }
        lemma_queue_prices_worsen(rest_levels, is_bid);
        let head = levels[0].orders.map_values(|o: Order| (o.id, levels[0].price, o.user_id));
        let rest = priority_queue(rest_levels);
        let q = priority_queue(levels);
        assert(q == head + rest);
        if rest_levels.len() > 0 {
            assert(crate::order_book::better(is_bid, levels[0].price, levels[1].price));
            assert(rest_levels[0] == levels[1]);
        } else {
            assert(rest.len() == 0);
        }
        assert forall|m: int| 0 <= m < q.len() implies !crate::order_book::better(
            is_bid,
            (#[trigger] q[m]).1,
            levels[0].price,
        ) by {
            if m >= head.len() {
                assert(q[m] == rest[m - head.len()]);
            }
        }
        assert forall|k: int, l: int| 0 <= k < l < q.len() implies !crate::order_book::better(
            is_bid,
            (#[trigger] q[l]).1,
            (#[trigger] q[k]).1,
        ) by {
            if l >= head.len() {
                assert(q[l] == rest[l - head.len()]);
                if k >= head.len() {
                    assert(q[k] == rest[k - head.len()]);
                }
            }
        }
    }
}

/// A run of fills appends, for each fill, the id and level price of the
/// next order in the queue; that order belongs to another user than the
/// taker's, and its price crosses the taker's limit.
proof fn lemma_fill_follows_queue(levels: Seq<LevelModel>, taker: Order, trades: Seq<Trade>, is_buy: bool)
    ensures
        ({
            let tr = fill_spec(levels, taker, trades, is_buy).2;
            let q = priority_queue(levels);
            &&& trades.len() <= tr.len() <= trades.len() + q.len()
            &&& forall|k: int| 0 <= k < trades.len() ==> tr[k] == trades[k]
            &&& forall|k: int|
                trades.len() <= k < tr.len() ==> (#[trigger] tr[k]).maker_order_id == q[k - trades.len()].0
                    && tr[k].price == q[k - trades.len()].1 && q[k - trades.len()].2 != taker.user_id
                    && crate::order_book::crosses(tr[k].price, taker.price, is_buy)
        }),
    decreases crate::order_book::count(levels),
{
    if levels.len() == 0 || levels[0].orders.len() == 0 || !crate::order_book::crosses(
        levels[0].price,
        taker.price,
        is_buy,
    ) || levels[0].orders[0].user_id == taker.user_id {
    } else {
        lemma_queue_pop_front(levels);
        let maker = levels[0].orders[0];
        let q = crate::order_book::min_spec(taker.remaining, maker.remaining);
        let maker_left = crate::order_book::diff(maker.remaining, q);
        let taker_left = crate::order_book::diff(taker.remaining, q);
        let trade = Trade {
            maker_order_id: maker.id,
            taker_order_id: taker.id,
            symbol: taker.symbol,
            price: levels[0].price,
            amount: q,
        };
        let taker2 = crate::order_book::with_remaining(taker, taker_left);
        let trades2 = trades.push(trade);
        if maker_left.value() == 0 && taker_left.value() != 0 {
            let rest = remove_at(levels, 0, 0);
            assert(level_has(levels, 0, 0));
            lemma_count_remove_at(levels, 0, 0);
            lemma_fill_follows_queue(rest, taker2, trades2, is_buy);
            let tr = fill_spec(levels, taker, trades, is_buy).2;
            assert(tr == fill_spec(rest, taker2, trades2, is_buy).2);
            assert forall|k: int| trades.len() <= k < tr.len() implies (#[trigger] tr[k]).maker_order_id
                == priority_queue(levels)[k - trades.len()].0 && tr[k].price == priority_queue(levels)[k
                - trades.len()].1 && priority_queue(levels)[k - trades.len()].2 != taker.user_id
                && crate::order_book::crosses(tr[k].price, taker.price, is_buy) by {
                if k == trades.len() {
                    assert(tr[k] == trades2[k]);
                } else {
                    assert(priority_queue(rest)[k - trades2.len()] == priority_queue(levels)[k - trades.len()]);
                }
            }
        }
    }
}

/// Matching follows price-time priority: the `k`-th trade of a match fills
/// the `k`-th resting order of the opposite side in priority order (best
/// price first, oldest first at a price), at that order's level price. No
/// trade fills an order of the taker's own user; every trade price is within
/// the taker's limit (at most it for a buy, at least it for a sell); and on
/// a valid book a later trade's price is never better for the taker than an
/// earlier one's (non-decreasing for a buy, non-increasing for a sell).
pub proof fn law_price_time_priority(b: BookModel, taker: Order)
    ensures
        match_spec(b, taker) matches Ok((_, trades)) ==> ({
            let q = priority_queue(opposite(b, taker));
            let is_buy = taker.side == Side::Buy;
            &&& trades.len() <= q.len()
            &&& forall|k: int|
                0 <= k < trades.len() ==> (#[trigger] trades[k]).maker_order_id == q[k].0 && trades[k].price
                    == q[k].1 && q[k].2 != taker.user_id
            &&& forall|k: int|
                0 <= k < trades.len() ==> if is_buy {
                    (#[trigger] trades[k]).price.value() <= taker.price.value()
                } else {
                    trades[k].price.value() >= taker.price.value()
                }
            &&& valid_book(b) ==> forall|k: int, l: int|
                0 <= k < l < trades.len() ==> if is_buy {
                    (#[trigger] trades[k]).price.value() <= (#[trigger] trades[l]).price.value()
                } else {
                    trades[k].price.value() >= trades[l].price.value()
                }
        }),
{
    let is_buy = taker.side == Side::Buy;
    let opp = opposite(b, taker);
    lemma_fill_follows_queue(opp, taker, Seq::empty(), is_buy);
    if valid_book(b) {
        lemma_queue_prices_worsen(opp, !is_buy);
    }
    if match_spec(b, taker) is Ok {
        let trades = match_spec(b, taker)->Ok_0.1;
        let q = priority_queue(opp);
        assert(trades == fill_spec(opp, taker, Seq::empty(), is_buy).2);
        if valid_book(b) {
            assert forall|k: int, l: int| 0 <= k < l < trades.len() implies if is_buy {
                (#[trigger] trades[k]).price.value() <= (#[trigger] trades[l]).price.value()
            } else {
                trades[k].price.value() >= trades[l].price.value()
            } by {
                assert(trades[k].price == q[k].1 && trades[l].price == q[l].1);
                assert(!crate::order_book::better(!is_buy, q[l].1, q[k].1));
            }
        }
    }
}

} // verus!
