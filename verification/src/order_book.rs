//! Central limit order book with price-time priority.
//!
//! Each side is a sequence of price levels, best price first (bids highest
//! first, asks lowest first); each level holds its orders oldest first, so
//! the front of the first level is always the next maker to trade.
//! `order_map` indexes every resting order id to its side and price.

use std::collections::HashMap;
use vstd::prelude::*;

use crate::decimal::{
    Comparison, Decimal, MAX_MANTISSA, aligned_scale, checked_add, checked_sub, decimal_sum, unit, compare, decimal_difference, exact_at_aligned_scale,
    lemma_self_difference, lemma_value_sign, min,
};
use crate::quantity::{
    lemma_fits_between, lemma_fits_coarser, lemma_side_total_front_update, lemma_side_total_insert_order, lemma_side_total_pop_front,
    lemma_traded_total_push, on_grid, side_on_grid, side_total, traded_total,
};
use crate::types::{EngineError, Order, Side, Trade};

verus! {

broadcast use vstd::std_specs::hash::group_hash_axioms;

/// One aggregated level of a depth snapshot: (price, total remaining).
pub type DepthLevel = (Decimal, Decimal);

/// Bids then asks.
pub type DepthSnapshot = (Vec<DepthLevel>, Vec<DepthLevel>);

/// The resting orders at one price, oldest first.
#[derive(Debug)]
pub struct PriceLevel {
    pub price: Decimal,
    pub orders: Vec<Order>,
}

/// A price level as a mathematical value.
pub struct LevelModel {
    pub price: Decimal,
    pub orders: Seq<Order>,
}

impl View for PriceLevel {
    type V = LevelModel;

    open spec fn view(&self) -> LevelModel {
        LevelModel { price: self.price, orders: self.orders@ }
    }
}

/// The levels of one side as mathematical values.
pub open spec fn levels_view(v: Seq<PriceLevel>) -> Seq<LevelModel> {
    v.map_values(|l: PriceLevel| l@)
}

/// The two sides of a book.
pub struct BookModel {
    pub bids: Seq<LevelModel>,
    pub asks: Seq<LevelModel>,
}

/// Central limit order book.
#[derive(Debug)]
pub struct OrderBook {
    bids: Vec<PriceLevel>,
    asks: Vec<PriceLevel>,
    order_map: HashMap<u64, (Side, Decimal)>,
}

/// The side whose levels are bids (`true`) or asks (`false`).
pub open spec fn side_of(is_bid: bool) -> Side {
    if is_bid {
        Side::Buy
    } else {
        Side::Sell
    }
}

/// `p` comes before `q` on that side: higher for bids, lower for asks.
pub open spec fn better(is_bid: bool, p: Decimal, q: Decimal) -> bool {
    if is_bid {
        p.value() > q.value()
    } else {
        p.value() < q.value()
    }
}

/// Strictly best price first.
pub open spec fn sorted_levels(levels: Seq<LevelModel>, is_bid: bool) -> bool {
    forall|i: int, j: int|
        0 <= i < j < levels.len() ==> better(is_bid, #[trigger] levels[i].price, #[trigger] levels[j].price)
}

/// A resting order: representable, positive price, something left to fill.
pub open spec fn resting_ok(o: Order) -> bool {
    o.wf() && o.price.value() > 0 && o.remaining.value() > 0
}

/// `o` belongs on a level of price `p` on that side.
pub open spec fn fits_level(o: Order, p: Decimal, is_bid: bool) -> bool {
    resting_ok(o) && o.side == side_of(is_bid) && o.price.value() == p.value()
}

/// Position `(i, j)` holds an order.
pub open spec fn level_has(levels: Seq<LevelModel>, i: int, j: int) -> bool {
    0 <= i < levels.len() && 0 <= j < levels[i].orders.len()
}

/// Every level is non-empty, has a positive representable price and holds
/// only orders of its side and price.
pub open spec fn levels_wf(levels: Seq<LevelModel>, is_bid: bool) -> bool {
    &&& forall|i: int|
        0 <= i < levels.len() ==> (#[trigger] levels[i]).orders.len() > 0 && levels[i].price.wf()
            && levels[i].price.value() > 0
    &&& forall|i: int, j: int|
        level_has(levels, i, j) ==> fits_level(#[trigger] levels[i].orders[j], levels[i].price, is_bid)
}

/// Some resting order on these levels has id `id`.
pub open spec fn has_id(levels: Seq<LevelModel>, id: u64) -> bool {
    exists|i: int, j: int| level_has(levels, i, j) && (#[trigger] levels[i].orders[j]).id == id
}

/// No id occurs twice on these levels.
pub open spec fn ids_unique(levels: Seq<LevelModel>) -> bool {
    forall|i1: int, j1: int, i2: int, j2: int|
        level_has(levels, i1, j1) && level_has(levels, i2, j2) && (#[trigger] levels[i1].orders[j1]).id
            == (#[trigger] levels[i2].orders[j2]).id ==> i1 == i2 && j1 == j2
}

/// No id occurs on both sides.
pub open spec fn sides_disjoint(bids: Seq<LevelModel>, asks: Seq<LevelModel>) -> bool {
    forall|id: u64| !(#[trigger] has_id(bids, id) && #[trigger] has_id(asks, id))
}

/// Every order of a side is indexed to its side and price.
pub open spec fn map_side(levels: Seq<LevelModel>, is_bid: bool, m: Map<u64, (Side, Decimal)>) -> bool {
    forall|i: int, j: int|
        level_has(levels, i, j) ==> m.contains_key((#[trigger] levels[i].orders[j]).id)
            && m[levels[i].orders[j].id] == (side_of(is_bid), levels[i].orders[j].price)
}

/// Number of resting orders on these levels.
pub open spec fn count(levels: Seq<LevelModel>) -> nat
    decreases levels.len(),
{
    if levels.len() == 0 {
        0
    } else {
        levels[0].orders.len() + count(levels.drop_first())
    }
}

/// The invariant of a book given by its two sides and its index.
pub open spec fn book_inv(bids: Seq<LevelModel>, asks: Seq<LevelModel>, m: Map<u64, (Side, Decimal)>) -> bool {
    &&& sorted_levels(bids, true)
    &&& sorted_levels(asks, false)
    &&& levels_wf(bids, true)
    &&& levels_wf(asks, false)
    &&& ids_unique(bids)
    &&& ids_unique(asks)
    &&& sides_disjoint(bids, asks)
    &&& map_side(bids, true, m)
    &&& map_side(asks, false, m)
    &&& forall|id: u64| #[trigger] m.contains_key(id) ==> has_id(bids, id) || has_id(asks, id)
    &&& m.len() == count(bids) + count(asks)
}

/// A book model is valid: both sides sorted best first, levels non-empty
/// and homogeneous, no id twice on a side nor on both sides.
pub open spec fn valid_book(b: BookModel) -> bool {
    &&& sorted_levels(b.bids, true)
    &&& sorted_levels(b.asks, false)
    &&& levels_wf(b.bids, true)
    &&& levels_wf(b.asks, false)
    &&& ids_unique(b.bids)
    &&& ids_unique(b.asks)
    &&& sides_disjoint(b.bids, b.asks)
}

/// Some resting order of the book has id `id`.
pub open spec fn book_has(b: BookModel, id: u64) -> bool {
    has_id(b.bids, id) || has_id(b.asks, id)
}

/// Scanning from position `i`, the first level that is not better than `p`.
pub open spec fn first_not_better(levels: Seq<LevelModel>, p: Decimal, is_bid: bool, i: nat) -> nat
    decreases levels.len() - i,
{
    if i >= levels.len() {
        levels.len()
    } else if better(is_bid, levels[i as int].price, p) {
        first_not_better(levels, p, is_bid, i + 1)
    } else {
        i
    }
}

/// Where an order of price `p` goes: after every level better than `p`.
pub open spec fn insert_pos(levels: Seq<LevelModel>, p: Decimal, is_bid: bool) -> nat {
    first_not_better(levels, p, is_bid, 0)
}

/// The side after `o` joins it: at the back of the level of equal price, or
/// alone on a new level in price order.
pub open spec fn insert_order(levels: Seq<LevelModel>, o: Order, is_bid: bool) -> Seq<LevelModel> {
    let k = insert_pos(levels, o.price, is_bid) as int;
    if k < levels.len() && levels[k].price.value() == o.price.value() {
        levels.update(k, LevelModel { price: levels[k].price, orders: levels[k].orders.push(o) })
    } else {
        levels.insert(k, LevelModel { price: o.price, orders: seq![o] })
    }
}

/// The book after `o` rests on its side.
pub open spec fn rest_spec(b: BookModel, o: Order) -> BookModel {
    match o.side {
        Side::Buy => BookModel { bids: insert_order(b.bids, o, true), asks: b.asks },
        Side::Sell => BookModel { bids: b.bids, asks: insert_order(b.asks, o, false) },
    }
}

/// What `add_order` does to a book.
pub open spec fn add_spec(b: BookModel, o: Order) -> Result<BookModel, EngineError> {
    if o.price.value() <= 0 {
        Err(EngineError::InvalidPrice(o.price))
    } else if o.amount.value() <= 0 {
        Err(EngineError::InvalidAmount(o.amount))
    } else if book_has(b, o.id) {
        Err(EngineError::DuplicateOrderId(o.id))
    } else {
        Ok(rest_spec(b, o))
    }
}

// ───────────────────────── lemmas on counting ─────────────────────────

pub proof fn lemma_count_concat(a: Seq<LevelModel>, b: Seq<LevelModel>)
    ensures
        count(a + b) == count(a) + count(b),
    decreases a.len(),
{
    if a.len() == 0 {
        assert(a + b =~= b);
    } else {
        assert((a + b).drop_first() =~= a.drop_first() + b);
        lemma_count_concat(a.drop_first(), b);
    }
}

pub proof fn lemma_count_single(l: LevelModel)
    ensures
        count(seq![l]) == l.orders.len(),
{
    assert(seq![l].drop_first() =~= Seq::<LevelModel>::empty());
    assert(count(Seq::<LevelModel>::empty()) == 0);
    assert(seq![l][0] == l);
}

pub proof fn lemma_count_insert(s: Seq<LevelModel>, k: int, l: LevelModel)
    requires
        0 <= k <= s.len(),
    ensures
        count(s.insert(k, l)) == count(s) + l.orders.len(),
{
    let pre = s.subrange(0, k);
    let post = s.subrange(k, s.len() as int);
    assert(s =~= pre + post);
    assert(s.insert(k, l) =~= pre + seq![l] + post);
    lemma_count_concat(pre, post);
    lemma_count_concat(pre + seq![l], post);
    lemma_count_concat(pre, seq![l]);
    lemma_count_single(l);
}

pub proof fn lemma_count_remove(s: Seq<LevelModel>, k: int)
    requires
        0 <= k < s.len(),
    ensures
        count(s.remove(k)) + s[k].orders.len() == count(s),
{
    let pre = s.subrange(0, k);
    let post = s.subrange(k + 1, s.len() as int);
    assert(s =~= pre + seq![s[k]] + post);
    assert(s.remove(k) =~= pre + post);
    lemma_count_concat(pre, post);
    lemma_count_concat(pre + seq![s[k]], post);
    lemma_count_concat(pre, seq![s[k]]);
    lemma_count_single(s[k]);
}

pub proof fn lemma_count_update(s: Seq<LevelModel>, k: int, l: LevelModel)
    requires
        0 <= k < s.len(),
    ensures
        count(s.update(k, l)) + s[k].orders.len() == count(s) + l.orders.len(),
{
    lemma_count_remove(s, k);
    lemma_count_insert(s.remove(k), k, l);
    assert(s.update(k, l) =~= s.remove(k).insert(k, l));
}

// ───────────────────────── lemmas on insertion ─────────────────────────

proof fn lemma_first_not_better(levels: Seq<LevelModel>, p: Decimal, is_bid: bool, i: nat)
    requires
        i <= levels.len(),
        forall|j: int| 0 <= j < i ==> better(is_bid, #[trigger] levels[j].price, p),
    ensures
        i <= first_not_better(levels, p, is_bid, i) <= levels.len(),
        forall|j: int|
            0 <= j < first_not_better(levels, p, is_bid, i) ==> better(is_bid, #[trigger] levels[j].price, p),
        first_not_better(levels, p, is_bid, i) < levels.len() ==> !better(
            is_bid,
            levels[first_not_better(levels, p, is_bid, i) as int].price,
            p,
        ),
    decreases levels.len() - i,
{
    if i < levels.len() && better(is_bid, levels[i as int].price, p) {
        lemma_first_not_better(levels, p, is_bid, i + 1);
    }
}

/// Everything before the insertion position is better than `p`; the level
/// at it (if any) is not.
pub proof fn lemma_insert_pos(levels: Seq<LevelModel>, p: Decimal, is_bid: bool)
    ensures
        insert_pos(levels, p, is_bid) <= levels.len(),
        forall|j: int| 0 <= j < insert_pos(levels, p, is_bid) ==> better(is_bid, #[trigger] levels[j].price, p),
        insert_pos(levels, p, is_bid) < levels.len() ==> !better(
            is_bid,
            levels[insert_pos(levels, p, is_bid) as int].price,
            p,
        ),
{
    lemma_first_not_better(levels, p, is_bid, 0);
}

/// Ids on a side after insertion: the old ones and the new order's.
pub proof fn lemma_insert_has_id(levels: Seq<LevelModel>, o: Order, is_bid: bool, id: u64)
    ensures
        has_id(insert_order(levels, o, is_bid), id) == (has_id(levels, id) || id == o.id),
{
    lemma_insert_pos(levels, o.price, is_bid);
    let k = insert_pos(levels, o.price, is_bid) as int;
    let s2 = insert_order(levels, o, is_bid);
    if k < levels.len() && levels[k].price.value() == o.price.value() {
        if has_id(levels, id) {
            let (i, j) = choose|i: int, j: int| level_has(levels, i, j) && (#[trigger] levels[i].orders[j]).id == id;
            assert(s2[i].orders[j] == levels[i].orders[j]);
            assert(level_has(s2, i, j));
        }
        if id == o.id {
            let j = levels[k].orders.len() as int;
            assert(s2[k].orders[j] == o);
            assert(level_has(s2, k, j));
        }
        if has_id(s2, id) {
            let (i, j) = choose|i: int, j: int| level_has(s2, i, j) && (#[trigger] s2[i].orders[j]).id == id;
            if i != k || j < levels[k].orders.len() {
                assert(s2[i].orders[j] == levels[i].orders[j]);
                assert(level_has(levels, i, j));
            }
        }
    } else {
        if has_id(levels, id) {
            let (i, j) = choose|i: int, j: int| level_has(levels, i, j) && (#[trigger] levels[i].orders[j]).id == id;
            let i2 = if i < k { i } else { i + 1 };
            assert(s2[i2] == levels[i]);
            assert(s2[i2].orders[j] == levels[i].orders[j]);
            assert(level_has(s2, i2, j));
        }
        if id == o.id {
            assert(s2[k].orders[0] == o);
            assert(level_has(s2, k, 0));
        }
        if has_id(s2, id) {
            let (i, j) = choose|i: int, j: int| level_has(s2, i, j) && (#[trigger] s2[i].orders[j]).id == id;
            if i != k {
                let i0 = if i < k { i } else { i - 1 };
                assert(s2[i] == levels[i0]);
                assert(s2[i].orders[j] == levels[i0].orders[j]);
                assert(level_has(levels, i0, j));
            }
        }
    }
}


/// Inserting a new resting order keeps a side sorted, well formed and free
/// of duplicate ids, and adds one order.
pub proof fn lemma_insert_side(levels: Seq<LevelModel>, o: Order, is_bid: bool)
    requires
        sorted_levels(levels, is_bid),
        levels_wf(levels, is_bid),
        ids_unique(levels),
        !has_id(levels, o.id),
        resting_ok(o),
        o.side == side_of(is_bid),
    ensures
        sorted_levels(insert_order(levels, o, is_bid), is_bid),
        levels_wf(insert_order(levels, o, is_bid), is_bid),
        ids_unique(insert_order(levels, o, is_bid)),
        count(insert_order(levels, o, is_bid)) == count(levels) + 1,
{
    lemma_insert_pos(levels, o.price, is_bid);
    let k = insert_pos(levels, o.price, is_bid) as int;
    let s2 = insert_order(levels, o, is_bid);
    if k < levels.len() && levels[k].price.value() == o.price.value() {
        let l2 = LevelModel { price: levels[k].price, orders: levels[k].orders.push(o) };
        assert(s2 == levels.update(k, l2));
        lemma_count_update(levels, k, l2);
        assert forall|i: int, j: int| 0 <= i < j < s2.len() implies better(
            is_bid,
            #[trigger] s2[i].price,
            #[trigger] s2[j].price,
        ) by {
            assert(levels[i].price == s2[i].price);
            assert(levels[j].price == s2[j].price);
        }
        assert forall|i: int| 0 <= i < s2.len() implies (#[trigger] s2[i]).orders.len() > 0
            && s2[i].price.wf() && s2[i].price.value() > 0 by {
            assert(levels[i].orders.len() > 0);
        }
        assert forall|i: int, j: int| level_has(s2, i, j) implies fits_level(
            #[trigger] s2[i].orders[j],
            s2[i].price,
            is_bid,
        ) by {
            if i != k || j < levels[k].orders.len() {
                assert(s2[i].orders[j] == levels[i].orders[j]);
                assert(level_has(levels, i, j));
            }
        }
        assert forall|i1: int, j1: int, i2: int, j2: int|
            level_has(s2, i1, j1) && level_has(s2, i2, j2) && (#[trigger] s2[i1].orders[j1]).id
                == (#[trigger] s2[i2].orders[j2]).id implies i1 == i2 && j1 == j2 by {
            let n = levels[k].orders.len() as int;
            let new1 = i1 == k && j1 == n;
            let new2 = i2 == k && j2 == n;
            if !new1 {
                assert(s2[i1].orders[j1] == levels[i1].orders[j1]);
                assert(level_has(levels, i1, j1));
            }
            if !new2 {
                assert(s2[i2].orders[j2] == levels[i2].orders[j2]);
                assert(level_has(levels, i2, j2));
            }
        }
    } else {
        let l2 = LevelModel { price: o.price, orders: seq![o] };
        assert(s2 == levels.insert(k, l2));
        lemma_count_insert(levels, k, l2);
        assert(k < levels.len() ==> better(is_bid, o.price, levels[k].price));
        assert forall|i: int, j: int| 0 <= i < j < s2.len() implies better(
            is_bid,
            #[trigger] s2[i].price,
            #[trigger] s2[j].price,
        ) by {
            if j < k {
                assert(s2[i] == levels[i] && s2[j] == levels[j]);
            } else if j == k {
                assert(s2[i] == levels[i]);
            } else if i < k {
                assert(s2[i] == levels[i] && s2[j] == levels[j - 1]);
            } else if i == k {
                assert(s2[j] == levels[j - 1]);
                if j - 1 > k {
                    assert(better(is_bid, levels[k].price, levels[j - 1].price));
                }
            } else {
                assert(s2[i] == levels[i - 1] && s2[j] == levels[j - 1]);
            }
        }
        assert forall|i: int| 0 <= i < s2.len() implies (#[trigger] s2[i]).orders.len() > 0
            && s2[i].price.wf() && s2[i].price.value() > 0 by {
            if i < k {
                assert(s2[i] == levels[i]);
            } else if i > k {
                assert(s2[i] == levels[i - 1]);
            }
        }
        assert forall|i: int, j: int| level_has(s2, i, j) implies fits_level(
            #[trigger] s2[i].orders[j],
            s2[i].price,
            is_bid,
        ) by {
            if i < k {
                assert(s2[i] == levels[i]);
                assert(level_has(levels, i, j));
            } else if i > k {
                assert(s2[i] == levels[i - 1]);
                assert(level_has(levels, i - 1, j));
            }
        }
        assert forall|i1: int, j1: int, i2: int, j2: int|
            level_has(s2, i1, j1) && level_has(s2, i2, j2) && (#[trigger] s2[i1].orders[j1]).id
                == (#[trigger] s2[i2].orders[j2]).id implies i1 == i2 && j1 == j2 by {
            let a1 = if i1 < k { i1 } else { i1 - 1 };
            let a2 = if i2 < k { i2 } else { i2 - 1 };
            if i1 != k {
                assert(s2[i1] == levels[a1]);
                assert(level_has(levels, a1, j1));
            }
            if i2 != k {
                assert(s2[i2] == levels[a2]);
                assert(level_has(levels, a2, j2));
            }
        }
    }
}

/// Indexing a new order keeps the index of a side whose ids it does not hold.
proof fn lemma_map_insert_side(
    levels: Seq<LevelModel>,
    is_bid: bool,
    m: Map<u64, (Side, Decimal)>,
    id: u64,
    v: (Side, Decimal),
)
    requires
        map_side(levels, is_bid, m),
        !has_id(levels, id),
    ensures
        map_side(levels, is_bid, m.insert(id, v)),
{
    assert forall|i: int, j: int| level_has(levels, i, j) implies m.insert(id, v).contains_key(
        (#[trigger] levels[i].orders[j]).id,
    ) && m.insert(id, v)[levels[i].orders[j].id] == (side_of(is_bid), levels[i].orders[j].price) by {
        assert(levels[i].orders[j].id != id);
    }
}

/// Resting a new order keeps the book invariant.
pub proof fn lemma_rest_keeps_inv(b: BookModel, m: Map<u64, (Side, Decimal)>, o: Order)
    requires
        book_inv(b.bids, b.asks, m),
        m.dom().finite(),
        !book_has(b, o.id),
        resting_ok(o),
    ensures
        book_inv(
            rest_spec(b, o).bids,
            rest_spec(b, o).asks,
            m.insert(o.id, (o.side, o.price)),
        ),
{
    let is_bid = o.side == Side::Buy;
    let b2 = rest_spec(b, o);
    let m2 = m.insert(o.id, (o.side, o.price));
    assert(!m.contains_key(o.id));
    assert(m2.dom() =~= m.dom().insert(o.id));
    assert(m2.len() == m.len() + 1);
    if is_bid {
        lemma_insert_side(b.bids, o, true);
        lemma_map_insert_side(b.asks, false, m, o.id, (o.side, o.price));
        assert forall|id: u64| !(#[trigger] has_id(b2.bids, id) && #[trigger] has_id(b2.asks, id)) by {
            lemma_insert_has_id(b.bids, o, true, id);
        }
        assert forall|i: int, j: int| level_has(b2.bids, i, j) implies m2.contains_key(
            (#[trigger] b2.bids[i].orders[j]).id,
        ) && m2[b2.bids[i].orders[j].id] == (side_of(true), b2.bids[i].orders[j].price) by {
            let x = b2.bids[i].orders[j];
            if x.id != o.id {
                lemma_insert_has_id(b.bids, o, true, x.id);
                let (i0, j0) = choose|i0: int, j0: int|
                    level_has(b.bids, i0, j0) && (#[trigger] b.bids[i0].orders[j0]).id == x.id;
                assert(m.contains_key(x.id));
                assert(m[x.id] == (side_of(true), b.bids[i0].orders[j0].price));
                lemma_insert_keeps_order(b.bids, o, true, i0, j0);
                let (i1, j1) = choose|i1: int, j1: int|
                    level_has(b2.bids, i1, j1) && b2.bids[i1].orders[j1] == b.bids[i0].orders[j0];
                assert(i1 == i && j1 == j);
            } else {
                lemma_insert_new_order(b.bids, o, true, i, j);
            }
        }
        assert forall|id: u64| #[trigger] m2.contains_key(id) implies has_id(b2.bids, id) || has_id(
            b2.asks,
            id,
        ) by {
            lemma_insert_has_id(b.bids, o, true, id);
        }
    } else {
        lemma_insert_side(b.asks, o, false);
        lemma_map_insert_side(b.bids, true, m, o.id, (o.side, o.price));
        assert forall|id: u64| !(#[trigger] has_id(b2.bids, id) && #[trigger] has_id(b2.asks, id)) by {
            lemma_insert_has_id(b.asks, o, false, id);
        }
        assert forall|i: int, j: int| level_has(b2.asks, i, j) implies m2.contains_key(
            (#[trigger] b2.asks[i].orders[j]).id,
        ) && m2[b2.asks[i].orders[j].id] == (side_of(false), b2.asks[i].orders[j].price) by {
            let x = b2.asks[i].orders[j];
            if x.id != o.id {
                lemma_insert_has_id(b.asks, o, false, x.id);
                let (i0, j0) = choose|i0: int, j0: int|
                    level_has(b.asks, i0, j0) && (#[trigger] b.asks[i0].orders[j0]).id == x.id;
                assert(m.contains_key(x.id));
                assert(m[x.id] == (side_of(false), b.asks[i0].orders[j0].price));
                lemma_insert_keeps_order(b.asks, o, false, i0, j0);
                let (i1, j1) = choose|i1: int, j1: int|
                    level_has(b2.asks, i1, j1) && b2.asks[i1].orders[j1] == b.asks[i0].orders[j0];
                assert(i1 == i && j1 == j);
            } else {
                lemma_insert_new_order(b.asks, o, false, i, j);
            }
        }
        assert forall|id: u64| #[trigger] m2.contains_key(id) implies has_id(b2.bids, id) || has_id(
            b2.asks,
            id,
        ) by {
            lemma_insert_has_id(b.asks, o, false, id);
        }
    }
}

/// An order already on a side is still there after an insertion.
proof fn lemma_insert_keeps_order(levels: Seq<LevelModel>, o: Order, is_bid: bool, i: int, j: int)
    requires
        level_has(levels, i, j),
    ensures
        exists|i1: int, j1: int|
            level_has(insert_order(levels, o, is_bid), i1, j1) && insert_order(levels, o, is_bid)[i1].orders[j1]
                == levels[i].orders[j],
{
    let k = insert_pos(levels, o.price, is_bid) as int;
    lemma_insert_pos(levels, o.price, is_bid);
    let s2 = insert_order(levels, o, is_bid);
    if k < levels.len() && levels[k].price.value() == o.price.value() {
        assert(level_has(s2, i, j) && s2[i].orders[j] == levels[i].orders[j]);
    } else {
        let i1 = if i < k { i } else { i + 1 };
        assert(s2[i1] == levels[i]);
        assert(level_has(s2, i1, j) && s2[i1].orders[j] == levels[i].orders[j]);
    }
}

/// The only order of a side after insertion that was not there before is
/// the inserted one.
pub(crate) proof fn lemma_insert_new_order(levels: Seq<LevelModel>, o: Order, is_bid: bool, i: int, j: int)
    requires
        level_has(insert_order(levels, o, is_bid), i, j),
        insert_order(levels, o, is_bid)[i].orders[j].id == o.id,
        !has_id(levels, o.id),
    ensures
        insert_order(levels, o, is_bid)[i].orders[j] == o,
{
    let k = insert_pos(levels, o.price, is_bid) as int;
    lemma_insert_pos(levels, o.price, is_bid);
    let s2 = insert_order(levels, o, is_bid);
    if k < levels.len() && levels[k].price.value() == o.price.value() {
        if !(i == k && j == levels[k].orders.len()) {
            assert(s2[i].orders[j] == levels[i].orders[j]);
            assert(level_has(levels, i, j));
        }
    } else {
        if i != k {
            let i0 = if i < k { i } else { i - 1 };
            assert(s2[i] == levels[i0]);
            assert(level_has(levels, i0, j));
        }
    }
}


/// The position of the order with id `id` on a side.
pub open spec fn pos_of(levels: Seq<LevelModel>, id: u64) -> (int, int) {
    choose|i: int, j: int| level_has(levels, i, j) && (#[trigger] levels[i].orders[j]).id == id
}

/// The side without the order at `(i, j)`; its level goes when it empties.
pub open spec fn remove_at(levels: Seq<LevelModel>, i: int, j: int) -> Seq<LevelModel> {
    if levels[i].orders.len() == 1 {
        levels.remove(i)
    } else {
        levels.update(i, LevelModel { price: levels[i].price, orders: levels[i].orders.remove(j) })
    }
}

/// What `cancel_order` does: the book without the order, and the order.
pub open spec fn cancel_spec(b: BookModel, id: u64) -> Result<(BookModel, Order), EngineError> {
    if has_id(b.bids, id) {
        let (i, j) = pos_of(b.bids, id);
        Ok((BookModel { bids: remove_at(b.bids, i, j), asks: b.asks }, b.bids[i].orders[j]))
    } else if has_id(b.asks, id) {
        let (i, j) = pos_of(b.asks, id);
        Ok((BookModel { bids: b.bids, asks: remove_at(b.asks, i, j) }, b.asks[i].orders[j]))
    } else {
        Err(EngineError::OrderNotFound(id))
    }
}

/// Removing one order keeps a side sorted, well formed and free of
/// duplicates; exactly that order's id leaves the side.
pub proof fn lemma_remove_side(levels: Seq<LevelModel>, is_bid: bool, i: int, j: int)
    requires
        sorted_levels(levels, is_bid),
        levels_wf(levels, is_bid),
        ids_unique(levels),
        level_has(levels, i, j),
    ensures
        sorted_levels(remove_at(levels, i, j), is_bid),
        levels_wf(remove_at(levels, i, j), is_bid),
        ids_unique(remove_at(levels, i, j)),
        count(remove_at(levels, i, j)) + 1 == count(levels),
        forall|id: u64|
            #[trigger] has_id(remove_at(levels, i, j), id) == (has_id(levels, id) && id
                != levels[i].orders[j].id),
        forall|i2: int, j2: int|
            level_has(remove_at(levels, i, j), i2, j2) ==> exists|i0: int, j0: int|
                level_has(levels, i0, j0) && levels[i0].orders[j0] == #[trigger] remove_at(
                    levels,
                    i,
                    j,
                )[i2].orders[j2],
{
    let s2 = remove_at(levels, i, j);
    let x = levels[i].orders[j];
    // where an order of the new side was before
    let src = |i2: int, j2: int|
        if levels[i].orders.len() == 1 {
            (if i2 < i { i2 } else { i2 + 1 }, j2)
        } else if i2 != i {
            (i2, j2)
        } else {
            (i2, if j2 < j { j2 } else { j2 + 1 })
        };
    if levels[i].orders.len() == 1 {
        lemma_count_remove(levels, i);
    } else {
        let l2 = LevelModel { price: levels[i].price, orders: levels[i].orders.remove(j) };
        lemma_count_update(levels, i, l2);
    }
    assert forall|i2: int, j2: int| level_has(s2, i2, j2) implies level_has(
        levels,
        src(i2, j2).0,
        src(i2, j2).1,
    ) && levels[src(i2, j2).0].orders[src(i2, j2).1] == s2[i2].orders[j2] && levels[src(
        i2,
        j2,
    ).0].price == s2[i2].price && src(i2, j2) != (i, j) by {}
    assert forall|a: int, b: int| 0 <= a < b < s2.len() implies better(
        is_bid,
        #[trigger] s2[a].price,
        #[trigger] s2[b].price,
    ) by {
        if levels[i].orders.len() == 1 {
            let a0 = if a < i { a } else { a + 1 };
            let b0 = if b < i { b } else { b + 1 };
            assert(s2[a] == levels[a0] && s2[b] == levels[b0]);
        } else {
            assert(s2[a].price == levels[a].price && s2[b].price == levels[b].price);
        }
    }
    assert forall|a: int| 0 <= a < s2.len() implies (#[trigger] s2[a]).orders.len() > 0
        && s2[a].price.wf() && s2[a].price.value() > 0 by {
        if levels[i].orders.len() == 1 {
            let a0 = if a < i { a } else { a + 1 };
            assert(s2[a] == levels[a0]);
        } else {
            assert(s2[a].price == levels[a].price);
            assert(levels[a].orders.len() > 0);
        }
    }
    assert forall|a: int, b: int| level_has(s2, a, b) implies fits_level(
        #[trigger] s2[a].orders[b],
        s2[a].price,
        is_bid,
    ) by {
        let (a0, b0) = src(a, b);
        assert(level_has(levels, a0, b0));
    }
    assert forall|a1: int, b1: int, a2: int, b2: int|
        level_has(s2, a1, b1) && level_has(s2, a2, b2) && (#[trigger] s2[a1].orders[b1]).id == (
        #[trigger] s2[a2].orders[b2]).id implies a1 == a2 && b1 == b2 by {
        let p1 = src(a1, b1);
        let p2 = src(a2, b2);
        assert(levels[p1.0].orders[p1.1] == s2[a1].orders[b1]);
        assert(levels[p2.0].orders[p2.1] == s2[a2].orders[b2]);
        assert(level_has(levels, p1.0, p1.1));
        assert(level_has(levels, p2.0, p2.1));
    }
    assert forall|id: u64| #[trigger] has_id(s2, id) == (has_id(levels, id) && id != x.id) by {
        if has_id(s2, id) {
            let (a, b) = choose|a: int, b: int| level_has(s2, a, b) && (#[trigger] s2[a].orders[b]).id == id;
            let p = src(a, b);
            assert(level_has(levels, p.0, p.1) && levels[p.0].orders[p.1].id == id);
            assert(p != (i, j));
        }
        if has_id(levels, id) && id != x.id {
            let (a, b) = choose|a: int, b: int|
                level_has(levels, a, b) && (#[trigger] levels[a].orders[b]).id == id;
            assert((a, b) != (i, j));
            if levels[i].orders.len() == 1 {
                let a2 = if a < i { a } else { a - 1 };
                assert(s2[a2] == levels[a]);
                assert(level_has(s2, a2, b) && s2[a2].orders[b].id == id);
            } else if a != i {
                assert(level_has(s2, a, b) && s2[a].orders[b].id == id);
            } else {
                let b2 = if b < j { b } else { b - 1 };
                assert(level_has(s2, a, b2) && s2[a].orders[b2].id == id);
            }
        }
    }
    assert forall|i2: int, j2: int| level_has(s2, i2, j2) implies exists|i0: int, j0: int|
        level_has(levels, i0, j0) && levels[i0].orders[j0] == #[trigger] s2[i2].orders[j2] by {
        let p = src(i2, j2);
        assert(level_has(levels, p.0, p.1) && levels[p.0].orders[p.1] == s2[i2].orders[j2]);
    }
}

/// Removing a resting order and its index entry keeps the book invariant.
pub proof fn lemma_cancel_keeps_inv(b: BookModel, m: Map<u64, (Side, Decimal)>, id: u64)
    requires
        book_inv(b.bids, b.asks, m),
        m.dom().finite(),
        book_has(b, id),
    ensures
        cancel_spec(b, id) is Ok,
        book_inv(
            cancel_spec(b, id)->Ok_0.0.bids,
            cancel_spec(b, id)->Ok_0.0.asks,
            m.remove(id),
        ),
{
    let m2 = m.remove(id);
    assert(m.contains_key(id));
    assert(m2.dom() =~= m.dom().remove(id));
    assert(m2.len() + 1 == m.len());
    if has_id(b.bids, id) {
        let (i, j) = pos_of(b.bids, id);
        let s2 = remove_at(b.bids, i, j);
        lemma_remove_side(b.bids, true, i, j);
        assert forall|x: u64| !(#[trigger] has_id(s2, x) && #[trigger] has_id(b.asks, x)) by {
            assert(has_id(s2, x) ==> has_id(b.bids, x));
        }
        assert forall|a: int, c: int| level_has(s2, a, c) implies m2.contains_key(
            (#[trigger] s2[a].orders[c]).id,
        ) && m2[s2[a].orders[c].id] == (side_of(true), s2[a].orders[c].price) by {
            let (a0, c0) = choose|a0: int, c0: int|
                level_has(b.bids, a0, c0) && b.bids[a0].orders[c0] == s2[a].orders[c];
            assert(has_id(s2, s2[a].orders[c].id));
        }
        assert forall|a: int, c: int| level_has(b.asks, a, c) implies m2.contains_key(
            (#[trigger] b.asks[a].orders[c]).id,
        ) && m2[b.asks[a].orders[c].id] == (side_of(false), b.asks[a].orders[c].price) by {
            assert(has_id(b.asks, b.asks[a].orders[c].id));
        }
        assert forall|x: u64| #[trigger] m2.contains_key(x) implies has_id(s2, x) || has_id(b.asks, x) by {
            assert(has_id(s2, x) == (has_id(b.bids, x) && x != id));
        }
    } else {
        let (i, j) = pos_of(b.asks, id);
        let s2 = remove_at(b.asks, i, j);
        lemma_remove_side(b.asks, false, i, j);
        assert forall|x: u64| !(#[trigger] has_id(b.bids, x) && #[trigger] has_id(s2, x)) by {
            assert(has_id(s2, x) ==> has_id(b.asks, x));
        }
        assert forall|a: int, c: int| level_has(s2, a, c) implies m2.contains_key(
            (#[trigger] s2[a].orders[c]).id,
        ) && m2[s2[a].orders[c].id] == (side_of(false), s2[a].orders[c].price) by {
            let (a0, c0) = choose|a0: int, c0: int|
                level_has(b.asks, a0, c0) && b.asks[a0].orders[c0] == s2[a].orders[c];
            assert(has_id(s2, s2[a].orders[c].id));
        }
        assert forall|a: int, c: int| level_has(b.bids, a, c) implies m2.contains_key(
            (#[trigger] b.bids[a].orders[c]).id,
        ) && m2[b.bids[a].orders[c].id] == (side_of(true), b.bids[a].orders[c].price) by {
            assert(has_id(b.bids, b.bids[a].orders[c].id));
        }
        assert forall|x: u64| #[trigger] m2.contains_key(x) implies has_id(b.bids, x) || has_id(s2, x) by {
            assert(has_id(s2, x) == (has_id(b.asks, x) && x != id));
        }
    }
}

// ───────────────────────── matching ─────────────────────────

/// A resting level price crosses the taker's limit: a buyer reaches asks at
/// or below its price, a seller reaches bids at or above it.
pub open spec fn crosses(level_price: Decimal, taker_price: Decimal, is_buy: bool) -> bool {
    if is_buy {
        level_price.value() <= taker_price.value()
    } else {
        level_price.value() >= taker_price.value()
    }
}

/// `Ord::min` on decimals: the first one when equal.
pub open spec fn min_spec(a: Decimal, b: Decimal) -> Decimal {
    if a.value() <= b.value() {
        a
    } else {
        b
    }
}

/// `a - b` as `rust_decimal` computes it.
pub open spec fn diff(a: Decimal, b: Decimal) -> Decimal {
    match decimal_difference(a, b) {
        Some(x) => x,
        None => a,
    }
}

/// `o` with another remaining quantity.
pub open spec fn with_remaining(o: Order, rem: Decimal) -> Order {
    Order {
        id: o.id,
        user_id: o.user_id,
        symbol: o.symbol,
        side: o.side,
        price: o.price,
        amount: o.amount,
        remaining: rem,
    }
}

/// The side with the front order of the first level left with `rem`.
pub open spec fn with_front_remaining(levels: Seq<LevelModel>, rem: Decimal) -> Seq<LevelModel> {
    levels.update(
        0,
        LevelModel {
            price: levels[0].price,
            orders: levels[0].orders.update(0, with_remaining(levels[0].orders[0], rem)),
        },
    )
}

/// Matching changes nothing of the taker but its remaining quantity.
pub proof fn lemma_fill_keeps_taker(levels: Seq<LevelModel>, taker: Order, trades: Seq<Trade>, is_buy: bool)
    ensures
        fill_spec(levels, taker, trades, is_buy).1 == with_remaining(
            taker,
            fill_spec(levels, taker, trades, is_buy).1.remaining,
        ),
    decreases count(levels),
{
    if levels.len() == 0 || levels[0].orders.len() == 0 || !crosses(
        levels[0].price,
        taker.price,
        is_buy,
    ) || levels[0].orders[0].user_id == taker.user_id {
    } else {
        let maker = levels[0].orders[0];
        let q = min_spec(taker.remaining, maker.remaining);
        let maker_left = diff(maker.remaining, q);
        let taker_left = diff(taker.remaining, q);
        let trade = Trade {
            maker_order_id: maker.id,
            taker_order_id: taker.id,
            symbol: taker.symbol,
            price: levels[0].price,
            amount: q,
        };
        if maker_left.value() == 0 && taker_left.value() != 0 {
            lemma_count_remove_at(levels, 0, 0);
            lemma_fill_keeps_taker(
                remove_at(levels, 0, 0),
                with_remaining(taker, taker_left),
                trades.push(trade),
                is_buy,
            );
        }
    }
}

pub proof fn lemma_count_remove_at(levels: Seq<LevelModel>, i: int, j: int)
    requires
        level_has(levels, i, j),
    ensures
        count(remove_at(levels, i, j)) + 1 == count(levels),
{
    if levels[i].orders.len() == 1 {
        lemma_count_remove(levels, i);
    } else {
        let l2 = LevelModel { price: levels[i].price, orders: levels[i].orders.remove(j) };
        lemma_count_update(levels, i, l2);
    }
}

/// Matching a taker against one side, front maker first: each fill trades
/// the smaller of the two remaining quantities at the level's price; a
/// filled maker leaves the book; matching stops when the taker is filled,
/// the side is empty, the best level no longer crosses, or the next maker
/// belongs to the taker's own user (no one trades with themselves).
pub open spec fn fill_spec(levels: Seq<LevelModel>, taker: Order, trades: Seq<Trade>, is_buy: bool) -> (
    Seq<LevelModel>,
    Order,
    Seq<Trade>,
)
    decreases count(levels),
{
    if levels.len() == 0 || levels[0].orders.len() == 0 || !crosses(
        levels[0].price,
        taker.price,
        is_buy,
    ) || levels[0].orders[0].user_id == taker.user_id {
        (levels, taker, trades)
    } else {
        let maker = levels[0].orders[0];
        let q = min_spec(taker.remaining, maker.remaining);
        let maker_left = diff(maker.remaining, q);
        let taker_left = diff(taker.remaining, q);
        let trade = Trade {
            maker_order_id: maker.id,
            taker_order_id: taker.id,
            symbol: taker.symbol,
            price: levels[0].price,
            amount: q,
        };
        let taker2 = with_remaining(taker, taker_left);
        let trades2 = trades.push(trade);
        if maker_left.value() == 0 {
            let rest = remove_at(levels, 0, 0);
            if taker_left.value() == 0 {
                (rest, taker2, trades2)
            } else {
                proof {
                    lemma_count_remove_at(levels, 0, 0);
                }
                fill_spec(rest, taker2, trades2, is_buy)
            }
        } else {
            (with_front_remaining(levels, maker_left), taker2, trades2)
        }
    }
}

/// The best opposite level crosses the taker and its front order belongs to
/// the taker's own user: before matching this refuses the order; after it,
/// this is where matching stopped.
pub open spec fn self_trade(b: BookModel, taker: Order) -> bool {
    let is_buy = taker.side == Side::Buy;
    let opp = if is_buy {
        b.asks
    } else {
        b.bids
    };
    opp.len() > 0 && opp[0].orders.len() > 0 && crosses(opp[0].price, taker.price, is_buy)
        && opp[0].orders[0].user_id == taker.user_id
}

/// What `match_order` does: validation, self-trade prevention, matching
/// against the opposite side, then the unfilled rest joins the taker's side.
pub open spec fn match_spec(b: BookModel, taker: Order) -> Result<(BookModel, Seq<Trade>), EngineError> {
    if taker.price.value() <= 0 {
        Err(EngineError::InvalidPrice(taker.price))
    } else if taker.amount.value() <= 0 {
        Err(EngineError::InvalidAmount(taker.amount))
    } else if book_has(b, taker.id) {
        Err(EngineError::DuplicateOrderId(taker.id))
    } else if self_trade(b, taker) {
        Err(EngineError::SelfTradePrevented(taker.user_id))
    } else {
        let is_buy = taker.side == Side::Buy;
        let opp = if is_buy {
            b.asks
        } else {
            b.bids
        };
        let (opp2, t2, trades) = fill_spec(opp, taker, Seq::empty(), is_buy);
        let b2 = if is_buy {
            BookModel { bids: b.bids, asks: opp2 }
        } else {
            BookModel { bids: opp2, asks: b.asks }
        };
        if t2.remaining.value() == 0 {
            Ok((b2, trades))
        } else {
            Ok((rest_spec(b2, t2), trades))
        }
    }
}

/// The invariant of a book seen from one side.
pub open spec fn inv_sides(this: Seq<LevelModel>, other: Seq<LevelModel>, this_is_bid: bool, m: Map<
    u64,
    (Side, Decimal),
>) -> bool {
    if this_is_bid {
        book_inv(this, other, m)
    } else {
        book_inv(other, this, m)
    }
}

/// Lowering the remaining quantity of the front order (still positive)
/// keeps the invariant.
proof fn lemma_update_front_keeps_inv(
    this: Seq<LevelModel>,
    other: Seq<LevelModel>,
    this_is_bid: bool,
    m: Map<u64, (Side, Decimal)>,
    rem: Decimal,
)
    requires
        inv_sides(this, other, this_is_bid, m),
        this.len() > 0,
        rem.wf(),
        rem.value() > 0,
    ensures
        inv_sides(with_front_remaining(this, rem), other, this_is_bid, m),
        forall|id: u64| #[trigger] has_id(with_front_remaining(this, rem), id) == has_id(this, id),
        count(with_front_remaining(this, rem)) == count(this),
{
    let s2 = with_front_remaining(this, rem);
    let l2 = s2[0];
    assert(this[0].orders.len() > 0);
    lemma_count_update(this, 0, l2);
    assert forall|i: int, j: int| level_has(s2, i, j) implies (#[trigger] s2[i].orders[j]).id
        == this[i].orders[j].id && s2[i].orders[j].price == this[i].orders[j].price && level_has(
        this,
        i,
        j,
    ) && s2[i].price == this[i].price by {}
    assert forall|id: u64| #[trigger] has_id(s2, id) == has_id(this, id) by {
        if has_id(this, id) {
            let (i, j) = choose|i: int, j: int| level_has(this, i, j) && (#[trigger] this[i].orders[j]).id == id;
            assert(level_has(s2, i, j));
            assert(s2[i].orders[j].id == this[i].orders[j].id);
        }
        if has_id(s2, id) {
            let (i, j) = choose|i: int, j: int| level_has(s2, i, j) && (#[trigger] s2[i].orders[j]).id == id;
            assert(level_has(this, i, j));
            assert(s2[i].orders[j].id == this[i].orders[j].id);
        }
    }
    assert forall|i: int, j: int| level_has(s2, i, j) implies fits_level(
        #[trigger] s2[i].orders[j],
        s2[i].price,
        this_is_bid,
    ) by {
        assert(level_has(this, i, j));
        assert(fits_level(this[i].orders[j], this[i].price, this_is_bid));
    }
    assert forall|i: int| 0 <= i < s2.len() implies (#[trigger] s2[i]).orders.len() > 0
        && s2[i].price.wf() && s2[i].price.value() > 0 by {
        assert(this[i].orders.len() > 0);
    }
    assert(sorted_levels(s2, this_is_bid)) by {
        assert forall|i: int, j: int| 0 <= i < j < s2.len() implies better(
            this_is_bid,
            #[trigger] s2[i].price,
            #[trigger] s2[j].price,
        ) by {
            assert(s2[i].price == this[i].price && s2[j].price == this[j].price);
        }
    }
    assert(ids_unique(s2)) by {
        assert forall|i1: int, j1: int, i2: int, j2: int|
            level_has(s2, i1, j1) && level_has(s2, i2, j2) && (#[trigger] s2[i1].orders[j1]).id
                == (#[trigger] s2[i2].orders[j2]).id implies i1 == i2 && j1 == j2 by {
            assert(level_has(this, i1, j1) && level_has(this, i2, j2));
        }
    }
    if this_is_bid {
        assert(map_side(s2, true, m)) by {
            assert forall|i: int, j: int| level_has(s2, i, j) implies m.contains_key(
                (#[trigger] s2[i].orders[j]).id,
            ) && m[s2[i].orders[j].id] == (side_of(true), s2[i].orders[j].price) by {
                assert(level_has(this, i, j));
            }
        }
        assert(sides_disjoint(s2, other));
    } else {
        assert(map_side(s2, false, m)) by {
            assert forall|i: int, j: int| level_has(s2, i, j) implies m.contains_key(
                (#[trigger] s2[i].orders[j]).id,
            ) && m[s2[i].orders[j].id] == (side_of(false), s2[i].orders[j].price) by {
                assert(level_has(this, i, j));
            }
        }
        assert(sides_disjoint(other, s2));
    }
}

/// The front maker leaving the book, with its index entry, keeps the
/// invariant.
proof fn lemma_pop_front_keeps_inv(
    this: Seq<LevelModel>,
    other: Seq<LevelModel>,
    this_is_bid: bool,
    m: Map<u64, (Side, Decimal)>,
)
    requires
        inv_sides(this, other, this_is_bid, m),
        m.dom().finite(),
        this.len() > 0,
    ensures
        inv_sides(remove_at(this, 0, 0), other, this_is_bid, m.remove(this[0].orders[0].id)),
        forall|id: u64| #[trigger] has_id(remove_at(this, 0, 0), id) ==> has_id(this, id),
        count(remove_at(this, 0, 0)) + 1 == count(this),
{
    assert(this[0].orders.len() > 0);
    let id = this[0].orders[0].id;
    assert(level_has(this, 0, 0));
    assert(has_id(this, id));
    let p = pos_of(this, id);
    assert(p == (0int, 0int));
    lemma_remove_side(this, this_is_bid, 0, 0);
    if this_is_bid {
        let b = BookModel { bids: this, asks: other };
        assert(book_has(b, id));
        lemma_cancel_keeps_inv(b, m, id);
    } else {
        let b = BookModel { bids: other, asks: this };
        assert(book_has(b, id));
        assert(!has_id(other, id));
        lemma_cancel_keeps_inv(b, m, id);
    }
}

// ───────────────────────── snapshots ─────────────────────────

/// The orders of the levels in sequence: level by level, each oldest first.
pub open spec fn flatten(levels: Seq<LevelModel>) -> Seq<Order>
    decreases levels.len(),
{
    if levels.len() == 0 {
        Seq::empty()
    } else {
        flatten(levels.drop_last()) + levels.last().orders
    }
}

/// The remaining quantities of `orders` summed from the front by
/// `rust_decimal` addition, starting from zero.
pub open spec fn level_total(orders: Seq<Order>) -> Decimal
    decreases orders.len(),
{
    if orders.len() == 0 {
        Decimal { mantissa: 0, scale: 0 }
    } else {
        let t = level_total(orders.drop_last());
        match decimal_sum(t, orders.last().remaining) {
            Some(x) => x,
            None => t,
        }
    }
}

/// The exact sum of the remaining quantities of `orders`.
pub open spec fn value_total(orders: Seq<Order>) -> int
    decreases orders.len(),
{
    if orders.len() == 0 {
        0
    } else {
        value_total(orders.drop_last()) + orders.last().remaining.value()
    }
}

/// The first `limit` levels of a side as (price, total remaining) pairs.
pub open spec fn depth_side(levels: Seq<LevelModel>, limit: usize) -> Seq<DepthLevel> {
    let n = if limit < levels.len() {
        limit as int
    } else {
        levels.len() as int
    };
    Seq::new(n as nat, |i: int| (levels[i].price, level_total(levels[i].orders)))
}

/// Summing the first `limit` levels cannot overflow: each level's exact
/// total, plus one unit of rounding per order, stays below the largest
/// integer mantissa.
pub open spec fn depth_fits(levels: Seq<LevelModel>, limit: usize) -> bool {
    forall|i: int|
        0 <= i < levels.len() && i < limit ==> value_total(#[trigger] levels[i].orders) + levels[i].orders.len()
            * unit() <= (MAX_MANTISSA - 1) * unit()
}

proof fn lemma_value_total_prefix(orders: Seq<Order>, k: int)
    requires
        0 <= k <= orders.len(),
        forall|j: int| 0 <= j < orders.len() ==> (#[trigger] orders[j]).remaining.value() > 0,
    ensures
        0 <= value_total(orders.take(k)) <= value_total(orders),
    decreases orders.len(),
{
    if orders.len() > 0 {
        if k == orders.len() {
            assert(orders.take(k) =~= orders);
            lemma_value_total_prefix(orders.drop_last(), k - 1);
            assert(orders.drop_last().take(k - 1) =~= orders.drop_last());
        } else {
            lemma_value_total_prefix(orders.drop_last(), k);
            assert(orders.drop_last().take(k) =~= orders.take(k));
            lemma_value_total_prefix(orders.drop_last(), orders.len() - 1);
            assert(orders.drop_last().take(orders.len() - 1) =~= orders.drop_last());
        }
    } else {
        assert(orders.take(k) =~= orders);
    }
}

// ───────────────────────── executable book ─────────────────────────

/// `p` comes before `q` on that side, decided by comparing values.
fn is_better(is_bid: bool, p: &Decimal, q: &Decimal) -> (r: bool)
    requires
        p.wf(),
        q.wf(),
    ensures
        r == better(is_bid, *p, *q),
{
    let c = compare(p, q);
    if is_bid {
        c == Comparison::Greater
    } else {
        c == Comparison::Less
    }
}

/// The position where an order of price `p` joins the side.
fn find_level(levels: &Vec<PriceLevel>, p: &Decimal, is_bid: bool) -> (k: usize)
    requires
        levels_wf(levels_view(levels@), is_bid),
        p.wf(),
    ensures
        k == insert_pos(levels_view(levels@), *p, is_bid),
{
    let ghost lv = levels_view(levels@);
    let mut i: usize = 0;
    while i < levels.len()
        invariant
            i <= levels.len(),
            lv == levels_view(levels@),
            levels_wf(lv, is_bid),
            p.wf(),
            first_not_better(lv, *p, is_bid, 0) == first_not_better(lv, *p, is_bid, i as nat),
        decreases levels.len() - i,
    {
        assert(lv[i as int] == levels@[i as int]@);
        if !is_better(is_bid, &levels[i].price, p) {
            return i;
        }
        i = i + 1;
    }
    i
}

/// Puts `order` on the side: at the back of its price level, or on a new
/// level in price order.
fn insert_into(levels: &mut Vec<PriceLevel>, order: Order, is_bid: bool)
    requires
        levels_wf(levels_view(old(levels)@), is_bid),
        order.price.wf(),
    ensures
        levels_view(final(levels)@) == insert_order(levels_view(old(levels)@), order, is_bid),
{
    let ghost lv = levels_view(levels@);
    let ghost o = order;
    let k = find_level(levels, &order.price, is_bid);
    proof {
        lemma_insert_pos(lv, o.price, is_bid);
    }
    let same = if k < levels.len() {
        assert(lv[k as int] == levels@[k as int]@);
        compare(&levels[k].price, &order.price) == Comparison::Equal
    } else {
        false
    };
    if same {
        assert(lv[k as int] == levels@[k as int]@);
        let mut lvl = levels.remove(k);
        lvl.orders.push(order);
        levels.insert(k, lvl);
        assert(levels_view(levels@) =~= lv.update(
            k as int,
            LevelModel { price: lv[k as int].price, orders: lv[k as int].orders.push(o) },
        ));
    } else {
        let price = order.price;
        let mut orders: Vec<Order> = Vec::new();
        orders.push(order);
        let lvl = PriceLevel { price, orders };
        assert(lvl@.orders =~= seq![o]);
        levels.insert(k, lvl);
        assert(levels_view(levels@) =~= lv.insert(
            k as int,
            LevelModel { price: o.price, orders: seq![o] },
        ));
    }
}

/// Removes the order `order_id` from the level of value `key`, dropping the
/// level when it empties.
fn remove_from_level(levels: &mut Vec<PriceLevel>, key: Decimal, order_id: u64, is_bid: bool) -> (r: Option<Order>)
    requires
        sorted_levels(levels_view(old(levels)@), is_bid),
        levels_wf(levels_view(old(levels)@), is_bid),
        ids_unique(levels_view(old(levels)@)),
        has_id(levels_view(old(levels)@), order_id),
        key.wf(),
        levels_view(old(levels)@)[pos_of(levels_view(old(levels)@), order_id).0].price.value()
            == key.value(),
    ensures
        ({
            let lv = levels_view(old(levels)@);
            let (i, j) = pos_of(lv, order_id);
            r == Some(lv[i].orders[j]) && levels_view(final(levels)@) == remove_at(lv, i, j)
        }),
{
    let ghost lv = levels_view(levels@);
    let ghost i0 = pos_of(lv, order_id).0;
    let ghost j0 = pos_of(lv, order_id).1;
    assert(level_has(lv, i0, j0) && lv[i0].orders[j0].id == order_id);
    let mut k: usize = 0;
    while k < levels.len()
        invariant
            lv == levels_view(levels@),
            levels_wf(lv, is_bid),
            key.wf(),
            k <= i0,
            level_has(lv, i0, j0),
            lv[i0].price.value() == key.value(),
        ensures
            k <= i0,
            k < levels.len() ==> lv[k as int].price.value() == key.value(),
        decreases levels.len() - k,
    {
        assert(lv[k as int] == levels@[k as int]@);
        if compare(&levels[k].price, &key) == Comparison::Equal {
            break;
        }
        assert(k != i0);
        k = k + 1;
    }
    if k == levels.len() {
        return None;
    }
    assert(lv[k as int] == levels@[k as int]@);
    assert(k as int == i0) by {
        if (k as int) < i0 {
            assert(better(is_bid, lv[k as int].price, lv[i0].price));
        }
    }
    let mut p: usize = 0;
    while p < levels[k].orders.len()
        invariant
            lv == levels_view(levels@),
            k as int == i0,
            k < levels.len(),
            p <= j0,
            level_has(lv, i0, j0),
            lv[i0].orders[j0].id == order_id,
            ids_unique(lv),
        ensures
            p <= j0,
            p < lv[i0].orders.len() ==> lv[i0].orders[p as int].id == order_id,
        decreases levels[k as int].orders.len() - p,
    {
        assert(lv[k as int] == levels@[k as int]@);
        if levels[k].orders[p].id == order_id {
            break;
        }
        assert(p != j0);
        p = p + 1;
    }
    assert(lv[k as int] == levels@[k as int]@);
    if p == levels[k].orders.len() {
        return None;
    }
    assert(p as int == j0) by {
        assert(level_has(lv, i0, p as int));
    }
    let mut lvl = levels.remove(k);
    let order = lvl.orders.remove(p);
    if lvl.orders.len() > 0 {
        levels.insert(k, lvl);
        assert(levels_view(levels@) =~= remove_at(lv, i0, j0));
    } else {
        assert(levels_view(levels@) =~= remove_at(lv, i0, j0));
    }
    Some(order)
}

/// Some order resting on these levels has id `id` and price value `price`.
pub open spec fn rested(levels: Seq<LevelModel>, id: u64, price: Decimal) -> bool {
    exists|i: int, j: int|
        level_has(levels, i, j) && (#[trigger] levels[i].orders[j]).id == id
            && levels[i].orders[j].price.value() == price.value()
}

/// Every order on `levels` rested on `from` with the same id and price.
pub open spec fn orders_from(levels: Seq<LevelModel>, from: Seq<LevelModel>) -> bool {
    forall|i: int, j: int|
        level_has(levels, i, j) ==> rested(from, (#[trigger] levels[i].orders[j]).id, levels[i].orders[j].price)
}

/// A fill of `taker` against a maker resting on `side`: a positive,
/// representable amount, at the maker's limit price, which crosses the
/// taker's limit.
pub open spec fn fill_ok(t: Trade, taker: Order, side: Seq<LevelModel>, is_buy: bool) -> bool {
    &&& t.amount.value() > 0
    &&& t.amount.wf()
    &&& t.price.wf()
    &&& t.taker_order_id == taker.id
    &&& t.symbol == taker.symbol
    &&& crosses(t.price, taker.price, is_buy)
    &&& rested(side, t.maker_order_id, t.price)
}

/// The side and the taker's remaining quantity are on the grid of scale `s`.
pub open spec fn fill_on_grid(levels: Seq<LevelModel>, taker: Order, s: nat) -> bool {
    s <= 28 && side_on_grid(levels, s) && on_grid(taker.remaining, s)
}

/// What a run of fills guarantees, from side `lv0`, taker `t0` and trades
/// `tr0` to side `lv`, taker `t` and trades `tr`: only the taker's remaining
/// quantity changed; every new trade is a valid fill; on a common grid the
/// quantities are conserved; matching stopped because the side emptied, its
/// best level no longer crosses, the taker is filled, or the next maker is
/// the taker's own user; the best level is
/// no better than before; every order left rested before.
pub open spec fn fill_facts(
    lv0: Seq<LevelModel>,
    lv: Seq<LevelModel>,
    t0: Order,
    t: Order,
    tr0: Seq<Trade>,
    tr: Seq<Trade>,
    is_buy: bool,
) -> bool {
    &&& t == with_remaining(t0, t.remaining)
    &&& t.wf()
    &&& t.remaining.value() >= 0
    &&& tr.len() >= tr0.len()
    &&& forall|k: int| tr0.len() <= k < tr.len() ==> fill_ok(#[trigger] tr[k], t0, lv0, is_buy)
    &&& forall|s: nat|
        #[trigger] fill_on_grid(lv0, t0, s) ==> fill_on_grid(lv, t, s) && side_total(lv) + t.remaining.value()
            + 2 * traded_total(tr) == side_total(lv0) + t0.remaining.value() + 2 * traded_total(tr0)
    &&& forall|s: nat|
        s <= 28 && on_grid(t0.remaining, s) && #[trigger] makers_on_grid(lv0, tr0.len() as int, tr, s) ==> side_total(
            lv,
        ) + t.remaining.value() + 2 * traded_total(tr) == side_total(lv0) + t0.remaining.value() + 2 * traded_total(tr0)
    &&& lv.len() == 0 || !crosses(lv[0].price, t.price, is_buy) || t.remaining.value() == 0
        || lv[0].orders[0].user_id == t.user_id
    &&& lv.len() > 0 ==> lv0.len() > 0 && !better(!is_buy, lv[0].price, lv0[0].price)
    &&& orders_from(lv, lv0)
    &&& forall|id: u64| #[trigger] has_id(lv, id) ==> has_id(lv0, id)
}

/// Resting an order whose remaining quantity is on the grid keeps the side
/// on the grid.
pub proof fn lemma_insert_on_grid(levels: Seq<LevelModel>, o: Order, is_bid: bool, s: nat)
    requires
        side_on_grid(levels, s),
        on_grid(o.remaining, s),
    ensures
        side_on_grid(insert_order(levels, o, is_bid), s),
{
    lemma_insert_pos(levels, o.price, is_bid);
    let k = insert_pos(levels, o.price, is_bid) as int;
    let s2 = insert_order(levels, o, is_bid);
    if k < levels.len() && levels[k].price.value() == o.price.value() {
        assert forall|i: int, j: int| level_has(s2, i, j) implies on_grid(#[trigger] s2[i].orders[j].remaining, s) by {
            if !(i == k && j == levels[k].orders.len()) {
                assert(s2[i].orders[j] == levels[i].orders[j]);
                assert(level_has(levels, i, j));
            }
        }
    } else {
        assert forall|i: int, j: int| level_has(s2, i, j) implies on_grid(#[trigger] s2[i].orders[j].remaining, s) by {
            if i != k {
                let i0 = if i < k { i } else { i - 1 };
                assert(s2[i] == levels[i0]);
                assert(level_has(levels, i0, j));
            }
        }
    }
}

/// The best level after resting `o` has `o`'s price or is the old best.
pub proof fn lemma_insert_best(levels: Seq<LevelModel>, o: Order, is_bid: bool)
    ensures
        insert_order(levels, o, is_bid).len() > 0,
        insert_order(levels, o, is_bid)[0].price.value() == o.price.value() || (levels.len() > 0
            && insert_order(levels, o, is_bid)[0].price == levels[0].price),
{
    lemma_insert_pos(levels, o.price, is_bid);
}

/// The side that a taker matches against.
pub open spec fn opposite(b: BookModel, taker: Order) -> Seq<LevelModel> {
    if taker.side == Side::Buy {
        b.asks
    } else {
        b.bids
    }
}

/// Exact total of the remaining quantities resting in the book.
pub open spec fn book_total(b: BookModel) -> int {
    side_total(b.bids) + side_total(b.asks)
}

/// Every resting quantity of the book is on the grid of scale `s`.
pub open spec fn book_on_grid(b: BookModel, s: nat) -> bool {
    side_on_grid(b.bids, s) && side_on_grid(b.asks, s)
}

/// The best bid is below the best ask, or a side is empty.
pub open spec fn uncrossed(b: BookModel) -> bool {
    b.bids.len() == 0 || b.asks.len() == 0 || b.bids[0].price.value() < b.asks[0].price.value()
}

/// One fill on the grid is exact: both new remaining quantities are the old
/// ones less the fill, and stay on the grid.
proof fn lemma_fill_step_exact(m: Decimal, t: Decimal, q: Decimal, nm: Decimal, nt: Decimal, s: nat)
    requires
        s <= 28,
        on_grid(m, s),
        on_grid(t, s),
        m.value() > 0,
        t.value() > 0,
        q == (if t.value() <= m.value() { t } else { m }),
        nm.wf(),
        nm.scale <= aligned_scale(m, q),
        exact_at_aligned_scale(m, q, m.value() - q.value()) ==> nm.value() == m.value() - q.value(),
        nt.wf(),
        nt.scale <= aligned_scale(t, q),
        exact_at_aligned_scale(t, q, t.value() - q.value()) ==> nt.value() == t.value() - q.value(),
    ensures
        nm.value() == m.value() - q.value(),
        nt.value() == t.value() - q.value(),
        on_grid(nm, s),
        on_grid(nt, s),
{
    let am = aligned_scale(m, q);
    let at = aligned_scale(t, q);
    lemma_fits_coarser(m.value(), am, s);
    lemma_fits_coarser(q.value(), am, s);
    lemma_fits_between(m.value() - q.value(), m.value(), s);
    lemma_fits_coarser(m.value() - q.value(), am, s);
    lemma_fits_coarser(t.value(), at, s);
    lemma_fits_coarser(q.value(), at, s);
    lemma_fits_between(t.value() - q.value(), t.value(), s);
    lemma_fits_coarser(t.value() - q.value(), at, s);
}

/// Every maker that trades in `tr` from position `from` on rested in `lv0`
/// with a remaining quantity on the grid of scale `s`.
pub open spec fn makers_on_grid(lv0: Seq<LevelModel>, from: int, tr: Seq<Trade>, s: nat) -> bool {
    forall|k: int, i: int, j: int|
        #![trigger tr[k], lv0[i].orders[j]]
        from <= k < tr.len() && level_has(lv0, i, j) && lv0[i].orders[j].id == tr[k].maker_order_id ==> on_grid(
            lv0[i].orders[j].remaining,
            s,
        )
}

/// Every order of `lv` rests, unchanged, in `lv0`.
pub open spec fn orders_kept(lv: Seq<LevelModel>, lv0: Seq<LevelModel>) -> bool {
    forall|i: int, j: int|
        level_has(lv, i, j) ==> exists|i0: int, j0: int|
            level_has(lv0, i0, j0) && lv0[i0].orders[j0] == #[trigger] lv[i].orders[j]
}

/// Matching only appends to the trades it is given.
pub proof fn lemma_fill_keeps_prefix(levels: Seq<LevelModel>, taker: Order, trades: Seq<Trade>, is_buy: bool)
    ensures
        fill_spec(levels, taker, trades, is_buy).2.len() >= trades.len(),
        forall|k: int| 0 <= k < trades.len() ==> #[trigger] fill_spec(levels, taker, trades, is_buy).2[k] == trades[k],
    decreases count(levels),
{
    if levels.len() == 0 || levels[0].orders.len() == 0 || !crosses(levels[0].price, taker.price, is_buy)
        || levels[0].orders[0].user_id == taker.user_id {
    } else {
        let maker = levels[0].orders[0];
        let q = min_spec(taker.remaining, maker.remaining);
        let maker_left = diff(maker.remaining, q);
        let taker_left = diff(taker.remaining, q);
        let trade = Trade {
            maker_order_id: maker.id,
            taker_order_id: taker.id,
            symbol: taker.symbol,
            price: levels[0].price,
            amount: q,
        };
        let trades2 = trades.push(trade);
        if maker_left.value() == 0 && taker_left.value() != 0 {
            lemma_count_remove_at(levels, 0, 0);
            lemma_fill_keeps_prefix(remove_at(levels, 0, 0), with_remaining(taker, taker_left), trades2, is_buy);
            assert forall|k: int| 0 <= k < trades.len() implies #[trigger] fill_spec(levels, taker, trades, is_buy).2[k]
                == trades[k] by {
                assert(trades2[k] == trades[k]);
            }
        }
    }
}

/// No order on `levels` belongs to user `u`.
pub open spec fn no_orders_of(levels: Seq<LevelModel>, u: u64) -> bool {
    forall|i: int, j: int| level_has(levels, i, j) ==> (#[trigger] levels[i].orders[j]).user_id != u
}

/// Matching brings no order of a user onto a side that held none.
pub proof fn lemma_fill_keeps_users_out(levels: Seq<LevelModel>, taker: Order, trades: Seq<Trade>, is_buy: bool, u: u64)
    requires
        sorted_levels(levels, !is_buy),
        levels_wf(levels, !is_buy),
        ids_unique(levels),
        no_orders_of(levels, u),
    ensures
        no_orders_of(fill_spec(levels, taker, trades, is_buy).0, u),
    decreases count(levels),
{
    if levels.len() == 0 || levels[0].orders.len() == 0 || !crosses(levels[0].price, taker.price, is_buy)
        || levels[0].orders[0].user_id == taker.user_id {
    } else {
        let maker = levels[0].orders[0];
        let q = min_spec(taker.remaining, maker.remaining);
        let maker_left = diff(maker.remaining, q);
        let taker_left = diff(taker.remaining, q);
        let rest = remove_at(levels, 0, 0);
        assert(level_has(levels, 0, 0));
        lemma_remove_side(levels, !is_buy, 0, 0);
        assert forall|i: int, j: int| level_has(rest, i, j) implies (#[trigger] rest[i].orders[j]).user_id != u by {
            let (i0, j0) = choose|i0: int, j0: int|
                level_has(levels, i0, j0) && levels[i0].orders[j0] == #[trigger] rest[i].orders[j];
        }
        if maker_left.value() == 0 {
            if taker_left.value() != 0 {
                let trade = Trade {
                    maker_order_id: maker.id,
                    taker_order_id: taker.id,
                    symbol: taker.symbol,
                    price: levels[0].price,
                    amount: q,
                };
                lemma_fill_keeps_users_out(rest, with_remaining(taker, taker_left), trades.push(trade), is_buy, u);
            }
        } else {
            let lv2 = with_front_remaining(levels, maker_left);
            assert forall|i: int, j: int| level_has(lv2, i, j) implies (#[trigger] lv2[i].orders[j]).user_id != u by {
                assert(level_has(levels, i, j));
                assert(lv2[i].orders[j].user_id == levels[i].orders[j].user_id);
            }
        }
    }
}

/// Matches `taker` against the front of `levels` (the opposite side) until
/// the taker is filled or the best level no longer crosses; filled makers
/// leave the side and the index, and every fill is recorded as a trade at
/// the maker level's price.
#[verifier::spinoff_prover]
#[verifier::rlimit(60)]
fn fill_against(
    levels: &mut Vec<PriceLevel>,
    order_map: &mut HashMap<u64, (Side, Decimal)>,
    other: &Vec<PriceLevel>,
    taker: &mut Order,
    trades: &mut Vec<Trade>,
    is_buy: bool,
)
    requires
        inv_sides(levels_view(old(levels)@), levels_view(other@), !is_buy, old(order_map)@),
        old(taker).wf(),
        old(taker).remaining.value() > 0,
    ensures
        ({
            let (lv2, t2, tr2) = fill_spec(
                levels_view(old(levels)@),
                *old(taker),
                old(trades)@,
                is_buy,
            );
            levels_view(final(levels)@) == lv2 && *final(taker) == t2 && final(trades)@ == tr2
        }),
        inv_sides(levels_view(final(levels)@), levels_view(other@), !is_buy, final(order_map)@),
        final(taker).wf(),
        final(taker).remaining.value() >= 0,
        *final(taker) == with_remaining(*old(taker), final(taker).remaining),
        forall|id: u64|
            #[trigger] has_id(levels_view(final(levels)@), id) ==> has_id(
                levels_view(old(levels)@),
                id,
            ),
        orders_from(levels_view(final(levels)@), levels_view(old(levels)@)),
        final(trades)@.len() >= old(trades)@.len(),
        forall|k: int|
            old(trades)@.len() <= k < final(trades)@.len() ==> fill_ok(
                #[trigger] final(trades)@[k],
                *old(taker),
                levels_view(old(levels)@),
                is_buy,
            ),
        forall|s: nat|
            #[trigger] fill_on_grid(levels_view(old(levels)@), *old(taker), s) ==> fill_on_grid(
                levels_view(final(levels)@),
                *final(taker),
                s,
            ) && side_total(levels_view(final(levels)@)) + final(taker).remaining.value() + 2
                * traded_total(final(trades)@) == side_total(levels_view(old(levels)@))
                + old(taker).remaining.value() + 2 * traded_total(old(trades)@),
        forall|s: nat|
            s <= 28 && on_grid(old(taker).remaining, s) && #[trigger] makers_on_grid(
                levels_view(old(levels)@),
                old(trades)@.len() as int,
                final(trades)@,
                s,
            ) ==> side_total(levels_view(final(levels)@)) + final(taker).remaining.value() + 2 * traded_total(
                final(trades)@,
            ) == side_total(levels_view(old(levels)@)) + old(taker).remaining.value() + 2 * traded_total(
                old(trades)@,
            ),
        levels_view(final(levels)@).len() == 0 || !crosses(
            levels_view(final(levels)@)[0].price,
            final(taker).price,
            is_buy,
        ) || final(taker).remaining.value() == 0 || levels_view(final(levels)@)[0].orders[0].user_id
            == final(taker).user_id,
        levels_view(final(levels)@).len() > 0 ==> levels_view(old(levels)@).len() > 0 && !better(
            !is_buy,
            levels_view(final(levels)@)[0].price,
            levels_view(old(levels)@)[0].price,
        ),
{
    let ghost target = fill_spec(levels_view(levels@), *taker, trades@, is_buy);
    let ghost lv0 = levels_view(levels@);
    let ghost t0 = *taker;
    let ghost tr0 = trades@;
    proof {
        assert forall|i: int, j: int| level_has(lv0, i, j) implies rested(
            lv0,
            (#[trigger] lv0[i].orders[j]).id,
            lv0[i].orders[j].price,
        ) by {}
        assert forall|i: int, j: int| level_has(lv0, i, j) implies exists|i0: int, j0: int|
            level_has(lv0, i0, j0) && lv0[i0].orders[j0] == #[trigger] lv0[i].orders[j] by {
            assert(level_has(lv0, i, j) && lv0[i].orders[j] == lv0[i].orders[j]);
        }
    }
    loop
        invariant_except_break
            fill_spec(levels_view(levels@), *taker, trades@, is_buy) == target,
            taker.remaining.value() > 0,
            orders_kept(levels_view(levels@), lv0),
        invariant
            forall|s: nat|
                s <= 28 && on_grid(t0.remaining, s) && #[trigger] makers_on_grid(lv0, tr0.len() as int, target.2, s)
                    ==> on_grid(taker.remaining, s) && side_total(levels_view(levels@)) + taker.remaining.value() + 2
                    * traded_total(trades@) == side_total(lv0) + t0.remaining.value() + 2 * traded_total(tr0),
            inv_sides(levels_view(levels@), levels_view(other@), !is_buy, order_map@),
            taker.wf(),
            taker.remaining.value() >= 0,
            *taker == with_remaining(t0, taker.remaining),
            forall|id: u64| #[trigger] has_id(levels_view(levels@), id) ==> has_id(lv0, id),
            orders_from(levels_view(levels@), lv0),
            trades@.len() >= tr0.len(),
            forall|k: int| tr0.len() <= k < trades@.len() ==> fill_ok(#[trigger] trades@[k], t0, lv0, is_buy),
            forall|s: nat|
                #[trigger] fill_on_grid(lv0, t0, s) ==> fill_on_grid(levels_view(levels@), *taker, s)
                    && side_total(levels_view(levels@)) + taker.remaining.value() + 2 * traded_total(trades@)
                    == side_total(lv0) + t0.remaining.value() + 2 * traded_total(tr0),
            levels_view(levels@).len() > 0 ==> lv0.len() > 0 && !better(
                !is_buy,
                levels_view(levels@)[0].price,
                lv0[0].price,
            ),
        ensures
            (levels_view(levels@), *taker, trades@) == target,
            forall|s: nat|
                s <= 28 && on_grid(t0.remaining, s) && #[trigger] makers_on_grid(lv0, tr0.len() as int, target.2, s)
                    ==> on_grid(taker.remaining, s) && side_total(levels_view(levels@)) + taker.remaining.value() + 2
                    * traded_total(trades@) == side_total(lv0) + t0.remaining.value() + 2 * traded_total(tr0),
            inv_sides(levels_view(levels@), levels_view(other@), !is_buy, order_map@),
            taker.wf(),
            taker.remaining.value() >= 0,
            *taker == with_remaining(t0, taker.remaining),
            forall|id: u64| #[trigger] has_id(levels_view(levels@), id) ==> has_id(lv0, id),
            orders_from(levels_view(levels@), lv0),
            trades@.len() >= tr0.len(),
            forall|k: int| tr0.len() <= k < trades@.len() ==> fill_ok(#[trigger] trades@[k], t0, lv0, is_buy),
            forall|s: nat|
                #[trigger] fill_on_grid(lv0, t0, s) ==> fill_on_grid(levels_view(levels@), *taker, s)
                    && side_total(levels_view(levels@)) + taker.remaining.value() + 2 * traded_total(trades@)
                    == side_total(lv0) + t0.remaining.value() + 2 * traded_total(tr0),
            levels_view(levels@).len() == 0 || !crosses(levels_view(levels@)[0].price, taker.price, is_buy)
                || taker.remaining.value() == 0 || levels_view(levels@)[0].orders[0].user_id == taker.user_id,
            levels_view(levels@).len() > 0 ==> lv0.len() > 0 && !better(
                !is_buy,
                levels_view(levels@)[0].price,
                lv0[0].price,
            ),
        decreases count(levels_view(levels@)),
    {
        let ghost lv = levels_view(levels@);
        let ghost tk = *taker;
        let ghost trs = trades@;
        let ghost m0 = order_map@;
        if levels.len() == 0 {
            break;
        }
        assert(lv[0] == levels@[0]@);
        assert(lv[0].orders.len() > 0);
        assert(level_has(lv, 0, 0));
        assert(fits_level(lv[0].orders[0], lv[0].price, !is_buy));
        let best = levels[0].price;
        let c = compare(&best, &taker.price);
        let cross = if is_buy {
            c != Comparison::Greater
        } else {
            c != Comparison::Less
        };
        if !cross {
            break;
        }
        if levels[0].orders[0].user_id == taker.user_id {
            break;
        }
        let maker_rem = levels[0].orders[0].remaining;
        let maker_id = levels[0].orders[0].id;
        let ghost maker = lv[0].orders[0];
        let q = min(taker.remaining, maker_rem);
        let sub_maker = checked_sub(&maker_rem, &q);
        let new_maker = sub_maker.unwrap();
        let sub_taker = checked_sub(&taker.remaining, &q);
        let new_taker = sub_taker.unwrap();
        proof {
            if tk.remaining.value() <= maker.remaining.value() {
                lemma_self_difference(tk.remaining);
            } else {
                lemma_self_difference(maker.remaining);
            }
        }
        taker.remaining = new_taker;
        let trade = Trade {
            maker_order_id: maker_id,
            taker_order_id: taker.id,
            symbol: taker.symbol.clone(),
            price: best,
            amount: q,
        };
        let ghost tr = trade;
        trades.push(trade);
        proof {
            lemma_traded_total_push(trs, tr);
            assert(level_has(lv, 0, 0));
            let (i0, j0) = choose|i0: int, j0: int| level_has(lv0, i0, j0) && lv0[i0].orders[j0] == #[trigger] lv[0].orders[0];
            let rest = remove_at(lv, 0, 0);
            let tk2 = with_remaining(tk, new_taker);
            if new_maker.value() == 0 && new_taker.value() != 0 {
                lemma_count_remove_at(lv, 0, 0);
                lemma_fill_keeps_prefix(rest, tk2, trades@, is_buy);
                assert(target == fill_spec(rest, tk2, trades@, is_buy));
            } else {
                assert(target.2 == trades@);
            }
            assert(target.2[trs.len() as int] == tr);
            assert forall|s: nat| s <= 28 && on_grid(t0.remaining, s) && #[trigger] makers_on_grid(
                lv0,
                tr0.len() as int,
                target.2,
                s,
            ) implies on_grid(maker.remaining, s) && on_grid(new_taker, s) && new_maker.value() == maker.remaining.value()
                - q.value() && new_taker.value() == tk.remaining.value() - q.value() && side_total(lv)
                + tk.remaining.value() + 2 * traded_total(trs) == side_total(lv0) + t0.remaining.value() + 2
                * traded_total(tr0) by {
                assert(target.2[trs.len() as int].maker_order_id == lv0[i0].orders[j0].id);
                assert(on_grid(lv0[i0].orders[j0].remaining, s));
                lemma_fill_step_exact(maker.remaining, tk.remaining, q, new_maker, new_taker, s);
            }
            assert(rested(lv0, maker.id, maker.price));
            assert(fill_ok(tr, t0, lv0, is_buy));
            assert forall|k: int| tr0.len() <= k < trades@.len() implies fill_ok(
                #[trigger] trades@[k],
                t0,
                lv0,
                is_buy,
            ) by {
                if k < trs.len() {
                    assert(trades@[k] == trs[k]);
                }
            }
        }
        if new_maker.is_zero() {
            proof {
                lemma_pop_front_keeps_inv(lv, levels_view(other@), !is_buy, m0);
                lemma_count_remove_at(lv, 0, 0);
                lemma_remove_side(lv, !is_buy, 0, 0);
                lemma_side_total_pop_front(lv);
            }
            let mut lvl = levels.remove(0);
            lvl.orders.remove(0);
            if lvl.orders.len() > 0 {
                levels.insert(0, lvl);
            }
            order_map.remove(&maker_id);
            assert(levels_view(levels@) =~= remove_at(lv, 0, 0));
            proof {
                let lv2 = remove_at(lv, 0, 0);
                assert forall|i: int, j: int| level_has(lv2, i, j) implies rested(
                    lv0,
                    (#[trigger] lv2[i].orders[j]).id,
                    lv2[i].orders[j].price,
                ) by {
                    let (i0, j0) = choose|i0: int, j0: int|
                        level_has(lv, i0, j0) && lv[i0].orders[j0] == #[trigger] lv2[i].orders[j];
                    assert(rested(lv0, lv[i0].orders[j0].id, lv[i0].orders[j0].price));
                }
                assert forall|s: nat| #[trigger] fill_on_grid(lv0, t0, s) implies fill_on_grid(
                    lv2,
                    *taker,
                    s,
                ) && side_total(lv2) + taker.remaining.value() + 2 * traded_total(trades@) == side_total(lv0)
                    + t0.remaining.value() + 2 * traded_total(tr0) by {
                    assert(fill_on_grid(lv, tk, s));
                    assert(on_grid(maker.remaining, s));
                    lemma_fill_step_exact(maker.remaining, tk.remaining, q, new_maker, new_taker, s);
                    assert forall|i: int, j: int| level_has(lv2, i, j) implies on_grid(
                        #[trigger] lv2[i].orders[j].remaining,
                        s,
                    ) by {
                        let (i0, j0) = choose|i0: int, j0: int|
                            level_has(lv, i0, j0) && lv[i0].orders[j0] == #[trigger] lv2[i].orders[j];
                        assert(on_grid(lv[i0].orders[j0].remaining, s));
                    }
                }
                assert forall|i: int, j: int| level_has(lv2, i, j) implies exists|i0: int, j0: int|
                    level_has(lv0, i0, j0) && lv0[i0].orders[j0] == #[trigger] lv2[i].orders[j] by {
                    let (i1, j1) = choose|i1: int, j1: int|
                        level_has(lv, i1, j1) && lv[i1].orders[j1] == #[trigger] lv2[i].orders[j];
                    let (i2, j2) = choose|i2: int, j2: int|
                        level_has(lv0, i2, j2) && lv0[i2].orders[j2] == #[trigger] lv[i1].orders[j1];
                }
                assert forall|s: nat| s <= 28 && on_grid(t0.remaining, s) && #[trigger] makers_on_grid(
                    lv0,
                    tr0.len() as int,
                    target.2,
                    s,
                ) implies on_grid(taker.remaining, s) && side_total(lv2) + taker.remaining.value() + 2 * traded_total(
                    trades@,
                ) == side_total(lv0) + t0.remaining.value() + 2 * traded_total(tr0) by {}
                if lv2.len() > 0 {
                    if lv[0].orders.len() == 1 {
                        assert(lv2[0] == lv[1]);
                        assert(better(!is_buy, lv[0].price, lv[1].price));
                    } else {
                        assert(lv2[0].price == lv[0].price);
                    }
                }
            }
        } else {
            proof {
                lemma_value_sign(new_maker);
                lemma_update_front_keeps_inv(lv, levels_view(other@), !is_buy, m0, new_maker);
                lemma_side_total_front_update(lv, new_maker);
            }
            let mut lvl = levels.remove(0);
            let mut m = lvl.orders.remove(0);
            m.remaining = new_maker;
            assert(m == with_remaining(maker, new_maker));
            lvl.orders.insert(0, m);
            assert(lvl.orders@ =~= lv[0].orders.update(0, with_remaining(maker, new_maker)));
            levels.insert(0, lvl);
            assert(levels_view(levels@) =~= with_front_remaining(lv, new_maker));
            proof {
                let lv2 = with_front_remaining(lv, new_maker);
                assert forall|i: int, j: int| level_has(lv2, i, j) implies rested(
                    lv0,
                    (#[trigger] lv2[i].orders[j]).id,
                    lv2[i].orders[j].price,
                ) by {
                    assert(level_has(lv, i, j));
                    assert(lv2[i].orders[j].id == lv[i].orders[j].id);
                    assert(lv2[i].orders[j].price == lv[i].orders[j].price);
                    assert(rested(lv0, lv[i].orders[j].id, lv[i].orders[j].price));
                }
                assert forall|s: nat| #[trigger] fill_on_grid(lv0, t0, s) implies fill_on_grid(
                    lv2,
                    *taker,
                    s,
                ) && side_total(lv2) + taker.remaining.value() + 2 * traded_total(trades@) == side_total(lv0)
                    + t0.remaining.value() + 2 * traded_total(tr0) by {
                    assert(fill_on_grid(lv, tk, s));
                    assert(on_grid(maker.remaining, s));
                    lemma_fill_step_exact(maker.remaining, tk.remaining, q, new_maker, new_taker, s);
                    assert forall|i: int, j: int| level_has(lv2, i, j) implies on_grid(
                        #[trigger] lv2[i].orders[j].remaining,
                        s,
                    ) by {
                        assert(level_has(lv, i, j));
                        if i != 0 || j != 0 {
                            assert(lv2[i].orders[j] == lv[i].orders[j]);
                        }
                    }
                }
                assert(lv2[0].price == lv[0].price);
                assert forall|s: nat| s <= 28 && on_grid(t0.remaining, s) && #[trigger] makers_on_grid(
                    lv0,
                    tr0.len() as int,
                    target.2,
                    s,
                ) implies on_grid(taker.remaining, s) && side_total(lv2) + taker.remaining.value() + 2 * traded_total(
                    trades@,
                ) == side_total(lv0) + t0.remaining.value() + 2 * traded_total(tr0) by {}
                assert(taker.remaining.value() == 0);
            }
        }
        if taker.is_filled() {
            break;
        }
        proof {
            lemma_value_sign(new_taker);
        }
    }
}

/// The total remaining quantity of a level, summed oldest first.
fn level_sum(orders: &Vec<Order>) -> (r: Decimal)
    requires
        forall|j: int| 0 <= j < orders@.len() ==> resting_ok(#[trigger] orders@[j]),
        value_total(orders@) + orders@.len() * unit() <= (MAX_MANTISSA - 1) * unit(),
    ensures
        r == level_total(orders@),
{
    let mut total = Decimal::zero();
    let mut k: usize = 0;
    proof {
        crate::decimal::lemma_pow10_positive(28);
        assert(orders@.take(0) =~= Seq::<Order>::empty());
    }
    while k < orders.len()
        invariant
            k <= orders@.len(),
            forall|j: int| 0 <= j < orders@.len() ==> resting_ok(#[trigger] orders@[j]),
            value_total(orders@) + orders@.len() * unit() <= (MAX_MANTISSA - 1) * unit(),
            total == level_total(orders@.take(k as int)),
            total.wf(),
            -(k * unit()) <= total.value() - value_total(orders@.take(k as int)) <= k * unit(),
            unit() > 0,
        decreases orders@.len() - k,
    {
        let ghost pre = orders@.take(k as int);
        let ghost next = orders@.take(k as int + 1);
        let ghost rem = orders@[k as int].remaining;
        proof {
            assert(next.drop_last() =~= pre);
            assert(next.last() == orders@[k as int]);
            assert(value_total(next) == value_total(pre) + rem.value());
            lemma_value_total_prefix(orders@, k as int);
            lemma_value_total_prefix(orders@, k as int + 1);
            assert(resting_ok(orders@[k as int]));
            vstd::arithmetic::mul::lemma_mul_inequality(k as int + 1, orders@.len() as int, unit());
            vstd::arithmetic::mul::lemma_mul_is_distributive_add_other_way(unit(), k as int, 1);
            vstd::arithmetic::mul::lemma_mul_inequality(0, k as int, unit());
            assert((k as int + 1) * unit() == k * unit() + unit());
            assert(total.value() + rem.value() <= (MAX_MANTISSA - 1) * unit());
            assert(value_total(orders@) >= 0);
            assert(k * unit() <= orders@.len() * unit());
            assert(total.value() >= -(k * unit()));
            assert(orders@.len() * unit() <= (MAX_MANTISSA - 1) * unit());
            assert(-((MAX_MANTISSA - 1) * unit()) <= total.value() + rem.value());
            assert(-(MAX_MANTISSA - 1) * unit() == -((MAX_MANTISSA - 1) * unit())) by (nonlinear_arith);
        }
        let sum = checked_add(&total, &orders[k].remaining);
        total = sum.unwrap();
        proof {
            assert(level_total(next) == total);
        }
        k = k + 1;
    }
    assert(orders@.take(k as int) =~= orders@);
    total
}

/// The first `limit` levels as (price, total remaining) pairs.
fn depth_of(levels: &Vec<PriceLevel>, limit: usize, is_bid: bool) -> (r: Vec<DepthLevel>)
    requires
        levels_wf(levels_view(levels@), is_bid),
        depth_fits(levels_view(levels@), limit),
    ensures
        r@ == depth_side(levels_view(levels@), limit),
{
    let ghost lv = levels_view(levels@);
    let mut out: Vec<DepthLevel> = Vec::new();
    let mut i: usize = 0;
    while i < levels.len() && i < limit
        invariant
            lv == levels_view(levels@),
            levels_wf(lv, is_bid),
            depth_fits(lv, limit),
            i <= levels.len(),
            i <= limit,
            out@ == depth_side(lv, limit).take(i as int),
        decreases levels.len() - i,
    {
        assert(lv[i as int] == levels@[i as int]@);
        assert forall|j: int| 0 <= j < levels@[i as int].orders@.len() implies resting_ok(
            #[trigger] levels@[i as int].orders@[j],
        ) by {
            assert(level_has(lv, i as int, j));
        }
        let total = level_sum(&levels[i].orders);
        out.push((levels[i].price, total));
        i = i + 1;
        assert(out@ =~= depth_side(lv, limit).take(i as int));
    }
    assert(out@ =~= depth_side(lv, limit));
    out
}

/// The remaining quantities of `orders` summed from the front by
/// `rust_decimal` addition, or `None` once an addition overflows.
pub open spec fn level_total_checked(orders: Seq<Order>) -> Option<Decimal>
    decreases orders.len(),
{
    if orders.len() == 0 {
        Some(Decimal { mantissa: 0, scale: 0 })
    } else {
        match level_total_checked(orders.drop_last()) {
            Some(t) => decimal_sum(t, orders.last().remaining),
            None => None,
        }
    }
}

/// Where no addition overflows, the checked sum is the level total.
proof fn lemma_level_total_checked(orders: Seq<Order>)
    requires
        level_total_checked(orders) is Some,
    ensures
        level_total_checked(orders)->0 == level_total(orders),
    decreases orders.len(),
{
    if orders.len() > 0 {
        lemma_level_total_checked(orders.drop_last());
    }
}

/// Every one of the first `limit` levels sums without overflow.
pub open spec fn depth_sums_ok(levels: Seq<LevelModel>, limit: usize) -> bool {
    forall|i: int| 0 <= i < levels.len() && i < limit ==> (#[trigger] level_total_checked(levels[i].orders)) is Some
}

/// The total remaining quantity of a level, or `None` on overflow.
fn level_sum_checked(orders: &Vec<Order>) -> (r: Option<Decimal>)
    requires
        forall|j: int| 0 <= j < orders@.len() ==> (#[trigger] orders@[j]).remaining.wf(),
    ensures
        r == level_total_checked(orders@),
{
    let mut total = Decimal::zero();
    let mut k: usize = 0;
    assert(orders@.take(0) =~= Seq::<Order>::empty());
    while k < orders.len()
        invariant
            k <= orders@.len(),
            forall|j: int| 0 <= j < orders@.len() ==> (#[trigger] orders@[j]).remaining.wf(),
            level_total_checked(orders@.take(k as int)) == Some(total),
            total.wf(),
        decreases orders@.len() - k,
    {
        proof {
            let next = orders@.take(k as int + 1);
            assert(next.drop_last() =~= orders@.take(k as int));
            assert(next.last() == orders@[k as int]);
        }
        match checked_add(&total, &orders[k].remaining) {
            Some(t) => {
                total = t;
            },
            None => {
                proof {
                    lemma_level_total_checked_none(orders@, k as int + 1);
                }
                return None;
            },
        }
        k = k + 1;
    }
    assert(orders@.take(k as int) =~= orders@);
    Some(total)
}

/// Once a prefix overflows, so does the whole level.
proof fn lemma_level_total_checked_none(orders: Seq<Order>, k: int)
    requires
        0 <= k <= orders.len(),
        level_total_checked(orders.take(k)) is None,
    ensures
        level_total_checked(orders) is None,
    decreases orders.len(),
{
    if k < orders.len() {
        assert(orders.drop_last().take(k) =~= orders.take(k));
        lemma_level_total_checked_none(orders.drop_last(), k);
    } else {
        assert(orders.take(k) =~= orders);
    }
}

/// The first `limit` levels as (price, total remaining) pairs, or `None`
/// when a level's total overflows.
fn depth_of_checked(levels: &Vec<PriceLevel>, limit: usize, is_bid: bool) -> (r: Option<Vec<DepthLevel>>)
    requires
        levels_wf(levels_view(levels@), is_bid),
    ensures
        r is Some <==> depth_sums_ok(levels_view(levels@), limit),
        r is Some ==> r->0@ == depth_side(levels_view(levels@), limit),
{
    let ghost lv = levels_view(levels@);
    let mut out: Vec<DepthLevel> = Vec::new();
    let mut i: usize = 0;
    while i < levels.len() && i < limit
        invariant
            lv == levels_view(levels@),
            levels_wf(lv, is_bid),
            i <= levels.len(),
            i <= limit,
            forall|j: int| 0 <= j < i ==> (#[trigger] level_total_checked(lv[j].orders)) is Some,
            out@ == depth_side(lv, limit).take(i as int),
        decreases levels.len() - i,
    {
        assert(lv[i as int] == levels@[i as int]@);
        assert forall|j: int| 0 <= j < levels@[i as int].orders@.len() implies (
        #[trigger] levels@[i as int].orders@[j]).remaining.wf() by {
            assert(level_has(lv, i as int, j));
        }
        let total = match level_sum_checked(&levels[i].orders) {
            Some(t) => t,
            None => {
                assert(!depth_sums_ok(lv, limit));
                return None;
            },
        };
        proof {
            lemma_level_total_checked(lv[i as int].orders);
        }
        out.push((levels[i].price, total));
        i = i + 1;
        assert(out@ =~= depth_side(lv, limit).take(i as int));
    }
    assert(out@ =~= depth_side(lv, limit));
    Some(out)
}

/// The orders of the levels in sequence, cloned.
fn flatten_levels(levels: &Vec<PriceLevel>, out: &mut Vec<Order>)
    ensures
        final(out)@ == old(out)@ + flatten(levels_view(levels@)),
{
    let ghost lv = levels_view(levels@);
    let ghost start = out@;
    let mut i: usize = 0;
    assert(lv.take(0) =~= Seq::<LevelModel>::empty());
    assert(start + flatten(Seq::<LevelModel>::empty()) =~= start);
    while i < levels.len()
        invariant
            lv == levels_view(levels@),
            i <= levels.len(),
            out@ == start + flatten(lv.take(i as int)),
        decreases levels.len() - i,
    {
        assert(lv[i as int] == levels@[i as int]@);
        let ghost before = out@;
        let mut j: usize = 0;
        while j < levels[i].orders.len()
            invariant
                lv == levels_view(levels@),
                i < levels.len(),
                j <= levels@[i as int].orders@.len(),
                out@ == before + levels@[i as int].orders@.take(j as int),
            decreases levels@[i as int].orders@.len() - j,
        {
            out.push(levels[i].orders[j].clone());
            j = j + 1;
            assert(out@ =~= before + levels@[i as int].orders@.take(j as int));
        }
        assert(levels@[i as int].orders@.take(j as int) =~= lv[i as int].orders);
        assert(lv.take(i as int + 1).drop_last() =~= lv.take(i as int));
        assert(out@ =~= start + flatten(lv.take(i as int + 1)));
        i = i + 1;
    }
    assert(lv.take(i as int) =~= lv);
}

/// A copy of a level's orders, oldest first.
fn clone_orders(v: &Vec<Order>) -> (r: Vec<Order>)
    ensures
        r@ == v@,
{
    let mut out: Vec<Order> = Vec::new();
    let mut i: usize = 0;
    while i < v.len()
        invariant
            i <= v.len(),
            out@ == v@.take(i as int),
        decreases v.len() - i,
    {
        out.push(v[i].clone());
        i = i + 1;
        assert(out@ =~= v@.take(i as int));
    }
    assert(v@.take(i as int) =~= v@);
    out
}

/// Some level of the side has price value `p`.
pub open spec fn has_level(levels: Seq<LevelModel>, p: Decimal) -> bool {
    exists|i: int| 0 <= i < levels.len() && (#[trigger] levels[i]).price.value() == p.value()
}

/// The orders of the level whose price has value `p`, found by scanning
/// the side; the side holds at most one such level.
fn level_orders(levels: &Vec<PriceLevel>, p: &Decimal, is_bid: bool) -> (r: Option<Vec<Order>>)
    requires
        sorted_levels(levels_view(levels@), is_bid),
        levels_wf(levels_view(levels@), is_bid),
        p.wf(),
    ensures
        r is Some <==> has_level(levels_view(levels@), *p),
        r is Some ==> exists|i: int|
            0 <= i < levels@.len() && (#[trigger] levels_view(levels@)[i]).price.value() == p.value()
                && r->0@ == levels_view(levels@)[i].orders,
{
    let ghost lv = levels_view(levels@);
    let k = find_level(levels, p, is_bid);
    proof {
        lemma_insert_pos(lv, *p, is_bid);
    }
    if k < levels.len() {
        assert(lv[k as int] == levels@[k as int]@);
        if compare(&levels[k].price, p) == Comparison::Equal {
            let v = clone_orders(&levels[k].orders);
            return Some(v);
        }
        assert(!has_level(lv, *p)) by {
            if has_level(lv, *p) {
                let i = choose|i: int| 0 <= i < lv.len() && (#[trigger] lv[i]).price.value() == p.value();
                if i < k {
                    assert(better(is_bid, lv[i].price, *p));
                } else if i > k {
                    assert(better(is_bid, lv[k as int].price, lv[i].price));
                }
            }
        }
    } else {
        assert(!has_level(lv, *p)) by {
            if has_level(lv, *p) {
                let i = choose|i: int| 0 <= i < lv.len() && (#[trigger] lv[i]).price.value() == p.value();
                assert(better(is_bid, lv[i].price, *p));
            }
        }
    }
    None
}

impl View for OrderBook {
    type V = BookModel;

    closed spec fn view(&self) -> BookModel {
        BookModel { bids: levels_view(self.bids@), asks: levels_view(self.asks@) }
    }
}

impl OrderBook {
    /// The book invariant: sides sorted best first, levels non-empty and
    /// homogeneous, ids unique, and the index in step with the levels.
    pub closed spec fn wf(&self) -> bool {
        book_inv(self@.bids, self@.asks, self.order_map@)
    }

    /// Every book the operations produce is valid: each side sorted best
    /// first with distinct prices, levels non-empty and holding only
    /// resting orders of their side and price, and order ids unique across
    /// both sides.
    pub proof fn lemma_wf_valid(&self)
        requires
            self.wf(),
        ensures
            valid_book(self@),
    {
    }

    pub fn new() -> (r: OrderBook)
        ensures
            r.wf(),
            r@.bids.len() == 0,
            r@.asks.len() == 0,
    {
        let r = OrderBook { bids: Vec::new(), asks: Vec::new(), order_map: HashMap::new() };
        assert(r@.bids =~= Seq::<LevelModel>::empty());
        assert(r@.asks =~= Seq::<LevelModel>::empty());
        assert(r.order_map@.dom() =~= Set::<u64>::empty());
        r
    }

    /// Best (highest) bid price, or `None` if the book has no buy orders.
    pub fn best_bid(&self) -> (r: Option<Decimal>)
        ensures
            r == (if self@.bids.len() > 0 {
                Some(self@.bids[0].price)
            } else {
                None::<Decimal>
            }),
    {
        if self.bids.len() > 0 {
            Some(self.bids[0].price)
        } else {
            None
        }
    }

    /// Best (lowest) ask price, or `None` if the book has no sell orders.
    pub fn best_ask(&self) -> (r: Option<Decimal>)
        ensures
            r == (if self@.asks.len() > 0 {
                Some(self@.asks[0].price)
            } else {
                None::<Decimal>
            }),
    {
        if self.asks.len() > 0 {
            Some(self.asks[0].price)
        } else {
            None
        }
    }

    /// The orders resting on the bid level of price `price`, oldest first,
    /// or `None` when no bid level has that price.
    pub fn bid_level(&self, price: &Decimal) -> (r: Option<Vec<Order>>)
        requires
            self.wf(),
            price.wf(),
        ensures
            r is Some <==> has_level(self@.bids, *price),
            r is Some ==> exists|i: int|
                0 <= i < self@.bids.len() && (#[trigger] self@.bids[i]).price.value() == price.value()
                    && r->0@ == self@.bids[i].orders,
    {
        level_orders(&self.bids, price, true)
    }

    /// The orders resting on the ask level of price `price`, oldest first,
    /// or `None` when no ask level has that price.
    pub fn ask_level(&self, price: &Decimal) -> (r: Option<Vec<Order>>)
        requires
            self.wf(),
            price.wf(),
        ensures
            r is Some <==> has_level(self@.asks, *price),
            r is Some ==> exists|i: int|
                0 <= i < self@.asks.len() && (#[trigger] self@.asks[i]).price.value() == price.value()
                    && r->0@ == self@.asks[i].orders,
    {
        level_orders(&self.asks, price, false)
    }

    /// Number of bid price levels.
    pub fn bid_level_count(&self) -> (r: usize)
        ensures
            r == self@.bids.len(),
    {
        self.bids.len()
    }

    /// Number of ask price levels.
    pub fn ask_level_count(&self) -> (r: usize)
        ensures
            r == self@.asks.len(),
    {
        self.asks.len()
    }

    /// Total number of live orders tracked by the order map.
    pub fn len(&self) -> (r: usize)
        requires
            self.wf(),
        ensures
            r == count(self@.bids) + count(self@.asks),
    {
        self.order_map.len()
    }

    pub fn is_empty(&self) -> (r: bool)
        requires
            self.wf(),
        ensures
            r == (count(self@.bids) + count(self@.asks) == 0),
    {
        let r = self.order_map.is_empty();
        proof {
            if !r {
                let id = choose|id: u64| self.order_map@.contains_key(id);
                assert(self.order_map@.dom().contains(id));
                vstd::set_lib::lemma_set_empty_equivalency_len(self.order_map@.dom());
            } else {
                assert(self.order_map@.dom() =~= Set::<u64>::empty());
            }
        }
        r
    }

    /// Places a validated order on its side and indexes it.
    fn rest_order(&mut self, order: Order)
        requires
            old(self).wf(),
            !book_has(old(self)@, order.id),
            resting_ok(order),
        ensures
            final(self).wf(),
            final(self)@ == rest_spec(old(self)@, order),
    {
        let ghost o = order;
        let id = order.id;
        let side = order.side;
        let price = order.price;
        match side {
            Side::Buy => insert_into(&mut self.bids, order, true),
            Side::Sell => insert_into(&mut self.asks, order, false),
        }
        self.order_map.insert(id, (side, price));
        proof {
            lemma_rest_keeps_inv(old(self)@, old(self).order_map@, o);
        }
    }

    /// Return the top-`limit` price levels on each side as (price,
    /// total_remaining) pairs: bids highest first, asks lowest first.
    /// `total_remaining` sums `remaining` over the orders of the level.
    pub fn depth_snapshot(&self, limit: usize) -> (r: DepthSnapshot)
        requires
            self.wf(),
            depth_fits(self@.bids, limit),
            depth_fits(self@.asks, limit),
        ensures
            r.0@ == depth_side(self@.bids, limit),
            r.1@ == depth_side(self@.asks, limit),
    {
        let bids = depth_of(&self.bids, limit, true);
        let asks = depth_of(&self.asks, limit, false);
        (bids, asks)
    }

    /// The depth snapshot, or `None` when summing one of the first `limit`
    /// levels of a side overflows.
    pub fn try_depth_snapshot(&self, limit: usize) -> (r: Option<DepthSnapshot>)
        requires
            self.wf(),
        ensures
            r is Some <==> depth_sums_ok(self@.bids, limit) && depth_sums_ok(self@.asks, limit),
            r is Some ==> (r->0).0@ == depth_side(self@.bids, limit) && (r->0).1@ == depth_side(self@.asks, limit),
    {
        let bids = match depth_of_checked(&self.bids, limit, true) {
            Some(b) => b,
            None => {
                return None;
            },
        };
        let asks = match depth_of_checked(&self.asks, limit, false) {
            Some(a) => a,
            None => {
                return None;
            },
        };
        Some((bids, asks))
    }

    /// Return a cloned list of all resting orders currently in this book:
    /// bids high to low, then asks low to high, oldest first within a level.
    pub fn open_orders(&self) -> (r: Vec<Order>)
        ensures
            r@ == flatten(self@.bids) + flatten(self@.asks),
    {
        let mut out: Vec<Order> = Vec::new();
        flatten_levels(&self.bids, &mut out);
        flatten_levels(&self.asks, &mut out);
        assert(out@ =~= flatten(self@.bids) + flatten(self@.asks));
        out
    }

    /// Insert a limit order into the book **without** attempting to match it.
    ///
    /// Rejects a non-positive price, a non-positive amount and an id that is
    /// already resting; otherwise the order joins the back of its price level.
    pub fn add_order(&mut self, order: Order) -> (r: Result<(), EngineError>)
        requires
            old(self).wf(),
            order.wf(),
            add_spec(old(self)@, order) is Ok ==> order.remaining.value() > 0,
        ensures
            final(self).wf(),
            match add_spec(old(self)@, order) {
                Ok(b) => r is Ok && final(self)@ == b,
                Err(e) => r == Err::<(), EngineError>(e) && final(self)@ == old(self)@,
            },
    {
        let zero = Decimal::zero();
        if compare(&order.price, &zero) != Comparison::Greater {
            return Err(EngineError::InvalidPrice(order.price));
        }
        if compare(&order.amount, &zero) != Comparison::Greater {
            return Err(EngineError::InvalidAmount(order.amount));
        }
        if self.order_map.contains_key(&order.id) {
            return Err(EngineError::DuplicateOrderId(order.id));
        }
        self.rest_order(order);
        Ok(())
    }

    /// Remove a resting order from the book by its ID.
    ///
    /// Returns the order as it rests (with its remaining quantity), or
    /// `OrderNotFound` when no resting order has that id. The price level
    /// goes when its last order does.
    pub fn cancel_order(&mut self, order_id: u64) -> (r: Result<Order, EngineError>)
        requires
            old(self).wf(),
        ensures
            final(self).wf(),
            match cancel_spec(old(self)@, order_id) {
                Ok((b, o)) => r == Ok::<Order, EngineError>(o) && final(self)@ == b,
                Err(e) => r == Err::<Order, EngineError>(e) && final(self)@ == old(self)@,
            },
    {
        let ghost b0 = self@;
        let ghost m0 = self.order_map@;
        let removed = self.order_map.remove(&order_id);
        let (side, price) = match removed {
            Some(v) => v,
            None => {
                return Err(EngineError::OrderNotFound(order_id));
            },
        };
        proof {
            lemma_cancel_keeps_inv(b0, m0, order_id);
            if has_id(b0.bids, order_id) {
                let (i, j) = pos_of(b0.bids, order_id);
                assert(m0[b0.bids[i].orders[j].id] == (Side::Buy, b0.bids[i].orders[j].price));
                assert(fits_level(b0.bids[i].orders[j], b0.bids[i].price, true));
            } else {
                let (i, j) = pos_of(b0.asks, order_id);
                assert(m0[b0.asks[i].orders[j].id] == (Side::Sell, b0.asks[i].orders[j].price));
                assert(fits_level(b0.asks[i].orders[j], b0.asks[i].price, false));
            }
        }
        let cancelled = match side {
            Side::Buy => remove_from_level(&mut self.bids, price, order_id, true),
            Side::Sell => remove_from_level(&mut self.asks, price, order_id, false),
        };
        match cancelled {
            Some(o) => Ok(o),
            None => Err(EngineError::OrderNotFound(order_id)),
        }
    }

    /// Returns true when `taker` would immediately cross with a best-price
    /// resting order owned by the same user.
    fn would_self_trade_on_best_level(&self, taker: &Order) -> (r: bool)
        requires
            self.wf(),
            taker.price.wf(),
        ensures
            r == self_trade(self@, *taker),
    {
        match taker.side {
            Side::Buy => {
                if self.asks.len() == 0 {
                    return false;
                }
                assert(self@.asks[0] == self.asks@[0]@);
                assert(self@.asks[0].orders.len() > 0);
                if compare(&self.asks[0].price, &taker.price) == Comparison::Greater {
                    return false;
                }
                self.asks[0].orders[0].user_id == taker.user_id
            },
            Side::Sell => {
                if self.bids.len() == 0 {
                    return false;
                }
                assert(self@.bids[0] == self.bids@[0]@);
                assert(self@.bids[0].orders.len() > 0);
                if compare(&self.bids[0].price, &taker.price) == Comparison::Less {
                    return false;
                }
                self.bids[0].orders[0].user_id == taker.user_id
            },
        }
    }

    /// Inner loop for a Buy taker: consume resting asks from lowest to highest.
    fn fill_buy(&mut self, taker: &mut Order, trades: &mut Vec<Trade>)
        requires
            old(self).wf(),
            old(taker).wf(),
            old(taker).remaining.value() > 0,
        ensures
            ({
                let (asks2, t2, tr2) = fill_spec(old(self)@.asks, *old(taker), old(trades)@, true);
                final(self)@ == BookModel { bids: old(self)@.bids, asks: asks2 } && *final(taker) == t2
                    && final(trades)@ == tr2
            }),
            final(self).wf(),
            fill_facts(
                old(self)@.asks,
                final(self)@.asks,
                *old(taker),
                *final(taker),
                old(trades)@,
                final(trades)@,
                true,
            ),
    {
        fill_against(&mut self.asks, &mut self.order_map, &self.bids, taker, trades, true);
    }

    /// Inner loop for a Sell taker: consume resting bids from highest to lowest.
    fn fill_sell(&mut self, taker: &mut Order, trades: &mut Vec<Trade>)
        requires
            old(self).wf(),
            old(taker).wf(),
            old(taker).remaining.value() > 0,
        ensures
            ({
                let (bids2, t2, tr2) = fill_spec(old(self)@.bids, *old(taker), old(trades)@, false);
                final(self)@ == BookModel { bids: bids2, asks: old(self)@.asks } && *final(taker) == t2
                    && final(trades)@ == tr2
            }),
            final(self).wf(),
            fill_facts(
                old(self)@.bids,
                final(self)@.bids,
                *old(taker),
                *final(taker),
                old(trades)@,
                final(trades)@,
                false,
            ),
    {
        fill_against(&mut self.bids, &mut self.order_map, &self.asks, taker, trades, false);
    }

    /// Match an incoming taker order against resting orders in the book.
    ///
    /// Validates price and amount, rejects a duplicate id, and rejects the
    /// order outright (self-trade prevention) when the best crossing resting
    /// order belongs to the same user. Otherwise fills against the opposite
    /// side, best price first and oldest first within a price, each trade at
    /// the maker's price, and stops before any maker of the taker's own user;
    /// an unfilled rest becomes a resting order. Returns the trades in
    /// execution order.
    ///
    /// Every trade is a positive fill at the price of a maker that rested on
    /// the opposite side and crosses the taker's limit. No quantity is
    /// created or destroyed when the taker's quantity and those of the makers
    /// it trades with lie on one decimal grid (other resting orders may lie
    /// anywhere): the resting quantity before plus the taker's equals the
    /// resting quantity after plus twice the traded amount. A book whose best
    /// bid is below its best ask stays so when the opposite side holds no
    /// order of the taker's user, and in any case unless matching stopped at
    /// such an order and the rest now faces it.
    pub fn match_order(&mut self, taker: Order) -> (r: Result<Vec<Trade>, EngineError>)
        requires
            old(self).wf(),
            taker.wf(),
            add_spec(old(self)@, taker) is Ok ==> taker.remaining.value() > 0,
        ensures
            final(self).wf(),
            match match_spec(old(self)@, taker) {
                Ok((b, t)) => r is Ok && r->Ok_0@ == t && final(self)@ == b,
                Err(e) => r == Err::<Vec<Trade>, EngineError>(e) && final(self)@ == old(self)@,
            },
            r is Ok ==> forall|k: int|
                0 <= k < r->Ok_0@.len() ==> fill_ok(
                    #[trigger] r->Ok_0@[k],
                    taker,
                    opposite(old(self)@, taker),
                    taker.side == Side::Buy,
                ),
            r is Ok ==> forall|s: nat|
                s <= 28 && #[trigger] book_on_grid(old(self)@, s) && on_grid(taker.remaining, s)
                    ==> book_on_grid(final(self)@, s) && book_total(final(self)@) + 2 * traded_total(
                    r->Ok_0@,
                ) == book_total(old(self)@) + taker.remaining.value(),
            r is Ok ==> forall|s: nat|
                s <= 28 && on_grid(taker.remaining, s) && #[trigger] makers_on_grid(
                    opposite(old(self)@, taker),
                    0,
                    r->Ok_0@,
                    s,
                ) ==> book_total(final(self)@) + 2 * traded_total(r->Ok_0@) == book_total(old(self)@)
                    + taker.remaining.value(),
            uncrossed(old(self)@) && !self_trade(final(self)@, taker) ==> uncrossed(final(self)@),
            uncrossed(old(self)@) && no_orders_of(opposite(old(self)@, taker), taker.user_id) ==> uncrossed(
                final(self)@,
            ),
    {
        let zero = Decimal::zero();
        if compare(&taker.price, &zero) != Comparison::Greater {
            return Err(EngineError::InvalidPrice(taker.price));
        }
        if compare(&taker.amount, &zero) != Comparison::Greater {
            return Err(EngineError::InvalidAmount(taker.amount));
        }
        if self.order_map.contains_key(&taker.id) {
            return Err(EngineError::DuplicateOrderId(taker.id));
        }
        if self.would_self_trade_on_best_level(&taker) {
            return Err(EngineError::SelfTradePrevented(taker.user_id));
        }
        let ghost b0 = self@;
        let ghost taker0 = taker;
        let ghost is_buy = taker0.side == Side::Buy;
        let mut taker = taker;
        let mut trades: Vec<Trade> = Vec::new();
        match taker.side {
            Side::Buy => self.fill_buy(&mut taker, &mut trades),
            Side::Sell => self.fill_sell(&mut taker, &mut trades),
        }
        let ghost b1 = self@;
        let ghost t1 = taker;
        proof {
            if no_orders_of(opposite(b0, taker0), taker0.user_id) {
                lemma_fill_keeps_users_out(opposite(b0, taker0), taker0, Seq::empty(), is_buy, taker0.user_id);
            }
            lemma_fill_keeps_taker(
                if is_buy { b0.asks } else { b0.bids },
                taker0,
                Seq::empty(),
                is_buy,
            );
            assert(traded_total(Seq::<Trade>::empty()) == 0);
            assert forall|s: nat| s <= 28 && #[trigger] book_on_grid(b0, s) && on_grid(taker0.remaining, s) implies fill_on_grid(
                opposite(b0, taker0),
                taker0,
                s,
            ) by {}
        }
        if !taker.is_filled() {
            proof {
                lemma_value_sign(taker.remaining);
                assert(!book_has(b0, taker0.id));
                assert(has_id(self@.asks, taker.id) ==> has_id(b0.asks, taker.id));
                assert(has_id(self@.bids, taker.id) ==> has_id(b0.bids, taker.id));
                assert(taker.price == taker0.price);
                assert(taker0.price.value() > 0);
                assert(taker.remaining.value() > 0);
                assert(taker.wf());
            }
            self.rest_order(taker);
            proof {
                let own = if is_buy { b1.bids } else { b1.asks };
                lemma_insert_pos(own, t1.price, is_buy);
                lemma_side_total_insert_order(own, t1, is_buy);
                lemma_insert_best(own, t1, is_buy);
                assert forall|s: nat| s <= 28 && #[trigger] book_on_grid(b0, s) && on_grid(taker0.remaining, s) implies book_on_grid(
                    self@,
                    s,
                ) && book_total(self@) + 2 * traded_total(trades@) == book_total(b0) + taker0.remaining.value() by {
                    assert(fill_on_grid(opposite(b0, taker0), taker0, s));
                    lemma_insert_on_grid(own, t1, is_buy, s);
                }
                assert forall|s: nat| s <= 28 && on_grid(taker0.remaining, s) && #[trigger] makers_on_grid(
                    opposite(b0, taker0),
                    0,
                    trades@,
                    s,
                ) implies book_total(self@) + 2 * traded_total(trades@) == book_total(b0) + taker0.remaining.value() by {}
            }
        } else {
            proof {
                assert forall|s: nat| s <= 28 && #[trigger] book_on_grid(b0, s) && on_grid(taker0.remaining, s) implies book_on_grid(
                    self@,
                    s,
                ) && book_total(self@) + 2 * traded_total(trades@) == book_total(b0) + taker0.remaining.value() by {
                    assert(fill_on_grid(opposite(b0, taker0), taker0, s));
                }
                assert forall|s: nat| s <= 28 && on_grid(taker0.remaining, s) && #[trigger] makers_on_grid(
                    opposite(b0, taker0),
                    0,
                    trades@,
                    s,
                ) implies book_total(self@) + 2 * traded_total(trades@) == book_total(b0) + taker0.remaining.value() by {}
            }
        }
        Ok(trades)
    }
}

impl Default for OrderBook {
    fn default() -> (r: OrderBook)
        ensures
            r.wf(),
            r@.bids.len() == 0,
            r@.asks.len() == 0,
    {
        OrderBook::new()
    }
}

} // verus!
