//! Quantities held by a book: exact totals of remaining amounts and traded
//! amounts, and the decimal grid on which `rust_decimal` subtracts exactly.

use vstd::prelude::*;

use crate::decimal::{Decimal, MAX_MANTISSA, fits_at, lemma_pow10_positive, pow10};
use crate::order_book::{LevelModel, insert_order, insert_pos, level_has, remove_at, with_front_remaining};
use crate::types::{Order, Trade};

verus! {

/// Exact sum of the remaining quantities of `s`.
pub open spec fn orders_total(s: Seq<Order>) -> int
    decreases s.len(),
{
    if s.len() == 0 {
        0
    } else {
        s[0].remaining.value() + orders_total(s.drop_first())
    }
}

/// Exact sum of the remaining quantities resting on a side.
pub open spec fn side_total(levels: Seq<LevelModel>) -> int
    decreases levels.len(),
{
    if levels.len() == 0 {
        0
    } else {
        orders_total(levels[0].orders) + side_total(levels.drop_first())
    }
}

/// Exact sum of the traded amounts.
pub open spec fn traded_total(t: Seq<Trade>) -> int
    decreases t.len(),
{
    if t.len() == 0 {
        0
    } else {
        traded_total(t.drop_last()) + t.last().amount.value()
    }
}

/// `d` has at most `s` digits after the point and its magnitude fits a
/// 96-bit mantissa at scale `s`; on such values `rust_decimal` adds and
/// subtracts without rounding.
pub open spec fn on_grid(d: Decimal, s: nat) -> bool {
    d.wf() && d.scale <= s && fits_at(d.value(), s)
}

/// Every remaining quantity on the side is on the grid of scale `s`.
pub open spec fn side_on_grid(levels: Seq<LevelModel>, s: nat) -> bool {
    forall|i: int, j: int| level_has(levels, i, j) ==> on_grid(#[trigger] levels[i].orders[j].remaining, s)
}

pub proof fn lemma_pow10_monotone(a: nat, b: nat)
    requires
        a <= b,
    ensures
        pow10(a) <= pow10(b),
    decreases b,
{
    if a < b {
        lemma_pow10_monotone(a, (b - 1) as nat);
        lemma_pow10_positive((b - 1) as nat);
    }
}

/// Fitting at a finer scale implies fitting at a coarser one.
pub proof fn lemma_fits_coarser(v: int, s1: nat, s2: nat)
    requires
        s1 <= s2 <= 28,
        fits_at(v, s2),
    ensures
        fits_at(v, s1),
{
    let p1 = pow10((28 - s1) as nat);
    let p2 = pow10((28 - s2) as nat);
    lemma_pow10_monotone((28 - s2) as nat, (28 - s1) as nat);
    assert(MAX_MANTISSA * p2 <= MAX_MANTISSA * p1) by (nonlinear_arith)
        requires
            p2 <= p1,
    ;
    assert(-MAX_MANTISSA * p1 <= -MAX_MANTISSA * p2) by (nonlinear_arith)
        requires
            p2 <= p1,
    ;
}

/// A value between zero and one that fits also fits.
pub proof fn lemma_fits_between(v: int, w: int, s: nat)
    requires
        0 <= v <= w,
        fits_at(w, s),
    ensures
        fits_at(v, s),
{
    let p = pow10((28 - s) as nat);
    lemma_pow10_positive((28 - s) as nat);
    assert(-MAX_MANTISSA * p <= 0) by (nonlinear_arith)
        requires
            p > 0,
    ;
}

pub proof fn lemma_orders_total_concat(a: Seq<Order>, b: Seq<Order>)
    ensures
        orders_total(a + b) == orders_total(a) + orders_total(b),
    decreases a.len(),
{
    if a.len() == 0 {
        assert(a + b =~= b);
    } else {
        assert((a + b).drop_first() =~= a.drop_first() + b);
        lemma_orders_total_concat(a.drop_first(), b);
    }
}

pub proof fn lemma_orders_total_single(o: Order)
    ensures
        orders_total(seq![o]) == o.remaining.value(),
{
    assert(seq![o].drop_first() =~= Seq::<Order>::empty());
    assert(orders_total(Seq::<Order>::empty()) == 0);
    assert(seq![o][0] == o);
}

pub proof fn lemma_orders_total_push(s: Seq<Order>, o: Order)
    ensures
        orders_total(s.push(o)) == orders_total(s) + o.remaining.value(),
{
    assert(s.push(o) =~= s + seq![o]);
    lemma_orders_total_concat(s, seq![o]);
    lemma_orders_total_single(o);
}

pub proof fn lemma_side_total_concat(a: Seq<LevelModel>, b: Seq<LevelModel>)
    ensures
        side_total(a + b) == side_total(a) + side_total(b),
    decreases a.len(),
{
    if a.len() == 0 {
        assert(a + b =~= b);
    } else {
        assert((a + b).drop_first() =~= a.drop_first() + b);
        lemma_side_total_concat(a.drop_first(), b);
    }
}

pub proof fn lemma_side_total_single(l: LevelModel)
    ensures
        side_total(seq![l]) == orders_total(l.orders),
{
    assert(seq![l].drop_first() =~= Seq::<LevelModel>::empty());
    assert(side_total(Seq::<LevelModel>::empty()) == 0);
    assert(seq![l][0] == l);
}

pub proof fn lemma_side_total_insert(s: Seq<LevelModel>, k: int, l: LevelModel)
    requires
        0 <= k <= s.len(),
    ensures
        side_total(s.insert(k, l)) == side_total(s) + orders_total(l.orders),
{
    let pre = s.subrange(0, k);
    let post = s.subrange(k, s.len() as int);
    assert(s =~= pre + post);
    assert(s.insert(k, l) =~= pre + seq![l] + post);
    lemma_side_total_concat(pre, post);
    lemma_side_total_concat(pre + seq![l], post);
    lemma_side_total_concat(pre, seq![l]);
    lemma_side_total_single(l);
}

pub proof fn lemma_side_total_update(s: Seq<LevelModel>, k: int, l: LevelModel)
    requires
        0 <= k < s.len(),
    ensures
        side_total(s.update(k, l)) + orders_total(s[k].orders) == side_total(s) + orders_total(l.orders),
{
    let pre = s.subrange(0, k);
    let post = s.subrange(k + 1, s.len() as int);
    assert(s =~= pre + seq![s[k]] + post);
    assert(s.update(k, l) =~= pre + seq![l] + post);
    lemma_side_total_concat(pre + seq![s[k]], post);
    lemma_side_total_concat(pre, seq![s[k]]);
    lemma_side_total_concat(pre + seq![l], post);
    lemma_side_total_concat(pre, seq![l]);
    lemma_side_total_single(s[k]);
    lemma_side_total_single(l);
}

/// Resting an order adds its remaining quantity to the side.
pub proof fn lemma_side_total_insert_order(levels: Seq<LevelModel>, o: Order, is_bid: bool)
    requires
        insert_pos(levels, o.price, is_bid) <= levels.len(),
    ensures
        side_total(insert_order(levels, o, is_bid)) == side_total(levels) + o.remaining.value(),
{
    let k = insert_pos(levels, o.price, is_bid) as int;
    if k < levels.len() && levels[k].price.value() == o.price.value() {
        let l2 = LevelModel { price: levels[k].price, orders: levels[k].orders.push(o) };
        lemma_side_total_update(levels, k, l2);
        lemma_orders_total_push(levels[k].orders, o);
    } else {
        let l2 = LevelModel { price: o.price, orders: seq![o] };
        lemma_side_total_insert(levels, k, l2);
        lemma_orders_total_single(o);
    }
}

/// The front maker leaving takes its remaining quantity off the side.
pub proof fn lemma_side_total_pop_front(levels: Seq<LevelModel>)
    requires
        levels.len() > 0,
        levels[0].orders.len() > 0,
    ensures
        side_total(remove_at(levels, 0, 0)) == side_total(levels) - levels[0].orders[0].remaining.value(),
{
    let orders = levels[0].orders;
    assert(orders =~= seq![orders[0]] + orders.drop_first());
    lemma_orders_total_concat(seq![orders[0]], orders.drop_first());
    lemma_orders_total_single(orders[0]);
    if orders.len() == 1 {
        assert(levels.remove(0) =~= levels.drop_first());
        assert(orders.drop_first() =~= Seq::<Order>::empty());
    } else {
        let l2 = LevelModel { price: levels[0].price, orders: orders.remove(0) };
        assert(orders.remove(0) =~= orders.drop_first());
        lemma_side_total_update(levels, 0, l2);
    }
}

/// Lowering the front maker's remaining quantity lowers the side's total
/// by the same amount.
pub proof fn lemma_side_total_front_update(levels: Seq<LevelModel>, rem: Decimal)
    requires
        levels.len() > 0,
        levels[0].orders.len() > 0,
    ensures
        side_total(with_front_remaining(levels, rem)) == side_total(levels)
            - levels[0].orders[0].remaining.value() + rem.value(),
{
    let orders = levels[0].orders;
    let o2 = orders.update(0, crate::order_book::with_remaining(orders[0], rem));
    assert(orders =~= seq![orders[0]] + orders.drop_first());
    assert(o2 =~= seq![o2[0]] + orders.drop_first());
    lemma_orders_total_concat(seq![orders[0]], orders.drop_first());
    lemma_orders_total_concat(seq![o2[0]], orders.drop_first());
    lemma_orders_total_single(orders[0]);
    lemma_orders_total_single(o2[0]);
    let l2 = LevelModel { price: levels[0].price, orders: o2 };
    lemma_side_total_update(levels, 0, l2);
}

/// One more trade adds its amount to the traded total.
pub proof fn lemma_traded_total_push(t: Seq<Trade>, x: Trade)
    ensures
        traded_total(t.push(x)) == traded_total(t) + x.amount.value(),
{
    assert(t.push(x).drop_last() =~= t);
}

} // verus!
