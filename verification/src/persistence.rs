//! What the persistence worker writes for each trading event, as an
//! ordered plan of database actions; the worker runs them in order and
//! stops at the first failure.
//!
//! The taker's `OrderPlaced` must be sent before any `TradeFilled` that
//! names it, so the trade rows can refer to both orders.

use vstd::prelude::*;
use vstd::string::StringExecFns;

use crate::decimal::{Decimal, checked_mul, decimal_product};
use crate::ledger::mul_r;
use crate::types::{Order, Side, Trade};

verus! {

/// An event produced by the API layer for the persistence worker.
#[derive(Debug)]
pub enum PersistenceEvent {
    /// A new limit order was submitted; logged as open before any fill.
    OrderPlaced { order: Order, base_asset: String, quote_asset: String },
    /// A fill from the matching engine, sent after the taker's
    /// `OrderPlaced`.
    TradeFilled {
        trade: Trade,
        maker_user_id: u64,
        taker_user_id: u64,
        /// Side of the taker; decides who bought and who sold.
        taker_side: Side,
        base_asset: String,
        quote_asset: String,
    },
    /// A user cancelled a resting order.
    OrderCancelled { order_id: u64 },
}

/// One write of the persistence worker.
#[derive(Debug)]
pub enum DbAction {
    /// Log a new order as open (ignored when already logged).
    InsertOrder {
        order_id: u64,
        user_id: u64,
        side: Side,
        price: Decimal,
        amount: Decimal,
        base_asset: String,
        quote_asset: String,
    },
    /// Log a trade.
    InsertTrade {
        maker_order_id: u64,
        taker_order_id: u64,
        maker_user_id: u64,
        taker_user_id: u64,
        price: Decimal,
        amount: Decimal,
        base_asset: String,
        quote_asset: String,
    },
    /// Add to an order's filled quantity and advance its status.
    ApplyFill { order_id: u64, filled_qty: Decimal },
    /// Add `amount` to (credit) or take it from (debit) a user's available
    /// balance of an asset.
    AdjustAvailable { user_id: u64, asset: String, amount: Decimal, credit: bool },
    /// Fold a trade into the OHLCV candle of an interval.
    UpsertCandle { symbol: String, interval: String, open_time: i64, price: Decimal, amount: Decimal },
    /// Mark an order cancelled.
    MarkCancelled { order_id: u64 },
}

/// A database action with its texts as sequences.
pub enum DbActionView {
    InsertOrder {
        order_id: u64,
        user_id: u64,
        side: Side,
        price: Decimal,
        amount: Decimal,
        base_asset: Seq<char>,
        quote_asset: Seq<char>,
    },
    InsertTrade {
        maker_order_id: u64,
        taker_order_id: u64,
        maker_user_id: u64,
        taker_user_id: u64,
        price: Decimal,
        amount: Decimal,
        base_asset: Seq<char>,
        quote_asset: Seq<char>,
    },
    ApplyFill { order_id: u64, filled_qty: Decimal },
    AdjustAvailable { user_id: u64, asset: Seq<char>, amount: Decimal, credit: bool },
    UpsertCandle { symbol: Seq<char>, interval: Seq<char>, open_time: i64, price: Decimal, amount: Decimal },
    MarkCancelled { order_id: u64 },
}

impl View for DbAction {
    type V = DbActionView;

    open spec fn view(&self) -> DbActionView {
        match self {
            DbAction::InsertOrder { order_id, user_id, side, price, amount, base_asset, quote_asset } =>
                DbActionView::InsertOrder {
                order_id: *order_id,
                user_id: *user_id,
                side: *side,
                price: *price,
                amount: *amount,
                base_asset: base_asset@,
                quote_asset: quote_asset@,
            },
            DbAction::InsertTrade {
                maker_order_id,
                taker_order_id,
                maker_user_id,
                taker_user_id,
                price,
                amount,
                base_asset,
                quote_asset,
            } => DbActionView::InsertTrade {
                maker_order_id: *maker_order_id,
                taker_order_id: *taker_order_id,
                maker_user_id: *maker_user_id,
                taker_user_id: *taker_user_id,
                price: *price,
                amount: *amount,
                base_asset: base_asset@,
                quote_asset: quote_asset@,
            },
            DbAction::ApplyFill { order_id, filled_qty } => DbActionView::ApplyFill {
                order_id: *order_id,
                filled_qty: *filled_qty,
            },
            DbAction::AdjustAvailable { user_id, asset, amount, credit } => DbActionView::AdjustAvailable {
                user_id: *user_id,
                asset: asset@,
                amount: *amount,
                credit: *credit,
            },
            DbAction::UpsertCandle { symbol, interval, open_time, price, amount } => DbActionView::UpsertCandle {
                symbol: symbol@,
                interval: interval@,
                open_time: *open_time,
                price: *price,
                amount: *amount,
            },
            DbAction::MarkCancelled { order_id } => DbActionView::MarkCancelled { order_id: *order_id },
        }
    }
}

/// The largest multiple of `interval` that is not after `ts` (the floor;
/// `/` on `int` is Euclidean division, which rounds down for a positive
/// divisor).
pub open spec fn floor_spec(ts: int, interval: int) -> int {
    (ts / interval) * interval
}

/// The open time, in seconds since the epoch, of the candle of
/// `interval_secs` that holds `ts`: the time floored down to a multiple of
/// the interval, so 12:47:33 with 60 gives 12:47:00 and -1 with 60 gives -60.
pub fn floor_to_interval_secs(ts: i64, interval_secs: i64) -> (r: i64)
    requires
        interval_secs > 0,
        floor_spec(ts as int, interval_secs as int) >= i64::MIN,
    ensures
        r == floor_spec(ts as int, interval_secs as int),
        (r as int) % (interval_secs as int) == 0,
        r <= ts,
        ts - r < interval_secs,
{
    let iu = interval_secs as u128;
    let out: i128 = if ts >= 0 {
        let tu = ts as u128;
        let q = tu / iu;
        let m = tu % iu;
        proof {
            assert(q * iu <= tu && tu - q * iu < iu) by (nonlinear_arith)
                requires
                    q == tu / iu,
                    m == tu % iu,
                    iu > 0,
            {
                vstd::arithmetic::div_mod::lemma_fundamental_div_mod(tu as int, iu as int);
            }
        }
        (q * iu) as i128
    } else {
        let mag = (-(ts as i128)) as u128;
        let q = mag / iu;
        let m = mag % iu;
        proof {
            assert(q * iu <= mag && mag - q * iu == m && m < iu && (q + 1) * iu == q * iu + iu) by (nonlinear_arith)
                requires
                    q == mag / iu,
                    m == mag % iu,
                    iu > 0,
            {
                vstd::arithmetic::div_mod::lemma_fundamental_div_mod(mag as int, iu as int);
            }
        }
        if m == 0 {
            -((q * iu) as i128)
        } else {
            -(((q + 1) * iu) as i128)
        }
    };
    proof {
        let ti = ts as int;
        let ii = interval_secs as int;
        let k: int = if ts >= 0 { (ts as u128 / iu) as int } else if (-(ts as i128)) as u128 % iu == 0 {
            -(((-(ts as i128)) as u128 / iu) as int)
        } else {
            -(((-(ts as i128)) as u128 / iu) as int) - 1
        };
        assert(out == k * ii) by (nonlinear_arith)
            requires
                ts >= 0 ==> out == (ts as u128 / iu) * iu,
                ts < 0 && (-(ts as i128)) as u128 % iu == 0 ==> out == -(((-(ts as i128)) as u128 / iu) * iu),
                ts < 0 && (-(ts as i128)) as u128 % iu != 0 ==> out == -((((-(ts as i128)) as u128 / iu) + 1) * iu),
                ii == iu,
                k == (if ts >= 0 { (ts as u128 / iu) as int } else if (-(ts as i128)) as u128 % iu == 0 {
                    -(((-(ts as i128)) as u128 / iu) as int)
                } else {
                    -(((-(ts as i128)) as u128 / iu) as int) - 1
                }),
        ;
        lemma_floor_unique(ti, ii, k);
    }
    out as i64
}

/// A multiple `k * i` of a positive `i` within one interval below `ts` is
/// the floor of `ts`.
proof fn lemma_floor_unique(ts: int, i: int, k: int)
    requires
        i > 0,
        k * i <= ts,
        ts - k * i < i,
    ensures
        floor_spec(ts, i) == k * i,
        (k * i) % i == 0,
{
    vstd::arithmetic::div_mod::lemma_fundamental_div_mod(ts, i);
    assert(ts / i == k) by (nonlinear_arith)
        requires
            i > 0,
            ts == i * (ts / i) + ts % i,
            0 <= ts % i < i,
            k * i <= ts,
            ts - k * i < i,
    ;
    vstd::arithmetic::div_mod::lemma_mod_multiples_basic(k, i);
}

/// The floor of `ts` lies within one interval at or below `ts`.
proof fn lemma_floor_bounds(ts: int, i: int)
    requires
        i > 0,
    ensures
        floor_spec(ts, i) <= ts,
        ts - floor_spec(ts, i) < i,
{
    vstd::arithmetic::div_mod::lemma_fundamental_div_mod(ts, i);
    assert((ts / i) * i == i * (ts / i)) by (nonlinear_arith);
}

/// The candle intervals: label and length in seconds.
pub open spec fn candle_intervals() -> Seq<(Seq<char>, int)> {
    seq![("1m"@, 60), ("5m"@, 300), ("1h"@, 3600), ("1d"@, 86400)]
}

/// The balance writes of a trade between different users: the buyer gains
/// the base amount and pays `amount * price` of the quote asset, the seller
/// gives the base amount and receives the quote.
pub open spec fn settlement_spec(
    buyer: u64,
    seller: u64,
    base: Seq<char>,
    quote: Seq<char>,
    amount: Decimal,
    price: Decimal,
) -> Seq<DbActionView> {
    let quote_amount = mul_r(amount, price);
    seq![
        DbActionView::AdjustAvailable { user_id: buyer, asset: base, amount, credit: true },
        DbActionView::AdjustAvailable { user_id: buyer, asset: quote, amount: quote_amount, credit: false },
        DbActionView::AdjustAvailable { user_id: seller, asset: base, amount, credit: false },
        DbActionView::AdjustAvailable { user_id: seller, asset: quote, amount: quote_amount, credit: true },
    ]
}

/// The candle writes of a trade at time `now`.
pub open spec fn candles_spec(symbol: Seq<char>, now: i64, price: Decimal, amount: Decimal) -> Seq<DbActionView> {
    candle_intervals().map_values(
        |c: (Seq<char>, int)|
            DbActionView::UpsertCandle {
                symbol,
                interval: c.0,
                open_time: floor_spec(now as int, c.1) as i64,
                price,
                amount,
            },
    )
}

/// The plan of a fill: log the trade, count the fill on both orders, move
/// the balances unless the maker and taker are the same user, and fold the
/// trade into the candles of the market `BASE_QUOTE`.
pub open spec fn trade_plan_spec(
    t: Trade,
    maker_user: u64,
    taker_user: u64,
    taker_side: Side,
    base: Seq<char>,
    quote: Seq<char>,
    now: i64,
) -> Seq<DbActionView> {
    let head = seq![
        DbActionView::InsertTrade {
            maker_order_id: t.maker_order_id,
            taker_order_id: t.taker_order_id,
            maker_user_id: maker_user,
            taker_user_id: taker_user,
            price: t.price,
            amount: t.amount,
            base_asset: base,
            quote_asset: quote,
        },
        DbActionView::ApplyFill { order_id: t.maker_order_id, filled_qty: t.amount },
        DbActionView::ApplyFill { order_id: t.taker_order_id, filled_qty: t.amount },
    ];
    let (buyer, seller) = match taker_side {
        Side::Buy => (taker_user, maker_user),
        Side::Sell => (maker_user, taker_user),
    };
    let balances = if maker_user != taker_user {
        settlement_spec(buyer, seller, base, quote, t.amount, t.price)
    } else {
        Seq::empty()
    };
    head + balances + candles_spec(base + "_"@ + quote, now, t.price, t.amount)
}

/// The buyer of a fill receives the base amount and pays `amount * price`
/// of the quote asset; the seller gives the base amount and receives the
/// quote. The buyer is the taker when the taker buys and the maker when the
/// taker sells. A fill within one user moves no balance.
pub proof fn law_plan_pays_the_buyer_and_the_seller(
    t: Trade,
    maker_user: u64,
    taker_user: u64,
    taker_side: Side,
    base: Seq<char>,
    quote: Seq<char>,
    now: i64,
)
    requires
        base != quote,
    ensures
        ({
            let plan = trade_plan_spec(t, maker_user, taker_user, taker_side, base, quote, now);
            let buyer = if taker_side == Side::Buy {
                taker_user
            } else {
                maker_user
            };
            let seller = if taker_side == Side::Buy {
                maker_user
            } else {
                taker_user
            };
            &&& maker_user != taker_user ==> {
                &&& plan.contains(DbActionView::AdjustAvailable { user_id: buyer, asset: base, amount: t.amount, credit: true })
                &&& plan.contains(
                    DbActionView::AdjustAvailable { user_id: seller, asset: base, amount: t.amount, credit: false },
                )
                &&& plan.contains(
                    DbActionView::AdjustAvailable {
                        user_id: buyer,
                        asset: quote,
                        amount: mul_r(t.amount, t.price),
                        credit: false,
                    },
                )
                &&& plan.contains(
                    DbActionView::AdjustAvailable {
                        user_id: seller,
                        asset: quote,
                        amount: mul_r(t.amount, t.price),
                        credit: true,
                    },
                )
                &&& forall|k: int|
                    0 <= k < plan.len() ==> match #[trigger] plan[k] {
                        DbActionView::AdjustAvailable { user_id, asset, credit, .. } => (asset == base && credit
                            ==> user_id == buyer) && (asset == quote && credit ==> user_id == seller),
                        _ => true,
                    }
            }
            &&& maker_user == taker_user ==> forall|k: int| 0 <= k < plan.len() ==> !(#[trigger] plan[k] is AdjustAvailable)
        }),
{
    let plan = trade_plan_spec(t, maker_user, taker_user, taker_side, base, quote, now);
    let buyer = if taker_side == Side::Buy {
        taker_user
    } else {
        maker_user
    };
    let seller = if taker_side == Side::Buy {
        maker_user
    } else {
        taker_user
    };
    let candles = candles_spec(base + "_"@ + quote, now, t.price, t.amount);
    assert(candles.len() == 4);
    assert forall|k: int| 0 <= k < candles.len() implies #[trigger] candles[k] is UpsertCandle by {}
    if maker_user != taker_user {
        let bal = settlement_spec(buyer, seller, base, quote, t.amount, t.price);
        assert(plan[3] == bal[0]);
        assert(plan[4] == bal[1]);
        assert(plan[5] == bal[2]);
        assert(plan[6] == bal[3]);
        assert forall|k: int| 0 <= k < plan.len() implies match #[trigger] plan[k] {
            DbActionView::AdjustAvailable { user_id, asset, credit, .. } => (asset == base && credit ==> user_id
                == buyer) && (asset == quote && credit ==> user_id == seller),
            _ => true,
        } by {
            if k >= 7 {
                assert(plan[k] == candles[k - 7]);
            }
        }
    } else {
        assert forall|k: int| 0 <= k < plan.len() implies !(#[trigger] plan[k] is AdjustAvailable) by {
            if k >= 3 {
                assert(plan[k] == candles[k - 3]);
            }
        }
    }
}

fn adjust(user_id: u64, asset: &String, amount: Decimal, credit: bool) -> (r: DbAction)
    ensures
        r@ == (DbActionView::AdjustAvailable { user_id, asset: asset@, amount, credit }),
{
    DbAction::AdjustAvailable { user_id, asset: asset.clone(), amount, credit }
}

fn candle(symbol: &String, interval: &str, secs: i64, now: i64, price: Decimal, amount: Decimal) -> (r: DbAction)
    requires
        0 < secs <= 86400,
        now >= i64::MIN + 86400,
    ensures
        r@ == (DbActionView::UpsertCandle {
            symbol: symbol@,
            interval: interval@,
            open_time: floor_spec(now as int, secs as int) as i64,
            price,
            amount,
        }),
{
    proof {
        lemma_floor_bounds(now as int, secs as int);
    }
    DbAction::UpsertCandle {
        symbol: symbol.clone(),
        interval: String::from_str(interval),
        open_time: floor_to_interval_secs(now, secs),
        price,
        amount,
    }
}

/// What the worker writes for `event`, a fill stamped at `now` (seconds
/// since the epoch; the timestamp of any calendar date lies far above the
/// bound that keeps the day candle's open time representable).
pub fn persistence_plan(event: &PersistenceEvent, now: i64) -> (r: Vec<DbAction>)
    requires
        now >= i64::MIN + 86400,
        match event {
            PersistenceEvent::TradeFilled { trade, maker_user_id, taker_user_id, .. } => trade.amount.wf()
                && trade.price.wf() && (maker_user_id != taker_user_id ==> decimal_product(trade.amount, trade.price) is Some),
            _ => true,
        },
    ensures
        r@.map_values(|a: DbAction| a@) == match event {
            PersistenceEvent::OrderPlaced { order, base_asset, quote_asset } => seq![
                DbActionView::InsertOrder {
                    order_id: order.id,
                    user_id: order.user_id,
                    side: order.side,
                    price: order.price,
                    amount: order.amount,
                    base_asset: base_asset@,
                    quote_asset: quote_asset@,
                },
            ],
            PersistenceEvent::TradeFilled { trade, maker_user_id, taker_user_id, taker_side, base_asset, quote_asset } =>
                trade_plan_spec(*trade, *maker_user_id, *taker_user_id, *taker_side, base_asset@, quote_asset@, now),
            PersistenceEvent::OrderCancelled { order_id } => seq![DbActionView::MarkCancelled { order_id: *order_id }],
        },
{
    let mut plan: Vec<DbAction> = Vec::new();
    match event {
        PersistenceEvent::OrderPlaced { order, base_asset, quote_asset } => {
            plan.push(
                DbAction::InsertOrder {
                    order_id: order.id,
                    user_id: order.user_id,
                    side: order.side,
                    price: order.price,
                    amount: order.amount,
                    base_asset: base_asset.clone(),
                    quote_asset: quote_asset.clone(),
                },
            );
        },
        PersistenceEvent::TradeFilled { trade, maker_user_id, taker_user_id, taker_side, base_asset, quote_asset } => {
            plan.push(
                DbAction::InsertTrade {
                    maker_order_id: trade.maker_order_id,
                    taker_order_id: trade.taker_order_id,
                    maker_user_id: *maker_user_id,
                    taker_user_id: *taker_user_id,
                    price: trade.price,
                    amount: trade.amount,
                    base_asset: base_asset.clone(),
                    quote_asset: quote_asset.clone(),
                },
            );
            plan.push(DbAction::ApplyFill { order_id: trade.maker_order_id, filled_qty: trade.amount });
            plan.push(DbAction::ApplyFill { order_id: trade.taker_order_id, filled_qty: trade.amount });
            if maker_user_id != taker_user_id {
                let (buyer, seller) = match taker_side {
                    Side::Buy => (*taker_user_id, *maker_user_id),
                    Side::Sell => (*maker_user_id, *taker_user_id),
                };
                let quote_amount = checked_mul(&trade.amount, &trade.price).unwrap();
                plan.push(adjust(buyer, base_asset, trade.amount, true));
                plan.push(adjust(buyer, quote_asset, quote_amount, false));
                plan.push(adjust(seller, base_asset, trade.amount, false));
                plan.push(adjust(seller, quote_asset, quote_amount, true));
            }
            proof {
                reveal_strlit("_");
            }
            let symbol = base_asset.clone().concat("_").concat(quote_asset.as_str());
            plan.push(candle(&symbol, "1m", 60, now, trade.price, trade.amount));
            plan.push(candle(&symbol, "5m", 300, now, trade.price, trade.amount));
            plan.push(candle(&symbol, "1h", 3600, now, trade.price, trade.amount));
            plan.push(candle(&symbol, "1d", 86400, now, trade.price, trade.amount));
            proof {
                let spec_plan = trade_plan_spec(
                    *trade,
                    *maker_user_id,
                    *taker_user_id,
                    *taker_side,
                    base_asset@,
                    quote_asset@,
                    now,
                );
                assert(plan@.map_values(|a: DbAction| a@) =~= spec_plan);
            }
        },
        PersistenceEvent::OrderCancelled { order_id } => {
            plan.push(DbAction::MarkCancelled { order_id: *order_id });
        },
    }
    proof {
        assert(plan@.map_values(|a: DbAction| a@) =~= match event {
            PersistenceEvent::OrderPlaced { order, base_asset, quote_asset } => seq![
                DbActionView::InsertOrder {
                    order_id: order.id,
                    user_id: order.user_id,
                    side: order.side,
                    price: order.price,
                    amount: order.amount,
                    base_asset: base_asset@,
                    quote_asset: quote_asset@,
                },
            ],
            PersistenceEvent::TradeFilled { trade, maker_user_id, taker_user_id, taker_side, base_asset, quote_asset } =>
                trade_plan_spec(*trade, *maker_user_id, *taker_user_id, *taker_side, base_asset@, quote_asset@, now),
            PersistenceEvent::OrderCancelled { order_id } => seq![DbActionView::MarkCancelled { order_id: *order_id }],
        });
    }
    plan
}

/// The worker's plan for `event`, or `None` for a fill between two users
/// whose quote amount `amount * price` overflows.
pub fn try_persistence_plan(event: &PersistenceEvent, now: i64) -> (r: Option<Vec<DbAction>>)
    requires
        now >= i64::MIN + 86400,
        match event {
            PersistenceEvent::TradeFilled { trade, .. } => trade.amount.wf() && trade.price.wf(),
            _ => true,
        },
    ensures
        r is None <==> match event {
            PersistenceEvent::TradeFilled { trade, maker_user_id, taker_user_id, .. } => maker_user_id
                != taker_user_id && decimal_product(trade.amount, trade.price) is None,
            _ => false,
        },
        r is Some ==> r->0@.map_values(|a: DbAction| a@) == match event {
            PersistenceEvent::OrderPlaced { order, base_asset, quote_asset } => seq![
                DbActionView::InsertOrder {
                    order_id: order.id,
                    user_id: order.user_id,
                    side: order.side,
                    price: order.price,
                    amount: order.amount,
                    base_asset: base_asset@,
                    quote_asset: quote_asset@,
                },
            ],
            PersistenceEvent::TradeFilled { trade, maker_user_id, taker_user_id, taker_side, base_asset, quote_asset } =>
                trade_plan_spec(*trade, *maker_user_id, *taker_user_id, *taker_side, base_asset@, quote_asset@, now),
            PersistenceEvent::OrderCancelled { order_id } => seq![DbActionView::MarkCancelled { order_id: *order_id }],
        },
{
    if let PersistenceEvent::TradeFilled { trade, maker_user_id, taker_user_id, .. } = event {
        if maker_user_id != taker_user_id && checked_mul(&trade.amount, &trade.price).is_none() {
            return None;
        }
    }
    Some(persistence_plan(event, now))
}

/// Most events written in one flush.
pub const WORKER_BATCH_SIZE: usize = 256;

/// What the worker learns while it waits.
#[derive(Debug, Clone, Copy, PartialEq, Eq, Structural)]
pub enum WorkerEvent {
    /// An event arrived and joined the batch.
    Received,
    /// The gathering window closed.
    DeadlinePassed,
    /// Every sender is gone.
    ChannelClosed,
}

/// What the worker does next.
#[derive(Debug, Clone, Copy, PartialEq, Eq, Structural)]
pub enum WorkerAction {
    /// Wait, without a deadline, for the first event of a batch.
    WaitFirst,
    /// Wait for more events until the gathering window closes.
    WaitMore,
    /// Write the batch, then wait for the first event of the next one.
    Flush,
    /// Write the batch, then stop.
    FlushAndStop,
    /// Stop; nothing is left to write.
    Stop,
}

/// The worker's decision, given how many events the batch held before
/// `event` (counting the one just received): an empty batch waits for its
/// first event, and stops when the channel closes; a batch gathers until it
/// is full, its window closes, or the channel closes, then it is written.
pub fn worker_step(batch_len: usize, event: WorkerEvent) -> (r: (usize, WorkerAction))
    requires
        batch_len < WORKER_BATCH_SIZE,
    ensures
        r == (match event {
            WorkerEvent::Received => if batch_len + 1 >= WORKER_BATCH_SIZE {
                ((batch_len + 1) as usize, WorkerAction::Flush)
            } else {
                ((batch_len + 1) as usize, WorkerAction::WaitMore)
            },
            WorkerEvent::DeadlinePassed => if batch_len == 0 {
                (0usize, WorkerAction::WaitFirst)
            } else {
                (batch_len, WorkerAction::Flush)
            },
            WorkerEvent::ChannelClosed => if batch_len == 0 {
                (0usize, WorkerAction::Stop)
            } else {
                (batch_len, WorkerAction::FlushAndStop)
            },
        }),
{
    match event {
        WorkerEvent::Received => {
            let n = batch_len + 1;
            if n >= WORKER_BATCH_SIZE {
                (n, WorkerAction::Flush)
            } else {
                (n, WorkerAction::WaitMore)
            }
        },
        WorkerEvent::DeadlinePassed => {
            if batch_len == 0 {
                (0, WorkerAction::WaitFirst)
            } else {
                (batch_len, WorkerAction::Flush)
            }
        },
        WorkerEvent::ChannelClosed => {
            if batch_len == 0 {
                (0, WorkerAction::Stop)
            } else {
                (batch_len, WorkerAction::FlushAndStop)
            }
        },
    }
}

} // verus!
