//! Orders, trades and the errors of the matching engine.

use vstd::prelude::*;

use vstd::string::StringExecFns;

use crate::decimal::{Decimal, decimal_text};
use crate::text::{digits_spec, u64_text};

verus! {

/// Order side: Buy (bid) or Sell (ask).
#[derive(Clone, Copy, Debug, PartialEq, Eq, Structural)]
pub enum Side {
    Buy,
    Sell,
}

/// A limit order placed by a user.
#[derive(Debug, PartialEq, Eq)]
pub struct Order {
    pub id: u64,
    pub user_id: u64,
    /// Trading pair symbol, e.g. "BTC_USDT". Used for multi-symbol routing.
    pub symbol: String,
    pub side: Side,
    /// Limit price.
    pub price: Decimal,
    /// Quantity the order was placed with.
    pub amount: Decimal,
    /// Unfilled quantity remaining; decremented on each partial fill.
    pub remaining: Decimal,
}

impl Clone for Order {
    fn clone(&self) -> (r: Order)
        ensures
            r == *self,
    {
        Order {
            id: self.id,
            user_id: self.user_id,
            symbol: self.symbol.clone(),
            side: self.side,
            price: self.price,
            amount: self.amount,
            remaining: self.remaining,
        }
    }
}

impl Order {
    /// All three quantities are representable decimals.
    pub open spec fn wf(self) -> bool {
        self.price.wf() && self.amount.wf() && self.remaining.wf()
    }

    /// A new order: nothing filled yet, so `remaining == amount`.
    pub fn new(id: u64, user_id: u64, symbol: &str, side: Side, price: Decimal, amount: Decimal) -> (r: Order)
        ensures
            r.id == id,
            r.user_id == user_id,
            r.symbol@ == symbol@,
            r.side == side,
            r.price == price,
            r.amount == amount,
            r.remaining == amount,
    {
        Order {
            id,
            user_id,
            symbol: symbol.to_owned(),
            side,
            price,
            amount,
            remaining: amount,
        }
    }

    /// Returns true when the order has been completely filled.
    pub fn is_filled(&self) -> (r: bool)
        ensures
            r == (self.remaining.value() == 0),
    {
        self.remaining.is_zero()
    }
}

/// A matched trade produced by the matching engine.
#[derive(Debug, PartialEq, Eq)]
pub struct Trade {
    /// The passive (resting) order that provided liquidity.
    pub maker_order_id: u64,
    /// The aggressive (incoming) order that consumed liquidity.
    pub taker_order_id: u64,
    /// Trading pair symbol, e.g. "BTC_USDT".
    pub symbol: String,
    /// Execution price: always the maker's limit price.
    pub price: Decimal,
    /// Quantity exchanged in this fill.
    pub amount: Decimal,
}

impl Clone for Trade {
    fn clone(&self) -> (r: Trade)
        ensures
            r == *self,
    {
        Trade {
            maker_order_id: self.maker_order_id,
            taker_order_id: self.taker_order_id,
            symbol: self.symbol.clone(),
            price: self.price,
            amount: self.amount,
        }
    }
}

/// Why the engine refused a request.
#[derive(Debug, PartialEq, Eq)]
pub enum EngineError {
    /// The order id already exists in the book.
    DuplicateOrderId(u64),
    /// The order id is not in the book.
    OrderNotFound(u64),
    /// The price must be positive.
    InvalidPrice(Decimal),
    /// The amount must be positive.
    InvalidAmount(Decimal),
    /// The best crossing resting order belongs to the same user.
    SelfTradePrevented(u64),
}

/// The lowercase name of a side, as stored in the orders log.
pub fn side_str(side: Side) -> (r: &'static str)
    ensures
        r@ == (match side {
            Side::Buy => "buy"@,
            Side::Sell => "sell"@,
        }),
{
    match side {
        Side::Buy => "buy",
        Side::Sell => "sell",
    }
}

impl EngineError {
    /// The error's message.
    pub fn message(&self) -> (r: String)
        requires
            match self {
                EngineError::InvalidPrice(d) => d.wf(),
                EngineError::InvalidAmount(d) => d.wf(),
                _ => true,
            },
        ensures
            r@ == match self {
                EngineError::DuplicateOrderId(id) => "order id "@ + digits_spec(*id as nat) + " already exists in the book"@,
                EngineError::OrderNotFound(id) => "order id "@ + digits_spec(*id as nat) + " not found"@,
                EngineError::InvalidPrice(d) => "price must be positive, got "@ + decimal_text(*d),
                EngineError::InvalidAmount(d) => "amount must be positive, got "@ + decimal_text(*d),
                EngineError::SelfTradePrevented(u) => "self-trade prevented for user "@ + digits_spec(*u as nat),
            },
    {
        proof {
            reveal_strlit("order id ");
            reveal_strlit(" already exists in the book");
            reveal_strlit(" not found");
            reveal_strlit("price must be positive, got ");
            reveal_strlit("amount must be positive, got ");
            reveal_strlit("self-trade prevented for user ");
        }
        match self {
            EngineError::DuplicateOrderId(id) => String::from_str("order id ").concat(u64_text(*id).as_str()).concat(
                " already exists in the book",
            ),
            EngineError::OrderNotFound(id) => String::from_str("order id ").concat(u64_text(*id).as_str()).concat(
                " not found",
            ),
            EngineError::InvalidPrice(d) => String::from_str("price must be positive, got ").concat(d.to_text().as_str()),
            EngineError::InvalidAmount(d) => String::from_str("amount must be positive, got ").concat(d.to_text().as_str()),
            EngineError::SelfTradePrevented(u) => String::from_str("self-trade prevented for user ").concat(
                u64_text(*u).as_str(),
            ),
        }
    }
}

} // verus!
