//! The order types shared by the books and the feeds.

use vstd::prelude::*;

verus! {

/// The identifier of an order.
pub type OrderId = u64;

/// A price in integer ticks.
#[derive(Debug, Clone, Copy, PartialEq, Eq, PartialOrd, Ord, Hash)]
pub struct Price(pub i64);

/// The side of the book an order belongs to.
#[derive(Debug, Clone, Copy, PartialEq, Eq, Hash, Structural)]
pub enum Side {
    Bid,
    Ask,
}

/// Whether an order rests at a limit price or takes whatever liquidity there is.
#[derive(Debug, Clone, Copy, PartialEq, Eq, Hash, Structural)]
pub enum OrderType {
    Limit,
    Market,
}

/// An order as submitted to the book.
#[derive(Debug, Clone, Copy)]
pub struct Order {
    pub id: OrderId,
    pub side: Side,
    pub kind: OrderType,
    pub price: Option<Price>,
    pub qty: u64,
    pub ts: u64,
}

} // verus!
