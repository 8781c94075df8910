//! What the order book reports back for each request.

use crate::order::{OrderId, Price};
use vstd::prelude::*;

verus! {

/// One event of the book's output stream.
#[derive(Debug, Clone)]
pub enum BookEvent {
    Accepted { id: OrderId },
    Rejected { id: OrderId, reason: &'static str },
    Canceled { id: OrderId },
    Trade { maker: OrderId, taker: OrderId, price: Price, qty: u64 },
}

} // verus!
