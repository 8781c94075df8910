//! The LOBSTER message format and what each message asks of a book.

use crate::order::{Order, OrderId, OrderType, Price, Side};
use vstd::prelude::*;

verus! {

/// One row of a LOBSTER message file, without its timestamp (which nothing
/// here reads).
#[derive(Debug, Clone, Copy)]
pub struct MessageRow {
    pub event_type: u8,
    pub order_id: i64,
    pub size: u64,
    pub price: i64,
    pub direction: i8,
}

/// What a LOBSTER message asks of an order-level book.
#[derive(Debug, Clone)]
pub enum LobsterEvent {
    Submit(Order),
    Cancel { id: OrderId, qty: u64 },
    Delete { id: OrderId },
    Execute { id: OrderId, qty: u64 },
    Other,
}

/// The event a message row stands for, the row being the `ts`-th of its file:
/// direction 1 is a bid and -1 an ask (anything else is `Other`); event type 1
/// submits a limit order, 2 cancels part of one, 3 deletes one, 4 executes
/// one; other types are `Other`.
pub open spec fn lobster_event(row: MessageRow, ts: u64) -> LobsterEvent {
    let id = row.order_id as u64;
    if row.direction != 1 && row.direction != -1 {
        LobsterEvent::Other
    } else {
        let side = if row.direction == 1 { Side::Bid } else { Side::Ask };
        if row.event_type == 1 {
            LobsterEvent::Submit(
                Order {
                    id,
                    side,
                    kind: OrderType::Limit,
                    price: Some(Price(row.price)),
                    qty: row.size,
                    ts,
                },
            )
        } else if row.event_type == 2 {
            LobsterEvent::Cancel { id, qty: row.size }
        } else if row.event_type == 3 {
            LobsterEvent::Delete { id }
        } else if row.event_type == 4 {
            LobsterEvent::Execute { id, qty: row.size }
        } else {
            LobsterEvent::Other
        }
    }
}

/// Law: for a bid or ask message the event depends on the event type alone,
/// whichever the side: type 1 submits a limit order of the message's id,
/// price and size on the message's side; 2 cancels that many shares of the
/// order, 3 deletes it, 4 executes that many shares of it; any other type
/// is `Other`. A message with another direction is `Other`.
pub proof fn law_event_by_type(row: MessageRow, ts: u64)
    ensures
        row.direction != 1 && row.direction != -1 ==> lobster_event(row, ts) is Other,
        row.direction == 1 || row.direction == -1 ==> {
            &&& row.event_type == 1 ==> lobster_event(row, ts) == LobsterEvent::Submit(
                Order {
                    id: row.order_id as u64,
                    side: if row.direction == 1 { Side::Bid } else { Side::Ask },
                    kind: OrderType::Limit,
                    price: Some(Price(row.price)),
                    qty: row.size,
                    ts,
                },
            )
            &&& row.event_type == 2 ==> lobster_event(row, ts) == LobsterEvent::Cancel {
                id: row.order_id as u64,
                qty: row.size,
            }
            &&& row.event_type == 3 ==> lobster_event(row, ts) == LobsterEvent::Delete { id: row.order_id as u64 }
            &&& row.event_type == 4 ==> lobster_event(row, ts) == LobsterEvent::Execute {
                id: row.order_id as u64,
                qty: row.size,
            }
            &&& (row.event_type < 1 || row.event_type > 4) ==> lobster_event(row, ts) is Other
        },
        forall|other: MessageRow|
            #![trigger lobster_event(other, ts)]
            other.event_type == row.event_type && other.order_id == row.order_id && other.size == row.size
                && (other.direction == 1 || other.direction == -1) && (row.direction == 1 || row.direction == -1)
                && row.event_type != 1 ==> lobster_event(other, ts) == lobster_event(row, ts),
{
}

/// Reads a message row, the `ts`-th of its file, as an event.
pub fn convert(row: MessageRow, ts: u64) -> (e: LobsterEvent)
    ensures
        e == lobster_event(row, ts),
{
    let id = row.order_id as OrderId;
    let side = match row.direction {
        1 => Side::Bid,
        -1 => Side::Ask,
        _ => return LobsterEvent::Other,
    };
    match row.event_type {
        1 => LobsterEvent::Submit(
            Order { id, side, kind: OrderType::Limit, price: Some(Price(row.price)), qty: row.size, ts },
        ),
        2 => LobsterEvent::Cancel { id, qty: row.size },
        3 => LobsterEvent::Delete { id },
        4 => LobsterEvent::Execute { id, qty: row.size },
        _ => LobsterEvent::Other,
    }
}

} // verus!
