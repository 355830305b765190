//! The order record and its lifecycle states.

use vstd::prelude::*;

verus! {

/// Which half of the book an order belongs to.
#[derive(Clone, Copy, Debug, PartialEq, Eq, Structural)]
pub enum Side {
    Buy,
    Sell,
}

/// Lifecycle state of an order.
///
/// `Open` and `PartiallyFilled` orders rest in the book; `Filled` and
/// `Cancelled` are terminal, and an order in a terminal state is no longer
/// held by either side of the book.
#[derive(Clone, Copy, Debug, PartialEq, Eq, Structural)]
pub enum OrderStatus {
    Open,
    PartiallyFilled,
    Filled,
    Cancelled,
}

/// A limit order.
///
/// `price` is in the smallest currency unit; `original_quantity` is fixed at
/// submission while `remaining_quantity` shrinks as the order trades;
/// `timestamp` is the nanosecond epoch time at submission.
#[derive(Clone, Copy, Debug, PartialEq, Eq, Structural)]
pub struct Order {
    pub id: u64,
    pub side: Side,
    pub price: u64,
    pub original_quantity: u64,
    pub remaining_quantity: u64,
    pub timestamp: u128,
    pub status: OrderStatus,
}

impl Order {
    /// An order fit to rest in the book: positive price, something left to
    /// trade, and a non-terminal status.
    pub open spec fn live(self) -> bool {
        &&& self.price > 0
        &&& self.remaining_quantity > 0
        &&& (self.status is Open || self.status is PartiallyFilled)
    }

    /// The remaining quantity never exceeds the original quantity.
    pub open spec fn bounded(self) -> bool {
        self.remaining_quantity <= self.original_quantity
    }

    /// Executable counterpart of [`Order::live`].
    pub fn is_live(&self) -> (r: bool)
        ensures
            r == self.live(),
    {
        self.price > 0 && self.remaining_quantity > 0 && match self.status {
            OrderStatus::Open => true,
            OrderStatus::PartiallyFilled => true,
            OrderStatus::Filled => false,
            OrderStatus::Cancelled => false,
        }
    }

    /// A fresh order: everything still to trade, status `Open`.
    pub fn new(id: u64, side: Side, price: u64, quantity: u64, timestamp: u128) -> (r: Order)
        ensures
            r == (Order {
                id,
                side,
                price,
                original_quantity: quantity,
                remaining_quantity: quantity,
                timestamp,
                status: OrderStatus::Open,
            }),
    {
        Order {
            id,
            side,
            price,
            original_quantity: quantity,
            remaining_quantity: quantity,
            timestamp,
            status: OrderStatus::Open,
        }
    }
}

} // verus!
