//! What the engine tells an origin. Prices are price keys.
use vstd::prelude::*;
use crate::origin::Origin;

verus! {

/// Which of the four requests a rejection answers.
#[derive(Clone, Copy, Debug, PartialEq, Eq, Structural)]
pub enum Request {
    Limit,
    Market,
    Cancel,
    Hidden,
}

#[derive(Clone, Copy, Debug, PartialEq, Eq, Structural)]
pub enum Notice {
    /// A limit order rests under this identifier.
    Accepted { order_id: i64 },
    /// To the aggressor: one fill of its order.
    Filled { amount: u64, price: i64 },
    /// To the owner of a resting order: one fill of that order.
    Executed { order_id: i64, amount: u64, price: i64 },
    /// A resting order was taken out of the book.
    Cancelled,
    /// A request was turned down.
    Rejected { request: Request },
    /// The account was closed.
    Disconnected,
    /// The account reached the target and was closed with the prize.
    Rewarded,
}

/// One notice and the origin it goes to.
#[derive(Clone, Copy, Debug, PartialEq, Eq, Structural)]
pub struct Outbound {
    pub to: Origin,
    pub what: Notice,
}

} // verus!
