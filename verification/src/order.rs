//! The four requests. The sign of a quantity tells the side: negative
//! sells, anything else buys.
use vstd::prelude::*;
use crate::bytes::{le_u64, read_u64, signed, to_signed};
use crate::double::{bits_nan, bits_negative, is_nan, is_sign_negative};
use crate::money::{abs_qty, magnitude};

verus! {

/// The largest quantity a limit or market order may carry.
pub const MAX_QTY: i64 = 10000;

/// A limit order. `lmt` is the limit price as the 64 bits of an IEEE 754
/// double.
#[derive(Clone, Copy, Debug, PartialEq, Eq, Structural)]
pub struct LimitOrder {
    pub lmt: u64,
    pub amount: i64,
}

#[derive(Clone, Copy, Debug, PartialEq, Eq, Structural)]
pub struct MarketOrder {
    pub amount: i64,
}

#[derive(Clone, Copy, Debug, PartialEq, Eq, Structural)]
pub struct CancleOrder {
    pub order_id: i64,
}

/// A hidden order, which only market makers may send. `lmt` is its price
/// field as the 64 bits of an IEEE 754 double; the engine does not read it.
#[derive(Clone, Copy, Debug, PartialEq, Eq, Structural)]
pub struct HiddenOrder {
    pub lmt: u64,
    pub amount: i64,
}

#[derive(Clone, Copy, Debug, PartialEq, Eq, Structural)]
pub enum Order {
    Lmt(LimitOrder),
    Market(MarketOrder),
    Cncl(CancleOrder),
    Hidden(HiddenOrder),
}

/// The tag of a limit order.
pub const TAG_LIMIT: u8 = 0;

/// The tag of a market order.
pub const TAG_MARKET: u8 = 1;

/// The tag of a cancel order.
pub const TAG_CANCEL: u8 = 2;

/// The tag of a hidden order.
pub const TAG_HIDDEN: u8 = 3;

/// The tag by which an origin closes its account.
pub const TAG_DISCONNECT: u8 = 0x69;

impl LimitOrder {
    /// A limit order's payload is the price, then the signed quantity:
    /// sixteen bytes, and what follows them is not read. A price that is not a
    /// number or has the sign bit set is turned down, and so is a quantity
    /// beyond the cap.
    pub open spec fn parse(buf: Seq<u8>) -> Option<LimitOrder> {
        let lmt = le_u64(buf.subrange(0, 8));
        let amount = signed(le_u64(buf.subrange(8, 16)));
        if buf.len() < 16 || bits_nan(lmt) || bits_negative(lmt) || magnitude(amount) > MAX_QTY {
            None
        } else {
            Some(LimitOrder { lmt, amount })
        }
    }

    pub fn from_bytes(buf: &[u8]) -> (r: Option<LimitOrder>)
        ensures
            r == LimitOrder::parse(buf@),
    {
        if buf.len() < 16 {
            return None;
        }
        let lmt = read_u64(buf, 0);
        let amount = to_signed(read_u64(buf, 8));
        if is_nan(lmt) || is_sign_negative(lmt) {
            return None;
        }
        if abs_qty(amount) > 10000 {
            return None;
        }
        Some(LimitOrder { lmt, amount })
    }
}

impl MarketOrder {
    /// A market order's payload is the signed quantity: eight bytes, and what
    /// follows them is not read. A quantity beyond the cap is turned down.
    pub open spec fn parse(buf: Seq<u8>) -> Option<MarketOrder> {
        let amount = signed(le_u64(buf.subrange(0, 8)));
        if buf.len() < 8 || magnitude(amount) > MAX_QTY {
            None
        } else {
            Some(MarketOrder { amount })
        }
    }

    pub fn from_bytes(buf: &[u8]) -> (r: Option<MarketOrder>)
        ensures
            r == MarketOrder::parse(buf@),
    {
        if buf.len() < 8 {
            return None;
        }
        let amount = to_signed(read_u64(buf, 0));
        if abs_qty(amount) > 10000 {
            return None;
        }
        Some(MarketOrder { amount })
    }
}

impl CancleOrder {
    /// A cancel order's payload is the identifier: eight bytes, and what
    /// follows them is not read.
    pub open spec fn parse(buf: Seq<u8>) -> Option<CancleOrder> {
        if buf.len() < 8 {
            None
        } else {
            Some(CancleOrder { order_id: signed(le_u64(buf.subrange(0, 8))) })
        }
    }

    pub fn from_bytes(buf: &[u8]) -> (r: Option<CancleOrder>)
        ensures
            r == CancleOrder::parse(buf@),
    {
        if buf.len() < 8 {
            return None;
        }
        let order_id = to_signed(read_u64(buf, 0));
        Some(CancleOrder { order_id })
    }
}

impl HiddenOrder {
    /// A hidden order's payload is the signed quantity, then the price:
    /// sixteen bytes, and what follows them is not read. Neither field is
    /// checked.
    pub open spec fn parse(buf: Seq<u8>) -> Option<HiddenOrder> {
        if buf.len() < 16 {
            None
        } else {
            Some(
                HiddenOrder {
                    amount: signed(le_u64(buf.subrange(0, 8))),
                    lmt: le_u64(buf.subrange(8, 16)),
                },
            )
        }
    }

    pub fn from_bytes(buf: &[u8]) -> (r: Option<HiddenOrder>)
        ensures
            r == HiddenOrder::parse(buf@),
    {
        if buf.len() < 16 {
            return None;
        }
        let amount = to_signed(read_u64(buf, 0));
        let lmt = read_u64(buf, 8);
        Some(HiddenOrder { amount, lmt })
    }
}

impl Order {
    /// The request that a datagram spells: a tag, then the payload of that
    /// kind. A hidden order is read only for a market maker. Anything else
    /// spells no request.
    pub open spec fn parse(buf: Seq<u8>, is_mm: bool) -> Option<Order> {
        if buf.len() == 0 {
            None
        } else if buf[0] == TAG_LIMIT {
            match LimitOrder::parse(buf.subrange(1, buf.len() as int)) {
                Some(o) => Some(Order::Lmt(o)),
                None => None,
            }
        } else if buf[0] == TAG_MARKET {
            match MarketOrder::parse(buf.subrange(1, buf.len() as int)) {
                Some(o) => Some(Order::Market(o)),
                None => None,
            }
        } else if buf[0] == TAG_CANCEL {
            match CancleOrder::parse(buf.subrange(1, buf.len() as int)) {
                Some(o) => Some(Order::Cncl(o)),
                None => None,
            }
        } else if buf[0] == TAG_HIDDEN && is_mm {
            match HiddenOrder::parse(buf.subrange(1, buf.len() as int)) {
                Some(o) => Some(Order::Hidden(o)),
                None => None,
            }
        } else {
            None
        }
    }

    /// Decodes a datagram from an origin whose market-maker flag is `is_mm`.
    pub fn from_bytes(buf: &[u8], is_mm: bool) -> (r: Option<Order>)
        ensures
            r == Order::parse(buf@, is_mm),
    {
        if buf.len() == 0 {
            return None;
        }
        let tag = buf[0];
        let payload = &buf[1..buf.len()];
        if tag == TAG_LIMIT {
            match LimitOrder::from_bytes(payload) {
                Some(o) => Some(Order::Lmt(o)),
                None => None,
            }
        } else if tag == TAG_MARKET {
            match MarketOrder::from_bytes(payload) {
                Some(o) => Some(Order::Market(o)),
                None => None,
            }
        } else if tag == TAG_CANCEL {
            match CancleOrder::from_bytes(payload) {
                Some(o) => Some(Order::Cncl(o)),
                None => None,
            }
        } else if tag == TAG_HIDDEN && is_mm {
            match HiddenOrder::from_bytes(payload) {
                Some(o) => Some(Order::Hidden(o)),
                None => None,
            }
        } else {
            None
        }
    }
}

} // verus!
