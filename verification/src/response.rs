//! What goes out on the wire: frames of fixed size, each led by a byte that
//! tells its kind. A price travels as the 64 bits of an IEEE 754 double.
use vstd::prelude::*;
use crate::account::Client;
use crate::bytes::{le_bytes, signed, to_signed, to_unsigned, unsigned, write_u64};
use crate::double::{bits_of, price_bits, thousandths_bits};
use crate::notice::{Notice, Request};

verus! {

/// Leads every frame of the order-response family.
pub const KIND_RESPONSE: u8 = 0x01;

/// Leads an execution report.
pub const KIND_EXECUTION: u8 = 0x20;

/// Leads an account snapshot.
pub const KIND_ACCOUNT: u8 = 0x21;

/// The whole frame that acknowledges a cancel.
pub const CODE_CANCELLED: u8 = 0xe0;

/// The whole frame that tells an origin its account is closed.
pub const CODE_DISCONNECT: u8 = 0x69;

/// The whole frame that turns down a limit order.
pub const CODE_REJECT_LIMIT: u8 = 0xff;

/// The whole frame that turns down a market order.
pub const CODE_REJECT_MARKET: u8 = 0xfe;

/// The whole frame that turns down a cancel order.
pub const CODE_REJECT_CANCEL: u8 = 0xfd;

/// The whole frame that turns down a hidden order.
pub const CODE_REJECT_HIDDEN: u8 = 0xfc;

#[derive(Clone, Copy, Debug, PartialEq, Eq, Structural)]
pub struct LmtResponse {
    pub order_id: i64,
}

#[derive(Clone, Copy, Debug, PartialEq, Eq, Structural)]
pub struct MarketResponse {
    pub amount: i64,
    pub price: u64,
}

#[derive(Clone, Copy, Debug, PartialEq, Eq, Structural)]
pub struct CnclResponse {
    pub cancled: bool,
    pub order_id: i64,
}

#[derive(Clone, Copy, Debug, PartialEq, Eq, Structural)]
pub struct HiddenResponse {
    pub order_id: i64,
}

#[derive(Clone, Copy, Debug, PartialEq, Eq, Structural)]
pub enum OrderResponse {
    Lmt(LmtResponse),
    Market(MarketResponse),
    Cncl(CnclResponse),
    Hidden(HiddenResponse),
}

/// `n` zero bytes.
pub open spec fn zeros(n: nat) -> Seq<u8> {
    Seq::new(n, |i: int| 0u8)
}

impl OrderResponse {
    /// The 18 bytes of a response: the family byte, the kind, the fields
    /// lowest byte first, and zeros to the end.
    pub open spec fn frame(self) -> Seq<u8> {
        match self {
            OrderResponse::Lmt(r) => seq![KIND_RESPONSE, 0u8] + le_bytes(unsigned(r.order_id)) + zeros(8),
            OrderResponse::Cncl(r) => seq![KIND_RESPONSE, 1u8, if r.cancled { 1u8 } else { 0u8 }] + le_bytes(
                unsigned(r.order_id),
            ) + zeros(7),
            OrderResponse::Market(r) => seq![KIND_RESPONSE, 2u8] + le_bytes(unsigned(r.amount)) + le_bytes(r.price),
            OrderResponse::Hidden(r) => seq![KIND_RESPONSE, 3u8] + le_bytes(unsigned(r.order_id)) + zeros(8),
        }
    }

    pub fn to_bytes(&self) -> (res: [u8; 18])
        ensures
            res@ == self.frame(),
    {
        match self {
            OrderResponse::Lmt(r) => {
                let a = write_u64(to_unsigned(r.order_id));
                let res = [1u8, 0u8, a[0], a[1], a[2], a[3], a[4], a[5], a[6], a[7], 0, 0, 0, 0, 0, 0, 0, 0];
                assert(res@ =~= self.frame());
                res
            },
            OrderResponse::Cncl(r) => {
                let a = write_u64(to_unsigned(r.order_id));
                let flag: u8 = if r.cancled {
                    1
                } else {
                    0
                };
                let res = [1u8, 1u8, flag, a[0], a[1], a[2], a[3], a[4], a[5], a[6], a[7], 0, 0, 0, 0, 0, 0, 0];
                assert(res@ =~= self.frame());
                res
            },
            OrderResponse::Market(r) => {
                let a = write_u64(to_unsigned(r.amount));
                let p = write_u64(r.price);
                let res = [
                    1u8,
                    2u8,
                    a[0],
                    a[1],
                    a[2],
                    a[3],
                    a[4],
                    a[5],
                    a[6],
                    a[7],
                    p[0],
                    p[1],
                    p[2],
                    p[3],
                    p[4],
                    p[5],
                    p[6],
                    p[7],
                ];
                assert(res@ =~= self.frame());
                res
            },
            OrderResponse::Hidden(r) => {
                let a = write_u64(to_unsigned(r.order_id));
                let res = [1u8, 3u8, a[0], a[1], a[2], a[3], a[4], a[5], a[6], a[7], 0, 0, 0, 0, 0, 0, 0, 0];
                assert(res@ =~= self.frame());
                res
            },
        }
    }
}

/// A fill, told to the owner of the resting order.
#[derive(Clone, Copy, Debug, PartialEq, Eq, Structural)]
pub struct LmtExecution {
    pub order_id: i64,
    pub amount: i64,
    pub price: u64,
}

impl LmtExecution {
    /// The 25 bytes of an execution report.
    pub open spec fn frame(self) -> Seq<u8> {
        seq![KIND_EXECUTION] + le_bytes(unsigned(self.order_id)) + le_bytes(unsigned(self.amount)) + le_bytes(
            self.price,
        )
    }

    pub fn to_bytes(&self) -> (res: [u8; 25])
        ensures
            res@ == self.frame(),
    {
        let a = write_u64(to_unsigned(self.order_id));
        let b = write_u64(to_unsigned(self.amount));
        let c = write_u64(self.price);
        let res = [
            0x20u8,
            a[0],
            a[1],
            a[2],
            a[3],
            a[4],
            a[5],
            a[6],
            a[7],
            b[0],
            b[1],
            b[2],
            b[3],
            b[4],
            b[5],
            b[6],
            b[7],
            c[0],
            c[1],
            c[2],
            c[3],
            c[4],
            c[5],
            c[6],
            c[7],
        ];
        assert(res@ =~= self.frame());
        res
    }
}

impl Client {
    /// The 25 bytes of an account snapshot: cash in whole units as a double,
    /// then the liquidity credit, then the position.
    pub open spec fn frame(self) -> Seq<u8> {
        seq![KIND_ACCOUNT] + le_bytes(bits_of(self.money as int)) + le_bytes(
            unsigned(self.net_liquidity_contribution),
        ) + le_bytes(unsigned(self.position))
    }

    pub fn to_bytes(&self) -> (ret: [u8; 25])
        ensures
            ret@ == self.frame(),
    {
        let a = write_u64(thousandths_bits(self.money));
        let b = write_u64(to_unsigned(self.net_liquidity_contribution));
        let c = write_u64(to_unsigned(self.position));
        let ret = [
            0x21u8,
            a[0],
            a[1],
            a[2],
            a[3],
            a[4],
            a[5],
            a[6],
            a[7],
            b[0],
            b[1],
            b[2],
            b[3],
            b[4],
            b[5],
            b[6],
            b[7],
            c[0],
            c[1],
            c[2],
            c[3],
            c[4],
            c[5],
            c[6],
            c[7],
        ];
        assert(ret@ =~= self.frame());
        ret
    }
}

/// The byte that turns down a request of this kind.
pub open spec fn reject_code(request: Request) -> u8 {
    match request {
        Request::Limit => CODE_REJECT_LIMIT,
        Request::Market => CODE_REJECT_MARKET,
        Request::Cancel => CODE_REJECT_CANCEL,
        Request::Hidden => CODE_REJECT_HIDDEN,
    }
}

/// The frame of a notice; a price key travels as the price in whole units,
/// a double. The prize of a rewarded account is not the engine's to spell: its
/// frame here is empty.
pub open spec fn notice_frame(what: Notice) -> Seq<u8> {
    match what {
        Notice::Accepted { order_id } => OrderResponse::Lmt(LmtResponse { order_id }).frame(),
        Notice::Filled { amount, price } => OrderResponse::Market(
            MarketResponse { amount: signed(amount), price: bits_of(price as int) },
        ).frame(),
        Notice::Executed { order_id, amount, price } => (LmtExecution {
            order_id,
            amount: signed(amount),
            price: bits_of(price as int),
        }).frame(),
        Notice::Cancelled => seq![CODE_CANCELLED],
        Notice::Rejected { request } => seq![reject_code(request)],
        Notice::Disconnected => seq![CODE_DISCONNECT],
        Notice::Rewarded => Seq::empty(),
    }
}

/// Encodes a notice for the wire.
pub fn encode_notice(what: Notice) -> (frame: Vec<u8>)
    ensures
        frame@ == notice_frame(what),
{
    let mut frame: Vec<u8> = Vec::new();
    match what {
        Notice::Accepted { order_id } => {
            let bytes = OrderResponse::Lmt(LmtResponse { order_id }).to_bytes();
            append(&mut frame, bytes.as_slice());
        },
        Notice::Filled { amount, price } => {
            let bytes = OrderResponse::Market(
                MarketResponse { amount: to_signed(amount), price: price_bits(price) },
            ).to_bytes();
            append(&mut frame, bytes.as_slice());
        },
        Notice::Executed { order_id, amount, price } => {
            let bytes = (LmtExecution { order_id, amount: to_signed(amount), price: price_bits(price) }).to_bytes();
            append(&mut frame, bytes.as_slice());
        },
        Notice::Cancelled => {
            frame.push(CODE_CANCELLED);
        },
        Notice::Rejected { request } => {
            let code = match request {
                Request::Limit => CODE_REJECT_LIMIT,
                Request::Market => CODE_REJECT_MARKET,
                Request::Cancel => CODE_REJECT_CANCEL,
                Request::Hidden => CODE_REJECT_HIDDEN,
            };
            frame.push(code);
        },
        Notice::Disconnected => {
            frame.push(CODE_DISCONNECT);
        },
        Notice::Rewarded => {},
    }
    assert(frame@ =~= notice_frame(what));
    frame
}

/// Appends the bytes of `more` to `frame`.
pub fn append(frame: &mut Vec<u8>, more: &[u8])
    ensures
        final(frame)@ == old(frame)@ + more@,
{
    let mut i: usize = 0;
    while i < more.len()
        invariant
            i <= more@.len(),
            frame@ == old(frame)@ + more@.take(i as int),
        decreases more@.len() - i,
    {
        frame.push(more[i]);
        assert(more@.take(i + 1) =~= more@.take(i as int).push(more@[i as int]));
        i += 1;
    }
    assert(more@.take(i as int) =~= more@);
}

} // verus!
