//! The crossing sweep: resting bids and asks that share a price key are
//! matched against each other, oldest first on both sides.
use vstd::prelude::*;
use crate::account::{known, settle, Client, Clients};
use crate::book::{side_view, BookEntry, Level, LevelView, OrderBook};
use crate::cancel::first_level;
use crate::matching::with_queue;
use crate::notice::{Notice, Outbound};

verus! {

/// The two queues of one price key, and what their crossing has done so far.
pub struct Cross {
    pub bids: Seq<BookEntry>,
    pub asks: Seq<BookEntry>,
    pub clients: Seq<Client>,
    pub out: Seq<Outbound>,
}

/// The quantity that changes hands between a bid and an ask.
pub open spec fn cross_qty(bid: BookEntry, ask: BookEntry) -> u64 {
    if bid.amount >= ask.amount {
        ask.amount
    } else {
        bid.amount
    }
}

/// The same order with `qty` less to fill.
pub open spec fn reduced(e: BookEntry, qty: u64) -> BookEntry {
    BookEntry { client: e.client, amount: (e.amount - qty) as u64, id: e.id, cycles_present: e.cycles_present }
}

/// One trade between bid `b` and ask `a` at price key `price`. Both owners
/// provided liquidity: each gains one credit. First the buyer trades and is
/// told, then the seller; both notices name the bid.
pub open spec fn cross_fill(price: i64, x: Cross, b: int, a: int) -> Cross {
    let bid = x.bids[b];
    let ask = x.asks[a];
    let qty = cross_qty(bid, ask);
    let report = Notice::Executed { order_id: bid.id, amount: qty, price };
    let told_buyer = if known(x.clients, bid.client) {
        x.out.push(Outbound { to: bid.client, what: report })
    } else {
        x.out
    };
    let after_buyer = settle(x.clients, bid.client, true, qty, price, 1);
    let told_seller = if known(after_buyer, ask.client) {
        told_buyer.push(Outbound { to: ask.client, what: report })
    } else {
        told_buyer
    };
    Cross {
        bids: x.bids.update(b, reduced(bid, qty)),
        asks: x.asks.update(a, reduced(ask, qty)),
        clients: settle(after_buyer, ask.client, false, qty, price, 1),
        out: told_seller,
    }
}

/// The crossing of one price key, going on from bid `b` with the ask cursor
/// at `a`. A bid that holds nothing is passed, and so is an ask that holds
/// nothing. A bid is drained against one ask after another until it holds
/// nothing; when the asks run out the price key is left as it is.
pub open spec fn cross_level(price: i64, x: Cross, b: int, a: int) -> Cross
    decreases x.bids.len() - b, x.asks.len() - a, (if 0 <= b < x.bids.len() { x.bids[b].amount } else { 0 }),
{
    if b < 0 || a < 0 || b >= x.bids.len() {
        x
    } else if x.bids[b].amount == 0 {
        cross_level(price, x, b + 1, a)
    } else if a >= x.asks.len() {
        x
    } else if x.asks[a].amount == 0 {
        cross_level(price, x, b, a + 1)
    } else {
        cross_level(price, cross_fill(price, x, b, a), b, a)
    }
}

/// Crosses the two queues of one price key.
pub fn cross_queues(
    bids: &mut Vec<BookEntry>,
    asks: &mut Vec<BookEntry>,
    price: i64,
    clients: &mut Clients,
    out: &mut Vec<Outbound>,
)
    requires
        old(clients).wf(),
    ensures
        final(clients).wf(),
        ({
            let start = Cross { bids: old(bids)@, asks: old(asks)@, clients: old(clients)@, out: old(out)@ };
            let end = cross_level(price, start, 0, 0);
            &&& final(bids)@ == end.bids
            &&& final(asks)@ == end.asks
            &&& final(clients)@ == end.clients
            &&& final(out)@ == end.out
        }),
{
    let ghost start = Cross { bids: bids@, asks: asks@, clients: clients@, out: out@ };
    let ghost end = cross_level(price, start, 0, 0);
    let mut b: usize = 0;
    let mut a: usize = 0;
    let mut open = true;
    while open && b < bids.len()
        invariant
            clients.wf(),
            b <= bids@.len(),
            a <= asks@.len(),
            bids@.len() == start.bids.len(),
            asks@.len() == start.asks.len(),
            open ==> cross_level(
                price,
                Cross { bids: bids@, asks: asks@, clients: clients@, out: out@ },
                b as int,
                a as int,
            ) == end,
            !open ==> (Cross { bids: bids@, asks: asks@, clients: clients@, out: out@ }) == end,
        decreases
                (if open { 1int } else { 0int }),
                bids@.len() - b,
                asks@.len() - a,
                (if b < bids@.len() { bids@[b as int].amount } else { 0 }),
    {
        let bid = bids[b];
        if bid.amount == 0 {
            b += 1;
        } else if a >= asks.len() {
            open = false;
        } else if asks[a].amount == 0 {
            a += 1;
        } else {
            let ask = asks[a];
            let qty = if bid.amount >= ask.amount {
                ask.amount
            } else {
                bid.amount
            };
            let ghost before = Cross { bids: bids@, asks: asks@, clients: clients@, out: out@ };
            bids[b].amount = bid.amount - qty;
            asks[a].amount = ask.amount - qty;
            let report = Notice::Executed { order_id: bid.id, amount: qty, price };
            if clients.trade(bid.client, true, qty, price, 1) {
                out.push(Outbound { to: bid.client, what: report });
            }
            if clients.trade(ask.client, false, qty, price, 1) {
                out.push(Outbound { to: ask.client, what: report });
            }
            assert(bids@ =~= before.bids.update(b as int, reduced(bid, qty)));
            assert(asks@ =~= before.asks.update(a as int, reduced(ask, qty)));
            assert((Cross { bids: bids@, asks: asks@, clients: clients@, out: out@ }) == cross_fill(
                price,
                before,
                b as int,
                a as int,
            ));
        }
    }
}

/// Both sides, and what the sweep has done so far.
pub struct Swept {
    pub bids: Seq<LevelView>,
    pub asks: Seq<LevelView>,
    pub clients: Seq<Client>,
    pub out: Seq<Outbound>,
}

/// The sweep going on from bid level `i`, in rising order of price key:
/// each bid level is crossed with the ask level of the same price key, if
/// there is one.
pub open spec fn sweep_from(s: Swept, i: int) -> Swept
    decreases s.bids.len() - i,
{
    if i < 0 || i >= s.bids.len() {
        s
    } else {
        let k = first_level(s.asks, s.bids[i].price, 0);
        if k >= s.asks.len() {
            sweep_from(s, i + 1)
        } else {
            let x = cross_level(
                s.bids[i].price,
                Cross { bids: s.bids[i].entries, asks: s.asks[k].entries, clients: s.clients, out: s.out },
                0,
                0,
            );
            sweep_from(
                Swept {
                    bids: with_queue(s.bids, i, x.bids),
                    asks: with_queue(s.asks, k, x.asks),
                    clients: x.clients,
                    out: x.out,
                },
                i + 1,
            )
        }
    }
}

/// Where the level with the price key `price` stands, if the side has one.
pub fn find_level(levels: &Vec<Level>, price: i64) -> (k: usize)
    ensures
        k == first_level(side_view(levels@), price, 0),
        k <= levels@.len(),
{
    let ghost side = side_view(levels@);
    let mut k: usize = 0;
    while k < levels.len() && levels[k].price != price
        invariant
            k <= levels@.len(),
            side == side_view(levels@),
            first_level(side, price, k as int) == first_level(side, price, 0),
        decreases levels@.len() - k,
    {
        k += 1;
    }
    k
}

impl OrderBook {
    /// Runs the crossing sweep over the whole book.
    pub fn sweep(&mut self, clients: &mut Clients, out: &mut Vec<Outbound>)
        requires
            old(self).wf(),
            old(clients).wf(),
        ensures
            final(self).wf(),
            final(clients).wf(),
            ({
                let end = sweep_from(
                    Swept {
                        bids: old(self)@.bids,
                        asks: old(self)@.asks,
                        clients: old(clients)@,
                        out: old(out)@,
                    },
                    0,
                );
                &&& final(self)@.bids == end.bids
                &&& final(self)@.asks == end.asks
                &&& final(self)@.inc_id == old(self)@.inc_id
                &&& final(clients)@ == end.clients
                &&& final(out)@ == end.out
            }),
    {
        let ghost start = Swept { bids: self@.bids, asks: self@.asks, clients: clients@, out: out@ };
        let mut i: usize = 0;
        while i < self.bids.len()
            invariant
                self.wf(),
                clients.wf(),
                self.inc_id == old(self).inc_id,
                i <= self.bids@.len(),
                sweep_from(Swept { bids: self@.bids, asks: self@.asks, clients: clients@, out: out@ }, i as int)
                    == sweep_from(start, 0),
            decreases self.bids@.len() - i,
        {
            let price = self.bids[i].price;
            let k = find_level(&self.asks, price);
            if k < self.asks.len() {
                let ghost before = self@;
                cross_queues(&mut self.bids[i].entries, &mut self.asks[k].entries, price, clients, out);
                assert(self@.bids =~= with_queue(before.bids, i as int, self.bids@[i as int].entries@));
                assert(self@.asks =~= with_queue(before.asks, k as int, self.asks@[k as int].entries@));
                assert forall|a: int, b: int| 0 <= a < b < self@.bids.len() implies (#[trigger] self@.bids[a]).price < (
                #[trigger] self@.bids[b]).price by {
                    assert(before.bids[a].price < before.bids[b].price);
                }
                assert forall|a: int, b: int| 0 <= a < b < self@.asks.len() implies (#[trigger] self@.asks[a]).price < (
                #[trigger] self@.asks[b]).price by {
                    assert(before.asks[a].price < before.asks[b].price);
                }
            }
            i += 1;
        }
    }
}

} // verus!
