//! The engine's three entry points: a datagram comes in, a request is
//! served, an administrative cycle runs.
use vstd::prelude::*;
use crate::account::{account_of, closed, known, ticked, touched, Client, Clients};
use crate::book::{BookView, OrderBook};
use crate::cancel::{cancelled, on_book};
use crate::compact::{dense, live};
use crate::evict::{farewells, staying};
use crate::hidden::hidden_outcome;
use crate::limit::limit_outcome;
use crate::market::{market_outcome, Outcome};
use crate::notice::{Notice, Outbound, Request};
use crate::order::{Order, TAG_DISCONNECT};
use crate::origin::Origin;
use crate::response::{append, encode_notice, notice_frame};
use crate::snapshot::{best_asks, best_bids, book_frame, encode_book, Quote};
use crate::sweep::{sweep_from, Swept};
use crate::uncrossed::lemma_sweep_uncrosses;

verus! {

/// What a datagram of `received` bytes from `who`, read into `buffer`, does
/// to the accounts, and the request it hands on. A datagram that filled the
/// buffer is dropped. One that begins with the disconnect tag closes the
/// account. Any other opens an account for a new origin, and the bytes that
/// came, and no others, are decoded with the market-maker flag of the account.
pub open spec fn received_from(accounts: Seq<Client>, who: Origin, buffer: Seq<u8>, received: int) -> (
    Seq<Client>,
    Option<Order>,
) {
    if received >= buffer.len() {
        (accounts, None)
    } else if received >= 1 && buffer[0] == TAG_DISCONNECT {
        (closed(accounts, who), None)
    } else {
        (
            touched(accounts, who),
            Order::parse(buffer.take(received), account_of(touched(accounts, who), who).is_market_maker),
        )
    }
}

/// Takes in the buffer that a datagram of `received` bytes from `who` was
/// read into.
pub fn receive(clients: &mut Clients, who: Origin, buffer: &[u8], received: usize) -> (order: Option<Order>)
    requires
        old(clients).wf(),
    ensures
        final(clients).wf(),
        final(clients)@ == received_from(old(clients)@, who, buffer@, received as int).0,
        order == received_from(old(clients)@, who, buffer@, received as int).1,
        order is Some ==> known(final(clients)@, who),
{
    if received >= buffer.len() {
        return None;
    }
    if received >= 1 && buffer[0] == TAG_DISCONNECT {
        clients.remove(who);
        return None;
    }
    let is_mm = clients.touch(who);
    let datagram = &buffer[0..received];
    assert(datagram@ == buffer@.take(received as int));
    Order::from_bytes(datagram, is_mm)
}

impl Order {
    /// The kind of request this is.
    pub open spec fn request(self) -> Request {
        match self {
            Order::Lmt(_) => Request::Limit,
            Order::Market(_) => Request::Market,
            Order::Cncl(_) => Request::Cancel,
            Order::Hidden(_) => Request::Hidden,
        }
    }
}

/// What the handler of a request leaves behind.
pub open spec fn handled(
    book: BookView,
    clients: Seq<Client>,
    out: Seq<Outbound>,
    who: Origin,
    order: Order,
) -> Outcome {
    match order {
        Order::Lmt(o) => limit_outcome(book, clients, out, who, o.amount, o.lmt),
        Order::Market(o) => market_outcome(book, clients, out, who, o.amount),
        Order::Hidden(o) => hidden_outcome(book, clients, out, who, o.amount),
        Order::Cncl(o) => if on_book(book, o.order_id, who) {
            Outcome {
                book: cancelled(book, o.order_id, who),
                clients,
                out: out.push(Outbound { to: who, what: Notice::Cancelled }),
                accepted: true,
            }
        } else {
            Outcome { book, clients, out, accepted: false }
        },
    }
}

/// What serving a request leaves behind: what its handler left, and for a
/// request turned down the rejection of its kind, told to `who`.
pub open spec fn served(
    book: BookView,
    clients: Seq<Client>,
    out: Seq<Outbound>,
    who: Origin,
    order: Order,
) -> Outcome {
    let o = handled(book, clients, out, who, order);
    if o.accepted {
        o
    } else {
        Outcome {
            book: o.book,
            clients: o.clients,
            out: o.out.push(Outbound { to: who, what: Notice::Rejected { request: order.request() } }),
            accepted: false,
        }
    }
}

/// What an administrative cycle leaves behind.
pub struct Cycle {
    pub book: BookView,
    pub clients: Seq<Client>,
    pub out: Seq<Outbound>,
    pub bids: Seq<Quote>,
    pub asks: Seq<Quote>,
}

/// An administrative cycle: accounts that won or lost are closed and told;
/// the book is swept and compacted against the accounts that stay; the
/// snapshot is taken and every resting order grows one cycle older; every
/// account that stays counts one more cycle.
pub open spec fn cycled(book: BookView, clients: Seq<Client>, out: Seq<Outbound>) -> Cycle {
    let stay = clients.filter(staying());
    let swept = sweep_from(Swept { bids: book.bids, asks: book.asks, clients: stay, out: out + farewells(clients) }, 0);
    let compact = (BookView { bids: swept.bids, asks: swept.asks, inc_id: book.inc_id }).compacted(swept.clients);
    Cycle {
        book: compact.aged(),
        clients: ticked(swept.clients),
        out: swept.out,
        bids: best_bids(compact.bids),
        asks: best_asks(compact.asks),
    }
}

impl OrderBook {
    /// Serves one request of `who` and tells whether it was accepted.
    ///
    /// The origin of a limit, market or hidden order must have an account,
    /// and a limit order needs a sequence number to be left.
    pub fn serve(
        &mut self,
        clients: &mut Clients,
        out: &mut Vec<Outbound>,
        who: Origin,
        order: Order,
    ) -> (accepted: bool)
        requires
            old(self).wf(),
            old(clients).wf(),
            order !is Cncl ==> known(old(clients)@, who),
            order is Lmt ==> old(self).inc_id < i64::MAX,
        ensures
            final(self).wf(),
            final(clients).wf(),
            ({
                let o = served(old(self)@, old(clients)@, old(out)@, who, order);
                &&& final(self)@ == o.book
                &&& final(clients)@ == o.clients
                &&& final(out)@ == o.out
                &&& accepted == o.accepted
            }),
    {
        let (res, request) = match order {
            Order::Lmt(o) => (self.do_lmt(clients, out, who, o), Request::Limit),
            Order::Market(o) => (self.do_mkt(clients, out, who, o), Request::Market),
            Order::Cncl(o) => (self.do_cncl(out, who, o), Request::Cancel),
            Order::Hidden(o) => (self.do_hidden(clients, out, who, o), Request::Hidden),
        };
        match res {
            Ok(()) => true,
            Err(()) => {
                out.push(Outbound { to: who, what: Notice::Rejected { request } });
                false
            },
        }
    }

    /// Runs one administrative cycle and hands back the snapshot: the best
    /// bids, then the best asks.
    pub fn cycle(&mut self, clients: &mut Clients, out: &mut Vec<Outbound>) -> (quotes: (Vec<Quote>, Vec<Quote>))
        requires
            old(self).wf(),
            old(clients).wf(),
        ensures
            final(self).wf(),
            final(clients).wf(),
            ({
                let c = cycled(old(self)@, old(clients)@, old(out)@);
                &&& final(self)@ == c.book
                &&& final(clients)@ == c.clients
                &&& final(out)@ == c.out
                &&& quotes.0@ == c.bids
                &&& quotes.1@ == c.asks
            }),
            final(self)@.parted(),
            dense(final(clients)@, final(self)@.bids),
            dense(final(clients)@, final(self)@.asks),
    {
        clients.evict(out);
        let ghost before = self@;
        let ghost stay = clients@;
        let ghost told = out@;
        self.sweep(clients, out);
        self.compact(clients);
        proof {
            let against = clients@;
            assert forall|i: int, k: int| 0 <= i < self@.bids.len() && 0 <= k < self@.asks.len() implies (
            #[trigger] self@.bids[i]).price != (#[trigger] self@.asks[k]).price by {
                lemma_sweep_uncrosses(before, stay, told, against, i, k);
            }
        }
        let ghost compact = self@;
        let ghost left = clients@;
        let quotes = self.snapshot();
        clients.tick();
        proof {
            assert forall|who: Origin| known(left, who) implies known(clients@, who) by {
                let i = choose|i: int| 0 <= i < left.len() && (#[trigger] left[i]).addr == who;
                assert(clients@[i].addr == who);
            }
            assert forall|i: int| 0 <= i < self@.bids.len() implies (#[trigger] self@.bids[i]).entries.len() > 0
                && forall|j: int|
                0 <= j < self@.bids[i].entries.len() ==> live(clients@, #[trigger] self@.bids[i].entries[j]) by {
                assert(compact.bids[i].entries.len() > 0);
                assert forall|j: int| 0 <= j < self@.bids[i].entries.len() implies live(
                    clients@,
                    #[trigger] self@.bids[i].entries[j],
                ) by {
                    assert(live(left, compact.bids[i].entries[j]));
                }
            }
            assert forall|i: int| 0 <= i < self@.asks.len() implies (#[trigger] self@.asks[i]).entries.len() > 0
                && forall|j: int|
                0 <= j < self@.asks[i].entries.len() ==> live(clients@, #[trigger] self@.asks[i].entries[j]) by {
                assert(compact.asks[i].entries.len() > 0);
                assert forall|j: int| 0 <= j < self@.asks[i].entries.len() implies live(
                    clients@,
                    #[trigger] self@.asks[i].entries[j],
                ) by {
                    assert(live(left, compact.asks[i].entries[j]));
                }
            }
        }
        quotes
    }
}

/// Bytes and the origin they go to.
#[derive(Debug)]
pub struct Datagram {
    pub to: Origin,
    pub bytes: Vec<u8>,
}

impl View for Datagram {
    type V = (Origin, Seq<u8>);

    open spec fn view(&self) -> (Origin, Seq<u8>) {
        (self.to, self.bytes@)
    }
}

/// A list of datagrams as a mathematical value.
pub open spec fn datagrams(list: Seq<Datagram>) -> Seq<(Origin, Seq<u8>)> {
    Seq::new(list.len(), |i: int| list[i]@)
}

/// The datagrams of these notices, each framed for the origin it goes to.
pub open spec fn framed(out: Seq<Outbound>) -> Seq<(Origin, Seq<u8>)> {
    Seq::new(out.len(), |i: int| (out[i].to, notice_frame(out[i].what)))
}

/// What an administrative cycle sends to every account, in the order of
/// the accounts: the book snapshot, then the snapshot of the account.
pub open spec fn reports(clients: Seq<Client>, bids: Seq<Quote>, asks: Seq<Quote>) -> Seq<(Origin, Seq<u8>)> {
    Seq::new(
        2 * clients.len(),
        |i: int|
            if i % 2 == 0 {
                (clients[i / 2].addr, book_frame(bids, asks))
            } else {
                (clients[i / 2].addr, clients[i / 2].frame())
            },
    )
}

/// Frames notices for the wire.
pub fn frame_notices(out: &Vec<Outbound>) -> (list: Vec<Datagram>)
    ensures
        datagrams(list@) == framed(out@),
{
    let mut list: Vec<Datagram> = Vec::new();
    let mut i: usize = 0;
    while i < out.len()
        invariant
            i <= out@.len(),
            list@.len() == i,
            forall|j: int| 0 <= j < i ==> (#[trigger] list@[j])@ == (out@[j].to, notice_frame(out@[j].what)),
        decreases out@.len() - i,
    {
        list.push(Datagram { to: out[i].to, bytes: encode_notice(out[i].what) });
        i += 1;
    }
    assert(datagrams(list@) =~= framed(out@));
    list
}

/// Frames the book snapshot and each account's snapshot for every account.
pub fn frame_reports(clients: &Clients, bids: &Vec<Quote>, asks: &Vec<Quote>) -> (list: Vec<Datagram>)
    ensures
        datagrams(list@) == reports(clients@, bids@, asks@),
{
    let book = encode_book(bids, asks);
    let mut list: Vec<Datagram> = Vec::new();
    let mut i: usize = 0;
    while i < clients.accounts.len()
        invariant
            i <= clients@.len(),
            book@ == book_frame(bids@, asks@),
            list@.len() == 2 * i,
            forall|j: int| 0 <= j < 2 * i ==> (#[trigger] list@[j])@ == reports(clients@, bids@, asks@)[j],
        decreases clients@.len() - i,
    {
        let account = clients.accounts[i];
        let ghost before = list@;
        let mut copy: Vec<u8> = Vec::new();
        append(&mut copy, book.as_slice());
        let state = account.to_bytes();
        let mut bytes: Vec<u8> = Vec::new();
        append(&mut bytes, state.as_slice());
        list.push(Datagram { to: account.addr, bytes: copy });
        list.push(Datagram { to: account.addr, bytes });
        assert forall|j: int| 0 <= j < 2 * (i + 1) implies (#[trigger] list@[j])@ == reports(
            clients@,
            bids@,
            asks@,
        )[j] by {
            if j < 2 * i {
                assert(list@[j] == before[j]);
            }
        }
        i += 1;
    }
    assert(datagrams(list@) =~= reports(clients@, bids@, asks@));
    list
}

} // verus!
