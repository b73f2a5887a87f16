//! What holds of the engine whatever the book, the accounts and the request.
use vstd::prelude::*;
use crate::account::{account_of, Client};
use crate::book::{rising, spent, BookEntry, BookView, LevelView};
use crate::cancel::{first_level, first_match, holds, on_book};
use crate::double::{costs_more, key_of};
use crate::ident::mint_id;
use crate::engine::{handled, served};
use crate::hidden::{hidden_buy, hidden_sell};
use crate::limit::{covered, limit_outcome, rest, slot};
use crate::market::{market_outcome, market_sell, Outcome};
use crate::matching::{walk_down, walk_queue, walk_up, with_queue, FillRule, Tape};
use crate::money::magnitude;
use crate::notice::{Notice, Outbound};
use crate::order::{CancleOrder, Order};
use crate::origin::Origin;

verus! {

/// Every level before the slot of a price key lies below it, and the level
/// at the slot, if there is one, does not.
pub proof fn lemma_slot(side: Seq<LevelView>, price: i64, from: int)
    requires
        0 <= from <= side.len(),
    ensures
        from <= slot(side, price, from) <= side.len(),
        forall|j: int| from <= j < slot(side, price, from) ==> (#[trigger] side[j]).price < price,
        slot(side, price, from) < side.len() ==> side[slot(side, price, from)].price >= price,
    decreases side.len() - from,
{
    if from < side.len() && side[from].price < price {
        lemma_slot(side, price, from + 1);
    }
}

/// On a rising side, the first level with a price key is the only one.
pub proof fn lemma_first_level(side: Seq<LevelView>, price: i64, from: int)
    requires
        0 <= from <= side.len(),
    ensures
        from <= first_level(side, price, from) <= side.len(),
        forall|j: int| from <= j < first_level(side, price, from) ==> (#[trigger] side[j]).price != price,
        first_level(side, price, from) < side.len() ==> side[first_level(side, price, from)].price == price,
    decreases side.len() - from,
{
    if from < side.len() && side[from].price != price {
        lemma_first_level(side, price, from + 1);
    }
}

/// The queue at rest under a price key: empty where the side has no such
/// level.
pub open spec fn queue_at(side: Seq<LevelView>, price: i64) -> Seq<BookEntry> {
    let k = first_level(side, price, 0);
    if k < side.len() {
        side[k].entries
    } else {
        Seq::empty()
    }
}

/// A rising side stays rising when an order is put to rest: best price
/// first on either side.
pub proof fn lemma_rest_rising(side: Seq<LevelView>, price: i64, e: BookEntry)
    requires
        rising(side),
    ensures
        rising(rest(side, price, e)),
{
    lemma_slot(side, price, 0);
    let k = slot(side, price, 0);
    let after = rest(side, price, e);
    if k < side.len() && side[k].price == price {
        assert forall|i: int, j: int| 0 <= i < j < after.len() implies (#[trigger] after[i]).price < (
        #[trigger] after[j]).price by {
            assert(side[i].price < side[j].price);
        }
    } else {
        assert forall|i: int, j: int| 0 <= i < j < after.len() implies (#[trigger] after[i]).price < (
        #[trigger] after[j]).price by {
            let a = if i < k { i } else { i - 1 };
            let b = if j < k { j } else { j - 1 };
            if i == k {
                assert(side[k].price >= price);
                assert(side[b].price >= side[k].price) by {
                    if b > k {
                        assert(side[k].price < side[b].price);
                    }
                }
            } else if j == k {
                assert(side[i].price < price);
            } else {
                assert(side[a].price < side[b].price);
            }
        }
    }
}

/// Orders put to rest one after the other.
pub open spec fn rest_all(side: Seq<LevelView>, orders: Seq<(i64, BookEntry)>) -> Seq<LevelView>
    decreases orders.len(),
{
    if orders.len() == 0 {
        side
    } else {
        rest(rest_all(side, orders.drop_last()), orders.last().0, orders.last().1)
    }
}

/// After any sequence of limit orders a side is in rising order of price
/// key, so that its best level stands at one end.
pub proof fn lemma_rest_all_rising(side: Seq<LevelView>, orders: Seq<(i64, BookEntry)>)
    requires
        rising(side),
    ensures
        rising(rest_all(side, orders)),
    decreases orders.len(),
{
    if orders.len() > 0 {
        lemma_rest_all_rising(side, orders.drop_last());
        lemma_rest_rising(rest_all(side, orders.drop_last()), orders.last().0, orders.last().1);
    }
}

/// Within a level orders stand in order of arrival: an order put to rest
/// goes to the end of the queue of its price key, and the queue of every other
/// price key stays as it is.
pub proof fn lemma_rest_fifo(side: Seq<LevelView>, price: i64, e: BookEntry, other: i64)
    requires
        rising(side),
    ensures
        queue_at(rest(side, price, e), price) == queue_at(side, price).push(e),
        other != price ==> queue_at(rest(side, price, e), other) == queue_at(side, other),
{
    lemma_slot(side, price, 0);
    let k = slot(side, price, 0);
    let after = rest(side, price, e);
    lemma_rest_rising(side, price, e);
    lemma_first_level(side, price, 0);
    lemma_first_level(after, price, 0);
    lemma_first_level(side, other, 0);
    lemma_first_level(after, other, 0);
    let f = first_level(side, price, 0);
    let g = first_level(after, price, 0);
    if k < side.len() && side[k].price == price {
        assert(after[k].price == price);
        assert(f == k) by {
            if f < k {
                assert(side[f].price < price);
            } else if f > k {
                assert(side[k].price != price);
            }
        }
        assert(g == k) by {
            if g < k {
                assert(after[g].price == side[g].price);
                assert(side[g].price < price);
            } else if g > k {
                assert(after[k].price != price);
            }
        }
        if other != price {
            let fo = first_level(side, other, 0);
            let go = first_level(after, other, 0);
            assert(fo == go) by {
                if fo < go {
                    assert(after[fo].price == side[fo].price);
                } else if go < fo {
                    assert(after[go].price == side[go].price);
                }
            }
            if fo < side.len() {
                assert(fo != k);
                assert(after[fo].entries == side[fo].entries);
            }
        }
    } else {
        assert(after[k].price == price);
        assert(f == side.len()) by {
            if f < side.len() {
                if f < k {
                    assert(side[f].price < price);
                } else {
                    if f > k {
                        assert(side[k].price < side[f].price);
                    }
                    assert(side[k].price >= price);
                }
            }
        }
        assert(g == k) by {
            if g < k {
                assert(after[g] == side[g]);
                assert(side[g].price < price);
            } else if g > k {
                assert(after[k].price != price);
            }
        }
        assert(queue_at(after, price) =~= queue_at(side, price).push(e));
        if other != price {
            let fo = first_level(side, other, 0);
            let go = first_level(after, other, 0);
            let moved = if fo < k { fo } else { fo + 1 };
            if fo < side.len() {
                assert(after[moved] == side[fo]);
                assert(go == moved) by {
                    if go < moved {
                        if go < k {
                            assert(after[go] == side[go]);
                        } else if go > k {
                            assert(after[go] == side[go - 1]);
                            assert(side[go - 1].price != other);
                        }
                    } else if go > moved {
                        assert(after[moved].price != other);
                    }
                }
            } else {
                assert(go == after.len()) by {
                    if go < after.len() {
                        if go < k {
                            assert(after[go] == side[go]);
                            assert(side[go].price != other);
                        } else if go > k {
                            assert(after[go] == side[go - 1]);
                            assert(side[go - 1].price != other);
                        }
                    }
                }
            }
        }
    }
}

/// An accepted limit order rests last in the queue of its price key on its
/// side. Every other queue of that side is as it was, the side stays in
/// rising order of price key, and the other side is not touched.
pub proof fn lemma_limit_rests_last(
    book: BookView,
    clients: Seq<Client>,
    out: Seq<Outbound>,
    who: Origin,
    amount: i64,
    lmt: u64,
    other: i64,
)
    requires
        book.wf(),
        limit_outcome(book, clients, out, who, amount, lmt).accepted,
    ensures
        ({
            let after = limit_outcome(book, clients, out, who, amount, lmt).book;
            let price = key_of(lmt);
            let e = BookEntry {
                client: who,
                amount: magnitude(amount),
                id: mint_id(price, book.inc_id),
                cycles_present: 0,
            };
            let side = if amount < 0 { book.asks } else { book.bids };
            let rested = if amount < 0 { after.asks } else { after.bids };
            &&& (if amount < 0 { after.bids == book.bids } else { after.asks == book.asks })
            &&& rising(rested)
            &&& queue_at(rested, price) == queue_at(side, price).push(e)
            &&& other != price ==> queue_at(rested, other) == queue_at(side, other)
        }),
{
    let price = key_of(lmt);
    let e = BookEntry { client: who, amount: magnitude(amount), id: mint_id(price, book.inc_id), cycles_present: 0 };
    if amount < 0 {
        lemma_rest_rising(book.asks, price, e);
        lemma_rest_fifo(book.asks, price, e, other);
    } else {
        lemma_rest_rising(book.bids, price, e);
        lemma_rest_fifo(book.bids, price, e, other);
    }
}

/// A limit buy whose price times quantity is more than the cash at hand is
/// turned down and leaves the book, the accounts and the notices as they were.
pub proof fn lemma_unaffordable_limit_buy(
    book: BookView,
    clients: Seq<Client>,
    out: Seq<Outbound>,
    who: Origin,
    amount: i64,
    lmt: u64,
)
    requires
        amount >= 0,
        costs_more(lmt, amount, account_of(clients, who).money as int),
    ensures
        limit_outcome(book, clients, out, who, amount, lmt) == (Outcome { book, clients, out, accepted: false }),
{
}

/// A market sell for more than the position is turned down before any
/// resting order is touched: the book, the accounts and the notices stay as
/// they were.
pub proof fn lemma_uncovered_market_sell(
    book: BookView,
    clients: Seq<Client>,
    out: Seq<Outbound>,
    who: Origin,
    amount: i64,
)
    requires
        amount < 0,
        magnitude(amount) > account_of(clients, who).position,
    ensures
        market_outcome(book, clients, out, who, amount) == (Outcome { book, clients, out, accepted: false }),
{
}

/// A cancel is accepted exactly if the level that the identifier names
/// holds, among the bids or the asks, an order with that identifier and
/// owner. Accepted, it takes out such an order and no other; turned down, it
/// leaves the book as it was.
pub proof fn lemma_cancel(book: BookView, clients: Seq<Client>, out: Seq<Outbound>, who: Origin, id: i64)
    requires
        book.wf(),
    ensures
        ({
            let o = handled(book, clients, out, who, Order::Cncl(CancleOrder { order_id: id }));
            &&& o.accepted <==> on_book(book, id, who)
            &&& !o.accepted ==> o.book == book && o.out == out
            &&& o.clients == clients
        }),
{
}

/// The order that a cancel takes out of a side has the identifier and the
/// owner that were asked for, and stands under the price key that was named.
pub proof fn lemma_cancel_takes_the_order(side: Seq<LevelView>, price: i64, id: i64, who: Origin)
    requires
        rising(side),
        holds(side, price, id, who),
    ensures
        ({
            let i = first_level(side, price, 0);
            let j = first_match(side[i].entries, id, who, 0);
            &&& 0 <= i < side.len()
            &&& side[i].price == price
            &&& 0 <= j < side[i].entries.len()
            &&& side[i].entries[j].id == id
            &&& side[i].entries[j].client == who
        }),
{
    lemma_first_level(side, price, 0);
    let (a, b): (int, int) = choose|a: int, b: int|
        0 <= a < side.len() && 0 <= b < side[a].entries.len() && side[a].price == price && (
        #[trigger] side[a].entries[b]).id == id && side[a].entries[b].client == who;
    let i = first_level(side, price, 0);
    assert(i == a) by {
        if i < a {
            assert(side[i].price < side[a].price);
        }
    }
    lemma_first_match(side[i].entries, id, who, 0);
    let j = first_match(side[i].entries, id, who, 0);
    if j > b {
        assert(!(side[i].entries[b].id == id && side[i].entries[b].client == who));
    }
}

/// Every order before the first match does not match, and the order at the
/// first match, if there is one, does.
pub proof fn lemma_first_match(queue: Seq<BookEntry>, id: i64, who: Origin, from: int)
    requires
        0 <= from <= queue.len(),
    ensures
        from <= first_match(queue, id, who, from) <= queue.len(),
        forall|j: int|
            from <= j < first_match(queue, id, who, from) ==> !((#[trigger] queue[j]).id == id && queue[j].client
                == who),
        first_match(queue, id, who, from) < queue.len() ==> queue[first_match(queue, id, who, from)].id == id
            && queue[first_match(queue, id, who, from)].client == who,
    decreases queue.len() - from,
{
    if from < queue.len() && !(queue[from].id == id && queue[from].client == who) {
        lemma_first_match(queue, id, who, from + 1);
    }
}

/// No order of the side has anything left to fill.
pub open spec fn idle(side: Seq<LevelView>) -> bool {
    forall|i: int| 0 <= i < side.len() ==> spent((#[trigger] side[i]).entries)
}

/// A walk through a queue with nothing to fill changes nothing.
pub proof fn lemma_walk_queue_idle(rule: FillRule, taker: Origin, price: i64, queue: Seq<BookEntry>, i: int, t: Tape)
    requires
        spent(queue),
    ensures
        walk_queue(rule, taker, price, queue, i, t) == (queue, t),
    decreases queue.len() - i,
{
    if !(i < 0 || i >= queue.len() || t.done) {
        assert(queue[i].amount == 0);
        lemma_walk_queue_idle(rule, taker, price, queue, i + 1, t);
    }
}

/// A walk down a side with nothing to fill changes nothing.
pub proof fn lemma_walk_down_idle(rule: FillRule, taker: Origin, side: Seq<LevelView>, n: int, t: Tape)
    requires
        idle(side),
    ensures
        walk_down(rule, taker, side, n, t) == (side, t),
    decreases n,
{
    if !(n <= 0 || n > side.len() || t.done) {
        assert(spent(side[n - 1].entries));
        lemma_walk_queue_idle(rule, taker, side[n - 1].price, side[n - 1].entries, 0, t);
        assert(with_queue(side, n - 1, side[n - 1].entries) =~= side);
        lemma_walk_down_idle(rule, taker, side, n - 1, t);
    }
}

/// A walk up a side with nothing to fill changes nothing.
pub proof fn lemma_walk_up_idle(rule: FillRule, taker: Origin, side: Seq<LevelView>, i: int, t: Tape)
    requires
        idle(side),
    ensures
        walk_up(rule, taker, side, i, t) == (side, t),
    decreases side.len() - i,
{
    if !(i < 0 || i >= side.len() || t.done) {
        assert(spent(side[i].entries));
        lemma_walk_queue_idle(rule, taker, side[i].price, side[i].entries, 0, t);
        assert(with_queue(side, i, side[i].entries) =~= side);
        lemma_walk_up_idle(rule, taker, side, i + 1, t);
    }
}

/// The request fails a check that is made before any resting order is
/// looked at.
pub open spec fn refused_at_once(book: BookView, clients: Seq<Client>, who: Origin, order: Order) -> bool {
    let account = account_of(clients, who);
    match order {
        Order::Lmt(o) => !covered(account, o.amount, o.lmt),
        Order::Market(o) => if o.amount < 0 {
            account.position < magnitude(o.amount)
        } else {
            book.asks.len() > 0 && book.asks[0].price * o.amount > account.money
        },
        Order::Hidden(o) => if o.amount < 0 {
            book.bids.len() == 0 || book.bids.last().price * o.amount > account.money
        } else {
            account.position < magnitude(o.amount)
        },
        Order::Cncl(o) => !on_book(book, o.order_id, who),
    }
}

/// The request walks a side on which nothing is left to fill.
pub open spec fn finds_nothing(book: BookView, order: Order) -> bool {
    match order {
        Order::Market(o) => o.amount < 0 && idle(book.bids),
        Order::Hidden(o) => if o.amount < 0 {
            idle(book.bids)
        } else {
            idle(book.asks)
        },
        _ => false,
    }
}

/// A request that is turned down without a fill leaves the book and the
/// accounts as they were and is answered with the rejection of its kind; sent
/// again, it is turned down again in the same way. A market sell or a hidden
/// order that is turned down after fills is another matter: those fills
/// stand.
pub proof fn lemma_rejection_repeats(
    book: BookView,
    clients: Seq<Client>,
    out: Seq<Outbound>,
    who: Origin,
    order: Order,
)
    requires
        !handled(book, clients, out, who, order).accepted,
        refused_at_once(book, clients, who, order) || finds_nothing(book, order),
    ensures
        ({
            let rejection = Outbound { to: who, what: Notice::Rejected { request: order.request() } };
            let once = served(book, clients, out, who, order);
            let twice = served(once.book, once.clients, once.out, who, order);
            &&& !once.accepted
            &&& once.book == book
            &&& once.clients == clients
            &&& once.out == out.push(rejection)
            &&& !twice.accepted
            &&& twice.book == book
            &&& twice.clients == clients
            &&& twice.out == out.push(rejection).push(rejection)
        }),
{
    let rejection = Outbound { to: who, what: Notice::Rejected { request: order.request() } };
    match order {
        Order::Market(o) => {
            if !refused_at_once(book, clients, who, order) {
                let rule = market_sell();
                let start = Tape::start(clients, out, magnitude(o.amount));
                lemma_walk_down_idle(rule, who, book.bids, book.bids.len() as int, start);
                let again = Tape::start(clients, out.push(rejection), magnitude(o.amount));
                lemma_walk_down_idle(rule, who, book.bids, book.bids.len() as int, again);
            }
        },
        Order::Hidden(o) => {
            if !refused_at_once(book, clients, who, order) {
                let start = Tape::start(clients, out, magnitude(o.amount));
                let again = Tape::start(clients, out.push(rejection), magnitude(o.amount));
                if o.amount < 0 {
                    let rule = hidden_sell();
                    lemma_walk_down_idle(rule, who, book.bids, book.bids.len() as int, start);
                    lemma_walk_down_idle(rule, who, book.bids, book.bids.len() as int, again);
                } else {
                    let rule = hidden_buy();
                    lemma_walk_up_idle(rule, who, book.asks, 0, start);
                    lemma_walk_up_idle(rule, who, book.asks, 0, again);
                }
            }
        },
        _ => {},
    }
}

} // verus!
