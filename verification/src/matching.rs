//! Walking one side of the book for an incoming order: best price first,
//! oldest first within a price, each resting order filled as far as the
//! incoming quantity reaches.
use vstd::prelude::*;
use crate::account::{known, settle, Client, Clients};
use crate::book::{rising, side_view, BookEntry, Level, LevelView};
use crate::notice::{Notice, Outbound};
use crate::origin::Origin;

verus! {

/// Who pays in a fill, and what the fill does to the aggressor's liquidity
/// credit. The owner of the resting order always gains one credit.
#[derive(Clone, Copy, Debug, PartialEq, Eq, Structural)]
pub struct FillRule {
    /// The resting order's owner pays cash and gains units.
    pub maker_buys: bool,
    /// The aggressor pays cash and gains units.
    pub taker_buys: bool,
    /// The aggressor loses one liquidity credit.
    pub taker_penalised: bool,
}

impl FillRule {
    /// What a fill adds to the aggressor's liquidity credit.
    pub open spec fn taker_credit(self) -> int {
        if self.taker_penalised {
            -1
        } else {
            0
        }
    }
}

/// What a walk carries from one resting order to the next.
pub struct Tape {
    pub clients: Seq<Client>,
    pub out: Seq<Outbound>,
    /// The incoming quantity not yet filled.
    pub remaining: u64,
    /// Nothing of the incoming quantity is open: the walk is over.
    pub done: bool,
}

impl Tape {
    /// The tape at the start of a walk for the quantity `remaining`. A walk
    /// for nothing is over before it begins.
    pub open spec fn start(clients: Seq<Client>, out: Seq<Outbound>, remaining: u64) -> Tape {
        Tape { clients, out, remaining, done: remaining == 0 }
    }
}

/// The quantity that changes hands when `remaining` meets a resting order.
pub open spec fn fill_qty(e: BookEntry, remaining: u64) -> u64 {
    if e.amount <= remaining {
        e.amount
    } else {
        remaining
    }
}

/// The resting order after that fill.
pub open spec fn filled_entry(e: BookEntry, remaining: u64) -> BookEntry {
    BookEntry {
        client: e.client,
        amount: (e.amount - fill_qty(e, remaining)) as u64,
        id: e.id,
        cycles_present: e.cycles_present,
    }
}

/// The tape after the resting order `e` at price key `price` was filled for
/// `taker`: first the owner of `e` trades and is told, then the aggressor.
/// Neither an account nor a notice is made for an origin without an account.
pub open spec fn fill(rule: FillRule, taker: Origin, price: i64, e: BookEntry, t: Tape) -> Tape {
    let qty = fill_qty(e, t.remaining);
    let told_maker = if known(t.clients, e.client) {
        t.out.push(Outbound { to: e.client, what: Notice::Executed { order_id: e.id, amount: qty, price } })
    } else {
        t.out
    };
    let after_maker = settle(t.clients, e.client, rule.maker_buys, qty, price, 1);
    let told_taker = if known(after_maker, taker) {
        told_maker.push(Outbound { to: taker, what: Notice::Filled { amount: qty, price } })
    } else {
        told_maker
    };
    Tape {
        clients: settle(after_maker, taker, rule.taker_buys, qty, price, rule.taker_credit()),
        out: told_taker,
        remaining: (t.remaining - qty) as u64,
        done: t.remaining == qty,
    }
}

/// A queue and the tape after the walk went on from its entry `i`. Entries
/// that hold nothing are passed over; the walk ends with the fill that uses
/// up the incoming quantity.
pub open spec fn walk_queue(
    rule: FillRule,
    taker: Origin,
    price: i64,
    queue: Seq<BookEntry>,
    i: int,
    t: Tape,
) -> (Seq<BookEntry>, Tape)
    decreases queue.len() - i,
{
    if i < 0 || i >= queue.len() || t.done {
        (queue, t)
    } else if queue[i].amount == 0 {
        walk_queue(rule, taker, price, queue, i + 1, t)
    } else {
        walk_queue(
            rule,
            taker,
            price,
            queue.update(i, filled_entry(queue[i], t.remaining)),
            i + 1,
            fill(rule, taker, price, queue[i], t),
        )
    }
}

/// The same side with another queue at level `i`.
pub open spec fn with_queue(side: Seq<LevelView>, i: int, queue: Seq<BookEntry>) -> Seq<LevelView> {
    side.update(i, LevelView { price: side[i].price, entries: queue })
}

/// A side and the tape after the walk went down from level `n - 1` to
/// level 0: from the highest price key to the lowest.
pub open spec fn walk_down(rule: FillRule, taker: Origin, side: Seq<LevelView>, n: int, t: Tape) -> (
    Seq<LevelView>,
    Tape,
)
    decreases n,
{
    if n <= 0 || n > side.len() || t.done {
        (side, t)
    } else {
        let (queue, after) = walk_queue(rule, taker, side[n - 1].price, side[n - 1].entries, 0, t);
        walk_down(rule, taker, with_queue(side, n - 1, queue), n - 1, after)
    }
}

/// A side and the tape after the walk went up from level `i` to the last:
/// from the lowest price key on.
pub open spec fn walk_up(rule: FillRule, taker: Origin, side: Seq<LevelView>, i: int, t: Tape) -> (
    Seq<LevelView>,
    Tape,
)
    decreases side.len() - i,
{
    if i < 0 || i >= side.len() || t.done {
        (side, t)
    } else {
        let (queue, after) = walk_queue(rule, taker, side[i].price, side[i].entries, 0, t);
        walk_up(rule, taker, with_queue(side, i, queue), i + 1, after)
    }
}

/// Fills the orders of one queue for `taker`, oldest first.
pub fn fill_queue(
    entries: &mut Vec<BookEntry>,
    price: i64,
    rule: FillRule,
    taker: Origin,
    clients: &mut Clients,
    out: &mut Vec<Outbound>,
    remaining: u64,
) -> (r: (u64, bool))
    requires
        old(clients).wf(),
    ensures
        final(clients).wf(),
        ({
            let start = Tape::start(old(clients)@, old(out)@, remaining);
            let (queue, t) = walk_queue(rule, taker, price, old(entries)@, 0, start);
            &&& final(entries)@ == queue
            &&& final(clients)@ == t.clients
            &&& final(out)@ == t.out
            &&& r.0 == t.remaining
            &&& r.1 == t.done
        }),
        r.1 == (r.0 == 0),
{
    let ghost start = Tape::start(clients@, out@, remaining);
    let mut left: u64 = remaining;
    let mut done = remaining == 0;
    let mut i: usize = 0;
    while i < entries.len() && !done
        invariant
            clients.wf(),
            done == (left == 0),
            i <= entries@.len(),
            walk_queue(
                rule,
                taker,
                price,
                entries@,
                i as int,
                Tape { clients: clients@, out: out@, remaining: left, done },
            ) == walk_queue(rule, taker, price, old(entries)@, 0, start),
        decreases entries@.len() - i,
    {
        let e = entries[i];
        if e.amount != 0 {
            let qty = if e.amount <= left {
                e.amount
            } else {
                left
            };
            entries[i].amount = e.amount - qty;
            if clients.trade(e.client, rule.maker_buys, qty, price, 1) {
                out.push(Outbound { to: e.client, what: Notice::Executed { order_id: e.id, amount: qty, price } });
            }
            let credit: i64 = if rule.taker_penalised {
                -1
            } else {
                0
            };
            if clients.trade(taker, rule.taker_buys, qty, price, credit) {
                out.push(Outbound { to: taker, what: Notice::Filled { amount: qty, price } });
            }
            left = left - qty;
            done = left == 0;
        }
        i += 1;
    }
    (left, done)
}

/// Fills resting orders for `taker` from the highest price key down.
pub fn fill_down(
    levels: &mut Vec<Level>,
    rule: FillRule,
    taker: Origin,
    clients: &mut Clients,
    out: &mut Vec<Outbound>,
    remaining: u64,
) -> (r: (u64, bool))
    requires
        old(clients).wf(),
    ensures
        final(clients).wf(),
        ({
            let start = Tape::start(old(clients)@, old(out)@, remaining);
            let side = side_view(old(levels)@);
            let (after, t) = walk_down(rule, taker, side, side.len() as int, start);
            &&& side_view(final(levels)@) == after
            &&& final(clients)@ == t.clients
            &&& final(out)@ == t.out
            &&& r.0 == t.remaining
            &&& r.1 == t.done
        }),
        r.1 == (r.0 == 0),
{
    let ghost start = Tape::start(clients@, out@, remaining);
    let ghost side = side_view(levels@);
    let mut left: u64 = remaining;
    let mut done = remaining == 0;
    let mut n: usize = levels.len();
    while n > 0 && !done
        invariant
            clients.wf(),
            done == (left == 0),
            n <= levels@.len(),
            walk_down(
                rule,
                taker,
                side_view(levels@),
                n as int,
                Tape { clients: clients@, out: out@, remaining: left, done },
            ) == walk_down(rule, taker, side, side.len() as int, start),
        decreases n,
    {
        n -= 1;
        let ghost before = side_view(levels@);
        let price = levels[n].price;
        let r = fill_queue(&mut levels[n].entries, price, rule, taker, clients, out, left);
        left = r.0;
        done = r.1;
        assert(side_view(levels@) =~= with_queue(before, n as int, levels@[n as int].entries@));
    }
    (left, done)
}

/// Fills resting orders for `taker` from the lowest price key up.
pub fn fill_up(
    levels: &mut Vec<Level>,
    rule: FillRule,
    taker: Origin,
    clients: &mut Clients,
    out: &mut Vec<Outbound>,
    remaining: u64,
) -> (r: (u64, bool))
    requires
        old(clients).wf(),
    ensures
        final(clients).wf(),
        ({
            let start = Tape::start(old(clients)@, old(out)@, remaining);
            let (after, t) = walk_up(rule, taker, side_view(old(levels)@), 0, start);
            &&& side_view(final(levels)@) == after
            &&& final(clients)@ == t.clients
            &&& final(out)@ == t.out
            &&& r.0 == t.remaining
            &&& r.1 == t.done
        }),
        r.1 == (r.0 == 0),
{
    let ghost start = Tape::start(clients@, out@, remaining);
    let ghost side = side_view(levels@);
    let mut left: u64 = remaining;
    let mut done = remaining == 0;
    let mut i: usize = 0;
    while i < levels.len() && !done
        invariant
            clients.wf(),
            done == (left == 0),
            i <= levels@.len(),
            walk_up(
                rule,
                taker,
                side_view(levels@),
                i as int,
                Tape { clients: clients@, out: out@, remaining: left, done },
            ) == walk_up(rule, taker, side, 0, start),
        decreases levels@.len() - i,
    {
        let ghost before = side_view(levels@);
        let price = levels[i].price;
        let r = fill_queue(&mut levels[i].entries, price, rule, taker, clients, out, left);
        left = r.0;
        done = r.1;
        assert(side_view(levels@) =~= with_queue(before, i as int, levels@[i as int].entries@));
        i += 1;
    }
    (left, done)
}

/// Price keys of two sides agree level by level.
pub open spec fn same_prices(a: Seq<LevelView>, b: Seq<LevelView>) -> bool {
    &&& a.len() == b.len()
    &&& forall|i: int| 0 <= i < a.len() ==> (#[trigger] a[i]).price == b[i].price
}

/// A side with the price keys of a rising side is rising.
pub proof fn lemma_same_prices_rising(a: Seq<LevelView>, b: Seq<LevelView>)
    requires
        same_prices(a, b),
        rising(a),
    ensures
        rising(b),
{
    assert forall|i: int, j: int| 0 <= i < j < b.len() implies (#[trigger] b[i]).price < (#[trigger] b[j]).price by {
        assert(a[i].price == b[i].price);
        assert(a[j].price == b[j].price);
    }
}

/// A walk keeps every level in its place and under its price key.
pub proof fn lemma_walk_down_keeps_prices(rule: FillRule, taker: Origin, side: Seq<LevelView>, n: int, t: Tape)
    ensures
        same_prices(side, walk_down(rule, taker, side, n, t).0),
    decreases n,
{
    if n <= 0 || n > side.len() || t.done {
    } else {
        let (queue, after) = walk_queue(rule, taker, side[n - 1].price, side[n - 1].entries, 0, t);
        let next = with_queue(side, n - 1, queue);
        lemma_walk_down_keeps_prices(rule, taker, next, n - 1, after);
        let end = walk_down(rule, taker, side, n, t).0;
        assert forall|i: int| 0 <= i < side.len() implies (#[trigger] side[i]).price == end[i].price by {
            assert(next[i].price == end[i].price);
        }
    }
}

/// A walk keeps every level in its place and under its price key.
pub proof fn lemma_walk_up_keeps_prices(rule: FillRule, taker: Origin, side: Seq<LevelView>, i: int, t: Tape)
    ensures
        same_prices(side, walk_up(rule, taker, side, i, t).0),
    decreases side.len() - i,
{
    if i < 0 || i >= side.len() || t.done {
    } else {
        let (queue, after) = walk_queue(rule, taker, side[i].price, side[i].entries, 0, t);
        let next = with_queue(side, i, queue);
        lemma_walk_up_keeps_prices(rule, taker, next, i + 1, after);
        let end = walk_up(rule, taker, side, i, t).0;
        assert forall|k: int| 0 <= k < side.len() implies (#[trigger] side[k]).price == end[k].price by {
            assert(next[k].price == end[k].price);
        }
    }
}

} // verus!
