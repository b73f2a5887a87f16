//! Cancelling a resting order by its identifier.
use vstd::prelude::*;
use crate::book::{rising, side_view, BookEntry, BookView, Level, LevelView, OrderBook};
use crate::ident::{level_of, level_of_id};
use crate::matching::with_queue;
use crate::notice::{Notice, Outbound};
use crate::order::CancleOrder;
use crate::origin::Origin;

verus! {

/// Whether the side holds, under `price`, an order with this identifier
/// that `who` owns.
pub open spec fn holds(side: Seq<LevelView>, price: i64, id: i64, who: Origin) -> bool {
    exists|i: int, j: int|
        0 <= i < side.len() && 0 <= j < side[i].entries.len() && side[i].price == price
            && (#[trigger] side[i].entries[j]).id == id && side[i].entries[j].client == who
}

/// The first level at or after `from` with the price key `price`, or the
/// length of the side if there is none.
pub open spec fn first_level(side: Seq<LevelView>, price: i64, from: int) -> int
    decreases side.len() - from,
{
    if from < 0 || from >= side.len() || side[from].price == price {
        from
    } else {
        first_level(side, price, from + 1)
    }
}

/// The first order at or after `from` with this identifier that `who` owns,
/// or the length of the queue if there is none.
pub open spec fn first_match(queue: Seq<BookEntry>, id: i64, who: Origin, from: int) -> int
    decreases queue.len() - from,
{
    if from < 0 || from >= queue.len() || (queue[from].id == id && queue[from].client == who) {
        from
    } else {
        first_match(queue, id, who, from + 1)
    }
}

/// The side without the oldest order under `price` that has this identifier
/// and owner. The level stays, even if its queue is left empty.
pub open spec fn without(side: Seq<LevelView>, price: i64, id: i64, who: Origin) -> Seq<LevelView> {
    let i = first_level(side, price, 0);
    with_queue(side, i, side[i].entries.remove(first_match(side[i].entries, id, who, 0)))
}

/// Takes the oldest order with this identifier and owner out of the level
/// with the price key `price`, if the side has one.
pub fn withdraw(levels: &mut Vec<Level>, price: i64, id: i64, who: Origin) -> (found: bool)
    requires
        rising(side_view(old(levels)@)),
    ensures
        found == holds(side_view(old(levels)@), price, id, who),
        found ==> side_view(final(levels)@) == without(side_view(old(levels)@), price, id, who),
        !found ==> side_view(final(levels)@) == side_view(old(levels)@),
        rising(side_view(final(levels)@)),
{
    let ghost side = side_view(levels@);
    let mut k: usize = 0;
    while k < levels.len() && levels[k].price != price
        invariant
            k <= levels@.len(),
            side == side_view(levels@),
            first_level(side, price, k as int) == first_level(side, price, 0),
            forall|i: int| 0 <= i < k ==> (#[trigger] side[i]).price != price,
        decreases levels@.len() - k,
    {
        k += 1;
    }
    if k >= levels.len() {
        return false;
    }
    assert forall|i: int| 0 <= i < side.len() && i != k implies (#[trigger] side[i]).price != price by {
        if i > k {
            assert(side[k as int].price < side[i].price);
        }
    }
    let ghost queue = side[k as int].entries;
    let mut j: usize = 0;
    while j < levels[k].entries.len() && !(levels[k].entries[j].id == id && levels[k].entries[j].client == who)
        invariant
            k < levels@.len(),
            side == side_view(levels@),
            queue == side[k as int].entries,
            j <= queue.len(),
            first_match(queue, id, who, j as int) == first_match(queue, id, who, 0),
            forall|i: int| 0 <= i < j ==> !((#[trigger] queue[i]).id == id && queue[i].client == who),
        decreases queue.len() - j,
    {
        j += 1;
    }
    if j >= levels[k].entries.len() {
        assert forall|a: int, b: int|
            0 <= a < side.len() && 0 <= b < side[a].entries.len() && side[a].price == price implies !((
        #[trigger] side[a].entries[b]).id == id && side[a].entries[b].client == who) by {
            assert(a == k);
            assert(!(queue[b].id == id && queue[b].client == who));
        }
        return false;
    }
    assert(side[k as int].entries[j as int].id == id);
    levels[k].entries.remove(j);
    assert(side_view(levels@) =~= without(side, price, id, who));
    assert forall|a: int, b: int| 0 <= a < b < levels@.len() implies (#[trigger] side_view(levels@)[a]).price < (
    #[trigger] side_view(levels@)[b]).price by {
        assert(side[a].price < side[b].price);
    }
    true
}

/// Whether the book holds an order with this identifier that `who` owns, at
/// the price key that the identifier names.
pub open spec fn on_book(book: BookView, id: i64, who: Origin) -> bool {
    holds(book.bids, level_of_id(id), id, who) || holds(book.asks, level_of_id(id), id, who)
}

/// The book after such an order was taken out: from the bids if they hold
/// one, else from the asks.
pub open spec fn cancelled(book: BookView, id: i64, who: Origin) -> BookView {
    if holds(book.bids, level_of_id(id), id, who) {
        BookView { bids: without(book.bids, level_of_id(id), id, who), asks: book.asks, inc_id: book.inc_id }
    } else {
        BookView { bids: book.bids, asks: without(book.asks, level_of_id(id), id, who), inc_id: book.inc_id }
    }
}

impl OrderBook {
    /// Cancels the order that `cncl` names if `ordering_client` owns it,
    /// and tells the owner.
    pub fn do_cncl(&mut self, out: &mut Vec<Outbound>, ordering_client: Origin, cncl: CancleOrder) -> (res: Result<
        (),
        (),
    >)
        requires
            old(self).wf(),
        ensures
            final(self).wf(),
            res is Ok <==> on_book(old(self)@, cncl.order_id, ordering_client),
            res is Ok ==> final(self)@ == cancelled(old(self)@, cncl.order_id, ordering_client) && final(out)@ == old(
                out,
            )@.push(Outbound { to: ordering_client, what: Notice::Cancelled }),
            res is Err ==> final(self)@ == old(self)@ && final(out)@ == old(out)@,
    {
        let price = level_of(cncl.order_id);
        if withdraw(&mut self.bids, price, cncl.order_id, ordering_client) {
            out.push(Outbound { to: ordering_client, what: Notice::Cancelled });
            return Ok(());
        }
        if withdraw(&mut self.asks, price, cncl.order_id, ordering_client) {
            out.push(Outbound { to: ordering_client, what: Notice::Cancelled });
            return Ok(());
        }
        Err(())
    }
}

} // verus!
