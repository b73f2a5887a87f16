//! The order book: two sides, each a list of price levels in rising order
//! of price key, each level a queue of resting orders in order of arrival.
use vstd::prelude::*;
use crate::origin::Origin;

verus! {

/// A resting order.
#[derive(Clone, Copy, Debug, PartialEq, Eq, Structural)]
pub struct BookEntry {
    pub client: Origin,
    pub amount: u64,
    pub id: i64,
    pub cycles_present: u64,
}

/// The orders resting at one price key, oldest first.
#[derive(Debug)]
pub struct Level {
    pub price: i64,
    pub entries: Vec<BookEntry>,
}

/// A level as a mathematical value.
pub struct LevelView {
    pub price: i64,
    pub entries: Seq<BookEntry>,
}

impl View for Level {
    type V = LevelView;

    open spec fn view(&self) -> LevelView {
        LevelView { price: self.price, entries: self.entries@ }
    }
}

/// No order of the queue has anything left to fill.
pub open spec fn spent(queue: Seq<BookEntry>) -> bool {
    forall|j: int| 0 <= j < queue.len() ==> (#[trigger] queue[j]).amount == 0
}

/// One side of the book as a mathematical value.
pub open spec fn side_view(levels: Seq<Level>) -> Seq<LevelView> {
    Seq::new(levels.len(), |i: int| levels[i]@)
}

/// Price keys rise strictly along the side, so each occurs once.
pub open spec fn rising(side: Seq<LevelView>) -> bool {
    forall|i: int, j: int| 0 <= i < j < side.len() ==> (#[trigger] side[i]).price < (#[trigger] side[j]).price
}

#[derive(Debug)]
pub struct OrderBook {
    pub bids: Vec<Level>,
    pub asks: Vec<Level>,
    pub inc_id: i64,
}

/// The book as a mathematical value. The best bid is the last level of
/// `bids`, the best ask the first level of `asks`.
pub struct BookView {
    pub bids: Seq<LevelView>,
    pub asks: Seq<LevelView>,
    pub inc_id: i64,
}

impl View for OrderBook {
    type V = BookView;

    open spec fn view(&self) -> BookView {
        BookView { bids: side_view(self.bids@), asks: side_view(self.asks@), inc_id: self.inc_id }
    }
}

impl BookView {
    /// No price key stands on both sides.
    pub open spec fn parted(self) -> bool {
        forall|i: int, k: int|
            0 <= i < self.bids.len() && 0 <= k < self.asks.len() ==> (#[trigger] self.bids[i]).price != (
            #[trigger] self.asks[k]).price
    }

    /// Both sides are in rising order of price key, and the sequence
    /// counter has not gone below zero.
    pub open spec fn wf(self) -> bool {
        rising(self.bids) && rising(self.asks) && 0 <= self.inc_id
    }
}

impl OrderBook {
    pub open spec fn wf(&self) -> bool {
        self@.wf()
    }

    pub fn new() -> (book: OrderBook)
        ensures
            book@ == (BookView { bids: Seq::empty(), asks: Seq::empty(), inc_id: 0 }),
            book.wf(),
    {
        let book = OrderBook { bids: Vec::new(), asks: Vec::new(), inc_id: 0 };
        assert(book@.bids =~= Seq::empty());
        assert(book@.asks =~= Seq::empty());
        book
    }
}

} // verus!
