//! The book snapshot of an administrative cycle: for the best levels of
//! each side the price and the quantity at rest, and one more cycle on the
//! age of every resting order.
use vstd::prelude::*;
use crate::book::{side_view, BookEntry, BookView, Level, LevelView, OrderBook};
use crate::bytes::{le_bytes, write_u64};
use crate::double::{bits_of, price_bits};
use crate::money::clamp_u64;

verus! {

/// How many levels of a side a snapshot shows.
pub const DEPTH: usize = 127;

/// The bytes of a snapshot frame.
pub const FRAME_LEN: usize = 4096;

/// Where the second half of a snapshot frame begins.
pub const HALF: usize = 2048;

/// Opens the half of the bids.
pub const MARK_BIDS: u8 = 0xc1;

/// Opens the half of the asks.
pub const MARK_ASKS: u8 = 0xc2;

/// One level of a snapshot: its price key and the quantity at rest there.
#[derive(Clone, Copy, Debug, PartialEq, Eq, Structural)]
pub struct Quote {
    pub price: i64,
    pub volume: u64,
}

/// The quantity at rest in a queue.
pub open spec fn total(queue: Seq<BookEntry>) -> int
    decreases queue.len(),
{
    if queue.len() == 0 {
        0
    } else {
        total(queue.drop_last()) + queue.last().amount
    }
}

/// What a snapshot shows of a level. The quantity saturates.
pub open spec fn quote_of(level: LevelView) -> Quote {
    Quote { price: level.price, volume: clamp_u64(total(level.entries)) }
}

/// How many levels a snapshot shows of a side.
pub open spec fn shown(side: Seq<LevelView>) -> nat {
    if side.len() < DEPTH {
        side.len()
    } else {
        DEPTH as nat
    }
}

/// The best bids, highest price key first.
pub open spec fn best_bids(side: Seq<LevelView>) -> Seq<Quote> {
    Seq::new(shown(side), |k: int| quote_of(side[side.len() - 1 - k]))
}

/// The best asks, lowest price key first.
pub open spec fn best_asks(side: Seq<LevelView>) -> Seq<Quote> {
    Seq::new(shown(side), |k: int| quote_of(side[k]))
}

/// The order one cycle older. The age saturates.
pub open spec fn aged(e: BookEntry) -> BookEntry {
    BookEntry { client: e.client, amount: e.amount, id: e.id, cycles_present: clamp_u64(e.cycles_present + 1) }
}

/// The level with every order one cycle older.
pub open spec fn aged_level(level: LevelView) -> LevelView {
    LevelView { price: level.price, entries: Seq::new(level.entries.len(), |j: int| aged(level.entries[j])) }
}

/// The side with every order one cycle older.
pub open spec fn aged_side(side: Seq<LevelView>) -> Seq<LevelView> {
    Seq::new(side.len(), |i: int| aged_level(side[i]))
}

/// The quantity at rest in a queue.
pub fn volume(entries: &Vec<BookEntry>) -> (v: u64)
    ensures
        v == clamp_u64(total(entries@)),
{
    let mut v: u64 = 0;
    let mut i: usize = 0;
    assert(entries@.take(0) =~= Seq::empty());
    while i < entries.len()
        invariant
            i <= entries@.len(),
            0 <= total(entries@.take(i as int)),
            v == clamp_u64(total(entries@.take(i as int))),
        decreases entries@.len() - i,
    {
        assert(entries@.take(i + 1).drop_last() =~= entries@.take(i as int));
        assert(entries@.take(i + 1).last() == entries@[i as int]);
        v = match v.checked_add(entries[i].amount) {
            Some(sum) => sum,
            None => u64::MAX,
        };
        i += 1;
    }
    assert(entries@.take(i as int) =~= entries@);
    v
}

/// The best bids of a side, highest price key first.
pub fn quote_bids(levels: &Vec<Level>) -> (quotes: Vec<Quote>)
    ensures
        quotes@ == best_bids(side_view(levels@)),
{
    let ghost side = side_view(levels@);
    let n = levels.len();
    let mut quotes: Vec<Quote> = Vec::new();
    let mut k: usize = 0;
    while k < n && k < DEPTH
        invariant
            n == levels@.len(),
            side == side_view(levels@),
            k <= shown(side),
            quotes@.len() == k,
            forall|j: int| 0 <= j < k ==> (#[trigger] quotes@[j]) == quote_of(side[n - 1 - j]),
        decreases n - k,
    {
        let level = &levels[n - 1 - k];
        quotes.push(Quote { price: level.price, volume: volume(&level.entries) });
        k += 1;
    }
    assert(quotes@ =~= best_bids(side));
    quotes
}

/// The best asks of a side, lowest price key first.
pub fn quote_asks(levels: &Vec<Level>) -> (quotes: Vec<Quote>)
    ensures
        quotes@ == best_asks(side_view(levels@)),
{
    let ghost side = side_view(levels@);
    let n = levels.len();
    let mut quotes: Vec<Quote> = Vec::new();
    let mut k: usize = 0;
    while k < n && k < DEPTH
        invariant
            n == levels@.len(),
            side == side_view(levels@),
            k <= shown(side),
            quotes@.len() == k,
            forall|j: int| 0 <= j < k ==> (#[trigger] quotes@[j]) == quote_of(side[j]),
        decreases n - k,
    {
        let level = &levels[k];
        quotes.push(Quote { price: level.price, volume: volume(&level.entries) });
        k += 1;
    }
    assert(quotes@ =~= best_asks(side));
    quotes
}

/// Makes every order of a queue one cycle older.
pub fn age_queue(entries: &mut Vec<BookEntry>)
    ensures
        final(entries)@ == Seq::new(old(entries)@.len(), |j: int| aged(old(entries)@[j])),
{
    let mut j: usize = 0;
    while j < entries.len()
        invariant
            j <= entries@.len(),
            entries@.len() == old(entries)@.len(),
            forall|k: int| 0 <= k < j ==> (#[trigger] entries@[k]) == aged(old(entries)@[k]),
            forall|k: int| j <= k < entries@.len() ==> (#[trigger] entries@[k]) == old(entries)@[k],
        decreases entries@.len() - j,
    {
        let age = entries[j].cycles_present;
        entries[j].cycles_present = if age == u64::MAX {
            u64::MAX
        } else {
            age + 1
        };
        j += 1;
    }
    assert(entries@ =~= Seq::new(old(entries)@.len(), |j: int| aged(old(entries)@[j])));
}

/// Makes every order of a side one cycle older.
pub fn age_side(levels: &mut Vec<Level>)
    ensures
        side_view(final(levels)@) == aged_side(side_view(old(levels)@)),
{
    let ghost side = side_view(levels@);
    let mut i: usize = 0;
    while i < levels.len()
        invariant
            i <= levels@.len(),
            levels@.len() == side.len(),
            forall|k: int| 0 <= k < i ==> (#[trigger] side_view(levels@)[k]) == aged_level(side[k]),
            forall|k: int| i <= k < levels@.len() ==> (#[trigger] side_view(levels@)[k]) == side[k],
        decreases levels@.len() - i,
    {
        let ghost before = side_view(levels@);
        age_queue(&mut levels[i].entries);
        assert forall|k: int| 0 <= k < i + 1 implies (#[trigger] side_view(levels@)[k]) == aged_level(side[k]) by {
            if k < i {
                assert(side_view(levels@)[k] == before[k]);
            } else {
                assert(before[k] == side[k]);
                assert(side_view(levels@)[k].entries =~= aged_level(side[k]).entries);
            }
        }
        assert forall|k: int| i + 1 <= k < levels@.len() implies (#[trigger] side_view(levels@)[k]) == side[k] by {
            assert(side_view(levels@)[k] == before[k]);
        }
        i += 1;
    }
    assert(side_view(levels@) =~= aged_side(side));
}

impl BookView {
    /// The book with every resting order one cycle older.
    pub open spec fn aged(self) -> BookView {
        BookView { bids: aged_side(self.bids), asks: aged_side(self.asks), inc_id: self.inc_id }
    }
}

impl OrderBook {
    /// Takes the snapshot of the book, best bids first and best asks second,
    /// and makes every resting order one cycle older.
    pub fn snapshot(&mut self) -> (quotes: (Vec<Quote>, Vec<Quote>))
        requires
            old(self).wf(),
        ensures
            final(self).wf(),
            final(self)@ == old(self)@.aged(),
            quotes.0@ == best_bids(old(self)@.bids),
            quotes.1@ == best_asks(old(self)@.asks),
    {
        let bids = quote_bids(&self.bids);
        let asks = quote_asks(&self.asks);
        age_side(&mut self.bids);
        age_side(&mut self.asks);
        (bids, asks)
    }
}

/// Byte `j` of a slot of sixteen: the first field, then the second, each
/// lowest byte first.
pub open spec fn slot_byte(first: u64, second: u64, j: int) -> u8 {
    if j < 8 {
        le_bytes(first)[j]
    } else {
        le_bytes(second)[j - 8]
    }
}

/// Byte `i` of a snapshot frame. Each half opens with its mark and goes on
/// with the slots of its side, one for a level; what the slots leave is zero.
/// A bid slot holds the price in whole units, a double, and the quantity; an
/// ask slot holds the price in both fields.
pub open spec fn book_byte(bids: Seq<Quote>, asks: Seq<Quote>, i: int) -> u8 {
    if i == 0 {
        MARK_BIDS
    } else if i == HALF {
        MARK_ASKS
    } else if i < HALF {
        let k = (i - 1) / 16;
        if k < DEPTH && k < bids.len() {
            slot_byte(bits_of(bids[k].price as int), bids[k].volume, (i - 1) % 16)
        } else {
            0
        }
    } else {
        let k = (i - HALF - 1) / 16;
        if k < DEPTH && k < asks.len() {
            slot_byte(bits_of(asks[k].price as int), bits_of(asks[k].price as int), (i - HALF - 1) % 16)
        } else {
            0
        }
    }
}

/// The snapshot frame of these levels.
pub open spec fn book_frame(bids: Seq<Quote>, asks: Seq<Quote>) -> Seq<u8> {
    Seq::new(FRAME_LEN as nat, |i: int| book_byte(bids, asks, i))
}

fn byte_of_slot(first: u64, second: u64, j: usize) -> (b: u8)
    requires
        j < 16,
    ensures
        b == slot_byte(first, second, j as int),
{
    if j < 8 {
        write_u64(first)[j]
    } else {
        write_u64(second)[j - 8]
    }
}

/// Encodes a book snapshot.
pub fn encode_book(bids: &Vec<Quote>, asks: &Vec<Quote>) -> (frame: Vec<u8>)
    ensures
        frame@ == book_frame(bids@, asks@),
{
    let mut frame: Vec<u8> = Vec::new();
    let mut i: usize = 0;
    while i < FRAME_LEN
        invariant
            i <= FRAME_LEN,
            frame@.len() == i,
            forall|j: int| 0 <= j < i ==> (#[trigger] frame@[j]) == book_byte(bids@, asks@, j),
        decreases FRAME_LEN - i,
    {
        let b: u8 = if i == 0 {
            MARK_BIDS
        } else if i == HALF {
            MARK_ASKS
        } else if i < HALF {
            let k = (i - 1) / 16;
            if k < DEPTH && k < bids.len() {
                byte_of_slot(price_bits(bids[k].price), bids[k].volume, (i - 1) % 16)
            } else {
                0
            }
        } else {
            let k = (i - HALF - 1) / 16;
            if k < DEPTH && k < asks.len() {
                let price = price_bits(asks[k].price);
                byte_of_slot(price, price, (i - HALF - 1) % 16)
            } else {
                0
            }
        };
        frame.push(b);
        i += 1;
    }
    assert(frame@ =~= book_frame(bids@, asks@));
    frame
}

} // verus!
