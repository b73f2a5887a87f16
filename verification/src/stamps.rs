//! Identifiers on the book: every resting order carries the price key of
//! its level and a sequence number of its own, so that no two orders share an
//! identifier and a cancel finds its order under the price key it names. This
//! holds as long as price keys and the sequence counter stay within what an
//! identifier has room for.
use vstd::prelude::*;
use crate::account::Client;
use crate::book::{rising, BookEntry, BookView, LevelView};
use crate::cancel::{cancelled, first_level, first_match, holds, on_book, without};
use crate::hidden::{hidden_buy, hidden_outcome, hidden_sell};
use crate::ident::{lemma_id_parts, level_of_id, mint_id, seq_of_id, KEY_LIMIT, SEQ_LIMIT};
use crate::compact::{compacted, live_in, occupied, purge_in, purged};
use crate::double::key_of;
use crate::engine::{cycled, served};
use crate::evict::{farewells, staying};
use crate::laws::{lemma_cancel_takes_the_order, lemma_first_level, lemma_slot};
use crate::limit::{limit_outcome, rest, slot};
use crate::market::{market_buy, market_outcome, market_sell};
use crate::matching::{walk_down, walk_queue, walk_up, with_queue, FillRule, Tape};
use crate::money::magnitude;
use crate::notice::Outbound;
use crate::order::Order;
use crate::origin::Origin;
use crate::priority::{lemma_walk_queue_priority, worn};
use crate::snapshot::aged_side;
use crate::sweep::{cross_fill, cross_level, sweep_from, Cross, Swept};

verus! {

/// An identifier is its price key times 2^24 plus its sequence number, and
/// the sequence number is below 2^24.
pub proof fn lemma_id_split(id: i64)
    ensures
        id == level_of_id(id) * SEQ_LIMIT + seq_of_id(id),
        0 <= seq_of_id(id) < SEQ_LIMIT,
{
    assert(id == (id >> 24u32) * 0x100_0000 + (id & 0xff_ffff)) by (bit_vector);
    assert(0 <= (id & 0xff_ffff) < 0x100_0000) by (bit_vector);
}

/// Identifiers rise along the queue.
pub open spec fn ascending(queue: Seq<BookEntry>) -> bool {
    forall|a: int, b: int| 0 <= a < b < queue.len() ==> (#[trigger] queue[a]).id < (#[trigger] queue[b]).id
}

/// The order was stamped for the price key `price` with a sequence number
/// below `next`.
pub open spec fn stamped(e: BookEntry, price: i64, next: i64) -> bool {
    level_of_id(e.id) == price && seq_of_id(e.id) < next
}

/// Every order of the level was stamped for it, each later than the one
/// before.
pub open spec fn level_stamped(level: LevelView, next: i64) -> bool {
    &&& ascending(level.entries)
    &&& forall|j: int| 0 <= j < level.entries.len() ==> stamped(#[trigger] level.entries[j], level.price, next)
}

/// Every level of the side is stamped.
pub open spec fn side_stamped(side: Seq<LevelView>, next: i64) -> bool {
    forall|i: int| 0 <= i < side.len() ==> level_stamped(#[trigger] side[i], next)
}

/// No bid has the identifier of an ask.
pub open spec fn apart(bids: Seq<LevelView>, asks: Seq<LevelView>) -> bool {
    forall|i: int, j: int, k: int, l: int|
        0 <= i < bids.len() && 0 <= j < bids[i].entries.len() && 0 <= k < asks.len() && 0 <= l < asks[k].entries.len()
            ==> (#[trigger] bids[i].entries[j]).id != (#[trigger] asks[k].entries[l]).id
}

impl BookView {
    /// Every resting order was stamped for its level with a sequence number
    /// that the counter has passed, and no two share an identifier.
    pub open spec fn stamped(self) -> bool {
        &&& side_stamped(self.bids, self.inc_id)
        &&& side_stamped(self.asks, self.inc_id)
        &&& apart(self.bids, self.asks)
    }
}

/// A book without an order is stamped.
pub proof fn lemma_empty_stamped(inc_id: i64)
    ensures
        (BookView { bids: Seq::empty(), asks: Seq::empty(), inc_id }).stamped(),
{
}

/// On a stamped side in rising order, two orders in different places have
/// different identifiers.
pub proof fn lemma_stamps_differ(side: Seq<LevelView>, next: i64, i: int, j: int, k: int, l: int)
    requires
        rising(side),
        side_stamped(side, next),
        0 <= i < side.len(),
        0 <= j < side[i].entries.len(),
        0 <= k < side.len(),
        0 <= l < side[k].entries.len(),
        i != k || j != l,
    ensures
        side[i].entries[j].id != side[k].entries[l].id,
{
    assert(level_stamped(side[i], next));
    assert(level_stamped(side[k], next));
    if i < k {
        assert(side[i].price < side[k].price);
    } else if k < i {
        assert(side[k].price < side[i].price);
    } else if j < l {
        assert(side[i].entries[j].id < side[i].entries[l].id);
    } else {
        assert(side[i].entries[l].id < side[i].entries[j].id);
    }
}

/// A stamped side stays stamped when the counter moves on.
pub proof fn lemma_stamped_later(side: Seq<LevelView>, next: i64, later: i64)
    requires
        side_stamped(side, next),
        next <= later,
    ensures
        side_stamped(side, later),
{
    assert forall|i: int| 0 <= i < side.len() implies level_stamped(#[trigger] side[i], later) by {
        assert(level_stamped(side[i], next));
    }
}

/// A new order, stamped with the counter, differs from every order that was
/// stamped before.
pub proof fn lemma_fresh_stamp(side: Seq<LevelView>, price: i64, next: i64, i: int, j: int)
    requires
        side_stamped(side, next),
        -KEY_LIMIT <= price < KEY_LIMIT,
        0 <= next < SEQ_LIMIT,
        0 <= i < side.len(),
        0 <= j < side[i].entries.len(),
    ensures
        side[i].entries[j].id != mint_id(price, next),
{
    lemma_id_parts(price, next);
    assert(level_stamped(side[i], next));
}

/// A stamped side in rising order stays stamped when an order, stamped with
/// the counter for its price key, is put to rest and the counter moves on.
pub proof fn lemma_rest_stamped(side: Seq<LevelView>, price: i64, e: BookEntry, next: i64)
    requires
        rising(side),
        side_stamped(side, next),
        -KEY_LIMIT <= price < KEY_LIMIT,
        0 <= next < SEQ_LIMIT,
        e.id == mint_id(price, next),
    ensures
        side_stamped(rest(side, price, e), (next + 1) as i64),
{
    lemma_slot(side, price, 0);
    lemma_id_parts(price, next);
    lemma_stamped_later(side, next, (next + 1) as i64);
    let k = slot(side, price, 0);
    let after = rest(side, price, e);
    let later = (next + 1) as i64;
    assert forall|i: int| 0 <= i < after.len() implies level_stamped(#[trigger] after[i], later) by {
        if k < side.len() && side[k].price == price {
            assert(level_stamped(side[i], later));
            if i == k {
                let queue = side[k].entries;
                assert(level_stamped(side[k], next));
                assert forall|a: int, b: int| 0 <= a < b < after[i].entries.len() implies (
                #[trigger] after[i].entries[a]).id < (#[trigger] after[i].entries[b]).id by {
                    if b == queue.len() {
                        assert(stamped(queue[a], price, next));
                        lemma_id_split(queue[a].id);
                        lemma_id_split(e.id);
                    } else {
                        assert(queue[a].id < queue[b].id);
                    }
                }
                assert forall|j: int| 0 <= j < after[i].entries.len() implies stamped(
                    #[trigger] after[i].entries[j],
                    price,
                    later,
                ) by {
                    if j < queue.len() {
                        assert(stamped(queue[j], price, later));
                    }
                }
            }
        } else {
            if i < k {
                assert(level_stamped(side[i], later));
            } else if i > k {
                assert(level_stamped(side[i - 1], later));
            }
        }
    }
}

/// Two sides agree level by level on the price key and order by order on
/// the identifier.
pub open spec fn same_ids(before: Seq<LevelView>, after: Seq<LevelView>) -> bool {
    &&& after.len() == before.len()
    &&& forall|i: int|
        0 <= i < before.len() ==> (#[trigger] after[i]).price == before[i].price && after[i].entries.len()
            == before[i].entries.len()
    &&& forall|i: int, j: int|
        0 <= i < before.len() && 0 <= j < before[i].entries.len() ==> (#[trigger] after[i].entries[j]).id
            == before[i].entries[j].id
}

/// Sides that agree on every identifier are stamped alike.
pub proof fn lemma_same_ids_stamped(before: Seq<LevelView>, after: Seq<LevelView>, next: i64)
    requires
        side_stamped(before, next),
        same_ids(before, after),
    ensures
        side_stamped(after, next),
{
    assert forall|i: int| 0 <= i < after.len() implies level_stamped(#[trigger] after[i], next) by {
        assert(level_stamped(before[i], next));
        assert forall|a: int, b: int| 0 <= a < b < after[i].entries.len() implies (#[trigger] after[i].entries[a]).id
            < (#[trigger] after[i].entries[b]).id by {
            assert(before[i].entries[a].id < before[i].entries[b].id);
        }
        assert forall|j: int| 0 <= j < after[i].entries.len() implies stamped(
            #[trigger] after[i].entries[j],
            after[i].price,
            next,
        ) by {
            assert(stamped(before[i].entries[j], before[i].price, next));
        }
    }
}

/// Sides that agree on every identifier are apart alike.
pub proof fn lemma_same_ids_apart(
    bids: Seq<LevelView>,
    asks: Seq<LevelView>,
    bids_after: Seq<LevelView>,
    asks_after: Seq<LevelView>,
)
    requires
        apart(bids, asks),
        same_ids(bids, bids_after),
        same_ids(asks, asks_after),
    ensures
        apart(bids_after, asks_after),
{
    assert forall|i: int, j: int, k: int, l: int|
        0 <= i < bids_after.len() && 0 <= j < bids_after[i].entries.len() && 0 <= k < asks_after.len() && 0 <= l
            < asks_after[k].entries.len() implies (#[trigger] bids_after[i].entries[j]).id != (
    #[trigger] asks_after[k].entries[l]).id by {
        assert(bids_after[i].entries.len() == bids[i].entries.len());
        assert(asks_after[k].entries.len() == asks[k].entries.len());
        assert(bids[i].entries[j].id != asks[k].entries[l].id);
    }
}

/// Agreement on identifiers carries over from one side to the next.
pub proof fn lemma_same_ids_chain(a: Seq<LevelView>, b: Seq<LevelView>, c: Seq<LevelView>)
    requires
        same_ids(a, b),
        same_ids(b, c),
    ensures
        same_ids(a, c),
{
    assert forall|i: int| 0 <= i < a.len() implies (#[trigger] c[i]).price == a[i].price && c[i].entries.len()
        == a[i].entries.len() by {
        assert(b[i].price == a[i].price);
    }
    assert forall|i: int, j: int| 0 <= i < a.len() && 0 <= j < a[i].entries.len() implies (
    #[trigger] c[i].entries[j]).id == a[i].entries[j].id by {
        assert(b[i].entries.len() == a[i].entries.len());
        assert(b[i].entries[j].id == a[i].entries[j].id);
    }
}

/// A side with one queue replaced by one of the same identifiers agrees
/// with the side on every identifier.
pub proof fn lemma_with_queue_same_ids(side: Seq<LevelView>, i: int, queue: Seq<BookEntry>)
    requires
        0 <= i < side.len(),
        queue.len() == side[i].entries.len(),
        forall|j: int| 0 <= j < queue.len() ==> (#[trigger] queue[j]).id == side[i].entries[j].id,
    ensures
        same_ids(side, with_queue(side, i, queue)),
{
}

/// A walk down leaves every identifier in its place.
pub proof fn lemma_walk_down_same_ids(rule: FillRule, taker: Origin, side: Seq<LevelView>, n: int, t: Tape)
    requires
        0 <= n <= side.len(),
    ensures
        same_ids(side, walk_down(rule, taker, side, n, t).0),
    decreases n,
{
    if !(n <= 0 || t.done) {
        let level = side[n - 1];
        let (queue, tape) = walk_queue(rule, taker, level.price, level.entries, 0, t);
        lemma_walk_queue_priority(rule, taker, level.price, level.entries, 0, t);
        assert forall|j: int| 0 <= j < queue.len() implies (#[trigger] queue[j]).id == level.entries[j].id by {
            assert(worn(level.entries[j], queue[j]));
        }
        let next = with_queue(side, n - 1, queue);
        lemma_with_queue_same_ids(side, n - 1, queue);
        lemma_walk_down_same_ids(rule, taker, next, n - 1, tape);
        lemma_same_ids_chain(side, next, walk_down(rule, taker, side, n, t).0);
    }
}

/// A walk up leaves every identifier in its place.
pub proof fn lemma_walk_up_same_ids(rule: FillRule, taker: Origin, side: Seq<LevelView>, i: int, t: Tape)
    requires
        0 <= i <= side.len(),
    ensures
        same_ids(side, walk_up(rule, taker, side, i, t).0),
    decreases side.len() - i,
{
    if !(i >= side.len() || t.done) {
        let level = side[i];
        let (queue, tape) = walk_queue(rule, taker, level.price, level.entries, 0, t);
        lemma_walk_queue_priority(rule, taker, level.price, level.entries, 0, t);
        assert forall|j: int| 0 <= j < queue.len() implies (#[trigger] queue[j]).id == level.entries[j].id by {
            assert(worn(level.entries[j], queue[j]));
        }
        let next = with_queue(side, i, queue);
        lemma_with_queue_same_ids(side, i, queue);
        lemma_walk_up_same_ids(rule, taker, next, i + 1, tape);
        lemma_same_ids_chain(side, next, walk_up(rule, taker, side, i, t).0);
    }
}

/// A side agrees with itself.
pub proof fn lemma_same_ids_self(side: Seq<LevelView>)
    ensures
        same_ids(side, side),
{
}

/// A market order leaves a stamped book stamped.
pub proof fn lemma_market_keeps_stamps(
    book: BookView,
    clients: Seq<Client>,
    out: Seq<Outbound>,
    who: Origin,
    amount: i64,
)
    requires
        book.stamped(),
    ensures
        market_outcome(book, clients, out, who, amount).book.stamped(),
{
    let after = market_outcome(book, clients, out, who, amount).book;
    let start = Tape::start(clients, out, magnitude(amount));
    lemma_walk_down_same_ids(market_sell(), who, book.bids, book.bids.len() as int, start);
    lemma_walk_up_same_ids(market_buy(), who, book.asks, 0, start);
    lemma_same_ids_self(book.bids);
    lemma_same_ids_self(book.asks);
    assert(same_ids(book.bids, after.bids));
    assert(same_ids(book.asks, after.asks));
    lemma_same_ids_stamped(book.bids, after.bids, book.inc_id);
    lemma_same_ids_stamped(book.asks, after.asks, book.inc_id);
    lemma_same_ids_apart(book.bids, book.asks, after.bids, after.asks);
}

/// A hidden order leaves a stamped book stamped.
pub proof fn lemma_hidden_keeps_stamps(
    book: BookView,
    clients: Seq<Client>,
    out: Seq<Outbound>,
    who: Origin,
    amount: i64,
)
    requires
        book.stamped(),
    ensures
        hidden_outcome(book, clients, out, who, amount).book.stamped(),
{
    let after = hidden_outcome(book, clients, out, who, amount).book;
    let start = Tape::start(clients, out, magnitude(amount));
    lemma_walk_down_same_ids(hidden_sell(), who, book.bids, book.bids.len() as int, start);
    lemma_walk_up_same_ids(hidden_buy(), who, book.asks, 0, start);
    lemma_same_ids_self(book.bids);
    lemma_same_ids_self(book.asks);
    assert(same_ids(book.bids, after.bids));
    assert(same_ids(book.asks, after.asks));
    lemma_same_ids_stamped(book.bids, after.bids, book.inc_id);
    lemma_same_ids_stamped(book.asks, after.asks, book.inc_id);
    lemma_same_ids_apart(book.bids, book.asks, after.bids, after.asks);
}

/// Every identifier on the one side is on the other.
pub open spec fn within(after: Seq<LevelView>, before: Seq<LevelView>) -> bool {
    forall|i: int, j: int|
        0 <= i < after.len() && 0 <= j < after[i].entries.len() ==> on_side(before, (#[trigger] after[i].entries[j]).id)
}

/// Some order of the side has this identifier.
pub open spec fn on_side(side: Seq<LevelView>, id: i64) -> bool {
    exists|a: int, b: int|
        0 <= a < side.len() && 0 <= b < side[a].entries.len() && (#[trigger] side[a].entries[b]).id == id
}

/// Sides that hold no identifiers but those of two sides apart are apart.
pub proof fn lemma_within_apart(
    bids: Seq<LevelView>,
    asks: Seq<LevelView>,
    bids_after: Seq<LevelView>,
    asks_after: Seq<LevelView>,
)
    requires
        apart(bids, asks),
        within(bids_after, bids),
        within(asks_after, asks),
    ensures
        apart(bids_after, asks_after),
{
    assert forall|i: int, j: int, k: int, l: int|
        0 <= i < bids_after.len() && 0 <= j < bids_after[i].entries.len() && 0 <= k < asks_after.len() && 0 <= l
            < asks_after[k].entries.len() implies (#[trigger] bids_after[i].entries[j]).id != (
    #[trigger] asks_after[k].entries[l]).id by {
        assert(on_side(bids, bids_after[i].entries[j].id));
        assert(on_side(asks, asks_after[k].entries[l].id));
        let (a, b) = choose|a: int, b: int|
            0 <= a < bids.len() && 0 <= b < bids[a].entries.len() && (#[trigger] bids[a].entries[b]).id
                == bids_after[i].entries[j].id;
        let (c, d) = choose|c: int, d: int|
            0 <= c < asks.len() && 0 <= d < asks[c].entries.len() && (#[trigger] asks[c].entries[d]).id
                == asks_after[k].entries[l].id;
        assert(bids[a].entries[b].id != asks[c].entries[d].id);
    }
}

/// A side is within itself.
pub proof fn lemma_within_self(side: Seq<LevelView>)
    ensures
        within(side, side),
{
    assert forall|i: int, j: int| 0 <= i < side.len() && 0 <= j < side[i].entries.len() implies on_side(
        side,
        (#[trigger] side[i].entries[j]).id,
    ) by {
        assert(side[i].entries[j].id == side[i].entries[j].id);
    }
}

/// A limit order within the limits of an identifier leaves a stamped book
/// stamped.
pub proof fn lemma_limit_keeps_stamps(
    book: BookView,
    clients: Seq<Client>,
    out: Seq<Outbound>,
    who: Origin,
    amount: i64,
    lmt: u64,
)
    requires
        book.wf(),
        book.stamped(),
        -KEY_LIMIT <= key_of(lmt) < KEY_LIMIT,
        book.inc_id < SEQ_LIMIT,
    ensures
        limit_outcome(book, clients, out, who, amount, lmt).book.stamped(),
{
    let price = key_of(lmt);
    let o = limit_outcome(book, clients, out, who, amount, lmt);
    if o.accepted {
        let next = book.inc_id;
        let later = (next + 1) as i64;
        let id = mint_id(price, next);
        let e = BookEntry { client: who, amount: magnitude(amount), id, cycles_present: 0 };
        lemma_stamped_later(book.bids, next, later);
        lemma_stamped_later(book.asks, next, later);
        if amount < 0 {
            lemma_rest_stamped(book.asks, price, e, next);
            assert forall|i: int, j: int, k: int, l: int|
                0 <= i < o.book.bids.len() && 0 <= j < o.book.bids[i].entries.len() && 0 <= k < o.book.asks.len() && 0
                    <= l < o.book.asks[k].entries.len() implies (#[trigger] o.book.bids[i].entries[j]).id != (
            #[trigger] o.book.asks[k].entries[l]).id by {
                lemma_rest_entry(book.asks, price, e, k, l);
                if o.book.asks[k].entries[l] == e {
                    lemma_fresh_stamp(book.bids, price, next, i, j);
                } else {
                    let (a, b) = choose|a: int, b: int|
                        0 <= a < book.asks.len() && 0 <= b < book.asks[a].entries.len() && (
                        #[trigger] book.asks[a].entries[b]) == o.book.asks[k].entries[l];
                    assert(book.bids[i].entries[j].id != book.asks[a].entries[b].id);
                }
            }
        } else {
            lemma_rest_stamped(book.bids, price, e, next);
            assert forall|i: int, j: int, k: int, l: int|
                0 <= i < o.book.bids.len() && 0 <= j < o.book.bids[i].entries.len() && 0 <= k < o.book.asks.len() && 0
                    <= l < o.book.asks[k].entries.len() implies (#[trigger] o.book.bids[i].entries[j]).id != (
            #[trigger] o.book.asks[k].entries[l]).id by {
                lemma_rest_entry(book.bids, price, e, i, j);
                if o.book.bids[i].entries[j] == e {
                    lemma_fresh_stamp(book.asks, price, next, k, l);
                } else {
                    let (a, b) = choose|a: int, b: int|
                        0 <= a < book.bids.len() && 0 <= b < book.bids[a].entries.len() && (
                        #[trigger] book.bids[a].entries[b]) == o.book.bids[i].entries[j];
                    assert(book.bids[a].entries[b].id != book.asks[k].entries[l].id);
                }
            }
        }
    }
}

/// An order on a side after another was put to rest is that other or was on
/// the side before.
pub proof fn lemma_rest_entry(side: Seq<LevelView>, price: i64, e: BookEntry, i: int, j: int)
    requires
        0 <= i < rest(side, price, e).len(),
        0 <= j < rest(side, price, e)[i].entries.len(),
    ensures
        rest(side, price, e)[i].entries[j] == e || exists|a: int, b: int|
            0 <= a < side.len() && 0 <= b < side[a].entries.len() && (#[trigger] side[a].entries[b]) == rest(
                side,
                price,
                e,
            )[i].entries[j],
{
    lemma_slot(side, price, 0);
    let k = slot(side, price, 0);
    let after = rest(side, price, e);
    if k < side.len() && side[k].price == price {
        if i == k && j == side[k].entries.len() {
        } else {
            assert(side[i].entries[j] == after[i].entries[j]);
        }
    } else {
        if i < k {
            assert(side[i].entries[j] == after[i].entries[j]);
        } else if i > k {
            assert(side[i - 1].entries[j] == after[i].entries[j]);
        }
    }
}

/// A stamped side in rising order stays stamped when an order is taken
/// out, and holds no identifier that it did not hold.
pub proof fn lemma_without_stamped(side: Seq<LevelView>, price: i64, id: i64, who: Origin, next: i64)
    requires
        rising(side),
        side_stamped(side, next),
        holds(side, price, id, who),
    ensures
        side_stamped(without(side, price, id, who), next),
        within(without(side, price, id, who), side),
{
    lemma_cancel_takes_the_order(side, price, id, who);
    let i0 = first_level(side, price, 0);
    let queue = side[i0].entries;
    let j0 = first_match(queue, id, who, 0);
    let after = without(side, price, id, who);
    assert forall|i: int, j: int| 0 <= i < after.len() && 0 <= j < after[i].entries.len() implies on_side(
        side,
        (#[trigger] after[i].entries[j]).id,
    ) by {
        if i == i0 {
            let b = if j < j0 { j } else { j + 1 };
            assert(side[i].entries[b].id == after[i].entries[j].id);
        } else {
            assert(side[i].entries[j].id == after[i].entries[j].id);
        }
    }
    assert forall|i: int| 0 <= i < after.len() implies level_stamped(#[trigger] after[i], next) by {
        assert(level_stamped(side[i], next));
        if i == i0 {
            assert forall|a: int, b: int| 0 <= a < b < after[i].entries.len() implies (
            #[trigger] after[i].entries[a]).id < (#[trigger] after[i].entries[b]).id by {
                let a0 = if a < j0 { a } else { a + 1 };
                let b0 = if b < j0 { b } else { b + 1 };
                assert(queue[a0].id < queue[b0].id);
            }
            assert forall|j: int| 0 <= j < after[i].entries.len() implies stamped(
                #[trigger] after[i].entries[j],
                after[i].price,
                next,
            ) by {
                let b = if j < j0 { j } else { j + 1 };
                assert(stamped(queue[b], side[i].price, next));
            }
        }
    }
}

/// A cancel leaves a stamped book stamped.
pub proof fn lemma_cancel_keeps_stamps(book: BookView, id: i64, who: Origin)
    requires
        book.wf(),
        book.stamped(),
        on_book(book, id, who),
    ensures
        cancelled(book, id, who).stamped(),
{
    let price = level_of_id(id);
    lemma_within_self(book.bids);
    lemma_within_self(book.asks);
    if holds(book.bids, price, id, who) {
        lemma_without_stamped(book.bids, price, id, who, book.inc_id);
        lemma_within_apart(book.bids, book.asks, without(book.bids, price, id, who), book.asks);
    } else {
        lemma_without_stamped(book.asks, price, id, who, book.inc_id);
        lemma_within_apart(book.bids, book.asks, book.bids, without(book.asks, price, id, who));
    }
}

/// Whoever owns a resting order of a stamped book can cancel it by its
/// identifier, and the cancel takes out that order and no other.
pub proof fn lemma_owner_can_cancel(side: Seq<LevelView>, next: i64, i: int, j: int)
    requires
        rising(side),
        side_stamped(side, next),
        0 <= i < side.len(),
        0 <= j < side[i].entries.len(),
    ensures
        ({
            let e = side[i].entries[j];
            &&& holds(side, level_of_id(e.id), e.id, e.client)
            &&& first_level(side, level_of_id(e.id), 0) == i
            &&& first_match(side[i].entries, e.id, e.client, 0) == j
        }),
{
    let e = side[i].entries[j];
    assert(level_stamped(side[i], next));
    assert(stamped(e, side[i].price, next));
    lemma_cancel_takes_the_order(side, level_of_id(e.id), e.id, e.client);
    let a = first_level(side, level_of_id(e.id), 0);
    let b = first_match(side[a].entries, e.id, e.client, 0);
    if a != i || b != j {
        lemma_stamps_differ(side, next, a, b, i, j);
    }
}

/// The crossing of one price key leaves every identifier in its place.
pub proof fn lemma_cross_level_same_ids(price: i64, x: Cross, b: int, a: int)
    ensures
        cross_level(price, x, b, a).bids.len() == x.bids.len(),
        cross_level(price, x, b, a).asks.len() == x.asks.len(),
        forall|j: int| 0 <= j < x.bids.len() ==> (#[trigger] cross_level(price, x, b, a).bids[j]).id == x.bids[j].id,
        forall|j: int| 0 <= j < x.asks.len() ==> (#[trigger] cross_level(price, x, b, a).asks[j]).id == x.asks[j].id,
    decreases x.bids.len() - b, x.asks.len() - a, (if 0 <= b < x.bids.len() { x.bids[b].amount } else { 0 }),
{
    if b < 0 || a < 0 || b >= x.bids.len() {
    } else if x.bids[b].amount == 0 {
        lemma_cross_level_same_ids(price, x, b + 1, a);
    } else if a >= x.asks.len() {
    } else if x.asks[a].amount == 0 {
        lemma_cross_level_same_ids(price, x, b, a + 1);
    } else {
        let y = cross_fill(price, x, b, a);
        lemma_cross_level_same_ids(price, y, b, a);
        let end = cross_level(price, x, b, a);
        assert forall|j: int| 0 <= j < x.bids.len() implies (#[trigger] end.bids[j]).id == x.bids[j].id by {
            assert(y.bids[j].id == x.bids[j].id);
        }
        assert forall|j: int| 0 <= j < x.asks.len() implies (#[trigger] end.asks[j]).id == x.asks[j].id by {
            assert(y.asks[j].id == x.asks[j].id);
        }
    }
}

/// The sweep leaves every identifier in its place.
pub proof fn lemma_sweep_same_ids(s: Swept, i: int)
    requires
        0 <= i <= s.bids.len(),
    ensures
        same_ids(s.bids, sweep_from(s, i).bids),
        same_ids(s.asks, sweep_from(s, i).asks),
    decreases s.bids.len() - i,
{
    if i < s.bids.len() {
        let price = s.bids[i].price;
        lemma_first_level(s.asks, price, 0);
        let k = first_level(s.asks, price, 0);
        if k >= s.asks.len() {
            lemma_sweep_same_ids(s, i + 1);
        } else {
            let start = Cross { bids: s.bids[i].entries, asks: s.asks[k].entries, clients: s.clients, out: s.out };
            lemma_cross_level_same_ids(price, start, 0, 0);
            let x = cross_level(price, start, 0, 0);
            let t = Swept {
                bids: with_queue(s.bids, i, x.bids),
                asks: with_queue(s.asks, k, x.asks),
                clients: x.clients,
                out: x.out,
            };
            lemma_with_queue_same_ids(s.bids, i, x.bids);
            lemma_with_queue_same_ids(s.asks, k, x.asks);
            lemma_sweep_same_ids(t, i + 1);
            lemma_same_ids_chain(s.bids, t.bids, sweep_from(s, i).bids);
            lemma_same_ids_chain(s.asks, t.asks, sweep_from(s, i).asks);
        }
    }
}

/// What is kept of a queue whose identifiers rise has rising identifiers,
/// and none that the queue did not have.
pub proof fn lemma_filter_ascending(queue: Seq<BookEntry>, keep: spec_fn(BookEntry) -> bool)
    requires
        ascending(queue),
    ensures
        ascending(queue.filter(keep)),
        forall|j: int|
            0 <= j < queue.filter(keep).len() ==> exists|b: int|
                0 <= b < queue.len() && (#[trigger] queue[b]) == (#[trigger] queue.filter(keep)[j]),
    decreases queue.len(),
{
    reveal(Seq::filter);
    if queue.len() > 0 {
        let front = queue.drop_last();
        let last = queue.last();
        assert forall|a: int, b: int| 0 <= a < b < front.len() implies (#[trigger] front[a]).id < (
        #[trigger] front[b]).id by {
            assert(queue[a].id < queue[b].id);
        }
        lemma_filter_ascending(front, keep);
        let kept = front.filter(keep);
        let all = queue.filter(keep);
        assert forall|j: int| 0 <= j < all.len() implies exists|b: int|
            0 <= b < queue.len() && (#[trigger] queue[b]) == (#[trigger] all[j]) by {
            if j < kept.len() {
                let b = choose|b: int| 0 <= b < front.len() && (#[trigger] front[b]) == kept[j];
                assert(queue[b] == all[j]);
            } else {
                assert(queue[queue.len() - 1] == all[j]);
            }
        }
        assert forall|a: int, b: int| 0 <= a < b < all.len() implies (#[trigger] all[a]).id < (#[trigger] all[b]).id by {
            if b < kept.len() {
                assert(kept[a].id < kept[b].id);
            } else {
                let c = choose|c: int| 0 <= c < front.len() && (#[trigger] front[c]) == kept[a];
                assert(queue[c].id < queue[queue.len() - 1].id);
            }
        }
    }
}

/// Compaction leaves a stamped side stamped, with no identifier that it did
/// not hold.
pub proof fn lemma_compacted_stamped(clients: Seq<Client>, side: Seq<LevelView>, next: i64)
    requires
        side_stamped(side, next),
    ensures
        side_stamped(compacted(clients, side), next),
        within(compacted(clients, side), side),
{
    let all = side.map_values(purge_in(clients));
    let after = compacted(clients, side);
    assert forall|i: int| 0 <= i < after.len() implies level_stamped(#[trigger] after[i], next) && forall|j: int|
        0 <= j < after[i].entries.len() ==> on_side(side, (#[trigger] after[i].entries[j]).id) by {
        assert(all.filter(occupied()).contains(after[i]));
        all.lemma_filter_contains_rev(occupied(), after[i]);
        let k = choose|k: int| 0 <= k < all.len() && all[k] == after[i];
        assert(after[i] == purged(clients, side[k]));
        assert(level_stamped(side[k], next));
        let queue = side[k].entries;
        lemma_filter_ascending(queue, live_in(clients));
        assert forall|j: int| 0 <= j < after[i].entries.len() implies stamped(
            #[trigger] after[i].entries[j],
            after[i].price,
            next,
        ) && on_side(side, after[i].entries[j].id) by {
            let b = choose|b: int| 0 <= b < queue.len() && (#[trigger] queue[b]) == after[i].entries[j];
            assert(stamped(queue[b], side[k].price, next));
            assert(side[k].entries[b].id == after[i].entries[j].id);
        }
    }
}

/// A book that is stamped before an administrative cycle is stamped after
/// it.
pub proof fn lemma_cycle_keeps_stamps(book: BookView, clients: Seq<Client>, out: Seq<Outbound>)
    requires
        book.stamped(),
    ensures
        cycled(book, clients, out).book.stamped(),
{
    let stay = clients.filter(staying());
    let start = Swept { bids: book.bids, asks: book.asks, clients: stay, out: out + farewells(clients) };
    let swept = sweep_from(start, 0);
    lemma_sweep_same_ids(start, 0);
    lemma_same_ids_stamped(book.bids, swept.bids, book.inc_id);
    lemma_same_ids_stamped(book.asks, swept.asks, book.inc_id);
    lemma_same_ids_apart(book.bids, book.asks, swept.bids, swept.asks);
    let bids = compacted(swept.clients, swept.bids);
    let asks = compacted(swept.clients, swept.asks);
    lemma_compacted_stamped(swept.clients, swept.bids, book.inc_id);
    lemma_compacted_stamped(swept.clients, swept.asks, book.inc_id);
    lemma_within_apart(swept.bids, swept.asks, bids, asks);
    assert(same_ids(bids, aged_side(bids)));
    assert(same_ids(asks, aged_side(asks)));
    lemma_same_ids_stamped(bids, aged_side(bids), book.inc_id);
    lemma_same_ids_stamped(asks, aged_side(asks), book.inc_id);
    lemma_same_ids_apart(bids, asks, aged_side(bids), aged_side(asks));
}

/// The limits of an identifier leave room for this request: a limit order
/// finds its price key and the next sequence number within them.
pub open spec fn room_for(book: BookView, order: Order) -> bool {
    order matches Order::Lmt(o) ==> -KEY_LIMIT <= key_of(o.lmt) < KEY_LIMIT && book.inc_id < SEQ_LIMIT
}

/// A request that the limits of an identifier leave room for leaves a
/// stamped book stamped.
pub proof fn lemma_served_keeps_stamps(
    book: BookView,
    clients: Seq<Client>,
    out: Seq<Outbound>,
    who: Origin,
    order: Order,
)
    requires
        book.wf(),
        book.stamped(),
        room_for(book, order),
    ensures
        served(book, clients, out, who, order).book.stamped(),
{
    match order {
        Order::Lmt(o) => {
            lemma_limit_keeps_stamps(book, clients, out, who, o.amount, o.lmt);
        },
        Order::Market(o) => {
            lemma_market_keeps_stamps(book, clients, out, who, o.amount);
        },
        Order::Hidden(o) => {
            lemma_hidden_keeps_stamps(book, clients, out, who, o.amount);
        },
        Order::Cncl(o) => {
            if on_book(book, o.order_id, who) {
                lemma_cancel_keeps_stamps(book, o.order_id, who);
            }
        },
    }
}

} // verus!
