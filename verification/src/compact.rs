//! Compaction: orders that hold nothing, orders whose owner has no account
//! any more, and levels left without an order leave the book.
use vstd::prelude::*;
use crate::account::{known, Client, Clients};
use crate::book::{rising, side_view, BookEntry, BookView, Level, LevelView, OrderBook};

verus! {

/// An order stays if it still holds something and its owner has an account.
pub open spec fn live(clients: Seq<Client>, e: BookEntry) -> bool {
    e.amount != 0 && known(clients, e.client)
}

/// `live` for fixed accounts.
pub open spec fn live_in(clients: Seq<Client>) -> spec_fn(BookEntry) -> bool {
    |e: BookEntry| live(clients, e)
}

/// The level with only its live orders, in their order.
pub open spec fn purged(clients: Seq<Client>, level: LevelView) -> LevelView {
    LevelView { price: level.price, entries: level.entries.filter(live_in(clients)) }
}

/// `purged` for fixed accounts.
pub open spec fn purge_in(clients: Seq<Client>) -> spec_fn(LevelView) -> LevelView {
    |level: LevelView| purged(clients, level)
}

/// Whether a level has an order.
pub open spec fn occupied() -> spec_fn(LevelView) -> bool {
    |level: LevelView| level.entries.len() > 0
}

/// The side after compaction: every level purged, and those left empty
/// dropped.
pub open spec fn compacted(clients: Seq<Client>, side: Seq<LevelView>) -> Seq<LevelView> {
    side.map_values(purge_in(clients)).filter(occupied())
}

/// Every level has an order, and every order still holds something and
/// has an owner with an account.
pub open spec fn dense(clients: Seq<Client>, side: Seq<LevelView>) -> bool {
    forall|i: int|
        0 <= i < side.len() ==> (#[trigger] side[i]).entries.len() > 0 && forall|j: int|
            0 <= j < side[i].entries.len() ==> live(clients, #[trigger] side[i].entries[j])
}

/// Compaction leaves a dense side.
pub proof fn lemma_compacted_dense(clients: Seq<Client>, side: Seq<LevelView>)
    ensures
        dense(clients, compacted(clients, side)),
{
    let all = side.map_values(purge_in(clients));
    let after = compacted(clients, side);
    assert forall|i: int| 0 <= i < after.len() implies (#[trigger] after[i]).entries.len() > 0 && forall|j: int|
        0 <= j < after[i].entries.len() ==> live(clients, #[trigger] after[i].entries[j]) by {
        all.lemma_filter_pred(occupied(), i);
        assert(all.filter(occupied()).contains(after[i]));
        all.lemma_filter_contains_rev(occupied(), after[i]);
        let k = choose|k: int| 0 <= k < all.len() && all[k] == after[i];
        assert(after[i] == purged(clients, side[k]));
        assert forall|j: int| 0 <= j < after[i].entries.len() implies live(clients, #[trigger] after[i].entries[j]) by {
            side[k].entries.lemma_filter_pred(live_in(clients), j);
        }
    }
}

/// The live orders of a queue, in their order.
pub fn purge_queue(entries: &Vec<BookEntry>, clients: &Clients) -> (kept: Vec<BookEntry>)
    ensures
        kept@ == entries@.filter(live_in(clients@)),
{
    let mut kept: Vec<BookEntry> = Vec::new();
    let mut i: usize = 0;
    proof {
        reveal(Seq::filter);
        assert(entries@.take(0) =~= Seq::empty());
    }
    while i < entries.len()
        invariant
            i <= entries@.len(),
            kept@ == entries@.take(i as int).filter(live_in(clients@)),
        decreases entries@.len() - i,
    {
        let e = entries[i];
        proof {
            entries@.take(i as int).lemma_filter_push(e, live_in(clients@));
            assert(entries@.take(i + 1) =~= entries@.take(i as int).push(e));
        }
        if e.amount != 0 && clients.contains(e.client) {
            kept.push(e);
        }
        i += 1;
    }
    assert(entries@.take(i as int) =~= entries@);
    kept
}

/// Compacts one side.
pub fn compact_side(levels: &mut Vec<Level>, clients: &Clients)
    requires
        rising(side_view(old(levels)@)),
    ensures
        side_view(final(levels)@) == compacted(clients@, side_view(old(levels)@)),
        rising(side_view(final(levels)@)),
{
    let ghost side = side_view(levels@);
    let ghost all = side.map_values(purge_in(clients@));
    let mut kept: Vec<Level> = Vec::new();
    let mut i: usize = 0;
    proof {
        reveal(Seq::filter);
        assert(all.take(0) =~= Seq::empty());
        assert(side_view(kept@) =~= Seq::empty());
    }
    while i < levels.len()
        invariant
            i <= levels@.len(),
            side == side_view(levels@),
            all == side.map_values(purge_in(clients@)),
            side_view(kept@) == all.take(i as int).filter(occupied()),
            rising(side),
            rising(side_view(kept@)),
            forall|j: int| 0 <= j < kept@.len() ==> i > 0 && (#[trigger] side_view(kept@)[j]).price <= side[i - 1].price,
        decreases levels@.len() - i,
    {
        let entries = purge_queue(&levels[i].entries, clients);
        let price = levels[i].price;
        let ghost level = LevelView { price, entries: entries@ };
        let ghost before = side_view(kept@);
        proof {
            assert(level == all[i as int]);
            all.take(i as int).lemma_filter_push(level, occupied());
            assert(all.take(i + 1) =~= all.take(i as int).push(level));
            assert forall|j: int| 0 <= j < kept@.len() implies (#[trigger] before[j]).price < price by {
                assert(side[i - 1].price < side[i as int].price);
            }
        }
        if entries.len() > 0 {
            kept.push(Level { price, entries });
            assert(side_view(kept@) =~= before.push(level));
        }
        assert forall|j: int| 0 <= j < kept@.len() implies (#[trigger] side_view(kept@)[j]).price <= side[i as int].price by {
            if j < before.len() {
                assert(side_view(kept@)[j] == before[j]);
            }
        }
        i += 1;
    }
    assert(all.take(i as int) =~= all);
    *levels = kept;
}

impl BookView {
    /// The book after compaction against these accounts.
    pub open spec fn compacted(self, clients: Seq<Client>) -> BookView {
        BookView {
            bids: compacted(clients, self.bids),
            asks: compacted(clients, self.asks),
            inc_id: self.inc_id,
        }
    }
}

impl OrderBook {
    /// Compacts both sides against the accounts that are left.
    pub fn compact(&mut self, clients: &Clients)
        requires
            old(self).wf(),
        ensures
            final(self).wf(),
            final(self)@ == old(self)@.compacted(clients@),
            dense(clients@, final(self)@.bids),
            dense(clients@, final(self)@.asks),
    {
        proof {
            lemma_compacted_dense(clients@, self@.bids);
            lemma_compacted_dense(clients@, self@.asks);
        }
        compact_side(&mut self.bids, clients);
        compact_side(&mut self.asks, clients);
    }
}

} // verus!
