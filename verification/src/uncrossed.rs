//! The sweep leaves no price key with something to fill on both sides, and
//! compaction then leaves no price key on both sides at all.
use vstd::prelude::*;
use crate::account::Client;
use crate::book::{rising, spent, BookView, LevelView};
use crate::cancel::first_level;
use crate::compact::{compacted, live_in, occupied, purge_in, purged};
use crate::laws::lemma_first_level;
use crate::matching::{same_prices, lemma_same_prices_rising, with_queue};
use crate::notice::Outbound;
use crate::sweep::{cross_fill, cross_level, sweep_from, Cross, Swept};

verus! {

/// The crossing of one price key ends with nothing left to fill among its
/// bids or nothing left to fill among its asks.
pub proof fn lemma_cross_level_spends(price: i64, x: Cross, b: int, a: int)
    requires
        0 <= b <= x.bids.len(),
        0 <= a,
        forall|i: int| 0 <= i < b ==> (#[trigger] x.bids[i]).amount == 0,
        forall|j: int| 0 <= j < a && j < x.asks.len() ==> (#[trigger] x.asks[j]).amount == 0,
    ensures
        cross_level(price, x, b, a).bids.len() == x.bids.len(),
        cross_level(price, x, b, a).asks.len() == x.asks.len(),
        spent(cross_level(price, x, b, a).bids) || spent(cross_level(price, x, b, a).asks),
    decreases x.bids.len() - b, x.asks.len() - a, (if 0 <= b < x.bids.len() { x.bids[b].amount } else { 0 }),
{
    if b >= x.bids.len() {
    } else if x.bids[b].amount == 0 {
        lemma_cross_level_spends(price, x, b + 1, a);
    } else if a >= x.asks.len() {
        assert(spent(x.asks));
    } else if x.asks[a].amount == 0 {
        lemma_cross_level_spends(price, x, b, a + 1);
    } else {
        let y = cross_fill(price, x, b, a);
        assert forall|j: int| 0 <= j < a && j < y.asks.len() implies (#[trigger] y.asks[j]).amount == 0 by {
            assert(y.asks[j] == x.asks[j]);
        }
        assert forall|i: int| 0 <= i < b implies (#[trigger] y.bids[i]).amount == 0 by {
            assert(y.bids[i] == x.bids[i]);
        }
        lemma_cross_level_spends(price, y, b, a);
    }
}

/// Wherever one of the first `n` bid levels shares its price key with an ask
/// level, one of the two has nothing left to fill.
pub open spec fn uncrossed(bids: Seq<LevelView>, asks: Seq<LevelView>, n: int) -> bool {
    forall|i: int, k: int|
        0 <= i < n && i < bids.len() && 0 <= k < asks.len() && (#[trigger] bids[i]).price == (#[trigger] asks[k]).price
            ==> spent(bids[i].entries) || spent(asks[k].entries)
}

/// The sweep keeps every level under its price key, and once it is through
/// no price key has something left to fill on both sides.
pub proof fn lemma_sweep_from(s: Swept, i: int)
    requires
        rising(s.bids),
        rising(s.asks),
        0 <= i <= s.bids.len(),
        uncrossed(s.bids, s.asks, i),
    ensures
        same_prices(s.bids, sweep_from(s, i).bids),
        same_prices(s.asks, sweep_from(s, i).asks),
        uncrossed(sweep_from(s, i).bids, sweep_from(s, i).asks, s.bids.len() as int),
    decreases s.bids.len() - i,
{
    if i < s.bids.len() {
        let price = s.bids[i].price;
        lemma_first_level(s.asks, price, 0);
        let k = first_level(s.asks, price, 0);
        if k >= s.asks.len() {
            assert(uncrossed(s.bids, s.asks, i + 1));
            lemma_sweep_from(s, i + 1);
        } else {
            let start = Cross { bids: s.bids[i].entries, asks: s.asks[k].entries, clients: s.clients, out: s.out };
            lemma_cross_level_spends(price, start, 0, 0);
            let x = cross_level(price, start, 0, 0);
            let t = Swept {
                bids: with_queue(s.bids, i, x.bids),
                asks: with_queue(s.asks, k, x.asks),
                clients: x.clients,
                out: x.out,
            };
            assert(same_prices(s.bids, t.bids));
            assert(same_prices(s.asks, t.asks));
            lemma_same_prices_rising(s.bids, t.bids);
            lemma_same_prices_rising(s.asks, t.asks);
            assert forall|bi: int, ak: int|
                0 <= bi < i + 1 && bi < t.bids.len() && 0 <= ak < t.asks.len() && (#[trigger] t.bids[bi]).price == (
                #[trigger] t.asks[ak]).price implies spent(t.bids[bi].entries) || spent(t.asks[ak].entries) by {
                if bi == i {
                    assert(ak == k) by {
                        if ak < k {
                            assert(t.asks[ak].price < t.asks[k].price);
                        } else if ak > k {
                            assert(t.asks[k].price < t.asks[ak].price);
                        }
                    }
                } else {
                    assert(t.bids[bi].price < t.bids[i].price);
                    assert(ak != k);
                    assert(t.bids[bi] == s.bids[bi]);
                    assert(t.asks[ak] == s.asks[ak]);
                    assert(s.bids[bi].price == s.asks[ak].price);
                }
            }
            lemma_sweep_from(t, i + 1);
            let end = sweep_from(t, i + 1);
            assert forall|j: int| 0 <= j < s.bids.len() implies (#[trigger] s.bids[j]).price == end.bids[j].price by {
                assert(t.bids[j].price == end.bids[j].price);
            }
            assert forall|j: int| 0 <= j < s.asks.len() implies (#[trigger] s.asks[j]).price == end.asks[j].price by {
                assert(t.asks[j].price == end.asks[j].price);
            }
        }
    }
}

/// A level that compaction keeps comes from a level of the same price key
/// that had something left to fill.
pub proof fn lemma_compacted_level(clients: Seq<Client>, side: Seq<LevelView>, i: int) -> (j: int)
    requires
        0 <= i < compacted(clients, side).len(),
    ensures
        0 <= j < side.len(),
        side[j].price == compacted(clients, side)[i].price,
        !spent(side[j].entries),
{
    let all = side.map_values(purge_in(clients));
    let level = compacted(clients, side)[i];
    all.lemma_filter_pred(occupied(), i);
    assert(all.filter(occupied()).contains(level));
    all.lemma_filter_contains_rev(occupied(), level);
    let j = choose|j: int| 0 <= j < all.len() && all[j] == level;
    assert(level == purged(clients, side[j]));
    let queue = side[j].entries;
    let kept = queue.filter(live_in(clients));
    queue.lemma_filter_pred(live_in(clients), 0);
    assert(kept.contains(kept[0]));
    queue.lemma_filter_contains_rev(live_in(clients), kept[0]);
    let m = choose|m: int| 0 <= m < queue.len() && queue[m] == kept[0];
    assert(queue[m].amount != 0);
    j
}

/// After the crossing sweep and compaction, against whatever accounts, no
/// price key is left on both sides of the book.
pub proof fn lemma_sweep_uncrosses(
    book: BookView,
    clients: Seq<Client>,
    out: Seq<Outbound>,
    against: Seq<Client>,
    i: int,
    k: int,
)
    requires
        book.wf(),
        ({
            let swept = sweep_from(Swept { bids: book.bids, asks: book.asks, clients, out }, 0);
            &&& 0 <= i < compacted(against, swept.bids).len()
            &&& 0 <= k < compacted(against, swept.asks).len()
        }),
    ensures
        ({
            let swept = sweep_from(Swept { bids: book.bids, asks: book.asks, clients, out }, 0);
            compacted(against, swept.bids)[i].price != compacted(against, swept.asks)[k].price
        }),
{
    let start = Swept { bids: book.bids, asks: book.asks, clients, out };
    lemma_sweep_from(start, 0);
    let swept = sweep_from(start, 0);
    let bi = lemma_compacted_level(against, swept.bids, i);
    let ak = lemma_compacted_level(against, swept.asks, k);
    if swept.bids[bi].price == swept.asks[ak].price {
        assert(spent(swept.bids[bi].entries) || spent(swept.asks[ak].entries));
    }
}

} // verus!
