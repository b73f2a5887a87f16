//! Limit orders: checked against the whole quantity, then put to rest.
//! Nothing is matched when an order comes in.
use vstd::prelude::*;
use crate::account::{account_of, known, Client, Clients};
use crate::book::{rising, side_view, BookEntry, BookView, Level, LevelView, OrderBook};
use crate::double::{cost_exceeds, costs_more, key_of, price_key};
use crate::ident::{mint, mint_id};
use crate::market::Outcome;
use crate::matching::with_queue;
use crate::money::{abs_qty, magnitude};
use crate::notice::{Notice, Outbound};
use crate::order::LimitOrder;
use crate::origin::Origin;

verus! {

/// The first level at or after `from` whose price key is not below `price`,
/// or the length of the side if there is none.
pub open spec fn slot(side: Seq<LevelView>, price: i64, from: int) -> int
    decreases side.len() - from,
{
    if from < 0 || from >= side.len() || side[from].price >= price {
        from
    } else {
        slot(side, price, from + 1)
    }
}

/// The side with `e` at rest under `price`: last in the queue of that price
/// key, or alone in a new level that stands where the order of price keys
/// puts it.
pub open spec fn rest(side: Seq<LevelView>, price: i64, e: BookEntry) -> Seq<LevelView> {
    let k = slot(side, price, 0);
    if k < side.len() && side[k].price == price {
        with_queue(side, k, side[k].entries.push(e))
    } else {
        side.insert(k, LevelView { price, entries: seq![e] })
    }
}

/// Whether the account can stand for the whole order: a sell needs the
/// position to cover the quantity, a buy needs the cash to cover price times
/// quantity, the price being the double `lmt` as it is.
pub open spec fn covered(account: Client, amount: i64, lmt: u64) -> bool {
    if amount < 0 {
        magnitude(amount) <= account.position
    } else {
        !costs_more(lmt, amount, account.money as int)
    }
}

/// What a limit order of `who` for the signed quantity `amount` at the
/// price `lmt`, a double, does: turned down, it changes nothing; accepted, it
/// rests whole on its side, under the price key of its price and a new
/// identifier, and `who` is told that identifier.
pub open spec fn limit_outcome(
    book: BookView,
    clients: Seq<Client>,
    out: Seq<Outbound>,
    who: Origin,
    amount: i64,
    lmt: u64,
) -> Outcome {
    let price = key_of(lmt);
    let id = mint_id(price, book.inc_id);
    let e = BookEntry { client: who, amount: magnitude(amount), id, cycles_present: 0 };
    if !covered(account_of(clients, who), amount, lmt) {
        Outcome { book, clients, out, accepted: false }
    } else {
        Outcome {
            book: BookView {
                bids: if amount < 0 { book.bids } else { rest(book.bids, price, e) },
                asks: if amount < 0 { rest(book.asks, price, e) } else { book.asks },
                inc_id: (book.inc_id + 1) as i64,
            },
            clients,
            out: out.push(Outbound { to: who, what: Notice::Accepted { order_id: id } }),
            accepted: true,
        }
    }
}

/// Puts `e` to rest under `price`.
pub fn rest_entry(levels: &mut Vec<Level>, price: i64, e: BookEntry)
    requires
        rising(side_view(old(levels)@)),
    ensures
        side_view(final(levels)@) == rest(side_view(old(levels)@), price, e),
        rising(side_view(final(levels)@)),
{
    let ghost side = side_view(levels@);
    let mut k: usize = 0;
    while k < levels.len() && levels[k].price < price
        invariant
            k <= levels@.len(),
            side == side_view(levels@),
            slot(side, price, k as int) == slot(side, price, 0),
            forall|j: int| 0 <= j < k ==> (#[trigger] side[j]).price < price,
        decreases levels@.len() - k,
    {
        k += 1;
    }
    if k < levels.len() && levels[k].price == price {
        levels[k].entries.push(e);
        assert(side_view(levels@) =~= rest(side, price, e));
    } else {
        let mut entries: Vec<BookEntry> = Vec::new();
        entries.push(e);
        assert(entries@ =~= seq![e]);
        levels.insert(k, Level { price, entries });
        assert(side_view(levels@) =~= rest(side, price, e));
        assert forall|i: int, j: int| 0 <= i < j < levels@.len() implies (#[trigger] side_view(levels@)[i]).price < (
        #[trigger] side_view(levels@)[j]).price by {
            let a = if i < k { i } else { i - 1 };
            let b = if j < k { j } else { j - 1 };
            if i != k {
                assert(side[a].price == side_view(levels@)[i].price);
            }
            if j != k {
                assert(side[b].price == side_view(levels@)[j].price);
            }
            if j == k {
                assert(side[i].price < price);
            }
            if i == k {
                assert(side[k as int].price >= price);
                assert(side[b].price >= side[k as int].price);
            }
        }
    }
}

impl OrderBook {
    /// Takes a limit order of `ordering_client`, who must have an account,
    /// at the price key of its limit price.
    pub fn do_lmt(
        &mut self,
        clients: &Clients,
        out: &mut Vec<Outbound>,
        ordering_client: Origin,
        order: LimitOrder,
    ) -> (res: Result<(), ()>)
        requires
            old(self).wf(),
            clients.wf(),
            known(clients@, ordering_client),
            old(self).inc_id < i64::MAX,
        ensures
            final(self).wf(),
            ({
                let o = limit_outcome(
                    old(self)@,
                    clients@,
                    old(out)@,
                    ordering_client,
                    order.amount,
                    order.lmt,
                );
                &&& final(self)@ == o.book
                &&& final(out)@ == o.out
                &&& res is Ok <==> o.accepted
            }),
    {
        let account = clients.account(ordering_client);
        let price = price_key(order.lmt);
        let qty = abs_qty(order.amount);
        let id = mint(price, self.inc_id);
        let e = BookEntry { client: ordering_client, amount: qty, id, cycles_present: 0 };
        if order.amount < 0 {
            if (qty as i128) > (account.position as i128) {
                return Err(());
            }
            rest_entry(&mut self.asks, price, e);
        } else {
            if cost_exceeds(order.lmt, order.amount, account.money) {
                return Err(());
            }
            rest_entry(&mut self.bids, price, e);
        }
        self.inc_id = self.inc_id + 1;
        out.push(Outbound { to: ordering_client, what: Notice::Accepted { order_id: id } });
        Ok(())
    }
}

} // verus!
