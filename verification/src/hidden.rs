//! Hidden orders: the walk of a market order with the two checks exchanged
//! between the sides, and an aggressor whose liquidity credit a fill leaves
//! as it is.
use vstd::prelude::*;
use crate::account::{account_of, known, Client, Clients};
use crate::book::{BookView, OrderBook};
use crate::market::Outcome;
use crate::matching::{
    fill_down, fill_up, lemma_same_prices_rising, lemma_walk_down_keeps_prices, lemma_walk_up_keeps_prices, walk_down,
    walk_up, FillRule, Tape,
};
use crate::money::{abs_qty, magnitude, signed_notional};
use crate::notice::Outbound;
use crate::order::HiddenOrder;
use crate::origin::Origin;

verus! {

/// A hidden sell: the resting buyer pays, the aggressor is paid and keeps
/// its liquidity credit.
pub open spec fn hidden_sell() -> FillRule {
    FillRule { maker_buys: true, taker_buys: false, taker_penalised: false }
}

/// A hidden buy: the resting seller is paid, the aggressor pays and keeps
/// its liquidity credit.
pub open spec fn hidden_buy() -> FillRule {
    FillRule { maker_buys: false, taker_buys: true, taker_penalised: false }
}

/// What a hidden order of `taker` for the signed quantity `amount` does.
///
/// A sell is turned down if no bid level is there, or if the best bid price
/// times the signed quantity is more than the cash at hand; it then walks
/// the bids from the best down.
///
/// A buy is turned down unless the position covers the quantity; it then
/// walks the asks from the best up.
///
/// Either is accepted if the walk took all of it, and what was filled before
/// the side ran out stays filled.
pub open spec fn hidden_outcome(
    book: BookView,
    clients: Seq<Client>,
    out: Seq<Outbound>,
    taker: Origin,
    amount: i64,
) -> Outcome {
    let start = Tape::start(clients, out, magnitude(amount));
    let turned_down = Outcome { book, clients, out, accepted: false };
    if amount < 0 {
        if book.bids.len() == 0 || book.bids.last().price * amount > account_of(clients, taker).money {
            turned_down
        } else {
            let (bids, t) = walk_down(hidden_sell(), taker, book.bids, book.bids.len() as int, start);
            Outcome {
                book: BookView { bids, asks: book.asks, inc_id: book.inc_id },
                clients: t.clients,
                out: t.out,
                accepted: t.remaining == 0,
            }
        }
    } else {
        if account_of(clients, taker).position < magnitude(amount) {
            turned_down
        } else {
            let (asks, t) = walk_up(hidden_buy(), taker, book.asks, 0, start);
            Outcome {
                book: BookView { bids: book.bids, asks, inc_id: book.inc_id },
                clients: t.clients,
                out: t.out,
                accepted: t.remaining == 0,
            }
        }
    }
}

impl OrderBook {
    /// Executes a hidden order for `ordering_client`, who must have an
    /// account. Whether the account may send hidden orders is settled when
    /// the request is decoded.
    pub fn do_hidden(
        &mut self,
        clients: &mut Clients,
        out: &mut Vec<Outbound>,
        ordering_client: Origin,
        order: HiddenOrder,
    ) -> (res: Result<(), ()>)
        requires
            old(self).wf(),
            old(clients).wf(),
            known(old(clients)@, ordering_client),
        ensures
            final(self).wf(),
            final(clients).wf(),
            ({
                let o = hidden_outcome(old(self)@, old(clients)@, old(out)@, ordering_client, order.amount);
                &&& final(self)@ == o.book
                &&& final(clients)@ == o.clients
                &&& final(out)@ == o.out
                &&& res is Ok <==> o.accepted
            }),
    {
        let account = clients.account(ordering_client);
        let qty = abs_qty(order.amount);
        if order.amount < 0 {
            let n = self.bids.len();
            if n == 0 || signed_notional(self.bids[n - 1].price, order.amount) > account.money {
                return Err(());
            }
            let rule = FillRule { maker_buys: true, taker_buys: false, taker_penalised: false };
            let r = fill_down(&mut self.bids, rule, ordering_client, clients, out, qty);
            proof {
                lemma_walk_down_keeps_prices(
                    rule,
                    ordering_client,
                    old(self)@.bids,
                    old(self)@.bids.len() as int,
                    Tape::start(old(clients)@, old(out)@, qty),
                );
                lemma_same_prices_rising(old(self)@.bids, self@.bids);
            }
            if r.0 != 0 {
                Err(())
            } else {
                Ok(())
            }
        } else {
            if (account.position as i128) < (qty as i128) {
                return Err(());
            }
            let rule = FillRule { maker_buys: false, taker_buys: true, taker_penalised: false };
            let r = fill_up(&mut self.asks, rule, ordering_client, clients, out, qty);
            proof {
                lemma_walk_up_keeps_prices(
                    rule,
                    ordering_client,
                    old(self)@.asks,
                    0,
                    Tape::start(old(clients)@, old(out)@, qty),
                );
                lemma_same_prices_rising(old(self)@.asks, self@.asks);
            }
            if r.0 != 0 {
                Err(())
            } else {
                Ok(())
            }
        }
    }
}

} // verus!
