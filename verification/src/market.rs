//! Market orders.
use vstd::prelude::*;
use crate::account::{account_of, known, settle, Client, Clients};
use crate::book::{BookView, OrderBook};
use crate::matching::{
    fill_down, fill_up, lemma_same_prices_rising, lemma_walk_down_keeps_prices, lemma_walk_up_keeps_prices, walk_down, walk_up, FillRule, Tape,
};
use crate::money::{abs_qty, magnitude, signed_notional, SCALE};
use crate::notice::{Notice, Outbound};
use crate::order::MarketOrder;
use crate::origin::Origin;

verus! {

/// What a handler leaves behind.
pub struct Outcome {
    pub book: BookView,
    pub clients: Seq<Client>,
    pub out: Seq<Outbound>,
    pub accepted: bool,
}

/// A market sell: the resting buyer pays, the aggressor is paid and loses one
/// liquidity credit.
pub open spec fn market_sell() -> FillRule {
    FillRule { maker_buys: true, taker_buys: false, taker_penalised: true }
}

/// A market buy: the resting seller is paid, the aggressor pays and loses one
/// liquidity credit.
pub open spec fn market_buy() -> FillRule {
    FillRule { maker_buys: false, taker_buys: true, taker_penalised: true }
}

/// The tape after what the asks could not fill was bought at one whole unit
/// of price, and the aggressor was told of that fill.
pub open spec fn forced_tail(taker: Origin, t: Tape) -> Tape {
    Tape {
        clients: settle(t.clients, taker, true, t.remaining, SCALE, 0),
        out: if known(t.clients, taker) {
            t.out.push(Outbound { to: taker, what: Notice::Filled { amount: t.remaining, price: SCALE } })
        } else {
            t.out
        },
        remaining: 0,
        done: t.done,
    }
}

/// What a market order of `taker` for the signed quantity `amount` does.
///
/// A sell is turned down unless the position covers it; it then walks the
/// bids from the best down and is accepted if they took all of it. What was
/// filled before the bids ran out stays filled.
///
/// A buy is turned down if the best ask price times the quantity is more
/// than the cash at hand; it then walks the asks from the best up, and what
/// they cannot fill is bought at one whole unit of price.
pub open spec fn market_outcome(
    book: BookView,
    clients: Seq<Client>,
    out: Seq<Outbound>,
    taker: Origin,
    amount: i64,
) -> Outcome {
    let start = Tape::start(clients, out, magnitude(amount));
    let turned_down = Outcome { book, clients, out, accepted: false };
    if amount < 0 {
        if account_of(clients, taker).position < magnitude(amount) {
            turned_down
        } else {
            let (bids, t) = walk_down(market_sell(), taker, book.bids, book.bids.len() as int, start);
            Outcome {
                book: BookView { bids, asks: book.asks, inc_id: book.inc_id },
                clients: t.clients,
                out: t.out,
                accepted: t.remaining == 0,
            }
        }
    } else {
        if book.asks.len() > 0 && book.asks[0].price * amount > account_of(clients, taker).money {
            turned_down
        } else {
            let (asks, t) = walk_up(market_buy(), taker, book.asks, 0, start);
            let end = if t.remaining != 0 {
                forced_tail(taker, t)
            } else {
                t
            };
            Outcome {
                book: BookView { bids: book.bids, asks, inc_id: book.inc_id },
                clients: end.clients,
                out: end.out,
                accepted: true,
            }
        }
    }
}

impl OrderBook {
    /// Executes a market order for `ordering_client`, who must have an
    /// account.
    pub fn do_mkt(
        &mut self,
        clients: &mut Clients,
        out: &mut Vec<Outbound>,
        ordering_client: Origin,
        order: MarketOrder,
    ) -> (res: Result<(), ()>)
        requires
            old(self).wf(),
            old(clients).wf(),
            known(old(clients)@, ordering_client),
        ensures
            final(self).wf(),
            final(clients).wf(),
            ({
                let o = market_outcome(old(self)@, old(clients)@, old(out)@, ordering_client, order.amount);
                &&& final(self)@ == o.book
                &&& final(clients)@ == o.clients
                &&& final(out)@ == o.out
                &&& res is Ok <==> o.accepted
            }),
    {
        let account = clients.account(ordering_client);
        let qty = abs_qty(order.amount);
        if order.amount < 0 {
            if (account.position as i128) < (qty as i128) {
                return Err(());
            }
            let rule = FillRule { maker_buys: true, taker_buys: false, taker_penalised: true };
            let r = fill_down(&mut self.bids, rule, ordering_client, clients, out, qty);
            proof {
                lemma_walk_down_keeps_prices(
                    rule,
                    ordering_client,
                    old(self)@.bids,
                    old(self)@.bids.len() as int,
                    Tape::start(old(clients)@, old(out)@, qty),
                );
                lemma_same_prices_rising(old(self)@.bids, self@.bids);
            }
            if r.0 != 0 {
                Err(())
            } else {
                Ok(())
            }
        } else {
            if self.asks.len() > 0 && signed_notional(self.asks[0].price, order.amount) > account.money {
                return Err(());
            }
            let rule = FillRule { maker_buys: false, taker_buys: true, taker_penalised: true };
            let r = fill_up(&mut self.asks, rule, ordering_client, clients, out, qty);
            proof {
                lemma_walk_up_keeps_prices(
                    rule,
                    ordering_client,
                    old(self)@.asks,
                    0,
                    Tape::start(old(clients)@, old(out)@, qty),
                );
                lemma_same_prices_rising(old(self)@.asks, self@.asks);
            }
            if r.0 != 0 {
                if clients.trade(ordering_client, true, r.0, SCALE, 0) {
                    out.push(Outbound { to: ordering_client, what: Notice::Filled { amount: r.0, price: SCALE } });
                }
            }
            Ok(())
        }
    }
}

} // verus!
