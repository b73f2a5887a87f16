//! Closing accounts at the start of an administrative cycle: those that
//! reached the target are rewarded, those that fell to the floor or stayed
//! too long are sent away.
use vstd::prelude::*;
use crate::account::{distinct, flags_follow, ordered, Client, Clients, MAKER_CREDIT};
use crate::notice::{Notice, Outbound};

verus! {

/// Cash from which a market maker has won: 10,000,000 units.
pub const TARGET_CASH: i128 = 10_000_000_000;

/// Cash at or below which an account is closed: 10 units.
pub const FLOOR_CASH: i128 = 10_000;

/// The number of administrative cycles an account may have seen.
pub const MAX_CYCLES: i64 = 3600;

impl Client {
    /// The account has won: the target is reached, by a market maker that
    /// is not a loopback origin.
    pub open spec fn wins(self) -> bool {
        self.money >= TARGET_CASH && self.is_market_maker && !self.addr.local()
    }

    /// The account has not won, and its cash is at the floor or it has
    /// stayed too long.
    pub open spec fn loses(self) -> bool {
        !self.wins() && (self.money <= FLOOR_CASH || self.cycles_present > MAX_CYCLES)
    }

    /// What the origin is told when its account is closed.
    pub open spec fn farewell(self) -> Outbound {
        Outbound { to: self.addr, what: if self.wins() { Notice::Rewarded } else { Notice::Disconnected } }
    }
}

/// The accounts that stay.
pub open spec fn staying() -> spec_fn(Client) -> bool {
    |c: Client| !c.wins() && !c.loses()
}

/// The accounts that are closed.
pub open spec fn leaving() -> spec_fn(Client) -> bool {
    |c: Client| c.wins() || c.loses()
}

/// The notice for a closed account.
pub open spec fn farewell_of() -> spec_fn(Client) -> Outbound {
    |c: Client| c.farewell()
}

/// The notices of one eviction, in the order of the accounts.
pub open spec fn farewells(accounts: Seq<Client>) -> Seq<Outbound> {
    accounts.filter(leaving()).map_values(farewell_of())
}

impl Clients {
    /// Closes every account that has won or lost and tells its origin.
    pub fn evict(&mut self, out: &mut Vec<Outbound>)
        requires
            old(self).wf(),
        ensures
            final(self).wf(),
            final(self)@ == old(self)@.filter(staying()),
            final(out)@ == old(out)@ + farewells(old(self)@),
    {
        let ghost all = self@;
        let mut kept: Vec<Client> = Vec::new();
        let mut i: usize = 0;
        proof {
            reveal(Seq::filter);
            assert(all.take(0) =~= Seq::empty());
            assert(out@ =~= old(out)@ + farewells(all.take(0)));
        }
        while i < self.accounts.len()
            invariant
                i <= all.len(),
                all == self@,
                distinct(all),
                flags_follow(all),
                kept@ == all.take(i as int).filter(staying()),
                out@ == old(out)@ + farewells(all.take(i as int)),
                forall|j: int|
                    0 <= j < kept@.len() ==> exists|k: int| 0 <= k < i && all[k] == #[trigger] kept@[j],
                distinct(kept@),
                ordered(all),
                ordered(kept@),
            decreases all.len() - i,
        {
            let c = self.accounts[i];
            let ghost seen = all.take(i as int);
            proof {
                seen.lemma_filter_push(c, staying());
                seen.lemma_filter_push(c, leaving());
                assert(all.take(i + 1) =~= seen.push(c));
            }
            let wins = c.money >= TARGET_CASH && c.is_market_maker && !c.addr.is_loopback();
            let loses = !wins && (c.money <= FLOOR_CASH || c.cycles_present > MAX_CYCLES);
            if wins {
                out.push(Outbound { to: c.addr, what: Notice::Rewarded });
                assert(seen.filter(leaving()).push(c).map_values(farewell_of()) =~= farewells(seen).push(c.farewell()));
            } else if loses {
                out.push(Outbound { to: c.addr, what: Notice::Disconnected });
                assert(seen.filter(leaving()).push(c).map_values(farewell_of()) =~= farewells(seen).push(c.farewell()));
            } else {
                let ghost before = kept@;
                kept.push(c);
                assert forall|a: int, b: int| 0 <= a < b < kept@.len() implies (#[trigger] kept@[a]).addr != (
                #[trigger] kept@[b]).addr by {
                    if b == kept@.len() - 1 {
                        let k = choose|k: int| 0 <= k < i && all[k] == before[a];
                        assert(all[k].addr != all[i as int].addr);
                    } else {
                        assert(before[a].addr != before[b].addr);
                    }
                }
                assert forall|a: int, b: int| 0 <= a < b < kept@.len() implies (#[trigger] kept@[a]).addr.before(
                    (#[trigger] kept@[b]).addr,
                ) by {
                    if b == kept@.len() - 1 {
                        let k = choose|k: int| 0 <= k < i && all[k] == before[a];
                        assert(all[k].addr.before(all[i as int].addr));
                    } else {
                        assert(before[a].addr.before(before[b].addr));
                    }
                }
                assert forall|j: int| 0 <= j < kept@.len() implies exists|k: int|
                    0 <= k < i + 1 && all[k] == #[trigger] kept@[j] by {
                    if j == kept@.len() - 1 {
                        assert(all[i as int] == kept@[j]);
                    } else {
                        let k = choose|k: int| 0 <= k < i && all[k] == before[j];
                        assert(all[k] == kept@[j]);
                    }
                }
            }
            assert(out@ =~= old(out)@ + farewells(all.take(i + 1)));
            i += 1;
        }
        assert(all.take(i as int) =~= all);
        assert forall|j: int| 0 <= j < kept@.len() implies (#[trigger] kept@[j]).is_market_maker == (
        kept@[j].net_liquidity_contribution >= MAKER_CREDIT) by {
            let k = choose|k: int| 0 <= k < i && all[k] == kept@[j];
            assert(all[k].is_market_maker == (all[k].net_liquidity_contribution >= MAKER_CREDIT));
        }
        self.accounts = kept;
    }
}

} // verus!
