//! Accounts and the registry that keeps one per origin.
use vstd::prelude::*;
use crate::money::{cash_minus, cash_plus, clamp_i128, clamp_i64, count_plus, notional, units_minus, units_plus};
use crate::origin::Origin;

verus! {

/// Cash a loopback origin starts with: 1,000,000,000 units.
pub const LOCAL_SEED: i128 = 1_000_000_000_000;

/// Cash any other origin starts with: 10,000 units.
pub const REMOTE_SEED: i128 = 10_000_000;

/// Liquidity credit from which an account counts as a market maker.
pub const MAKER_CREDIT: i64 = 100;

/// One participant's state. `money` is in thousandths of a unit.
#[derive(Clone, Copy, Debug, PartialEq, Eq, Structural)]
pub struct Client {
    pub addr: Origin,
    pub money: i128,
    pub is_market_maker: bool,
    pub net_liquidity_contribution: i64,
    pub position: i64,
    pub cycles_present: i64,
}

/// The account after one fill of `qty` at price key `price`: a buyer pays
/// and gains units, a seller is paid and gives units; the liquidity credit
/// moves by `credit` and the market-maker flag follows it.
pub open spec fn traded(c: Client, buys: bool, qty: u64, price: i64, credit: int) -> Client {
    let cost = qty * price;
    let liquidity = clamp_i64(c.net_liquidity_contribution + credit);
    Client {
        addr: c.addr,
        money: clamp_i128(if buys { c.money - cost } else { c.money + cost }),
        is_market_maker: liquidity >= MAKER_CREDIT,
        net_liquidity_contribution: liquidity,
        position: clamp_i64(if buys { c.position + qty } else { c.position - qty }),
        cycles_present: c.cycles_present,
    }
}

/// Whether the accounts hold one for `who`.
pub open spec fn known(accounts: Seq<Client>, who: Origin) -> bool {
    exists|i: int| 0 <= i < accounts.len() && (#[trigger] accounts[i]).addr == who
}

/// No origin has two accounts.
pub open spec fn distinct(accounts: Seq<Client>) -> bool {
    forall|i: int, j: int|
        0 <= i < j < accounts.len() ==> (#[trigger] accounts[i]).addr != (#[trigger] accounts[j]).addr
}

/// The accounts stand in the order of their origins.
pub open spec fn ordered(accounts: Seq<Client>) -> bool {
    forall|i: int, j: int|
        0 <= i < j < accounts.len() ==> (#[trigger] accounts[i]).addr.before((#[trigger] accounts[j]).addr)
}

/// The first account at or after `from` whose origin does not come before
/// `who`, or the number of accounts if there is none.
pub open spec fn place(accounts: Seq<Client>, who: Origin, from: int) -> int
    decreases accounts.len() - from,
{
    if from < 0 || from >= accounts.len() || !accounts[from].addr.before(who) {
        from
    } else {
        place(accounts, who, from + 1)
    }
}

/// Each market-maker flag says whether the liquidity credit has reached the
/// threshold.
pub open spec fn flags_follow(accounts: Seq<Client>) -> bool {
    forall|i: int|
        0 <= i < accounts.len() ==> (#[trigger] accounts[i]).is_market_maker == (accounts[i].net_liquidity_contribution
            >= MAKER_CREDIT)
}

/// Where the account of `who` stands, where there is one.
pub open spec fn index_of(accounts: Seq<Client>, who: Origin) -> int {
    choose|i: int| 0 <= i < accounts.len() && (#[trigger] accounts[i]).addr == who
}

/// The account of `who`, where there is one.
pub open spec fn account_of(accounts: Seq<Client>, who: Origin) -> Client {
    accounts[index_of(accounts, who)]
}

/// The accounts after `who` was seen: if `who` had none, a fresh account
/// stands where the order of origins puts it.
pub open spec fn touched(accounts: Seq<Client>, who: Origin) -> Seq<Client> {
    if known(accounts, who) {
        accounts
    } else {
        accounts.insert(place(accounts, who, 0), Client::fresh(who))
    }
}

/// The accounts without that of `who`.
pub open spec fn closed(accounts: Seq<Client>, who: Origin) -> Seq<Client> {
    if known(accounts, who) {
        accounts.remove(index_of(accounts, who))
    } else {
        accounts
    }
}

/// The accounts after one more administrative cycle: every counter of
/// cycles is one higher.
pub open spec fn ticked(accounts: Seq<Client>) -> Seq<Client> {
    Seq::new(accounts.len(), |i: int| accounts[i].older())
}

/// The accounts after `who`, if present, has traded.
pub open spec fn settle(
    accounts: Seq<Client>,
    who: Origin,
    buys: bool,
    qty: u64,
    price: i64,
    credit: int,
) -> Seq<Client> {
    Seq::new(
        accounts.len(),
        |i: int|
            if accounts[i].addr == who {
                traded(accounts[i], buys, qty, price, credit)
            } else {
                accounts[i]
            },
    )
}

impl Client {
    /// The account a new origin starts with.
    pub open spec fn fresh(addr: Origin) -> Client {
        Client {
            addr,
            money: if addr.local() { LOCAL_SEED } else { REMOTE_SEED },
            is_market_maker: false,
            net_liquidity_contribution: 0,
            position: 0,
            cycles_present: 0,
        }
    }

    /// The account one administrative cycle later.
    pub open spec fn older(self) -> Client {
        Client {
            addr: self.addr,
            money: self.money,
            is_market_maker: self.is_market_maker,
            net_liquidity_contribution: self.net_liquidity_contribution,
            position: self.position,
            cycles_present: clamp_i64(self.cycles_present + 1),
        }
    }

    pub fn new(addr: Origin) -> (c: Client)
        ensures
            c == Client::fresh(addr),
    {
        let money = if addr.is_loopback() {
            LOCAL_SEED
        } else {
            REMOTE_SEED
        };
        Client {
            cycles_present: 0,
            addr,
            money,
            is_market_maker: false,
            net_liquidity_contribution: 0,
            position: 0,
        }
    }

    /// Applies one fill to this account.
    pub fn trade(&mut self, buys: bool, qty: u64, price: i64, credit: i64)
        requires
            -1 <= credit <= 1,
        ensures
            *final(self) == traded(*old(self), buys, qty, price, credit as int),
    {
        let cost = notional(qty, price);
        if buys {
            self.money = cash_minus(self.money, cost);
            self.position = units_plus(self.position, qty);
        } else {
            self.money = cash_plus(self.money, cost);
            self.position = units_minus(self.position, qty);
        }
        self.net_liquidity_contribution = count_plus(self.net_liquidity_contribution, credit);
        self.is_market_maker = self.net_liquidity_contribution >= MAKER_CREDIT;
    }
}

/// The registry: at most one account per origin, in the order of the
/// origins.
pub struct Clients {
    pub accounts: Vec<Client>,
}

impl View for Clients {
    type V = Seq<Client>;

    open spec fn view(&self) -> Seq<Client> {
        self.accounts@
    }
}

impl Clients {
    pub open spec fn wf(&self) -> bool {
        distinct(self@) && flags_follow(self@) && ordered(self@)
    }

    pub fn new() -> (r: Clients)
        ensures
            r@ == Seq::<Client>::empty(),
            r.wf(),
    {
        Clients { accounts: Vec::new() }
    }

    /// Where the account of `who` stands, if there is one.
    pub fn position_of(&self, who: Origin) -> (r: Option<usize>)
        ensures
            r is Some <==> known(self@, who),
            r is Some ==> r->0 < self@.len() && self@[r->0 as int].addr == who,
            r is Some ==> forall|k: int| 0 <= k < r->0 ==> (#[trigger] self@[k]).addr != who,
    {
        let mut i: usize = 0;
        while i < self.accounts.len()
            invariant
                i <= self@.len(),
                forall|k: int| 0 <= k < i ==> (#[trigger] self@[k]).addr != who,
            decreases self@.len() - i,
        {
            if self.accounts[i].addr == who {
                return Some(i);
            }
            i += 1;
        }
        None
    }

    /// The account of `who`, if there is one.
    pub fn get(&self, who: Origin) -> (r: Option<Client>)
        requires
            self.wf(),
        ensures
            r is Some <==> known(self@, who),
            r is Some ==> r->0 == account_of(self@, who),
    {
        match self.position_of(who) {
            Some(i) => Some(self.accounts[i]),
            None => None,
        }
    }

    /// The account of `who`, who has one.
    pub fn account(&self, who: Origin) -> (c: Client)
        requires
            self.wf(),
            known(self@, who),
        ensures
            c == account_of(self@, who),
    {
        let mut i: usize = 0;
        while self.accounts[i].addr != who
            invariant
                i < self.accounts.len(),
                exists|k: int| i <= k < self@.len() && (#[trigger] self@[k]).addr == who,
            decreases self@.len() - i,
        {
            i += 1;
        }
        self.accounts[i]
    }

    /// Whether `who` has an account.
    pub fn contains(&self, who: Origin) -> (r: bool)
        ensures
            r == known(self@, who),
    {
        self.position_of(who).is_some()
    }

    /// Applies one fill to the account of `who`; without such an account
    /// nothing changes. Tells whether there was one.
    pub fn trade(&mut self, who: Origin, buys: bool, qty: u64, price: i64, credit: i64) -> (present: bool)
        requires
            old(self).wf(),
            -1 <= credit <= 1,
        ensures
            final(self)@ == settle(old(self)@, who, buys, qty, price, credit as int),
            present == known(old(self)@, who),
            final(self).wf(),
    {
        match self.position_of(who) {
            Some(i) => {
                self.accounts[i].trade(buys, qty, price, credit);
                assert(self@ =~= settle(old(self)@, who, buys, qty, price, credit as int));
                true
            },
            None => {
                assert(self@ =~= settle(old(self)@, who, buys, qty, price, credit as int));
                false
            },
        }
    }

    /// Sees to it that `who` has an account, and tells whether that account
    /// is a market maker's.
    pub fn touch(&mut self, who: Origin) -> (is_mm: bool)
        requires
            old(self).wf(),
        ensures
            final(self).wf(),
            final(self)@ == touched(old(self)@, who),
            known(final(self)@, who),
            is_mm == account_of(final(self)@, who).is_market_maker,
    {
        match self.get(who) {
            Some(c) => c.is_market_maker,
            None => {
                let ghost before = self@;
                let mut k: usize = 0;
                while k < self.accounts.len() && self.accounts[k].addr.precedes(&who)
                    invariant
                        k <= self@.len(),
                        self@ == before,
                        place(before, who, k as int) == place(before, who, 0),
                        forall|j: int| 0 <= j < k ==> (#[trigger] before[j]).addr.before(who),
                    decreases self@.len() - k,
                {
                    k += 1;
                }
                self.accounts.insert(k, Client::new(who));
                assert(self@[k as int].addr == who);
                assert forall|i: int, j: int| 0 <= i < j < self@.len() implies (#[trigger] self@[i]).addr.before(
                    (#[trigger] self@[j]).addr,
                ) by {
                    let a = if i < k { i } else { i - 1 };
                    let b = if j < k { j } else { j - 1 };
                    if i == k {
                        assert(before[b].addr != who);
                        assert(!before[k as int].addr.before(who));
                        if b > k {
                            assert(before[k as int].addr.before(before[b].addr));
                        }
                    } else if j == k {
                        assert(before[a].addr.before(who));
                    } else {
                        assert(before[a].addr.before(before[b].addr));
                    }
                }
                assert forall|i: int, j: int| 0 <= i < j < self@.len() implies (#[trigger] self@[i]).addr != (
                #[trigger] self@[j]).addr by {
                    assert(self@[i].addr.before(self@[j].addr));
                }
                assert forall|i: int| 0 <= i < self@.len() implies (#[trigger] self@[i]).is_market_maker == (
                self@[i].net_liquidity_contribution >= MAKER_CREDIT) by {
                    let a = if i < k { i } else { i - 1 };
                    if i != k {
                        assert(self@[i] == before[a]);
                    }
                }
                false
            },
        }
    }

    /// Closes the account of `who`, if there is one.
    pub fn remove(&mut self, who: Origin)
        requires
            old(self).wf(),
        ensures
            final(self).wf(),
            final(self)@ == closed(old(self)@, who),
            !known(final(self)@, who),
    {
        match self.position_of(who) {
            Some(i) => {
                self.accounts.remove(i);
                assert forall|j: int| 0 <= j < self@.len() implies (#[trigger] self@[j]).addr != who by {
                    if j < i {
                        assert(self@[j] == old(self)@[j]);
                    } else {
                        assert(self@[j] == old(self)@[j + 1]);
                    }
                }
            },
            None => {},
        }
    }

    /// Counts one more administrative cycle for every account.
    pub fn tick(&mut self)
        requires
            old(self).wf(),
        ensures
            final(self).wf(),
            final(self)@ == ticked(old(self)@),
    {
        let mut i: usize = 0;
        while i < self.accounts.len()
            invariant
                i <= self@.len(),
                self@.len() == old(self)@.len(),
                forall|j: int| 0 <= j < i ==> (#[trigger] self@[j]) == old(self)@[j].older(),
                forall|j: int| i <= j < self@.len() ==> (#[trigger] self@[j]) == old(self)@[j],
            decreases self@.len() - i,
        {
            self.accounts[i].cycles_present = count_plus(self.accounts[i].cycles_present, 1);
            i += 1;
        }
        assert(self@ =~= ticked(old(self)@));
    }
}

} // verus!
