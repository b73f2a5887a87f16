use market_maker::account::{Client, Clients};
use market_maker::book::{BookEntry, Level, OrderBook};
use market_maker::engine::{frame_notices, frame_reports, receive};
use market_maker::notice::{Notice, Outbound, Request};
use market_maker::order::{CancleOrder, HiddenOrder, LimitOrder, MarketOrder, Order};
use market_maker::origin::Origin;
use market_maker::snapshot::Quote;

fn far(n: u16) -> Origin {
    Origin { v6: false, ip: 0xc0a8_0001, port: n }
}

fn near(n: u16) -> Origin {
    Origin { v6: false, ip: 0x7f00_0001, port: n }
}

fn entry(owner: Origin, amount: u64, id: i64) -> BookEntry {
    BookEntry { client: owner, amount, id, cycles_present: 0 }
}

fn account(clients: &Clients, o: Origin) -> Client {
    clients.get(o).unwrap()
}

fn amounts(entries: &Vec<BookEntry>) -> Vec<u64> {
    entries.iter().map(|e| e.amount).collect()
}

#[test]
fn loopback_addresses_are_recognised() {
    assert!(Origin { v6: false, ip: 0x7f00_0001, port: 1 }.is_loopback());
    assert!(Origin { v6: false, ip: 0x7f00_0000, port: 1 }.is_loopback());
    assert!(Origin { v6: false, ip: 0x7fff_ffff, port: 1 }.is_loopback());
    assert!(!Origin { v6: false, ip: 0x7eff_ffff, port: 1 }.is_loopback());
    assert!(!Origin { v6: false, ip: 0x8000_0000, port: 1 }.is_loopback());
    assert!(!Origin { v6: false, ip: 1, port: 1 }.is_loopback());
    assert!(Origin { v6: true, ip: 1, port: 1 }.is_loopback());
    assert!(!Origin { v6: true, ip: 2, port: 1 }.is_loopback());
    assert!(!Origin { v6: true, ip: 0x7f00_0001, port: 1 }.is_loopback());
    assert!(!Origin { v6: true, ip: 0xffff_7f00_0001, port: 1 }.is_loopback());
}

#[test]
fn new_account_is_seeded_by_where_it_comes_from() {
    let c = Client::new(far(1));
    assert_eq!(
        c,
        Client {
            addr: far(1),
            money: 10_000_000,
            is_market_maker: false,
            net_liquidity_contribution: 0,
            position: 0,
            cycles_present: 0,
        }
    );
    assert_eq!(Client::new(near(1)).money, 1_000_000_000_000);
    assert_eq!(Client::new(Origin { v6: true, ip: 1, port: 3 }).money, 1_000_000_000_000);
}

#[test]
fn registry_stands_in_the_order_of_origins() {
    let six = |ip: u128, port: u16| Origin { v6: true, ip, port };
    let four = |ip: u128, port: u16| Origin { v6: false, ip, port };
    let mut clients = Clients::new();
    for o in [six(1, 9), four(0x0a00_0002, 7), four(0x0a00_0001, 9), six(0, 80), four(0x0a00_0001, 8), six(1, 3)] {
        assert!(!clients.touch(o));
        assert!(!clients.touch(o));
    }
    let order: Vec<Origin> = clients.accounts.iter().map(|c| c.addr).collect();
    assert_eq!(
        order,
        vec![four(0x0a00_0001, 8), four(0x0a00_0001, 9), four(0x0a00_0002, 7), six(0, 80), six(1, 3), six(1, 9)]
    );
    assert!(four(0xffff_ffff, 65535).precedes(&six(0, 0)));
    assert!(!six(0, 0).precedes(&four(0xffff_ffff, 65535)));
    assert!(four(1, 9).precedes(&four(2, 0)));
    assert!(four(1, 8).precedes(&four(1, 9)));
    assert!(!four(1, 9).precedes(&four(1, 9)));
    clients.remove(four(0x0a00_0001, 9));
    for c in clients.accounts.iter_mut() {
        c.money = 0;
    }
    let mut out = Vec::new();
    clients.evict(&mut out);
    let told: Vec<Origin> = out.iter().map(|n| n.to).collect();
    assert_eq!(told, vec![four(0x0a00_0001, 8), four(0x0a00_0002, 7), six(0, 80), six(1, 3), six(1, 9)]);
    assert!(clients.accounts.is_empty());
}

#[test]
fn registry_keeps_one_account_per_origin() {
    let mut clients = Clients::new();
    assert!(!clients.contains(far(1)));
    assert!(!clients.touch(far(1)));
    assert!(!clients.touch(far(2)));
    assert!(!clients.touch(far(1)));
    assert_eq!(clients.accounts.len(), 2);
    assert_eq!(clients.position_of(far(2)), Some(1));
    assert_eq!(clients.position_of(far(3)), None);
    clients.accounts[0].is_market_maker = true;
    clients.accounts[0].net_liquidity_contribution = 100;
    assert!(clients.touch(far(1)));
    clients.remove(far(1));
    assert!(!clients.contains(far(1)));
    assert!(clients.contains(far(2)));
    clients.remove(far(1));
    assert_eq!(clients.accounts.len(), 1);
    assert_eq!(clients.get(far(1)), None);
}

#[test]
fn account_of_a_known_origin_is_found() {
    let mut clients = Clients::new();
    clients.touch(far(1));
    clients.touch(near(2));
    clients.touch(far(3));
    clients.accounts[2].position = 8;
    assert_eq!(clients.account(far(1)), Client::new(far(1)));
    assert_eq!(clients.account(near(2)), Client::new(near(2)));
    assert_eq!(clients.account(far(3)).position, 8);
    assert_eq!(clients.get(far(3)), Some(clients.account(far(3))));
}

#[test]
fn trade_on_an_unknown_origin_changes_nothing() {
    let mut clients = Clients::new();
    clients.touch(far(1));
    let before = clients.accounts.clone();
    assert!(!clients.trade(far(2), true, 5, 1000, 1));
    assert_eq!(clients.accounts, before);
    assert!(clients.trade(far(1), true, 5, 1000, 1));
    assert_eq!(account(&clients, far(1)).money, 10_000_000 - 5000);
    assert_eq!(account(&clients, far(1)).position, 5);
    assert_eq!(account(&clients, far(1)).net_liquidity_contribution, 1);
}

#[test]
fn balances_saturate_at_the_ends_of_their_range() {
    let mut clients = Clients::new();
    clients.touch(far(1));
    clients.accounts[0].money = i128::MAX - 10;
    clients.accounts[0].position = i64::MIN + 1;
    clients.accounts[0].net_liquidity_contribution = i64::MAX;
    clients.accounts[0].is_market_maker = true;
    assert!(clients.trade(far(1), false, 7, 1000, 1));
    let c = account(&clients, far(1));
    assert_eq!(c.money, i128::MAX);
    assert_eq!(c.position, i64::MIN);
    assert_eq!(c.net_liquidity_contribution, i64::MAX);
    assert!(c.is_market_maker);
    clients.accounts[0].money = i128::MIN + 10;
    clients.accounts[0].position = i64::MAX;
    clients.accounts[0].net_liquidity_contribution = i64::MIN;
    clients.accounts[0].is_market_maker = false;
    assert!(clients.trade(far(1), true, u64::MAX, i64::MAX, -1));
    let c = account(&clients, far(1));
    assert_eq!(c.money, i128::MIN);
    assert_eq!(c.position, i64::MAX);
    assert_eq!(c.net_liquidity_contribution, i64::MIN);
}

#[test]
fn datagram_opens_an_account_and_is_decoded() {
    let mut clients = Clients::new();
    let mut buffer = [0u8; 2048];
    buffer[0] = 1;
    buffer[1..9].copy_from_slice(&(-3i64).to_le_bytes());
    let got = receive(&mut clients, far(1), &buffer, 9);
    assert_eq!(got, Some(Order::Market(MarketOrder { amount: -3 })));
    assert_eq!(clients.accounts, vec![Client::new(far(1))]);
    let got = receive(&mut clients, near(1), &buffer, 9);
    assert_eq!(got, Some(Order::Market(MarketOrder { amount: -3 })));
    assert_eq!(clients.accounts, vec![Client::new(near(1)), Client::new(far(1))]);
}

#[test]
fn datagram_is_decoded_no_further_than_it_came() {
    let mut clients = Clients::new();
    let mut buffer = [0u8; 2048];
    buffer[0] = 1;
    assert_eq!(receive(&mut clients, far(1), &buffer, 1), None);
    assert_eq!(receive(&mut clients, far(1), &buffer, 8), None);
    assert_eq!(receive(&mut clients, far(1), &buffer, 9), Some(Order::Market(MarketOrder { amount: 0 })));
    buffer[1..9].copy_from_slice(&77i64.to_le_bytes());
    buffer[9..17].copy_from_slice(&5i64.to_le_bytes());
    assert_eq!(receive(&mut clients, far(1), &buffer, 8), None);
    assert_eq!(receive(&mut clients, far(1), &buffer, 20), Some(Order::Market(MarketOrder { amount: 77 })));
    buffer[0] = 0;
    assert_eq!(receive(&mut clients, far(1), &buffer, 16), None);
    assert_eq!(
        receive(&mut clients, far(1), &buffer, 17),
        Some(Order::Lmt(LimitOrder { lmt: 77, amount: 5 }))
    );
    buffer[0] = 2;
    assert_eq!(receive(&mut clients, far(1), &buffer, 8), None);
    assert_eq!(receive(&mut clients, far(1), &buffer, 9), Some(Order::Cncl(CancleOrder { order_id: 77 })));
}

#[test]
fn empty_datagram_spells_no_request() {
    let mut clients = Clients::new();
    let zeros = [0u8; 2048];
    assert_eq!(receive(&mut clients, far(1), &zeros, 0), None);
    let mut bye = [0u8; 2048];
    bye[0] = 0x69;
    clients.touch(far(2));
    assert_eq!(receive(&mut clients, far(2), &bye, 0), None);
    assert!(clients.contains(far(2)));
    assert_eq!(receive(&mut clients, far(2), &bye, 1), None);
    assert!(!clients.contains(far(2)));
}

#[test]
fn datagram_that_spells_nothing_still_opens_an_account() {
    let mut clients = Clients::new();
    let mut buffer = [0u8; 2048];
    buffer[0] = 0x42;
    assert_eq!(receive(&mut clients, far(1), &buffer, 1), None);
    assert!(clients.contains(far(1)));
}

#[test]
fn hidden_order_is_taken_only_from_a_market_maker() {
    let mut clients = Clients::new();
    let mut buffer = [0u8; 2048];
    buffer[0] = 3;
    buffer[1..9].copy_from_slice(&4i64.to_le_bytes());
    buffer[9..17].copy_from_slice(&2.0f64.to_le_bytes());
    assert_eq!(receive(&mut clients, far(1), &buffer, 17), None);
    clients.accounts[0].net_liquidity_contribution = 100;
    clients.accounts[0].is_market_maker = true;
    assert_eq!(
        receive(&mut clients, far(1), &buffer, 17),
        Some(Order::Hidden(HiddenOrder { lmt: 2.0f64.to_bits(), amount: 4 }))
    );
}

#[test]
fn disconnect_tag_closes_the_account() {
    let mut clients = Clients::new();
    clients.touch(far(1));
    clients.touch(far(2));
    let mut buffer = [0u8; 2048];
    buffer[0] = 0x69;
    assert_eq!(receive(&mut clients, far(1), &buffer, 1), None);
    assert!(!clients.contains(far(1)));
    assert!(clients.contains(far(2)));
    assert_eq!(receive(&mut clients, far(3), &buffer, 1), None);
    assert!(!clients.contains(far(3)));
}

#[test]
fn datagram_that_fills_the_buffer_is_dropped() {
    let mut clients = Clients::new();
    let mut buffer = [0u8; 2048];
    buffer[0] = 1;
    assert_eq!(receive(&mut clients, far(1), &buffer, 2048), None);
    assert!(clients.accounts.is_empty());
    assert_eq!(receive(&mut clients, far(1), &[], 0), None);
    assert!(clients.accounts.is_empty());
}

#[test]
fn served_request_is_answered_with_the_rejection_of_its_kind() {
    let mut clients = Clients::new();
    clients.touch(far(1));
    let mut book = OrderBook::new();
    let mut out = Vec::new();
    let big = Order::Lmt(LimitOrder { lmt: 2.0f64.to_bits(), amount: 10000 });
    assert!(!book.serve(&mut clients, &mut out, far(1), big));
    let sell = Order::Market(MarketOrder { amount: -1 });
    assert!(!book.serve(&mut clients, &mut out, far(1), sell));
    let gone = Order::Cncl(CancleOrder { order_id: 5 });
    assert!(!book.serve(&mut clients, &mut out, far(1), gone));
    let hid = Order::Hidden(HiddenOrder { lmt: 0, amount: -1 });
    assert!(!book.serve(&mut clients, &mut out, far(1), hid));
    assert_eq!(
        out,
        vec![
            Outbound { to: far(1), what: Notice::Rejected { request: Request::Limit } },
            Outbound { to: far(1), what: Notice::Rejected { request: Request::Market } },
            Outbound { to: far(1), what: Notice::Rejected { request: Request::Cancel } },
            Outbound { to: far(1), what: Notice::Rejected { request: Request::Hidden } },
        ]
    );
    assert!(book.bids.is_empty() && book.asks.is_empty());
    assert_eq!(clients.accounts, vec![Client::new(far(1))]);
}

#[test]
fn served_request_that_is_accepted_gets_no_rejection() {
    let mut clients = Clients::new();
    clients.touch(far(1));
    let mut book = OrderBook::new();
    let mut out = Vec::new();
    let lim = Order::Lmt(LimitOrder { lmt: 2.0f64.to_bits(), amount: 2 });
    assert!(book.serve(&mut clients, &mut out, far(1), lim));
    let id = 2000 << 24;
    assert!(book.serve(&mut clients, &mut out, far(1), Order::Cncl(CancleOrder { order_id: id })));
    assert!(book.serve(&mut clients, &mut out, far(1), Order::Market(MarketOrder { amount: 1 })));
    assert_eq!(
        out,
        vec![
            Outbound { to: far(1), what: Notice::Accepted { order_id: id } },
            Outbound { to: far(1), what: Notice::Cancelled },
            Outbound { to: far(1), what: Notice::Filled { amount: 1, price: 1000 } },
        ]
    );
}

#[test]
fn account_with_cash_of_exactly_ten_is_evicted() {
    let mut clients = Clients::new();
    clients.touch(far(1));
    clients.touch(far(2));
    clients.accounts[0].money = 10_000;
    clients.accounts[0].position = 55;
    clients.accounts[0].net_liquidity_contribution = 500;
    clients.accounts[0].is_market_maker = true;
    clients.accounts[1].money = 10_001;
    let mut out = Vec::new();
    clients.evict(&mut out);
    assert_eq!(out, vec![Outbound { to: far(1), what: Notice::Disconnected }]);
    assert!(!clients.contains(far(1)));
    assert!(clients.contains(far(2)));
}

#[test]
fn winning_market_maker_is_rewarded_and_removed() {
    let mut clients = Clients::new();
    clients.touch(far(1));
    clients.accounts[0].money = 10_000_000_000;
    clients.accounts[0].net_liquidity_contribution = 100;
    clients.accounts[0].is_market_maker = true;
    let mut book = OrderBook::new();
    let mut out = Vec::new();
    book.cycle(&mut clients, &mut out);
    assert_eq!(out, vec![Outbound { to: far(1), what: Notice::Rewarded }]);
    assert!(clients.accounts.is_empty());
}

#[test]
fn target_is_not_won_from_loopback_or_without_the_flag() {
    let mut clients = Clients::new();
    clients.touch(near(1));
    clients.touch(far(2));
    clients.touch(far(3));
    for c in clients.accounts.iter_mut() {
        c.money = 20_000_000_000;
    }
    clients.accounts[0].net_liquidity_contribution = 100;
    clients.accounts[0].is_market_maker = true;
    clients.accounts[2].money = 9_999_999_999;
    clients.accounts[2].net_liquidity_contribution = 100;
    clients.accounts[2].is_market_maker = true;
    let mut out = Vec::new();
    clients.evict(&mut out);
    assert!(out.is_empty());
    assert_eq!(clients.accounts.len(), 3);
}

#[test]
fn account_that_stayed_too_long_is_evicted() {
    let mut clients = Clients::new();
    clients.touch(far(1));
    clients.touch(far(2));
    clients.touch(far(3));
    clients.accounts[0].cycles_present = 3600;
    clients.accounts[1].cycles_present = 3601;
    clients.accounts[2].cycles_present = 3601;
    clients.accounts[2].money = 10_000_000_000;
    clients.accounts[2].net_liquidity_contribution = 100;
    clients.accounts[2].is_market_maker = true;
    let mut out = Vec::new();
    clients.evict(&mut out);
    assert_eq!(
        out,
        vec![
            Outbound { to: far(2), what: Notice::Disconnected },
            Outbound { to: far(3), what: Notice::Rewarded },
        ]
    );
    assert_eq!(clients.accounts.len(), 1);
    assert_eq!(clients.accounts[0].addr, far(1));
}

#[test]
fn every_cycle_counts_on_every_account() {
    let mut clients = Clients::new();
    clients.touch(far(1));
    clients.touch(far(2));
    clients.accounts[1].cycles_present = i64::MAX;
    clients.tick();
    assert_eq!(clients.accounts[0].cycles_present, 1);
    assert_eq!(clients.accounts[1].cycles_present, i64::MAX);
    let mut book = OrderBook::new();
    let mut out = Vec::new();
    book.cycle(&mut clients, &mut out);
    assert_eq!(out, vec![Outbound { to: far(2), what: Notice::Disconnected }]);
    assert_eq!(clients.accounts.len(), 1);
    assert_eq!(clients.accounts[0].cycles_present, 2);
}

#[test]
fn sweep_crosses_a_shared_price_oldest_first() {
    let mut clients = Clients::new();
    for n in 1..=4 {
        clients.touch(far(n));
    }
    clients.accounts[2].position = 10;
    clients.accounts[3].position = 10;
    let mut book = OrderBook::new();
    let mut out = Vec::new();
    let lim = |amount, key: i64| LimitOrder { lmt: (key as f64 / 1000.0).to_bits(), amount };
    assert_eq!(book.do_lmt(&clients, &mut out, far(1), lim(5, 10000)), Ok(()));
    assert_eq!(book.do_lmt(&clients, &mut out, far(2), lim(4, 10000)), Ok(()));
    assert_eq!(book.do_lmt(&clients, &mut out, far(3), lim(-3, 10000)), Ok(()));
    assert_eq!(book.do_lmt(&clients, &mut out, far(4), lim(-4, 10000)), Ok(()));
    assert_eq!(book.do_lmt(&clients, &mut out, far(1), lim(1, 9000)), Ok(()));
    assert_eq!(book.do_lmt(&clients, &mut out, far(3), lim(-1, 11000)), Ok(()));
    out.clear();
    book.sweep(&mut clients, &mut out);
    assert_eq!(amounts(&book.bids[1].entries), vec![0, 2]);
    assert_eq!(amounts(&book.asks[0].entries), vec![0, 0]);
    assert_eq!(amounts(&book.bids[0].entries), vec![1]);
    assert_eq!(amounts(&book.asks[1].entries), vec![1]);
    let b1 = 10000 << 24;
    let b2 = (10000 << 24) | 1;
    let report = |to, order_id, amount| Outbound {
        to,
        what: Notice::Executed { order_id, amount, price: 10000 },
    };
    assert_eq!(
        out,
        vec![
            report(far(1), b1, 3),
            report(far(3), b1, 3),
            report(far(1), b1, 2),
            report(far(4), b1, 2),
            report(far(2), b2, 2),
            report(far(4), b2, 2),
        ]
    );
    let a1 = account(&clients, far(1));
    assert_eq!((a1.money, a1.position, a1.net_liquidity_contribution), (10_000_000 - 50_000, 5, 2));
    let a2 = account(&clients, far(2));
    assert_eq!((a2.money, a2.position, a2.net_liquidity_contribution), (10_000_000 - 20_000, 2, 1));
    let a3 = account(&clients, far(3));
    assert_eq!((a3.money, a3.position, a3.net_liquidity_contribution), (10_000_000 + 30_000, 7, 1));
    let a4 = account(&clients, far(4));
    assert_eq!((a4.money, a4.position, a4.net_liquidity_contribution), (10_000_000 + 40_000, 6, 2));
}

#[test]
fn sweep_passes_every_spent_ask_before_a_fill() {
    let mut clients = Clients::new();
    clients.touch(far(1));
    clients.touch(far(2));
    let mut book = OrderBook::new();
    book.bids.push(Level { price: 500, entries: vec![entry(far(1), 5, 1)] });
    book.asks.push(Level {
        price: 500,
        entries: vec![entry(far(2), 0, 2), entry(far(2), 0, 3), entry(far(2), 5, 4)],
    });
    let mut out = Vec::new();
    book.sweep(&mut clients, &mut out);
    assert_eq!(amounts(&book.bids[0].entries), vec![0]);
    assert_eq!(amounts(&book.asks[0].entries), vec![0, 0, 0]);
    let report = |to, amount| Outbound { to, what: Notice::Executed { order_id: 1, amount, price: 500 } };
    assert_eq!(out, vec![report(far(1), 5), report(far(2), 5)]);
    assert_eq!(account(&clients, far(1)).net_liquidity_contribution, 1);
    assert_eq!(account(&clients, far(2)).net_liquidity_contribution, 1);
    assert_eq!(account(&clients, far(1)).money, 10_000_000 - 2500);
    assert_eq!(account(&clients, far(2)).position, -5);
}

#[test]
fn sweep_of_spent_asks_only_settles_nothing() {
    let mut clients = Clients::new();
    clients.touch(far(1));
    clients.touch(far(2));
    let mut book = OrderBook::new();
    book.bids.push(Level { price: 500, entries: vec![entry(far(1), 0, 1), entry(far(1), 5, 2)] });
    book.asks.push(Level { price: 500, entries: vec![entry(far(2), 0, 3), entry(far(2), 0, 4)] });
    let before = clients.accounts.clone();
    let mut out = Vec::new();
    book.sweep(&mut clients, &mut out);
    assert!(out.is_empty());
    assert_eq!(clients.accounts, before);
    assert_eq!(amounts(&book.bids[0].entries), vec![0, 5]);
}

#[test]
fn sweep_leaves_a_price_key_when_the_asks_run_out() {
    let mut clients = Clients::new();
    clients.touch(far(1));
    clients.touch(far(2));
    let mut book = OrderBook::new();
    book.bids.push(Level { price: 500, entries: vec![entry(far(1), 5, 1), entry(far(1), 6, 2)] });
    book.asks.push(Level { price: 500, entries: vec![entry(far(2), 2, 3)] });
    book.asks.push(Level { price: 600, entries: vec![entry(far(2), 9, 4)] });
    let mut out = Vec::new();
    book.sweep(&mut clients, &mut out);
    assert_eq!(amounts(&book.bids[0].entries), vec![3, 6]);
    assert_eq!(amounts(&book.asks[0].entries), vec![0]);
    assert_eq!(amounts(&book.asks[1].entries), vec![9]);
    assert_eq!(out.len(), 2);
}

#[test]
fn sweep_and_compaction_leave_no_price_on_both_sides() {
    let mut clients = Clients::new();
    clients.touch(far(1));
    clients.touch(far(2));
    let mut book = OrderBook::new();
    for (k, p) in [100i64, 200, 300, 400].iter().enumerate() {
        book.bids.push(Level { price: *p, entries: vec![entry(far(1), 3 + k as u64, k as i64)] });
    }
    for (k, p) in [200i64, 300, 400, 500].iter().enumerate() {
        book.asks.push(Level { price: *p, entries: vec![entry(far(2), 6 - k as u64, 10 + k as i64)] });
    }
    let mut out = Vec::new();
    book.sweep(&mut clients, &mut out);
    book.compact(&clients);
    let bids: Vec<(i64, Vec<u64>)> = book.bids.iter().map(|l| (l.price, amounts(&l.entries))).collect();
    let asks: Vec<(i64, Vec<u64>)> = book.asks.iter().map(|l| (l.price, amounts(&l.entries))).collect();
    assert_eq!(bids, vec![(100, vec![3]), (400, vec![2])]);
    assert_eq!(asks, vec![(200, vec![2]), (500, vec![3])]);
    for b in book.bids.iter() {
        assert!(book.asks.iter().all(|a| a.price != b.price));
    }
}

#[test]
fn compaction_drops_spent_orders_orphans_and_empty_levels() {
    let mut clients = Clients::new();
    clients.touch(far(1));
    let mut book = OrderBook::new();
    book.bids.push(Level { price: 100, entries: vec![entry(far(1), 0, 1), entry(far(9), 4, 2)] });
    book.bids.push(Level {
        price: 200,
        entries: vec![entry(far(1), 3, 3), entry(far(1), 0, 4), entry(far(1), 2, 5), entry(far(9), 1, 6)],
    });
    book.bids.push(Level { price: 300, entries: vec![] });
    book.asks.push(Level { price: 400, entries: vec![entry(far(1), 1, 7)] });
    book.inc_id = 8;
    book.compact(&clients);
    assert_eq!(book.bids.len(), 1);
    assert_eq!(book.bids[0].price, 200);
    assert_eq!(book.bids[0].entries, vec![entry(far(1), 3, 3), entry(far(1), 2, 5)]);
    assert_eq!(book.asks.len(), 1);
    assert_eq!(book.asks[0].entries, vec![entry(far(1), 1, 7)]);
    assert_eq!(book.inc_id, 8);
}

#[test]
fn snapshot_shows_best_levels_first_and_ages_every_order() {
    let mut book = OrderBook::new();
    book.bids.push(Level { price: 100, entries: vec![entry(far(1), 3, 1)] });
    book.bids.push(Level { price: 200, entries: vec![entry(far(1), 4, 2), entry(far(2), 5, 3)] });
    book.asks.push(Level { price: 300, entries: vec![entry(far(1), 6, 4)] });
    book.asks.push(Level { price: 400, entries: vec![] });
    book.asks[0].entries[0].cycles_present = u64::MAX;
    let (bids, asks) = book.snapshot();
    assert_eq!(bids, vec![Quote { price: 200, volume: 9 }, Quote { price: 100, volume: 3 }]);
    assert_eq!(asks, vec![Quote { price: 300, volume: 6 }, Quote { price: 400, volume: 0 }]);
    assert_eq!(book.bids[0].entries[0].cycles_present, 1);
    assert_eq!(book.bids[1].entries[1].cycles_present, 1);
    assert_eq!(book.asks[0].entries[0].cycles_present, u64::MAX);
    assert_eq!(amounts(&book.bids[1].entries), vec![4, 5]);
}

#[test]
fn snapshot_shows_a_limited_depth_and_a_saturated_volume() {
    let mut book = OrderBook::new();
    for p in 0..200i64 {
        book.bids.push(Level { price: p, entries: vec![entry(far(1), 1, p)] });
        book.asks.push(Level { price: 1000 + p, entries: vec![entry(far(1), 2, p)] });
    }
    book.asks[0].entries.push(entry(far(1), u64::MAX, 0));
    let (bids, asks) = book.snapshot();
    assert_eq!(bids.len(), 127);
    assert_eq!(asks.len(), 127);
    assert_eq!(bids[0], Quote { price: 199, volume: 1 });
    assert_eq!(bids[126], Quote { price: 73, volume: 1 });
    assert_eq!(asks[0], Quote { price: 1000, volume: u64::MAX });
    assert_eq!(asks[126], Quote { price: 1126, volume: 2 });
    assert_eq!(book.bids[0].entries[0].cycles_present, 1);
    assert_eq!(book.asks[199].entries[0].cycles_present, 1);
}

#[test]
fn cycle_evicts_sweeps_compacts_and_reports() {
    let mut clients = Clients::new();
    for n in 1..=3 {
        clients.touch(far(n));
    }
    clients.accounts[1].position = 10;
    let mut book = OrderBook::new();
    let mut out = Vec::new();
    let lim = |amount, key: i64| LimitOrder { lmt: (key as f64 / 1000.0).to_bits(), amount };
    assert_eq!(book.do_lmt(&clients, &mut out, far(1), lim(5, 10000)), Ok(()));
    assert_eq!(book.do_lmt(&clients, &mut out, far(2), lim(-3, 10000)), Ok(()));
    assert_eq!(book.do_lmt(&clients, &mut out, far(3), lim(7, 9000)), Ok(()));
    assert_eq!(book.do_lmt(&clients, &mut out, far(2), lim(-1, 12000)), Ok(()));
    clients.accounts[2].money = 5;
    out.clear();
    let (bids, asks) = book.cycle(&mut clients, &mut out);
    let id = 10000 << 24;
    assert_eq!(
        out,
        vec![
            Outbound { to: far(3), what: Notice::Disconnected },
            Outbound { to: far(1), what: Notice::Executed { order_id: id, amount: 3, price: 10000 } },
            Outbound { to: far(2), what: Notice::Executed { order_id: id, amount: 3, price: 10000 } },
        ]
    );
    assert_eq!(bids, vec![Quote { price: 10000, volume: 2 }]);
    assert_eq!(asks, vec![Quote { price: 12000, volume: 1 }]);
    assert_eq!(book.bids.len(), 1);
    assert_eq!(book.bids[0].entries, vec![BookEntry { client: far(1), amount: 2, id, cycles_present: 1 }]);
    assert_eq!(book.asks.len(), 1);
    assert_eq!(book.asks[0].entries[0].cycles_present, 1);
    assert_eq!(clients.accounts.len(), 2);
    assert_eq!(clients.accounts[0].cycles_present, 1);
    assert_eq!(clients.accounts[0].position, 3);
    assert_eq!(clients.accounts[1].position, 7);
    assert_eq!(clients.accounts[1].money, 10_000_000 + 30_000);
}

#[test]
fn notices_are_framed_for_their_origins() {
    let out = vec![
        Outbound { to: far(1), what: Notice::Cancelled },
        Outbound { to: far(2), what: Notice::Filled { amount: 2, price: 1500 } },
        Outbound { to: far(3), what: Notice::Rewarded },
    ];
    let list = frame_notices(&out);
    assert_eq!(list.len(), 3);
    assert_eq!((list[0].to, list[0].bytes.clone()), (far(1), vec![0xe0]));
    let mut fill = vec![1u8, 2];
    fill.extend_from_slice(&2i64.to_le_bytes());
    fill.extend_from_slice(&1.5f64.to_le_bytes());
    assert_eq!((list[1].to, list[1].bytes.clone()), (far(2), fill));
    assert_eq!((list[2].to, list[2].bytes.clone()), (far(3), Vec::new()));
    assert!(frame_notices(&Vec::new()).is_empty());
}

#[test]
fn every_account_is_sent_the_book_and_its_own_state() {
    let mut clients = Clients::new();
    clients.touch(far(1));
    clients.touch(near(2));
    clients.accounts[0].position = 3;
    let bids = vec![Quote { price: 9000, volume: 4 }];
    let asks = vec![Quote { price: 11000, volume: 6 }];
    let list = frame_reports(&clients, &bids, &asks);
    assert_eq!(list.len(), 4);
    let to: Vec<Origin> = list.iter().map(|d| d.to).collect();
    assert_eq!(to, vec![near(2), near(2), far(1), far(1)]);
    assert_eq!(list[0].bytes.len(), 4096);
    assert_eq!(list[0].bytes, list[2].bytes);
    assert_eq!(list[0].bytes[0], 0xc1);
    assert_eq!(&list[0].bytes[1..9], &9.0f64.to_le_bytes());
    assert_eq!(&list[0].bytes[9..17], &4i64.to_le_bytes());
    assert_eq!(&list[0].bytes[0x801..0x809], &11.0f64.to_le_bytes());
    assert_eq!(list[1].bytes, clients.accounts[0].to_bytes().to_vec());
    assert_eq!(list[3].bytes, clients.accounts[1].to_bytes().to_vec());
    assert_eq!(&list[1].bytes[1..9], &1e9f64.to_le_bytes());
    assert_eq!(&list[3].bytes[1..9], &10000.0f64.to_le_bytes());
    assert_eq!(&list[1].bytes[17..25], &3i64.to_le_bytes());
    assert_eq!(&list[3].bytes[17..25], &0i64.to_le_bytes());
    assert!(frame_reports(&Clients::new(), &bids, &asks).is_empty());
}
