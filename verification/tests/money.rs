use market_maker::account::{Client, Clients};
use market_maker::book::{BookEntry, Level};
use market_maker::cancel::withdraw;
use market_maker::compact::{compact_side, purge_queue};
use market_maker::limit::rest_entry;
use market_maker::matching::{fill_down, fill_queue, fill_up, FillRule};
use market_maker::money::{
    abs_qty, cash_minus, cash_plus, count_plus, notional, signed_notional, units_minus, units_plus,
};
use market_maker::notice::{Notice, Outbound};
use market_maker::origin::Origin;
use market_maker::snapshot::{age_queue, age_side, quote_asks, quote_bids, volume, Quote};
use market_maker::sweep::{cross_queues, find_level};

fn at(n: u16) -> Origin {
    Origin { v6: true, ip: 0x2001_0db8 << 96, port: n }
}

fn entry(owner: Origin, amount: u64, id: i64) -> BookEntry {
    BookEntry { client: owner, amount, id, cycles_present: 0 }
}

fn two_accounts() -> Clients {
    let mut clients = Clients::new();
    clients.touch(at(1));
    clients.touch(at(2));
    clients
}

#[test]
fn size_of_a_signed_quantity() {
    assert_eq!(abs_qty(0), 0);
    assert_eq!(abs_qty(5), 5);
    assert_eq!(abs_qty(-5), 5);
    assert_eq!(abs_qty(i64::MAX), i64::MAX as u64);
    assert_eq!(abs_qty(i64::MIN), 1 << 63);
}

#[test]
fn cost_is_quantity_times_price_key() {
    assert_eq!(notional(5, 10000), 50_000);
    assert_eq!(notional(0, 10000), 0);
    assert_eq!(notional(3, -7), -21);
    assert_eq!(notional(u64::MAX, i64::MAX), u64::MAX as i128 * i64::MAX as i128);
    assert_eq!(notional(u64::MAX, i64::MIN), u64::MAX as i128 * i64::MIN as i128);
    assert_eq!(signed_notional(10000, -5), -50_000);
    assert_eq!(signed_notional(i64::MIN, i64::MIN), 1 << 126);
    assert_eq!(signed_notional(i64::MAX, i64::MIN), i64::MAX as i128 * i64::MIN as i128);
}

#[test]
fn balances_add_and_saturate() {
    assert_eq!(cash_plus(10, 5), 15);
    assert_eq!(cash_plus(10, -25), -15);
    assert_eq!(cash_plus(i128::MAX, 1), i128::MAX);
    assert_eq!(cash_plus(i128::MIN, -1), i128::MIN);
    assert_eq!(cash_minus(10, 25), -15);
    assert_eq!(cash_minus(i128::MIN, 1), i128::MIN);
    assert_eq!(cash_minus(i128::MAX, -1), i128::MAX);
    assert_eq!(cash_minus(0, i128::MIN), i128::MAX);
    assert_eq!(units_plus(5, 7), 12);
    assert_eq!(units_plus(-5, u64::MAX), i64::MAX);
    assert_eq!(units_plus(i64::MIN, u64::MAX), i64::MAX);
    assert_eq!(units_plus(i64::MIN, 1 << 63), 0);
    assert_eq!(units_minus(5, 7), -2);
    assert_eq!(units_minus(5, u64::MAX), i64::MIN);
    assert_eq!(units_minus(i64::MAX, u64::MAX), i64::MIN);
    assert_eq!(units_minus(-1, (1 << 63) - 1), i64::MIN);
    assert_eq!(count_plus(0, 1), 1);
    assert_eq!(count_plus(0, -1), -1);
    assert_eq!(count_plus(7, 0), 7);
    assert_eq!(count_plus(i64::MAX, 1), i64::MAX);
    assert_eq!(count_plus(i64::MIN, -1), i64::MIN);
}

#[test]
fn account_trades_as_buyer_and_as_seller() {
    let mut c = Client::new(at(1));
    c.trade(true, 4, 2500, 1);
    assert_eq!((c.money, c.position, c.net_liquidity_contribution), (10_000_000 - 10_000, 4, 1));
    c.trade(false, 1, 3000, -1);
    assert_eq!((c.money, c.position, c.net_liquidity_contribution), (10_000_000 - 7_000, 3, 0));
    c.trade(false, 0, 3000, 0);
    assert_eq!((c.money, c.position, c.net_liquidity_contribution), (10_000_000 - 7_000, 3, 0));
    assert!(!c.is_market_maker);
}

#[test]
fn order_is_put_to_rest_where_its_price_key_belongs() {
    let mut side: Vec<Level> = Vec::new();
    rest_entry(&mut side, 50, entry(at(1), 1, 1));
    rest_entry(&mut side, 30, entry(at(1), 2, 2));
    rest_entry(&mut side, 40, entry(at(1), 3, 3));
    rest_entry(&mut side, 60, entry(at(1), 4, 4));
    rest_entry(&mut side, 40, entry(at(2), 5, 5));
    rest_entry(&mut side, -10, entry(at(2), 6, 6));
    let got: Vec<(i64, Vec<i64>)> =
        side.iter().map(|l| (l.price, l.entries.iter().map(|e| e.id).collect())).collect();
    assert_eq!(
        got,
        vec![(-10, vec![6]), (30, vec![2]), (40, vec![3, 5]), (50, vec![1]), (60, vec![4])]
    );
    assert_eq!(find_level(&side, 40), 2);
    assert_eq!(find_level(&side, -10), 0);
    assert_eq!(find_level(&side, 45), 5);
}

#[test]
fn order_is_withdrawn_by_identifier_and_owner() {
    let mut side = vec![
        Level { price: 30, entries: vec![entry(at(1), 2, 7)] },
        Level { price: 40, entries: vec![entry(at(1), 3, 8), entry(at(2), 5, 7), entry(at(2), 6, 7)] },
    ];
    assert!(!withdraw(&mut side, 40, 9, at(2)));
    assert!(!withdraw(&mut side, 40, 8, at(2)));
    assert!(!withdraw(&mut side, 50, 7, at(2)));
    assert!(!withdraw(&mut side, 30, 7, at(2)));
    assert!(withdraw(&mut side, 40, 7, at(2)));
    assert_eq!(side[1].entries, vec![entry(at(1), 3, 8), entry(at(2), 6, 7)]);
    assert_eq!(side[0].entries.len(), 1);
}

#[test]
fn queue_is_filled_oldest_first() {
    let mut clients = two_accounts();
    let mut out = Vec::new();
    let mut queue = vec![entry(at(1), 3, 1), entry(at(1), 0, 2), entry(at(1), 4, 3)];
    let rule = FillRule { maker_buys: true, taker_buys: false, taker_penalised: true };
    let left = fill_queue(&mut queue, 700, rule, at(2), &mut clients, &mut out, 5);
    assert_eq!(left, (0, true));
    assert_eq!(queue, vec![entry(at(1), 0, 1), entry(at(1), 0, 2), entry(at(1), 2, 3)]);
    assert_eq!(out.len(), 4);
    assert_eq!(out[2], Outbound { to: at(1), what: Notice::Executed { order_id: 3, amount: 2, price: 700 } });
    let left = fill_queue(&mut queue, 700, rule, at(2), &mut clients, &mut out, 5);
    assert_eq!(left, (3, false));
    assert_eq!(clients.account(at(1)).position, 7);
    assert_eq!(clients.account(at(2)).position, -7);
    assert_eq!(clients.account(at(2)).net_liquidity_contribution, -3);
}

#[test]
fn side_is_filled_from_either_end() {
    let levels = || {
        vec![
            Level { price: 100, entries: vec![entry(at(1), 2, 1)] },
            Level { price: 200, entries: vec![entry(at(1), 2, 2)] },
            Level { price: 300, entries: vec![entry(at(1), 2, 3)] },
        ]
    };
    let rule = FillRule { maker_buys: false, taker_buys: true, taker_penalised: false };
    let mut clients = two_accounts();
    let mut out = Vec::new();
    let mut side = levels();
    assert_eq!(fill_down(&mut side, rule, at(2), &mut clients, &mut out, 3), (0, true));
    let left: Vec<u64> = side.iter().map(|l| l.entries[0].amount).collect();
    assert_eq!(left, vec![2, 1, 0]);
    assert_eq!(clients.account(at(2)).money, 10_000_000 - 600 - 200);
    let mut side = levels();
    assert_eq!(fill_up(&mut side, rule, at(2), &mut clients, &mut out, 7), (1, false));
    let left: Vec<u64> = side.iter().map(|l| l.entries[0].amount).collect();
    assert_eq!(left, vec![0, 0, 0]);
    assert_eq!(clients.account(at(2)).money, 10_000_000 - 800 - 1200);
    assert_eq!(clients.account(at(2)).net_liquidity_contribution, 0);
}

#[test]
fn queues_of_one_price_are_crossed() {
    let mut clients = two_accounts();
    let mut out = Vec::new();
    let mut bids = vec![entry(at(1), 3, 1), entry(at(1), 3, 2)];
    let mut asks = vec![entry(at(2), 4, 3)];
    cross_queues(&mut bids, &mut asks, 900, &mut clients, &mut out);
    assert_eq!(bids, vec![entry(at(1), 0, 1), entry(at(1), 2, 2)]);
    assert_eq!(asks, vec![entry(at(2), 0, 3)]);
    assert_eq!(clients.account(at(1)).money, 10_000_000 - 3600);
    assert_eq!(clients.account(at(2)).money, 10_000_000 + 3600);
    assert_eq!(clients.account(at(1)).net_liquidity_contribution, 2);
    assert_eq!(clients.account(at(2)).net_liquidity_contribution, 2);
    assert_eq!(out.len(), 4);
    assert_eq!(out[3], Outbound { to: at(2), what: Notice::Executed { order_id: 2, amount: 1, price: 900 } });
}

#[test]
fn queue_and_side_are_purged() {
    let clients = two_accounts();
    let queue = vec![entry(at(1), 3, 1), entry(at(9), 3, 2), entry(at(2), 0, 3), entry(at(2), 1, 4)];
    assert_eq!(purge_queue(&queue, &clients), vec![entry(at(1), 3, 1), entry(at(2), 1, 4)]);
    assert_eq!(purge_queue(&Vec::new(), &clients), Vec::new());
    let mut side = vec![
        Level { price: 1, entries: vec![entry(at(9), 3, 1)] },
        Level { price: 2, entries: queue },
        Level { price: 3, entries: vec![] },
    ];
    compact_side(&mut side, &clients);
    assert_eq!(side.len(), 1);
    assert_eq!(side[0].price, 2);
    assert_eq!(side[0].entries.len(), 2);
}

#[test]
fn quantities_at_rest_are_summed_and_orders_aged() {
    let mut queue = vec![entry(at(1), 3, 1), entry(at(1), 4, 2)];
    assert_eq!(volume(&queue), 7);
    assert_eq!(volume(&Vec::new()), 0);
    age_queue(&mut queue);
    age_queue(&mut queue);
    assert_eq!(queue[0].cycles_present, 2);
    assert_eq!(queue[1].cycles_present, 2);
    let mut side = vec![Level { price: 5, entries: queue }, Level { price: 6, entries: vec![entry(at(1), 9, 3)] }];
    age_side(&mut side);
    assert_eq!(side[0].entries[1].cycles_present, 3);
    assert_eq!(side[1].entries[0].cycles_present, 1);
    assert_eq!(quote_bids(&side), vec![Quote { price: 6, volume: 9 }, Quote { price: 5, volume: 7 }]);
    assert_eq!(quote_asks(&side), vec![Quote { price: 5, volume: 7 }, Quote { price: 6, volume: 9 }]);
}
