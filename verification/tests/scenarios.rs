use market_maker::account::{Client, Clients};
use market_maker::book::OrderBook;
use market_maker::notice::{Notice, Outbound};
use market_maker::order::{LimitOrder, MarketOrder};
use market_maker::origin::Origin;

fn remote(n: u16) -> Origin {
    Origin { v6: false, ip: 0x0a00_0001, port: n }
}

#[test]
fn limit_buy_then_market_sell_fills_the_resting_bid() {
    let a = remote(1);
    let b = remote(2);
    let mut clients = Clients::new();
    assert!(!clients.touch(a));
    assert!(!clients.touch(b));
    clients.accounts[1].position = 5;
    let mut book = OrderBook::new();
    let mut out: Vec<Outbound> = Vec::new();

    let lmt = LimitOrder { lmt: 10.0f64.to_bits(), amount: 5 };
    assert_eq!(book.do_lmt(&clients, &mut out, a, lmt), Ok(()));
    assert_eq!(book.bids.len(), 1);
    assert_eq!(book.bids[0].price, 10000);
    assert_eq!(book.bids[0].entries.len(), 1);
    assert_eq!(book.bids[0].entries[0].amount, 5);
    let id = book.bids[0].entries[0].id;
    assert_eq!(id, 10000i64 << 24);
    assert_eq!(out, vec![Outbound { to: a, what: Notice::Accepted { order_id: id } }]);

    assert_eq!(book.do_mkt(&mut clients, &mut out, b, MarketOrder { amount: -5 }), Ok(()));
    let acc_a: Client = clients.get(a).unwrap();
    let acc_b: Client = clients.get(b).unwrap();
    assert_eq!(acc_b.position, 0);
    assert_eq!(acc_b.money, 10_000_000 + 50_000);
    assert_eq!(acc_a.money, 10_000_000 - 50_000);
    assert_eq!(acc_a.position, 5);
    assert_eq!(acc_a.net_liquidity_contribution, 1);
    assert_eq!(acc_b.net_liquidity_contribution, -1);
    assert_eq!(book.bids[0].entries[0].amount, 0);

    book.compact(&clients);
    assert!(book.bids.is_empty());
}
