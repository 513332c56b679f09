use matching_engine::fill::Fill;
use matching_engine::limit::Limit;
use matching_engine::order::{BidOrAsk, Order};
use matching_engine::price::Price;
use rust_decimal::Decimal;

fn ten_thousand() -> Price {
    Price::new(Decimal::from_str_exact("10000.0").unwrap()).unwrap()
}

fn sizes(limit: &Limit) -> Vec<u64> {
    limit.orders().iter().map(|order| order.size()).collect()
}

fn trades(fills: &[Fill]) -> Vec<(u64, u64)> {
    fills.iter().map(|fill| (fill.counterparty_order_id, fill.quantity)).collect()
}

#[test]
fn total_volume() {
    let price = Price::new(Decimal::from_str_exact("10000.0").unwrap()).unwrap();
    let mut limit = Limit::new(price);
    let buy_limit_order_a = Order::new(BidOrAsk::Bid, 100).unwrap();
    let buy_limit_order_b = Order::new(BidOrAsk::Bid, 100).unwrap();

    limit.add_order(buy_limit_order_a);
    limit.add_order(buy_limit_order_b);

    assert_eq!(limit.total_volume(), 200);
}

#[test]
fn limit_order_single_fill() {
    let price = Price::new(Decimal::from_str_exact("10000.0").unwrap()).unwrap();
    let mut limit = Limit::new(price);
    let buy_limit_order = Order::new(BidOrAsk::Bid, 100).unwrap();

    limit.add_order(buy_limit_order);

    let mut market_sell_order = Order::new(BidOrAsk::Ask, 90).unwrap();
    limit.fill_order(&mut market_sell_order);

    assert!(market_sell_order.is_filled());
    assert_eq!(limit.orders().get(0).unwrap().size(), 10);
}

#[test]
fn limit_order_multi_fill() {
    let price = Price::new(Decimal::from_str_exact("10000.0").unwrap()).unwrap();
    let mut limit = Limit::new(price);
    let buy_limit_order_a = Order::new(BidOrAsk::Bid, 100).unwrap();
    let buy_limit_order_b = Order::new(BidOrAsk::Bid, 100).unwrap();

    limit.add_order(buy_limit_order_a);
    limit.add_order(buy_limit_order_b);

    let mut market_sell_order = Order::new(BidOrAsk::Ask, 170).unwrap();
    limit.fill_order(&mut market_sell_order);

    assert!(market_sell_order.is_filled());
    assert_eq!(limit.orders().len(), 1);
    assert_eq!(limit.orders().get(0).unwrap().size(), 30);
}

#[test]
fn total_volume_of_empty_level_is_zero() {
    let limit = Limit::new(ten_thousand());
    assert!(limit.is_empty());
    assert_eq!(limit.len(), 0);
    assert_eq!(limit.total_volume(), 0);
}

#[test]
fn total_volume_does_not_overflow() {
    let mut limit = Limit::new(ten_thousand());
    limit.add_order(Order::new(BidOrAsk::Bid, u64::MAX).unwrap());
    limit.add_order(Order::new(BidOrAsk::Bid, u64::MAX).unwrap());
    assert_eq!(limit.total_volume(), 2 * (u64::MAX as u128));
}

#[test]
fn level_keeps_its_price() {
    let price = ten_thousand();
    let limit = Limit::new(price);
    assert_eq!(limit.price(), price);
    assert_eq!(limit.price().integral(), 10000);
    assert_eq!(limit.price().fractional(), 0);
}

#[test]
fn fifo_priority_at_one_level() {
    let mut limit = Limit::new(ten_thousand());
    limit.add_order(Order::with_id(1, BidOrAsk::Bid, 100).unwrap());
    limit.add_order(Order::with_id(2, BidOrAsk::Bid, 50).unwrap());
    limit.add_order(Order::with_id(3, BidOrAsk::Bid, 30).unwrap());

    let mut incoming = Order::with_id(9, BidOrAsk::Ask, 120).unwrap();
    let fills = limit.fill_order(&mut incoming);

    assert!(incoming.is_filled());
    assert_eq!(sizes(&limit), vec![30, 30]);
    let ids: Vec<u64> = limit.orders().iter().map(|order| order.id()).collect();
    assert_eq!(ids, vec![2, 3]);
    assert_eq!(trades(&fills), vec![(1, 100), (2, 20)]);
    assert!(fills.iter().all(|fill| fill.price == ten_thousand()));
}

#[test]
fn fill_order_that_uses_up_the_level() {
    let mut limit = Limit::new(ten_thousand());
    limit.add_order(Order::with_id(1, BidOrAsk::Bid, 100).unwrap());
    limit.add_order(Order::with_id(2, BidOrAsk::Bid, 50).unwrap());

    let mut incoming = Order::with_id(9, BidOrAsk::Ask, 170).unwrap();
    let fills = limit.fill_order(&mut incoming);

    assert!(!incoming.is_filled());
    assert_eq!(incoming.size(), 20);
    assert!(limit.is_empty());
    assert_eq!(limit.len(), 0);
    assert_eq!(limit.total_volume(), 0);
    assert_eq!(trades(&fills), vec![(1, 100), (2, 50)]);
}

#[test]
fn fill_order_conserves_volume() {
    let mut limit = Limit::new(ten_thousand());
    limit.add_order(Order::with_id(1, BidOrAsk::Ask, 7).unwrap());
    limit.add_order(Order::with_id(2, BidOrAsk::Ask, 11).unwrap());
    limit.add_order(Order::with_id(3, BidOrAsk::Ask, 13).unwrap());
    let before = limit.total_volume();

    let mut incoming = Order::with_id(9, BidOrAsk::Bid, 12).unwrap();
    let fills = limit.fill_order(&mut incoming);
    let matched: u128 = fills.iter().map(|fill| fill.quantity as u128).sum();

    assert_eq!(matched, 12);
    assert_eq!(before, limit.total_volume() + matched);
    assert_eq!(trades(&fills), vec![(1, 7), (2, 5)]);
}

#[test]
fn filled_orders_leave_the_queue_in_the_same_pass() {
    let mut limit = Limit::new(ten_thousand());
    limit.add_order(Order::with_id(1, BidOrAsk::Bid, 100).unwrap());
    limit.add_order(Order::with_id(2, BidOrAsk::Bid, 100).unwrap());

    let mut first = Order::with_id(8, BidOrAsk::Ask, 170).unwrap();
    limit.fill_order(&mut first);
    assert_eq!(sizes(&limit), vec![30]);
    assert!(limit.orders().iter().all(|order| !order.is_filled()));

    let mut second = Order::with_id(9, BidOrAsk::Ask, 10).unwrap();
    let fills = limit.fill_order(&mut second);
    assert_eq!(sizes(&limit), vec![20]);
    assert_eq!(trades(&fills), vec![(2, 10)]);
}

#[test]
fn fill_order_with_exactly_the_first_order() {
    let mut limit = Limit::new(ten_thousand());
    limit.add_order(Order::with_id(1, BidOrAsk::Bid, 40).unwrap());
    limit.add_order(Order::with_id(2, BidOrAsk::Bid, 60).unwrap());

    let mut incoming = Order::with_id(9, BidOrAsk::Ask, 40).unwrap();
    let fills = limit.fill_order(&mut incoming);

    assert!(incoming.is_filled());
    assert_eq!(trades(&fills), vec![(1, 40)]);
    assert_eq!(sizes(&limit), vec![60]);
    assert_eq!(limit.orders().get(0).unwrap().id(), 2);
}

#[test]
fn prune_drops_filled_orders_only() {
    let mut spent = Order::with_id(1, BidOrAsk::Bid, 5).unwrap();
    spent.reduce(5);
    let mut limit = Limit::new(ten_thousand());
    limit.add_order(spent);
    limit.add_order(Order::with_id(2, BidOrAsk::Bid, 6).unwrap());
    limit.add_order(Order::with_id(3, BidOrAsk::Bid, 7).unwrap());
    assert_eq!(limit.len(), 3);

    limit.prune();

    let ids: Vec<u64> = limit.orders().iter().map(|order| order.id()).collect();
    assert_eq!(ids, vec![2, 3]);
    assert_eq!(sizes(&limit), vec![6, 7]);
}

#[test]
fn fill_order_skips_an_order_that_was_added_filled() {
    let mut spent = Order::with_id(1, BidOrAsk::Bid, 5).unwrap();
    spent.reduce(5);
    let mut limit = Limit::new(ten_thousand());
    limit.add_order(spent);
    limit.add_order(Order::with_id(2, BidOrAsk::Bid, 6).unwrap());

    let mut incoming = Order::with_id(9, BidOrAsk::Ask, 4).unwrap();
    let fills = limit.fill_order(&mut incoming);

    assert_eq!(trades(&fills), vec![(2, 4)]);
    assert_eq!(sizes(&limit), vec![2]);
}

#[test]
fn find_and_remove_order_by_id() {
    let mut limit = Limit::new(ten_thousand());
    limit.add_order(Order::with_id(4, BidOrAsk::Bid, 5).unwrap());
    limit.add_order(Order::with_id(7, BidOrAsk::Bid, 6).unwrap());
    limit.add_order(Order::with_id(7, BidOrAsk::Bid, 8).unwrap());

    assert_eq!(limit.find_order(7), Some(1));
    assert_eq!(limit.find_order(5), None);

    let removed = limit.remove_order(7).unwrap();
    assert_eq!(removed.size(), 6);
    assert_eq!(sizes(&limit), vec![5, 8]);
    assert!(limit.remove_order(5).is_none());
    assert_eq!(sizes(&limit), vec![5, 8]);
}
