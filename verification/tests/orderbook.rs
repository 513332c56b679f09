use matching_engine::fill::FillOutcome;
use matching_engine::limit::Limit;
use matching_engine::order::{BidOrAsk, Order};
use matching_engine::orderbook::Orderbook;
use matching_engine::price::Price;
use rust_decimal::Decimal;
use std::collections::VecDeque;

fn price(text: &str) -> Price {
    Price::new(Decimal::from_str_exact(text).unwrap()).unwrap()
}

fn order(id: u64, side: BidOrAsk, size: u64) -> Order {
    Order::with_id(id, side, size).unwrap()
}

fn trades(outcome: &FillOutcome) -> Vec<(u64, Price, u64)> {
    outcome.fills.iter().map(|f| (f.counterparty_order_id, f.price, f.quantity)).collect()
}

fn shape(levels: &VecDeque<Limit>) -> Vec<(Price, Vec<(u64, u64)>)> {
    levels
        .iter()
        .map(|l| (l.price(), l.orders().iter().map(|o| (o.id(), o.size())).collect()))
        .collect()
}

fn depth(levels: &VecDeque<Limit>) -> u128 {
    levels.iter().map(|l| l.total_volume()).sum()
}

#[test]
fn empty_book_has_no_best_price() {
    let book = Orderbook::new();
    assert_eq!(book.best_bid(), None);
    assert_eq!(book.best_ask(), None);
    assert!(book.bid_limits().is_empty());
    assert!(book.ask_limits().is_empty());
}

#[test]
fn resting_orders_share_a_level_in_arrival_order() {
    let mut book = Orderbook::new();
    book.add_order(price("4.4"), order(1, BidOrAsk::Bid, 345));
    book.add_order(price("4.4"), order(2, BidOrAsk::Bid, 345));
    let outcome = book.add_order(price("4.40"), order(3, BidOrAsk::Bid, 550));

    assert_eq!(outcome.filled_size, 0);
    assert_eq!(outcome.remaining_size, 550);
    assert!(outcome.fills.is_empty());
    assert_eq!(shape(book.bid_limits()), vec![(price("4.4"), vec![(1, 345), (2, 345), (3, 550)])]);
    assert!(book.ask_limits().is_empty());
}

#[test]
fn bids_are_sorted_descending_and_asks_ascending() {
    let mut book = Orderbook::new();
    for (id, p) in [(1, "9"), (2, "7"), (3, "8.5"), (4, "8")] {
        book.add_order(price(p), order(id, BidOrAsk::Bid, 1));
    }
    for (id, p) in [(5, "12"), (6, "10"), (7, "11.5"), (8, "11")] {
        book.add_order(price(p), order(id, BidOrAsk::Ask, 1));
    }
    let bids: Vec<Price> = book.bid_limits().iter().map(|l| l.price()).collect();
    let asks: Vec<Price> = book.ask_limits().iter().map(|l| l.price()).collect();
    assert_eq!(bids, vec![price("9"), price("8.5"), price("8"), price("7")]);
    assert_eq!(asks, vec![price("10"), price("11"), price("11.5"), price("12")]);
    assert_eq!(book.best_bid(), Some(price("9")));
    assert_eq!(book.best_ask(), Some(price("10")));
}

#[test]
fn best_price_sweep() {
    let mut book = Orderbook::new();
    book.add_order(price("11"), order(2, BidOrAsk::Ask, 5));
    book.add_order(price("10"), order(1, BidOrAsk::Ask, 5));

    let mut buy = order(9, BidOrAsk::Bid, 8);
    let outcome = book.fill_market_order(&mut buy);

    assert_eq!(trades(&outcome), vec![(1, price("10"), 5), (2, price("11"), 3)]);
    assert_eq!(outcome.filled_size, 8);
    assert_eq!(outcome.remaining_size, 0);
    assert!(buy.is_filled());
    assert_eq!(shape(book.ask_limits()), vec![(price("11"), vec![(2, 2)])]);
}

#[test]
fn market_sell_sweeps_bids_from_the_highest() {
    let mut book = Orderbook::new();
    book.add_order(price("7"), order(1, BidOrAsk::Bid, 4));
    book.add_order(price("9"), order(2, BidOrAsk::Bid, 4));
    book.add_order(price("8"), order(3, BidOrAsk::Bid, 4));

    let mut sell = order(9, BidOrAsk::Ask, 9);
    let outcome = book.fill_market_order(&mut sell);

    assert_eq!(
        trades(&outcome),
        vec![(2, price("9"), 4), (3, price("8"), 4), (1, price("7"), 1)]
    );
    assert_eq!(shape(book.bid_limits()), vec![(price("7"), vec![(1, 3)])]);
}

#[test]
fn partial_fill_reporting() {
    let mut book = Orderbook::new();
    book.add_order(price("10"), order(1, BidOrAsk::Ask, 10));
    book.add_order(price("11"), order(2, BidOrAsk::Ask, 20));

    let mut buy = order(9, BidOrAsk::Bid, 50);
    let outcome = book.fill_market_order(&mut buy);

    assert_eq!(outcome.filled_size, 30);
    assert_eq!(outcome.remaining_size, 20);
    assert_eq!(buy.size(), 20);
    assert_eq!(trades(&outcome), vec![(1, price("10"), 10), (2, price("11"), 20)]);
    assert!(book.ask_limits().is_empty());
    assert!(book.bid_limits().is_empty());
    assert_eq!(book.best_ask(), None);
}

#[test]
fn market_order_against_an_empty_side() {
    let mut book = Orderbook::new();
    book.add_order(price("10"), order(1, BidOrAsk::Bid, 10));
    let mut buy = order(9, BidOrAsk::Bid, 5);
    let outcome = book.fill_market_order(&mut buy);
    assert_eq!(outcome.filled_size, 0);
    assert_eq!(outcome.remaining_size, 5);
    assert!(outcome.fills.is_empty());
    assert_eq!(shape(book.bid_limits()), vec![(price("10"), vec![(1, 10)])]);
}

#[test]
fn emptied_level_is_pruned() {
    let mut book = Orderbook::new();
    book.add_order(price("10"), order(1, BidOrAsk::Ask, 5));
    book.add_order(price("11"), order(2, BidOrAsk::Ask, 5));
    assert_eq!(book.best_ask(), Some(price("10")));

    let mut buy = order(9, BidOrAsk::Bid, 5);
    book.fill_market_order(&mut buy);
    assert_eq!(book.best_ask(), Some(price("11")));
    assert_eq!(book.ask_limits().len(), 1);

    let mut buy = order(10, BidOrAsk::Bid, 5);
    book.fill_market_order(&mut buy);
    assert_eq!(book.best_ask(), None);
    assert_eq!(book.ask_limits().len(), 0);
}

#[test]
fn market_order_conserves_volume() {
    let mut book = Orderbook::new();
    book.add_order(price("10"), order(1, BidOrAsk::Ask, 3));
    book.add_order(price("10"), order(2, BidOrAsk::Ask, 4));
    book.add_order(price("12"), order(3, BidOrAsk::Ask, 6));
    let before = depth(book.ask_limits());

    let mut buy = order(9, BidOrAsk::Bid, 9);
    let outcome = book.fill_market_order(&mut buy);
    let matched: u128 = outcome.fills.iter().map(|f| f.quantity as u128).sum();

    assert_eq!(before, 13);
    assert_eq!(matched, 9);
    assert_eq!(outcome.filled_size as u128, matched);
    assert_eq!(before, depth(book.ask_limits()) + matched);
    assert_eq!(outcome.filled_size + outcome.remaining_size, 9);
}

#[test]
fn crossing_limit_order_is_matched_before_it_rests() {
    let mut book = Orderbook::new();
    book.add_order(price("10"), order(1, BidOrAsk::Ask, 5));
    book.add_order(price("11"), order(2, BidOrAsk::Ask, 5));
    book.add_order(price("12"), order(3, BidOrAsk::Ask, 5));

    let outcome = book.add_order(price("11"), order(9, BidOrAsk::Bid, 12));

    assert_eq!(trades(&outcome), vec![(1, price("10"), 5), (2, price("11"), 5)]);
    assert_eq!(outcome.filled_size, 10);
    assert_eq!(outcome.remaining_size, 2);
    assert_eq!(shape(book.bid_limits()), vec![(price("11"), vec![(9, 2)])]);
    assert_eq!(shape(book.ask_limits()), vec![(price("12"), vec![(3, 5)])]);
    assert!(book.best_bid().unwrap() < book.best_ask().unwrap());
}

#[test]
fn crossing_limit_order_that_is_filled_does_not_rest() {
    let mut book = Orderbook::new();
    book.add_order(price("9"), order(1, BidOrAsk::Bid, 5));
    book.add_order(price("8"), order(2, BidOrAsk::Bid, 5));

    let outcome = book.add_order(price("8"), order(9, BidOrAsk::Ask, 7));

    assert_eq!(trades(&outcome), vec![(1, price("9"), 5), (2, price("8"), 2)]);
    assert_eq!(outcome.remaining_size, 0);
    assert!(book.ask_limits().is_empty());
    assert_eq!(shape(book.bid_limits()), vec![(price("8"), vec![(2, 3)])]);
}

#[test]
fn limit_order_does_not_trade_beyond_its_price() {
    let mut book = Orderbook::new();
    book.add_order(price("10"), order(1, BidOrAsk::Ask, 5));

    let outcome = book.add_order(price("9.9999"), order(9, BidOrAsk::Bid, 5));

    assert!(outcome.fills.is_empty());
    assert_eq!(outcome.filled_size, 0);
    assert_eq!(outcome.remaining_size, 5);
    assert_eq!(book.best_bid(), Some(price("9.9999")));
    assert_eq!(book.best_ask(), Some(price("10")));
}

#[test]
fn limit_order_trades_at_its_own_price() {
    let mut book = Orderbook::new();
    book.add_order(price("10"), order(1, BidOrAsk::Bid, 5));
    let outcome = book.add_order(price("10"), order(9, BidOrAsk::Ask, 3));
    assert_eq!(trades(&outcome), vec![(1, price("10"), 3)]);
    assert_eq!(shape(book.bid_limits()), vec![(price("10"), vec![(1, 2)])]);
    assert!(book.ask_limits().is_empty());
}

#[test]
fn cancel_removes_the_order_and_an_emptied_level() {
    let mut book = Orderbook::new();
    book.add_order(price("10"), order(1, BidOrAsk::Ask, 5));
    book.add_order(price("10"), order(2, BidOrAsk::Ask, 6));
    book.add_order(price("11"), order(3, BidOrAsk::Ask, 7));
    book.add_order(price("9"), order(4, BidOrAsk::Bid, 8));

    assert!(book.cancel_order(1));
    assert_eq!(
        shape(book.ask_limits()),
        vec![(price("10"), vec![(2, 6)]), (price("11"), vec![(3, 7)])]
    );
    assert!(book.cancel_order(2));
    assert_eq!(shape(book.ask_limits()), vec![(price("11"), vec![(3, 7)])]);
    assert_eq!(book.best_ask(), Some(price("11")));
    assert!(book.cancel_order(4));
    assert_eq!(book.best_bid(), None);
}

#[test]
fn cancel_of_unknown_or_filled_order_changes_nothing() {
    let mut book = Orderbook::new();
    book.add_order(price("10"), order(1, BidOrAsk::Ask, 5));
    book.add_order(price("11"), order(2, BidOrAsk::Ask, 5));
    let mut buy = order(9, BidOrAsk::Bid, 5);
    book.fill_market_order(&mut buy);

    assert!(!book.cancel_order(1));
    assert!(!book.cancel_order(77));
    assert_eq!(shape(book.ask_limits()), vec![(price("11"), vec![(2, 5)])]);
}
