use matching_engine::engine::{MatchingEngine, TradingPair};
use matching_engine::error::EngineError;
use matching_engine::order::{BidOrAsk, Order};
use matching_engine::price::Price;
use rust_decimal::Decimal;

fn price(text: &str) -> Price {
    Price::new(Decimal::from_str_exact(text).unwrap()).unwrap()
}

fn pair(base: &str, quote: &str) -> TradingPair {
    TradingPair::new(base.to_string(), quote.to_string())
}

#[test]
fn trading_pair_name() {
    assert_eq!(pair("BTC", "USDT").to_string(), "BTC_USDT");
    assert_eq!(pair("", "").to_string(), "_");
}

#[test]
fn trading_pair_parts_and_equality() {
    let a = pair("BTC", "USDT");
    assert_eq!(a.base(), "BTC");
    assert_eq!(a.quote(), "USDT");
    assert!(a.same_as(&pair("BTC", "USDT")));
    assert!(!a.same_as(&pair("BTC", "USD")));
    assert!(!a.same_as(&pair("USDT", "BTC")));
    assert_eq!(a, a.clone());
}

#[test]
fn unknown_instrument() {
    let mut engine = MatchingEngine::new();
    engine.add_new_pair(pair("BTC", "USDT"));
    engine
        .place_limit_order(
            pair("BTC", "USDT"),
            price("10"),
            Order::with_id(1, BidOrAsk::Bid, 5).unwrap(),
        )
        .unwrap();

    let r = engine.place_limit_order(
        pair("ETH", "USDT"),
        price("10"),
        Order::with_id(2, BidOrAsk::Ask, 5).unwrap(),
    );

    assert!(matches!(r, Err(EngineError::UnknownInstrument)));
    assert!(engine.orderbook(&pair("ETH", "USDT")).is_none());
    let book = engine.orderbook(&pair("BTC", "USDT")).unwrap();
    assert_eq!(book.best_bid(), Some(price("10")));
    assert_eq!(book.bid_limits().len(), 1);
    assert_eq!(book.bid_limits()[0].total_volume(), 5);
    assert_eq!(book.best_ask(), None);
}

#[test]
fn unknown_instrument_for_market_order_and_cancel() {
    let mut engine = MatchingEngine::new();
    let r = engine.place_market_order(pair("A", "B"), Order::new(BidOrAsk::Bid, 5).unwrap());
    assert!(matches!(r, Err(EngineError::UnknownInstrument)));
    let r = engine.cancel_order(pair("A", "B"), 1);
    assert!(matches!(r, Err(EngineError::UnknownInstrument)));
}

#[test]
fn registering_a_pair_again_keeps_its_book() {
    let mut engine = MatchingEngine::new();
    assert!(engine.add_new_pair(pair("BTC", "USDT")));
    engine
        .place_limit_order(
            pair("BTC", "USDT"),
            price("10"),
            Order::with_id(1, BidOrAsk::Ask, 5).unwrap(),
        )
        .unwrap();

    assert!(!engine.add_new_pair(pair("BTC", "USDT")));

    let book = engine.orderbook(&pair("BTC", "USDT")).unwrap();
    assert_eq!(book.best_ask(), Some(price("10")));
}

#[test]
fn books_of_different_pairs_are_independent() {
    let mut engine = MatchingEngine::new();
    engine.add_new_pair(pair("BTC", "USDT"));
    engine.add_new_pair(pair("ETH", "USDT"));
    engine
        .place_limit_order(
            pair("BTC", "USDT"),
            price("10"),
            Order::with_id(1, BidOrAsk::Ask, 5).unwrap(),
        )
        .unwrap();

    let outcome = engine
        .place_market_order(pair("ETH", "USDT"), Order::with_id(2, BidOrAsk::Bid, 5).unwrap())
        .unwrap();

    assert_eq!(outcome.filled_size, 0);
    assert_eq!(outcome.remaining_size, 5);
    assert_eq!(engine.orderbook(&pair("BTC", "USDT")).unwrap().best_ask(), Some(price("10")));
    assert_eq!(engine.orderbook(&pair("ETH", "USDT")).unwrap().best_ask(), None);
}

#[test]
fn engine_reports_the_fill_outcome() {
    let mut engine = MatchingEngine::new();
    engine.add_new_pair(pair("BTC", "USDT"));
    let resting = engine
        .place_limit_order(
            pair("BTC", "USDT"),
            price("10"),
            Order::with_id(1, BidOrAsk::Ask, 30).unwrap(),
        )
        .unwrap();
    assert_eq!((resting.filled_size, resting.remaining_size), (0, 30));

    let outcome = engine
        .place_market_order(pair("BTC", "USDT"), Order::with_id(2, BidOrAsk::Bid, 50).unwrap())
        .unwrap();

    assert_eq!(outcome.filled_size, 30);
    assert_eq!(outcome.remaining_size, 20);
    assert_eq!(outcome.fills.len(), 1);
    assert_eq!(outcome.fills[0].counterparty_order_id, 1);
    assert_eq!(outcome.fills[0].price, price("10"));
    assert_eq!(outcome.fills[0].quantity, 30);
}

#[test]
fn engine_cancels_by_id() {
    let mut engine = MatchingEngine::new();
    engine.add_new_pair(pair("BTC", "USDT"));
    engine
        .place_limit_order(
            pair("BTC", "USDT"),
            price("10"),
            Order::with_id(1, BidOrAsk::Ask, 30).unwrap(),
        )
        .unwrap();

    assert!(matches!(
        engine.cancel_order(pair("BTC", "USDT"), 2),
        Err(EngineError::OrderNotFound)
    ));
    assert!(matches!(engine.cancel_order(pair("BTC", "USDT"), 1), Ok(true)));
    assert!(matches!(
        engine.cancel_order(pair("BTC", "USDT"), 1),
        Err(EngineError::OrderNotFound)
    ));
    assert_eq!(engine.orderbook(&pair("BTC", "USDT")).unwrap().best_ask(), None);
}
