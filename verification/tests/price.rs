use matching_engine::error::EngineError;
use matching_engine::order::{BidOrAsk, Order};
use matching_engine::price::{Price, PRICE_SCALAR};
use rust_decimal::Decimal;
use std::cmp::Ordering;
use std::collections::hash_map::DefaultHasher;
use std::hash::{Hash, Hasher};

fn price(text: &str) -> Price {
    Price::new(Decimal::from_str_exact(text).unwrap()).unwrap()
}

fn hash_of(price: &Price) -> u64 {
    let mut hasher = DefaultHasher::new();
    price.hash(&mut hasher);
    hasher.finish()
}

#[test]
fn price_components_are_exact() {
    let p = price("12.3456");
    assert_eq!(p.integral(), 12);
    assert_eq!(p.fractional(), 3456);
    assert_eq!(PRICE_SCALAR, 10_000);
}

#[test]
fn price_scales_short_fractions_up() {
    let p = price("4.4");
    assert_eq!(p.integral(), 4);
    assert_eq!(p.fractional(), 4000);
}

#[test]
fn price_of_zero() {
    let p = price("0");
    assert_eq!((p.integral(), p.fractional()), (0, 0));
    let q = Price::new(Decimal::new(0, 20)).unwrap();
    assert_eq!(p, q);
}

#[test]
fn equal_values_give_equal_prices_and_hashes() {
    let a = Price::new(Decimal::new(100000, 1)).unwrap();
    let b = Price::new(Decimal::new(10000, 0)).unwrap();
    let c = Price::new(Decimal::new(10000000000, 6)).unwrap();
    assert_eq!(a, b);
    assert_eq!(a, c);
    assert!(a.same_as(&b));
    assert_eq!(hash_of(&a), hash_of(&b));
    assert_eq!(hash_of(&a), hash_of(&c));
}

#[test]
fn smaller_values_give_smaller_prices() {
    let a = price("1.5");
    let b = price("2.25");
    let c = price("2.2501");
    assert_eq!(a.compare(&b), Ordering::Less);
    assert_eq!(b.compare(&a), Ordering::Greater);
    assert_eq!(b.compare(&c), Ordering::Less);
    assert_eq!(b.compare(&b), Ordering::Equal);
    assert!(a.less_than(&b));
    assert!(!b.less_than(&a));
    assert!(!b.less_than(&b));
    assert!(a < b && b < c);
    assert_eq!(a.cmp(&b), a.compare(&b));
    assert_eq!(c.cmp(&b), c.compare(&b));
}

#[test]
fn ordering_is_by_integral_then_fractional() {
    let low = price("9.9999");
    let high = price("10.0001");
    assert!(low.less_than(&high));
    assert!(low.fractional() > high.fractional());
}

#[test]
fn negative_price_is_invalid() {
    let r = Price::new(Decimal::new(-1, 0));
    assert_eq!(r, Err(EngineError::InvalidPrice));
    let r = Price::new(Decimal::from_str_exact("-0.0001").unwrap());
    assert_eq!(r, Err(EngineError::InvalidPrice));
}

#[test]
fn price_finer_than_the_resolution_is_invalid() {
    let r = Price::new(Decimal::from_str_exact("1.00001").unwrap());
    assert_eq!(r, Err(EngineError::InvalidPrice));
    let r = Price::new(Decimal::new(1, 28));
    assert_eq!(r, Err(EngineError::InvalidPrice));
}

#[test]
fn trailing_zeros_are_not_finer() {
    let r = Price::new(Decimal::from_str_exact("1.50000000").unwrap()).unwrap();
    assert_eq!((r.integral(), r.fractional()), (1, 5000));
}

#[test]
fn price_beyond_the_range_is_invalid() {
    assert_eq!(Price::new(Decimal::MAX), Err(EngineError::InvalidPrice));
    let edge = Decimal::from_i128_with_scale(u64::MAX as i128 + 1, 0);
    assert_eq!(Price::new(edge), Err(EngineError::InvalidPrice));
}

#[test]
fn largest_price() {
    let top = Decimal::from_i128_with_scale((u64::MAX as i128) * 10_000 + 9_999, 4);
    let p = Price::new(top).unwrap();
    assert_eq!(p.integral(), u64::MAX);
    assert_eq!(p.fractional(), 9_999);
}

#[test]
fn from_parts_agrees_with_new() {
    assert_eq!(Price::from_parts(100000, 1), Ok(price("10000.0")));
    assert_eq!(Price::from_parts(123456, 4), Ok(price("12.3456")));
    assert_eq!(Price::from_parts(5, 5), Err(EngineError::InvalidPrice));
    assert_eq!(Price::from_parts(-5, 0), Err(EngineError::InvalidPrice));
    assert_eq!(Price::from_parts(0, u32::MAX), Ok(price("0")));
    assert_eq!(Price::from_parts(i128::MAX, 0), Err(EngineError::InvalidPrice));
}

#[test]
fn order_of_size_zero_is_invalid() {
    assert!(matches!(Order::new(BidOrAsk::Bid, 0), Err(EngineError::InvalidOrder)));
    assert!(matches!(Order::with_id(3, BidOrAsk::Ask, 0), Err(EngineError::InvalidOrder)));
}

#[test]
fn order_keeps_what_it_was_made_with() {
    let order = Order::with_id(42, BidOrAsk::Ask, 17).unwrap();
    assert_eq!(order.id(), 42);
    assert_eq!(order.bid_or_ask(), BidOrAsk::Ask);
    assert_eq!(order.size(), 17);
    assert!(!order.is_filled());
    let plain = Order::new(BidOrAsk::Bid, 3).unwrap();
    assert_eq!(plain.id(), 0);
    assert_eq!(plain.bid_or_ask(), BidOrAsk::Bid);
}

#[test]
fn reduce_takes_off_the_size() {
    let mut order = Order::new(BidOrAsk::Bid, 10).unwrap();
    order.reduce(4);
    assert_eq!(order.size(), 6);
    order.reduce(6);
    assert!(order.is_filled());
}

#[test]
fn opposite_sides() {
    assert_eq!(BidOrAsk::Bid.opposite(), BidOrAsk::Ask);
    assert_eq!(BidOrAsk::Ask.opposite(), BidOrAsk::Bid);
}
