//! A limit order-matching engine with price-time priority.
//!
//! Resting orders are kept per instrument in an [`orderbook::Orderbook`]: two
//! sides of price levels, each side sorted best price first and each level a
//! FIFO queue. Incoming orders sweep the opposite side from the best price
//! on, and every unit matched is reported as a fill.

pub mod engine;
pub mod error;
pub mod fill;
pub mod limit;
pub mod order;
pub mod orderbook;
pub mod price;
