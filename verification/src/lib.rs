//! A single-symbol, price-time-priority limit order matching core.
//!
//! The book accepts incoming buy and sell limit orders, fills them against
//! resting orders on the opposite side in price-time priority, and keeps the
//! unmatched remainder resting. Cancellation removes a resting order through
//! an id index. The matching engine routes orders to one book per symbol and
//! accumulates the trade history.

pub mod order;
pub mod book;
pub mod engine;
pub mod laws;
