//! A single-instrument limit order book with continuous double-auction matching
//! under strict price-time priority.
//!
//! Incoming limit orders execute immediately against resting opposite-side
//! liquidity, best price first and oldest order first within a price; any
//! unmatched remainder rests in the book awaiting a future counter-order.
//! Prices and quantities are plain integers in the smallest currency and
//! tradable units; any decimal scaling is the caller's concern.

pub mod types;
pub mod ladder;
pub mod matching;
pub mod book;
pub mod engine;
