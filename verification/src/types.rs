//! The plain data the book trades in: sides, orders, trades, and the two
//! rejection reasons for malformed submissions.

use vstd::prelude::*;

verus! {

/// Which side of the book an order belongs to.
#[derive(Clone, Copy, Debug, PartialEq, Eq, Structural)]
pub enum Side {
    Buy,
    Sell,
}

impl Side {
    /// The side whose resting liquidity an incoming order of this side
    /// executes against.
    pub open spec fn spec_opposite(self) -> Side {
        match self {
            Side::Buy => Side::Sell,
            Side::Sell => Side::Buy,
        }
    }
}

/// A limit order. `price` is in the smallest currency unit and `quantity` in
/// the smallest tradable unit; both stay strictly positive for as long as the
/// order exists. `timestamp` is the arrival sequence number the book stamps on
/// the order, the tiebreaker for time priority at equal prices.
#[derive(Clone, Copy, Debug, PartialEq, Eq, Structural)]
pub struct Order {
    pub id: u64,
    pub side: Side,
    pub price: i64,
    pub quantity: i64,
    pub timestamp: u64,
}

/// One execution. The maker is the resting order that was hit, the taker the
/// incoming order that caused the match; the price is always the maker's, so
/// price improvement accrues to the taker.
#[derive(Clone, Copy, Debug, PartialEq, Eq, Structural)]
pub struct Trade {
    pub price: i64,
    pub quantity: i64,
    pub maker_id: u64,
    pub taker_id: u64,
}

/// Why a submission was rejected. Validation is the only failure path: a
/// malformed order is refused before any state changes.
#[derive(Clone, Copy, Debug, PartialEq, Eq, Structural)]
pub enum OrderError {
    /// The submitted price was not strictly positive.
    InvalidPrice,
    /// The submitted quantity was not strictly positive.
    InvalidQuantity,
}

} // verus!
