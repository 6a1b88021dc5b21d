//! The trading engine context: one order book, the allocator that hands out
//! order ids, and the tape of every trade executed so far.
//!
//! The engine validates a submission, draws the next order id only for a
//! well-formed one, forwards it to the book, and records the resulting
//! trades on the tape.

use vstd::prelude::*;

use crate::book::OrderBook;
use crate::types::{Order, OrderError, Side, Trade};

verus! {

broadcast use vstd::string::to_string_from_display_ensures_for_str;

/// One instrument's engine: the book, the next order id to hand out, and
/// the trade tape in execution order.
#[derive(Debug)]
pub struct TradingEngine {
    pub book: OrderBook,
    pub next_order_id: u64,
    pub trades_history: Vec<Trade>,
}

impl TradingEngine {
    pub open spec fn wf(self) -> bool {
        self.book.wf()
    }

    /// A fresh engine over an empty book for the Valhalla/USD instrument;
    /// order ids are handed out from 1000.
    pub fn new() -> (r: TradingEngine)
        ensures
            r.wf(),
            r.book.buys@ == Seq::<Order>::empty(),
            r.book.sells@ == Seq::<Order>::empty(),
            r.book.next_timestamp == 1,
            r.book.symbol@ == "Valhalla/USD"@,
            r.next_order_id == 1000,
            r.trades_history@ == Seq::<Trade>::empty(),
    {
        TradingEngine {
            book: OrderBook::new("Valhalla/USD".to_string()),
            next_order_id: 1000,
            trades_history: Vec::new(),
        }
    }

    /// Submit a limit order. A non-positive quantity or price is rejected
    /// before an id is drawn or anything else changes; an accepted order is
    /// given the next id, placed on the book, and its trades are both
    /// returned and appended to the tape.
    pub fn place_order(&mut self, side: Side, price: i64, quantity: i64) -> (r: Result<
        Vec<Trade>,
        OrderError,
    >)
        requires
            old(self).wf(),
            old(self).next_order_id < u64::MAX,
            old(self).book.next_timestamp < u64::MAX,
        ensures
            final(self).wf(),
            r is Err <==> (quantity <= 0 || price <= 0),
            quantity <= 0 ==> r == Result::<Vec<Trade>, OrderError>::Err(
                OrderError::InvalidQuantity,
            ) && *final(self) == *old(self),
            quantity > 0 && price <= 0 ==> r == Result::<Vec<Trade>, OrderError>::Err(
                OrderError::InvalidPrice,
            ) && *final(self) == *old(self),
            quantity > 0 && price > 0 ==> r is Ok && OrderBook::place_ok_post(
                old(self).book,
                final(self).book,
                side,
                price,
                quantity,
                old(self).next_order_id,
                r->Ok_0@,
            ) && final(self).next_order_id == old(self).next_order_id + 1
                && final(self).trades_history@ == old(self).trades_history@ + r->Ok_0@,
    {
        if quantity <= 0 {
            return Err(OrderError::InvalidQuantity);
        }
        if price <= 0 {
            return Err(OrderError::InvalidPrice);
        }
        let id = self.next_order_id;
        self.next_order_id = id + 1;
        let trades = match self.book.place_order(side, price, quantity, id) {
            Ok(t) => t,
            Err(_) => {
                proof {
                    assert(false);
                }
                Vec::new()
            },
        };
        let ghost mid = *self;
        let ghost pre_tape = self.trades_history@;
        proof {
            assert(pre_tape + trades@.take(0) =~= pre_tape);
        }
        let mut k: usize = 0;
        while k < trades.len()
            invariant
                0 <= k <= trades@.len(),
                self.book == mid.book,
                self.next_order_id == mid.next_order_id,
                self.trades_history@ == pre_tape + trades@.take(k as int),
            decreases trades@.len() - k,
        {
            self.trades_history.push(trades[k]);
            proof {
                assert(pre_tape + trades@.take(k as int) + seq![trades@[k as int]] =~= pre_tape
                    + trades@.take(k as int + 1));
            }
            k = k + 1;
        }
        proof {
            assert(trades@.take(trades@.len() as int) =~= trades@);
        }
        Ok(trades)
    }
}

} // verus!
