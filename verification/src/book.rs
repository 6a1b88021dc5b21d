//! The order book for one instrument: a bid ladder, an ask ladder, and the
//! sequencer that stamps every accepted submission with a strictly
//! increasing arrival number.

use vstd::prelude::*;

use crate::ladder::{
    ahead_of, better_price, has_level, ladder_wf, level_qty, level_len, level_total, rest_insert,
    rest_push, ts_below, lemma_rest_insert, lemma_level_qty_bounds, lemma_level_iff,
    lemma_level_push, lemma_level_split,
};
use crate::matching::{
    marketable, match_against, match_rec, trades_qty, lemma_match_book, lemma_match_conserves,
};
use crate::types::{Order, OrderError, Side, Trade};

verus! {

/// One instrument's book. The bid ladder holds resting buys sorted best
/// (highest) price first, the ask ladder resting sells sorted best (lowest)
/// price first; `next_timestamp` is the arrival sequence number the next
/// accepted order will be stamped with.
#[derive(Debug)]
pub struct OrderBook {
    pub buys: Vec<Order>,
    pub sells: Vec<Order>,
    pub next_timestamp: u64,
    pub symbol: String,
}

impl OrderBook {
    /// The ladder where an order of side `side` rests.
    pub open spec fn own_ladder(self, side: Side) -> Seq<Order> {
        match side {
            Side::Buy => self.buys@,
            Side::Sell => self.sells@,
        }
    }

    /// The ladder an incoming order of side `side` executes against.
    pub open spec fn opp_ladder(self, side: Side) -> Seq<Order> {
        self.own_ladder(side.spec_opposite())
    }

    /// The best bid is strictly below the best ask, unless a side is empty.
    pub open spec fn not_crossed(self) -> bool {
        self.buys@.len() == 0 || self.sells@.len() == 0 || self.buys@[0].price
            < self.sells@[0].price
    }

    /// The book's invariant: both ladders well formed, every resting order
    /// stamped before the next arrival number, and the book not crossed.
    pub open spec fn wf(self) -> bool {
        &&& ladder_wf(self.buys@, Side::Buy)
        &&& ladder_wf(self.sells@, Side::Sell)
        &&& ts_below(self.buys@, self.next_timestamp)
        &&& ts_below(self.sells@, self.next_timestamp)
        &&& self.not_crossed()
    }

    /// The unmatched remainder a submission would leave, were it accepted.
    pub open spec fn residual(self, side: Side, price: i64, quantity: i64, id: u64) -> int {
        match_rec(self.opp_ladder(side), side, price, quantity as int, id).2
    }

    /// What one accepted submission does: the trades are exactly one matching
    /// walk over the opposite ladder, that ladder is what the walk leaves,
    /// a positive remainder comes to rest on the order's own ladder stamped
    /// with the old arrival number, and the sequencer advances by one.
    pub open spec fn place_ok_post(
        pre: OrderBook,
        post: OrderBook,
        side: Side,
        price: i64,
        quantity: i64,
        id: u64,
        trades: Seq<Trade>,
    ) -> bool {
        let m = match_rec(pre.opp_ladder(side), side, price, quantity as int, id);
        let rested = Order {
            id,
            side,
            price,
            quantity: m.2 as i64,
            timestamp: pre.next_timestamp,
        };
        &&& trades == m.0
        &&& post.opp_ladder(side) == m.1
        &&& post.own_ladder(side) == (if m.2 > 0 {
            rest_insert(pre.own_ladder(side), rested, side)
        } else {
            pre.own_ladder(side)
        })
        &&& post.next_timestamp == pre.next_timestamp + 1
        &&& post.symbol == pre.symbol
    }

    /// An empty book for one instrument; the sequencer starts at 1.
    pub fn new(symbol: String) -> (r: OrderBook)
        ensures
            r.wf(),
            r.buys@ == Seq::<Order>::empty(),
            r.sells@ == Seq::<Order>::empty(),
            r.next_timestamp == 1,
            r.symbol == symbol,
    {
        OrderBook { buys: Vec::new(), sells: Vec::new(), next_timestamp: 1, symbol }
    }

    /// Submit a limit order. A non-positive quantity or price is rejected
    /// before anything changes; an accepted order executes against the
    /// opposite ladder under price-time priority and any remainder rests.
    /// Returns the trades in execution order.
    pub fn place_order(&mut self, side: Side, price: i64, quantity: i64, id: u64) -> (r: Result<
        Vec<Trade>,
        OrderError,
    >)
        requires
            old(self).wf(),
            old(self).next_timestamp < u64::MAX,
        ensures
            final(self).wf(),
            r is Err <==> (quantity <= 0 || price <= 0),
            quantity <= 0 ==> r == Result::<Vec<Trade>, OrderError>::Err(
                OrderError::InvalidQuantity,
            ) && *final(self) == *old(self),
            quantity > 0 && price <= 0 ==> r == Result::<Vec<Trade>, OrderError>::Err(
                OrderError::InvalidPrice,
            ) && *final(self) == *old(self),
            quantity > 0 && price > 0 ==> r is Ok && OrderBook::place_ok_post(
                *old(self),
                *final(self),
                side,
                price,
                quantity,
                id,
                r->Ok_0@,
            ),
            quantity > 0 && price > 0 ==> trades_qty(r->Ok_0@) + old(self).residual(
                side,
                price,
                quantity,
                id,
            ) == quantity && 0 <= old(self).residual(side, price, quantity, id) <= quantity,
    {
        if quantity <= 0 {
            return Err(OrderError::InvalidQuantity);
        }
        if price <= 0 {
            return Err(OrderError::InvalidPrice);
        }
        let ghost pre = *self;
        let ts = self.next_timestamp;
        self.next_timestamp = ts + 1;
        let (trades, remaining) = match side {
            Side::Buy => match_against(&mut self.sells, side, price, quantity, id),
            Side::Sell => match_against(&mut self.buys, side, price, quantity, id),
        };
        proof {
            match side {
                Side::Buy => {
                    lemma_match_book(
                        pre.sells@,
                        Side::Sell,
                        side,
                        price,
                        quantity as int,
                        id,
                        ts,
                    );
                    lemma_match_conserves(pre.sells@, side, price, quantity as int, id);
                },
                Side::Sell => {
                    lemma_match_book(
                        pre.buys@,
                        Side::Buy,
                        side,
                        price,
                        quantity as int,
                        id,
                        ts,
                    );
                    lemma_match_conserves(pre.buys@, side, price, quantity as int, id);
                },
            }
        }
        if remaining > 0 {
            let rested = Order { id, side, price, quantity: remaining, timestamp: ts };
            match side {
                Side::Buy => {
                    proof {
                        lemma_rest_insert(pre.buys@, rested, side, (ts + 1) as u64);
                    }
                    rest_push(&mut self.buys, rested, side);
                },
                Side::Sell => {
                    proof {
                        lemma_rest_insert(pre.sells@, rested, side, (ts + 1) as u64);
                    }
                    rest_push(&mut self.sells, rested, side);
                },
            }
        }
        proof {
            let m = match_rec(pre.opp_ladder(side), side, price, quantity as int, id);
            match side {
                Side::Buy => {
                    if m.2 > 0 {
                        // The remainder rests strictly below every surviving ask.
                        assert(self.sells@.len() > 0 ==> price < self.sells@[0].price);
                        assert(self.buys@[0].price == (if pre.buys@.len() == 0 || better_price(
                            Side::Buy,
                            price,
                            pre.buys@[0].price,
                        ) {
                            price
                        } else {
                            pre.buys@[0].price
                        }));
                        if self.sells@.len() > 0 && pre.buys@.len() > 0 {
                            assert(pre.sells@.len() > 0);
                            assert(!better_price(Side::Sell, self.sells@[0].price, pre.sells@[0].price));
                            assert(pre.buys@[0].price < pre.sells@[0].price);
                        }
                    } else {
                        if self.sells@.len() > 0 && self.buys@.len() > 0 {
                            assert(pre.sells@.len() > 0);
                            assert(!better_price(Side::Sell, self.sells@[0].price, pre.sells@[0].price));
                        }
                    }
                },
                Side::Sell => {
                    if m.2 > 0 {
                        assert(self.buys@.len() > 0 ==> self.buys@[0].price < price);
                        assert(self.sells@[0].price == (if pre.sells@.len() == 0 || better_price(
                            Side::Sell,
                            price,
                            pre.sells@[0].price,
                        ) {
                            price
                        } else {
                            pre.sells@[0].price
                        }));
                        if self.buys@.len() > 0 && pre.sells@.len() > 0 {
                            assert(pre.buys@.len() > 0);
                            assert(!better_price(Side::Buy, self.buys@[0].price, pre.buys@[0].price));
                            assert(pre.buys@[0].price < pre.sells@[0].price);
                        }
                    } else {
                        if self.sells@.len() > 0 && self.buys@.len() > 0 {
                            assert(pre.buys@.len() > 0);
                            assert(!better_price(Side::Buy, self.buys@[0].price, pre.buys@[0].price));
                        }
                    }
                },
            }
        }
        Ok(trades)
    }

    /// The best (highest) bid price and the total quantity resting at it, or
    /// `None` when no buy order rests. The level's total is owed to fit the
    /// quantity type.
    pub fn best_buy(&self) -> (r: Option<(i64, i64)>)
        requires
            self.wf(),
            self.buys@.len() > 0 ==> level_qty(self.buys@, self.buys@[0].price) <= i64::MAX,
        ensures
            r is None <==> self.buys@.len() == 0,
            r is Some ==> ({
                let pq = r->0;
                pq.0 == self.buys@[0].price && pq.1 == level_qty(self.buys@, self.buys@[0].price)
                    && pq.1 > 0
            }),
    {
        if self.buys.len() == 0 {
            return None;
        }
        let p = self.buys[0].price;
        let q = level_total(&self.buys, p);
        proof {
            lemma_level_qty_bounds(self.buys@, p);
        }
        Some((p, q))
    }

    /// The best (lowest) ask price and the total quantity resting at it, or
    /// `None` when no sell order rests. The level's total is owed to fit the
    /// quantity type.
    pub fn best_sell(&self) -> (r: Option<(i64, i64)>)
        requires
            self.wf(),
            self.sells@.len() > 0 ==> level_qty(self.sells@, self.sells@[0].price) <= i64::MAX,
        ensures
            r is None <==> self.sells@.len() == 0,
            r is Some ==> ({
                let pq = r->0;
                pq.0 == self.sells@[0].price && pq.1 == level_qty(self.sells@, self.sells@[0].price)
                    && pq.1 > 0
            }),
    {
        if self.sells.len() == 0 {
            return None;
        }
        let p = self.sells[0].price;
        let q = level_total(&self.sells, p);
        proof {
            lemma_level_qty_bounds(self.sells@, p);
        }
        Some((p, q))
    }
}

/// Whether some snapshot entry reports price `p`.
pub open spec fn has_price(r: Seq<(i64, i64, usize)>, p: i64) -> bool {
    exists|k: int| 0 <= k < r.len() && (#[trigger] r[k]).0 == p
}

/// A snapshot covers a ladder: every resting order's price either appears in
/// the snapshot, or the snapshot was cut off at its requested depth and that
/// price is strictly worse than the last level reported.
pub open spec fn snapshot_covers(
    ls: Seq<Order>,
    side: Side,
    levels: int,
    r: Seq<(i64, i64, usize)>,
) -> bool {
    forall|idx: int|
        0 <= idx < ls.len() ==> has_price(r, (#[trigger] ls[idx]).price) || (r.len() == levels
            && r.len() > 0 && better_price(side, r[r.len() - 1].0, ls[idx].price))
}

impl OrderBook {
    /// A read-only snapshot of the top `levels` price levels of one side,
    /// best first: each entry is a price, the total quantity resting at it,
    /// and the number of orders queued at it. Every reported level total is
    /// owed to fit the quantity type.
    pub fn depth_snapshot(&self, side: Side, levels: usize) -> (r: Vec<(i64, i64, usize)>)
        requires
            self.wf(),
            forall|p: i64| level_qty(self.own_ladder(side), p) <= i64::MAX,
        ensures
            ({
                let ls = self.own_ladder(side);
                &&& r@.len() <= levels
                &&& forall|k: int|
                    0 <= k < r@.len() ==> ({
                        let e = #[trigger] r@[k];
                        has_level(ls, e.0) && e.1 == level_qty(ls, e.0) && e.2 == level_len(
                            ls,
                            e.0,
                        )
                    })
                &&& forall|k1: int, k2: int|
                    0 <= k1 < k2 < r@.len() ==> better_price(
                        side,
                        (#[trigger] r@[k1]).0,
                        (#[trigger] r@[k2]).0,
                    )
                &&& (levels > 0 && ls.len() > 0) ==> (r@.len() > 0 && r@[0].0 == ls[0].price)
                &&& levels > 0 ==> snapshot_covers(ls, side, levels as int, r@)
                &&& r@.len() == 0 <==> (levels == 0 || ls.len() == 0)
            }),
    {
        let ls: &Vec<Order> = match side {
            Side::Buy => &self.buys,
            Side::Sell => &self.sells,
        };
        let mut r: Vec<(i64, i64, usize)> = Vec::new();
        if levels == 0 {
            return r;
        }
        let len: usize = ls.len();
        let mut i: usize = 0;
        loop
            invariant
                0 <= i <= len,
                len == ls@.len(),
                levels > 0,
                ls@ == self.own_ladder(side),
                ladder_wf(ls@, side),
                forall|p: i64| level_qty(self.own_ladder(side), p) <= i64::MAX,
                r@.len() <= levels,
                (r@.len() == 0) <==> (i == 0),
                r@.len() > 0 ==> i > 0 && r@[r@.len() - 1].0 == ls@[i - 1].price,
                forall|k: int|
                    0 <= k < r@.len() ==> ({
                        let e = #[trigger] r@[k];
                        &&& has_level(ls@.take(i as int), e.0)
                        &&& e.1 == level_qty(ls@.take(i as int), e.0)
                        &&& e.2 == level_len(ls@.take(i as int), e.0)
                        &&& e.2 <= i
                    }),
                forall|k1: int, k2: int|
                    0 <= k1 < k2 < r@.len() ==> better_price(
                        side,
                        (#[trigger] r@[k1]).0,
                        (#[trigger] r@[k2]).0,
                    ),
                forall|idx: int| 0 <= idx < i ==> has_price(r@, (#[trigger] ls@[idx]).price),
            ensures
                r@.len() <= levels,
                forall|k: int|
                    0 <= k < r@.len() ==> ({
                        let e = #[trigger] r@[k];
                        has_level(ls@, e.0) && e.1 == level_qty(ls@, e.0) && e.2 == level_len(
                            ls@,
                            e.0,
                        )
                    }),
                forall|k1: int, k2: int|
                    0 <= k1 < k2 < r@.len() ==> better_price(
                        side,
                        (#[trigger] r@[k1]).0,
                        (#[trigger] r@[k2]).0,
                    ),
                ls@.len() > 0 ==> (r@.len() > 0 && r@[0].0 == ls@[0].price),
                snapshot_covers(ls@, side, levels as int, r@),
                r@.len() == 0 <==> ls@.len() == 0,
            decreases len - i,
        {
            if i >= len {
                proof {
                    assert(ls@.take(i as int) =~= ls@);
                }
                break;
            }
            let p = ls[i].price;
            let q = ls[i].quantity;
            let n = r.len();
            let ghost pre = r@;
            let ghost tk = ls@.take(i as int);
            proof {
                assert(ls@.take(i as int + 1) =~= tk.push(ls@[i as int]));
            }
            if n > 0 && r[n - 1].0 == p {
                // Another order of the level already open: fold it in.
                let last = r[n - 1];
                proof {
                    lemma_level_push(tk, ls@[i as int], p);
                    lemma_level_split(ls@, p, i as int + 1);
                    assert(forall|j: int|
                        0 <= j < ls@.skip(i as int + 1).len() ==> (#[trigger] ls@.skip(
                            i as int + 1,
                        )[j]).quantity > 0);
                    lemma_level_qty_bounds(ls@.skip(i as int + 1), p);
                    assert(last.1 + q <= i64::MAX);
                    assert forall|k: int| 0 <= k < pre.len() - 1 implies ({
                        let e = #[trigger] pre[k];
                        e.1 == level_qty(ls@.take(i as int + 1), e.0) && e.2 == level_len(
                            ls@.take(i as int + 1),
                            e.0,
                        )
                    }) by {
                        assert(better_price(side, pre[k].0, p));
                        lemma_level_push(tk, ls@[i as int], pre[k].0);
                    }
                }
                let _ = r.remove(n - 1);
                r.push((p, last.1 + q, last.2 + 1));
                proof {
                    assert(r@ =~= pre.update(
                        n - 1,
                        (p, (last.1 + q) as i64, (last.2 + 1) as usize),
                    ));
                    assert(has_level(ls@.take(i as int + 1), p)) by {
                        assert(ls@.take(i as int + 1)[i as int].price == p);
                    }
                    assert(forall|idx: int|
                        0 <= idx < i ==> has_price(pre, (#[trigger] ls@[idx]).price));
                    assert forall|idx: int| 0 <= idx <= i implies has_price(
                        r@,
                        (#[trigger] ls@[idx]).price,
                    ) by {
                        if idx < i {
                            let k = choose|k: int|
                                0 <= k < pre.len() && (#[trigger] pre[k]).0 == ls@[idx].price;
                            assert(r@[k].0 == pre[k].0);
                        } else {
                            assert(r@[n - 1].0 == p);
                        }
                    }
                }
            } else if n == levels {
                // The requested depth is full and a deeper level begins here:
                // everything not yet reported is strictly worse than the last
                // reported level.
                proof {
                    let last_p = pre[n - 1].0;
                    assert(ahead_of(side, ls@[i - 1], ls@[i as int]));
                    assert(better_price(side, last_p, p));
                    assert forall|idx: int| i <= idx < len implies better_price(
                        side,
                        last_p,
                        (#[trigger] ls@[idx]).price,
                    ) by {
                        if idx > i {
                            assert(ahead_of(side, ls@[i as int], ls@[idx]));
                        }
                    }
                    assert forall|k: int| 0 <= k < pre.len() implies ({
                        let e = #[trigger] pre[k];
                        has_level(ls@, e.0) && e.1 == level_qty(ls@, e.0) && e.2 == level_len(
                            ls@,
                            e.0,
                        )
                    }) by {
                        let e = pre[k];
                        assert(has_level(ls@, e.0)) by {
                            let j = choose|j: int|
                                0 <= j < ls@.take(i as int).len() && (#[trigger] ls@.take(
                                    i as int,
                                )[j]).price == e.0;
                            assert(ls@[j].price == e.0);
                        }
                        // No order at this price remains past the cutoff.
                        assert(forall|j: int|
                            0 <= j < ls@.skip(i as int).len() ==> (#[trigger] ls@.skip(
                                i as int,
                            )[j]).quantity > 0);
                        lemma_level_qty_bounds(ls@.skip(i as int), e.0);
                        lemma_level_iff(ls@.skip(i as int), e.0);
                        assert(!has_level(ls@.skip(i as int), e.0)) by {
                            if has_level(ls@.skip(i as int), e.0) {
                                let j = choose|j: int|
                                    0 <= j < ls@.skip(i as int).len() && (#[trigger] ls@.skip(
                                        i as int,
                                    )[j]).price == e.0;
                                assert(ls@[i + j].price == e.0);
                                assert(better_price(side, last_p, e.0));
                                if k < n - 1 {
                                    assert(better_price(side, e.0, last_p));
                                }
                            }
                        }
                        lemma_level_split(ls@, e.0, i as int);
                    }
                }
                break;
            } else {
                // A new level opens here.
                proof {
                    lemma_level_push(tk, ls@[i as int], p);
                    // This price was never seen before the run that starts here.
                    assert forall|j: int| 0 <= j < i implies (#[trigger] ls@[j]).price != p by {
                        if ls@[j].price == p {
                            if j == i - 1 {
                                assert(pre[pre.len() - 1].0 == p);
                            } else {
                                assert(ahead_of(side, ls@[j], ls@[i - 1]));
                                assert(ahead_of(side, ls@[i - 1], ls@[i as int]));
                            }
                        }
                    }
                    assert(!has_level(tk, p)) by {
                        if has_level(tk, p) {
                            let j = choose|j: int|
                                0 <= j < tk.len() && (#[trigger] tk[j]).price == p;
                            assert(ls@[j].price == p);
                        }
                    }
                    lemma_level_iff(tk, p);
                    assert(forall|j: int| 0 <= j < tk.len() ==> (#[trigger] tk[j]).quantity > 0);
                    lemma_level_qty_bounds(tk, p);
                    assert forall|k: int| 0 <= k < pre.len() implies ({
                        let e = #[trigger] pre[k];
                        e.1 == level_qty(ls@.take(i as int + 1), e.0) && e.2 == level_len(
                            ls@.take(i as int + 1),
                            e.0,
                        ) && better_price(side, e.0, p)
                    }) by {
                        let e = pre[k];
                        assert(has_level(tk, e.0));
                        let j = choose|j: int| 0 <= j < tk.len() && (#[trigger] tk[j]).price == e.0;
                        assert(ls@[j].price != p);
                        lemma_level_push(tk, ls@[i as int], e.0);
                        // The open level's price beats the new one, and every
                        // earlier entry beats the open level's.
                        if i > 0 {
                            assert(ahead_of(side, ls@[i - 1], ls@[i as int]));
                            assert(pre[pre.len() - 1].0 == ls@[i - 1].price);
                            if k < pre.len() - 1 {
                                assert(better_price(side, e.0, pre[pre.len() - 1].0));
                            }
                        }
                    }
                }
                r.push((p, q, 1));
                proof {
                    assert(r@ =~= pre.push((p, q, 1)));
                    assert(has_level(ls@.take(i as int + 1), p)) by {
                        assert(ls@.take(i as int + 1)[i as int].price == p);
                    }
                    assert forall|idx: int| 0 <= idx <= i implies has_price(
                        r@,
                        (#[trigger] ls@[idx]).price,
                    ) by {
                        if idx < i {
                            let k = choose|k: int|
                                0 <= k < pre.len() && (#[trigger] pre[k]).0 == ls@[idx].price;
                            assert(r@[k].0 == pre[k].0);
                        } else {
                            assert(r@[r@.len() - 1].0 == p);
                        }
                    }
                }
            }
            i = i + 1;
        }
        r
    }
}

/// Non-crossing, as a fact about the queries rather than the representation:
/// in any well-formed book — and `place_order` keeps every book it is given
/// well formed — the best bid price is strictly below the best ask price,
/// or at least one side is empty.
pub proof fn lemma_non_crossing(b: OrderBook)
    requires
        b.wf(),
    ensures
        b.buys@.len() == 0 || b.sells@.len() == 0 || b.buys@[0].price < b.sells@[0].price,
{
}

} // verus!
