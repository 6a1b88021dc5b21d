//! The matching algorithm: walk the opposite ladder best price first, oldest
//! order first, and execute until the incoming order is exhausted or no
//! resting order is marketable against it.
//!
//! `match_rec` is the mathematical description of one such walk; the
//! executable loop `match_against` is proved to produce exactly its trades,
//! its remaining ladder, and its unmatched remainder.

use vstd::prelude::*;

use crate::ladder::{ahead_of, better_price, ladder_wf, order_ok, ts_below};
use crate::types::{Order, Side, Trade};

verus! {

/// Whether an incoming `taker` order with limit price `limit` may execute
/// against a resting opposite order priced `level_price`: a buy reaches down
/// to its limit, a sell reaches up to it.
pub open spec fn marketable(taker: Side, limit: i64, level_price: i64) -> bool {
    match taker {
        Side::Buy => level_price <= limit,
        Side::Sell => level_price >= limit,
    }
}

/// One matching walk over the opposite ladder `opp` (sorted best first), for
/// an incoming `taker` order with limit `limit` and `qty` units left to fill.
/// Yields the trades in execution order, the ladder that remains, and the
/// unmatched remainder of the incoming order.
///
/// Each step consumes the front of the ladder: the oldest order at the best
/// price. A resting order larger than the remainder is reduced in place and
/// keeps its place at the front, so a partial fill never costs it its time
/// priority. Trades always carry the maker's price.
pub open spec fn match_rec(opp: Seq<Order>, taker: Side, limit: i64, qty: int, taker_id: u64) -> (
    Seq<Trade>,
    Seq<Order>,
    int,
)
    decreases opp.len(),
{
    if qty <= 0 || opp.len() == 0 || !marketable(taker, limit, opp[0].price) {
        (Seq::<Trade>::empty(), opp, qty)
    } else {
        let maker = opp[0];
        let traded = if qty < maker.quantity {
            qty
        } else {
            maker.quantity as int
        };
        let t = Trade {
            price: maker.price,
            quantity: traded as i64,
            maker_id: maker.id,
            taker_id: taker_id,
        };
        if maker.quantity > qty {
            let reduced = Order { quantity: (maker.quantity - qty) as i64, ..maker };
            (seq![t], opp.update(0, reduced), 0)
        } else {
            let rest = match_rec(opp.drop_first(), taker, limit, qty - traded, taker_id);
            (seq![t] + rest.0, rest.1, rest.2)
        }
    }
}

/// Total quantity carried by a run of trades.
pub open spec fn trades_qty(ts: Seq<Trade>) -> int
    decreases ts.len(),
{
    if ts.len() == 0 {
        0
    } else {
        ts[0].quantity + trades_qty(ts.drop_first())
    }
}

/// Quantity conservation: what one walk trades away plus what is left of the
/// incoming order is exactly what came in, every trade moves a positive
/// quantity, and the remainder never goes negative.
pub proof fn lemma_match_conserves(opp: Seq<Order>, taker: Side, limit: i64, qty: int, id: u64)
    requires
        forall|i: int| 0 <= i < opp.len() ==> (#[trigger] opp[i]).quantity > 0,
        qty >= 0,
    ensures
        ({
            let m = match_rec(opp, taker, limit, qty, id);
            &&& trades_qty(m.0) + m.2 == qty
            &&& 0 <= m.2 <= qty
            &&& forall|i: int| 0 <= i < m.0.len() ==> (#[trigger] m.0[i]).quantity > 0
        }),
    decreases opp.len(),
{
    let m = match_rec(opp, taker, limit, qty, id);
    if qty <= 0 || opp.len() == 0 || !marketable(taker, limit, opp[0].price) {
        assert(trades_qty(m.0) == 0);
    } else {
        let maker = opp[0];
        let traded = if qty < maker.quantity {
            qty
        } else {
            maker.quantity as int
        };
        let t = Trade {
            price: maker.price,
            quantity: traded as i64,
            maker_id: maker.id,
            taker_id: id,
        };
        if maker.quantity > qty {
            assert(m.0 == seq![t]);
            assert(m.0.drop_first() =~= Seq::<Trade>::empty());
            assert(m.0[0] == t);
            assert(trades_qty(Seq::<Trade>::empty()) == 0);
            assert(t.quantity == qty as i64);
            assert(trades_qty(m.0) == qty);
        } else {
            assert(forall|i: int|
                0 <= i < opp.drop_first().len() ==> (#[trigger] opp.drop_first()[i]).quantity > 0);
            lemma_match_conserves(opp.drop_first(), taker, limit, qty - traded, id);
            let rest = match_rec(opp.drop_first(), taker, limit, qty - traded, id);
            assert(m.0 == seq![t] + rest.0);
            assert(m.0.drop_first() =~= rest.0);
            assert(trades_qty(m.0) == traded + trades_qty(rest.0));
            assert(forall|i: int|
                1 <= i < m.0.len() ==> m.0[i] == rest.0[i - 1]);
        }
    }
}

/// Strict price-time priority of execution: the trades of one walk pair up
/// with the resting orders front to back, so the `i`-th trade is made against
/// the `i`-th best resting order, at that maker's price, for this taker.
pub proof fn lemma_match_makers(opp: Seq<Order>, taker: Side, limit: i64, qty: int, id: u64)
    ensures
        ({
            let m = match_rec(opp, taker, limit, qty, id);
            &&& m.0.len() <= opp.len()
            &&& forall|i: int|
                0 <= i < m.0.len() ==> (#[trigger] m.0[i]).maker_id == opp[i].id && m.0[i].price
                    == opp[i].price && m.0[i].taker_id == id
        }),
    decreases opp.len(),
{
    let m = match_rec(opp, taker, limit, qty, id);
    if qty <= 0 || opp.len() == 0 || !marketable(taker, limit, opp[0].price) {
    } else {
        let maker = opp[0];
        if maker.quantity > qty {
        } else {
            let traded = maker.quantity as int;
            lemma_match_makers(opp.drop_first(), taker, limit, qty - traded, id);
            let rest = match_rec(opp.drop_first(), taker, limit, qty - traded, id);
            assert(forall|i: int| 1 <= i < m.0.len() ==> m.0[i] == rest.0[i - 1]);
            assert(forall|i: int|
                1 <= i < m.0.len() ==> opp.drop_first()[i - 1] == opp[i]);
        }
    }
}

/// Time priority: when two orders rest at the same price, the one that
/// arrived earlier sits nearer the front of a well-formed ladder, and any
/// walk that reaches the later order has already hit the earlier one — the
/// trade against arrival `s1 < s2` comes strictly before the trade against
/// `s2`.
pub proof fn lemma_time_priority(
    opp: Seq<Order>,
    lside: Side,
    taker: Side,
    limit: i64,
    qty: int,
    id: u64,
    i: int,
    j: int,
)
    requires
        ladder_wf(opp, lside),
        0 <= i < j < opp.len(),
        opp[i].price == opp[j].price,
        j < match_rec(opp, taker, limit, qty, id).0.len(),
    ensures
        ({
            let m = match_rec(opp, taker, limit, qty, id);
            &&& opp[i].timestamp < opp[j].timestamp
            &&& m.0[i].maker_id == opp[i].id
            &&& m.0[j].maker_id == opp[j].id
        }),
{
    assert(ahead_of(lside, opp[i], opp[j]));
    lemma_match_makers(opp, taker, limit, qty, id);
}

/// Partial-fill priority preservation: an incoming order smaller than the
/// oldest marketable resting order yields exactly one trade for the whole
/// incoming quantity, and the resting order stays at the front of its ladder
/// with only its quantity reduced — its price, identity and arrival stamp,
/// and hence its time priority, are untouched.
pub proof fn lemma_partial_fill_front(opp: Seq<Order>, taker: Side, limit: i64, qty: int, id: u64)
    requires
        opp.len() > 0,
        marketable(taker, limit, opp[0].price),
        0 < qty < opp[0].quantity,
    ensures
        ({
            let m = match_rec(opp, taker, limit, qty, id);
            &&& m.0 == seq![
                Trade {
                    price: opp[0].price,
                    quantity: qty as i64,
                    maker_id: opp[0].id,
                    taker_id: id,
                },
            ]
            &&& m.1 == opp.update(
                0,
                Order { quantity: (opp[0].quantity - qty) as i64, ..opp[0] },
            )
            &&& m.1[0].id == opp[0].id
            &&& m.1[0].price == opp[0].price
            &&& m.1[0].timestamp == opp[0].timestamp
            &&& m.1[0].quantity == opp[0].quantity - qty
            &&& m.2 == 0
        }),
{
}

/// What one walk does to the ladder it consumes: the ladder stays well
/// formed, keeps its arrival bound, never gains a better front price, and if
/// the incoming order has anything left, nothing that remains is marketable
/// against it.
pub proof fn lemma_match_book(
    opp: Seq<Order>,
    lside: Side,
    taker: Side,
    limit: i64,
    qty: int,
    id: u64,
    t: u64,
)
    requires
        ladder_wf(opp, lside),
        ts_below(opp, t),
    ensures
        ({
            let m = match_rec(opp, taker, limit, qty, id);
            &&& ladder_wf(m.1, lside)
            &&& ts_below(m.1, t)
            &&& m.2 > 0 ==> (m.1.len() == 0 || !marketable(taker, limit, m.1[0].price))
            &&& (m.1.len() > 0 && opp.len() > 0) ==> !better_price(
                lside,
                m.1[0].price,
                opp[0].price,
            )
        }),
    decreases opp.len(),
{
    let m = match_rec(opp, taker, limit, qty, id);
    if qty <= 0 || opp.len() == 0 || !marketable(taker, limit, opp[0].price) {
    } else {
        let maker = opp[0];
        if maker.quantity > qty {
            let reduced = Order { quantity: (maker.quantity - qty) as i64, ..maker };
            let res = opp.update(0, reduced);
            assert(order_ok(res[0], lside));
            assert(forall|i: int| 1 <= i < res.len() ==> res[i] == opp[i]);
            assert forall|i: int, j: int| 0 <= i < j < res.len() implies ahead_of(
                lside,
                #[trigger] res[i],
                #[trigger] res[j],
            ) by {
                assert(ahead_of(lside, opp[i], opp[j]));
            }
        } else {
            let tail = opp.drop_first();
            assert(forall|i: int| 0 <= i < tail.len() ==> tail[i] == opp[i + 1]);
            assert(forall|i: int| 0 <= i < tail.len() ==> order_ok(#[trigger] tail[i], lside));
            assert forall|i: int, j: int| 0 <= i < j < tail.len() implies ahead_of(
                lside,
                #[trigger] tail[i],
                #[trigger] tail[j],
            ) by {
                assert(ahead_of(lside, opp[i + 1], opp[j + 1]));
            }
            assert(forall|i: int| 0 <= i < tail.len() ==> (#[trigger] tail[i]).timestamp < t);
            let traded = maker.quantity as int;
            lemma_match_book(tail, lside, taker, limit, qty - traded, id, t);
            let rest = match_rec(tail, taker, limit, qty - traded, id);
            if rest.1.len() > 0 && tail.len() > 0 {
                assert(!better_price(lside, rest.1[0].price, tail[0].price));
                assert(ahead_of(lside, opp[0], opp[1]));
            }
        }
    }
}

/// Execute an incoming order against the opposite ladder, consuming resting
/// orders front to back while they are marketable. Returns the trades in
/// execution order and the unmatched remainder of the incoming quantity;
/// exactly the walk that `match_rec` describes.
pub fn match_against(opp: &mut Vec<Order>, taker: Side, limit: i64, qty: i64, taker_id: u64) -> (r:
    (Vec<Trade>, i64))
    requires
        qty > 0,
        forall|i: int| 0 <= i < old(opp)@.len() ==> (#[trigger] old(opp)@[i]).quantity > 0,
    ensures
        ({
            let m = match_rec(old(opp)@, taker, limit, qty as int, taker_id);
            &&& r.0@ == m.0
            &&& final(opp)@ == m.1
            &&& r.1 as int == m.2
        }),
{
    let mut trades: Vec<Trade> = Vec::new();
    let mut remaining: i64 = qty;
    loop
        invariant
            0 <= remaining <= qty,
            forall|i: int| 0 <= i < opp@.len() ==> (#[trigger] opp@[i]).quantity > 0,
            ({
                let full = match_rec(old(opp)@, taker, limit, qty as int, taker_id);
                let cur = match_rec(opp@, taker, limit, remaining as int, taker_id);
                &&& full.0 == trades@ + cur.0
                &&& full.1 == cur.1
                &&& full.2 == cur.2
            }),
        ensures
            ({
                let full = match_rec(old(opp)@, taker, limit, qty as int, taker_id);
                &&& full.0 == trades@
                &&& full.1 == opp@
                &&& full.2 == remaining as int
            }),
        decreases remaining,
    {
        let ghost full = match_rec(old(opp)@, taker, limit, qty as int, taker_id);
        if remaining <= 0 || opp.len() == 0 {
            proof {
                assert(match_rec(opp@, taker, limit, remaining as int, taker_id) == (
                    Seq::<Trade>::empty(),
                    opp@,
                    remaining as int,
                ));
                assert(trades@ + Seq::<Trade>::empty() =~= trades@);
            }
            break;
        }
        let front_price = opp[0].price;
        let mkt = match taker {
            Side::Buy => front_price <= limit,
            Side::Sell => front_price >= limit,
        };
        if !mkt {
            proof {
                assert(match_rec(opp@, taker, limit, remaining as int, taker_id) == (
                    Seq::<Trade>::empty(),
                    opp@,
                    remaining as int,
                ));
                assert(trades@ + Seq::<Trade>::empty() =~= trades@);
            }
            break;
        }
        let ghost pre = opp@;
        let ghost pre_trades = trades@;
        let ghost pre_rem = remaining as int;
        let mut maker = opp.remove(0);
        let traded = if remaining < maker.quantity {
            remaining
        } else {
            maker.quantity
        };
        let t = Trade { price: maker.price, quantity: traded, maker_id: maker.id, taker_id };
        trades.push(t);
        remaining = remaining - traded;
        if maker.quantity > traded {
            maker.quantity = maker.quantity - traded;
            opp.insert(0, maker);
            proof {
                let reduced = Order { quantity: (pre[0].quantity - pre_rem) as i64, ..pre[0] };
                assert(opp@ =~= pre.update(0, reduced));
                assert(match_rec(pre, taker, limit, pre_rem, taker_id) == (
                    seq![t],
                    pre.update(0, reduced),
                    0int,
                ));
                assert(match_rec(opp@, taker, limit, 0int, taker_id) == (
                    Seq::<Trade>::empty(),
                    opp@,
                    0int,
                ));
                assert(pre_trades + seq![t] =~= trades@);
                assert(trades@ + Seq::<Trade>::empty() =~= trades@);
                assert(pre_trades + (seq![t] + Seq::<Trade>::empty()) =~= trades@);
            }
            break;
        }
        proof {
            assert(opp@ =~= pre.drop_first());
            let rest = match_rec(pre.drop_first(), taker, limit, pre_rem - traded as int, taker_id);
            assert(match_rec(pre, taker, limit, pre_rem, taker_id) == (
                seq![t] + rest.0,
                rest.1,
                rest.2,
            ));
            assert(pre_trades + (seq![t] + rest.0) =~= (pre_trades + seq![t]) + rest.0);
            assert(pre_trades + seq![t] =~= trades@);
            assert(forall|i: int| 0 <= i < opp@.len() ==> opp@[i] == pre[i + 1]);
        }
    }
    (trades, remaining)
}

} // verus!
