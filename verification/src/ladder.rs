//! One side of the book: a ladder of resting orders.
//!
//! A ladder is kept as a single vector sorted by strict price-time priority,
//! best first: higher prices first on the bid ladder, lower prices first on
//! the ask ladder, and within one price the earlier arrival first. A price
//! level is the maximal run of equal-priced orders, so a level exists exactly
//! while some order rests at that price, and the front of the ladder is the
//! front of the best level.

use vstd::prelude::*;

use crate::types::{Order, Side};

verus! {

/// On a ladder of side `side`, price `a` is strictly better than price `b`:
/// higher for bids, lower for asks.
pub open spec fn better_price(side: Side, a: i64, b: i64) -> bool {
    match side {
        Side::Buy => a > b,
        Side::Sell => a < b,
    }
}

/// Strict price-time priority between two resting orders of one ladder:
/// a strictly better price, or the same price and an earlier arrival.
pub open spec fn ahead_of(side: Side, a: Order, b: Order) -> bool {
    better_price(side, a.price, b.price) || (a.price == b.price && a.timestamp < b.timestamp)
}

/// A resting order fit for a ladder of side `side`: positive price and
/// quantity, and tagged with that side.
pub open spec fn order_ok(o: Order, side: Side) -> bool {
    o.price > 0 && o.quantity > 0 && o.side == side
}

/// A well-formed ladder: every order is fit for this side, and the orders are
/// sorted by strict price-time priority, best first.
pub open spec fn ladder_wf(ls: Seq<Order>, side: Side) -> bool {
    &&& forall|i: int| 0 <= i < ls.len() ==> order_ok(#[trigger] ls[i], side)
    &&& forall|i: int, j: int|
        0 <= i < j < ls.len() ==> ahead_of(side, #[trigger] ls[i], #[trigger] ls[j])
}

/// Every resting order arrived before sequence number `t`.
pub open spec fn ts_below(ls: Seq<Order>, t: u64) -> bool {
    forall|i: int| 0 <= i < ls.len() ==> (#[trigger] ls[i]).timestamp < t
}

/// Total resting quantity at price `p`.
pub open spec fn level_qty(ls: Seq<Order>, p: i64) -> int
    decreases ls.len(),
{
    if ls.len() == 0 {
        0
    } else {
        (if ls[0].price == p {
            ls[0].quantity as int
        } else {
            0
        }) + level_qty(ls.drop_first(), p)
    }
}

/// Number of resting orders at price `p`.
pub open spec fn level_len(ls: Seq<Order>, p: i64) -> int
    decreases ls.len(),
{
    if ls.len() == 0 {
        0
    } else {
        (if ls[0].price == p {
            1int
        } else {
            0
        }) + level_len(ls.drop_first(), p)
    }
}

/// Whether a price level exists: some order rests at price `p`.
pub open spec fn has_level(ls: Seq<Order>, p: i64) -> bool {
    exists|i: int| 0 <= i < ls.len() && (#[trigger] ls[i]).price == p
}

/// Where a newly arrived order comes to rest: behind every resting order
/// whose price is at least as good as its own, ahead of the rest. Equal
/// prices keep first-in-first-out order, so the newcomer joins the back of
/// its level.
pub open spec fn rest_pos(ls: Seq<Order>, o: Order, side: Side) -> int
    decreases ls.len(),
{
    if ls.len() == 0 {
        0
    } else if better_price(side, o.price, ls[0].price) {
        0
    } else {
        1 + rest_pos(ls.drop_first(), o, side)
    }
}

/// The ladder after a newly arrived order comes to rest.
pub open spec fn rest_insert(ls: Seq<Order>, o: Order, side: Side) -> Seq<Order> {
    ls.insert(rest_pos(ls, o, side), o)
}

/// A price level is present in a ladder exactly while its queue of orders is
/// non-empty: in this representation a level is the run of orders at one
/// price, so there is no way to hold an empty level.
pub proof fn lemma_level_iff(ls: Seq<Order>, p: i64)
    ensures
        has_level(ls, p) <==> level_len(ls, p) > 0,
        level_len(ls, p) >= 0,
    decreases ls.len(),
{
    if ls.len() == 0 {
    } else {
        lemma_level_iff(ls.drop_first(), p);
        if ls[0].price == p {
            assert(has_level(ls, p));
        } else {
            if has_level(ls, p) {
                let i = choose|i: int| 0 <= i < ls.len() && (#[trigger] ls[i]).price == p;
                assert(ls.drop_first()[i - 1].price == p);
                assert(has_level(ls.drop_first(), p));
            }
            if has_level(ls.drop_first(), p) {
                let i = choose|i: int|
                    0 <= i < ls.drop_first().len() && (#[trigger] ls.drop_first()[i]).price == p;
                assert(ls[i + 1].price == p);
            }
        }
    }
}

/// Quantity at a level is the sum of positive order quantities: non-negative,
/// and zero exactly when the level is absent.
pub proof fn lemma_level_qty_bounds(ls: Seq<Order>, p: i64)
    requires
        forall|i: int| 0 <= i < ls.len() ==> (#[trigger] ls[i]).quantity > 0,
    ensures
        level_qty(ls, p) >= 0,
        level_qty(ls, p) > 0 <==> has_level(ls, p),
    decreases ls.len(),
{
    if ls.len() == 0 {
    } else {
        assert(forall|i: int|
            0 <= i < ls.drop_first().len() ==> (#[trigger] ls.drop_first()[i]).quantity > 0);
        lemma_level_qty_bounds(ls.drop_first(), p);
        lemma_level_iff(ls, p);
        lemma_level_iff(ls.drop_first(), p);
        if ls[0].price == p {
            assert(has_level(ls, p));
        } else {
            if has_level(ls, p) {
                let i = choose|i: int| 0 <= i < ls.len() && (#[trigger] ls[i]).price == p;
                assert(ls.drop_first()[i - 1].price == p);
                assert(has_level(ls.drop_first(), p));
            }
            if has_level(ls.drop_first(), p) {
                let i = choose|i: int|
                    0 <= i < ls.drop_first().len() && (#[trigger] ls.drop_first()[i]).price == p;
                assert(ls[i + 1].price == p);
            }
        }
    }
}

/// One step of summing a level from the back of the ladder.
pub proof fn lemma_level_qty_skip_step(ls: Seq<Order>, p: i64, i: int)
    requires
        0 <= i < ls.len(),
    ensures
        level_qty(ls.skip(i), p) == (if ls[i].price == p {
            ls[i].quantity as int
        } else {
            0
        }) + level_qty(ls.skip(i + 1), p),
        level_len(ls.skip(i), p) == (if ls[i].price == p {
            1int
        } else {
            0
        }) + level_len(ls.skip(i + 1), p),
{
    assert(ls.skip(i)[0] == ls[i]);
    assert(ls.skip(i).drop_first() =~= ls.skip(i + 1));
}

/// A partial sum from the back never exceeds the whole level's quantity.
pub proof fn lemma_level_qty_skip_le(ls: Seq<Order>, p: i64, i: int)
    requires
        forall|k: int| 0 <= k < ls.len() ==> (#[trigger] ls[k]).quantity > 0,
        0 <= i <= ls.len(),
    ensures
        0 <= level_qty(ls.skip(i), p) <= level_qty(ls, p),
    decreases i,
{
    assert(forall|k: int| 0 <= k < ls.skip(i).len() ==> (#[trigger] ls.skip(i)[k]).quantity > 0);
    lemma_level_qty_bounds(ls.skip(i), p);
    if i == 0 {
        assert(ls.skip(0) =~= ls);
    } else {
        lemma_level_qty_skip_step(ls, p, i - 1);
        lemma_level_qty_skip_le(ls, p, i - 1);
        assert(ls.skip(0) =~= ls);
    }
}

/// Appending one order changes a level's totals by exactly that order's
/// contribution.
pub proof fn lemma_level_push(s: Seq<Order>, x: Order, p: i64)
    ensures
        level_qty(s.push(x), p) == level_qty(s, p) + (if x.price == p {
            x.quantity as int
        } else {
            0
        }),
        level_len(s.push(x), p) == level_len(s, p) + (if x.price == p {
            1int
        } else {
            0
        }),
    decreases s.len(),
{
    if s.len() == 0 {
        assert(s.push(x)[0] == x);
        assert(s.push(x).drop_first() =~= Seq::<Order>::empty());
        assert(level_qty(Seq::<Order>::empty(), p) == 0);
        assert(level_len(Seq::<Order>::empty(), p) == 0);
        assert(level_qty(s, p) == 0);
        assert(level_len(s, p) == 0);
    } else {
        assert(s.push(x)[0] == s[0]);
        assert(s.push(x).drop_first() =~= s.drop_first().push(x));
        lemma_level_push(s.drop_first(), x, p);
        assert(level_qty(s, p) == (if s[0].price == p {
            s[0].quantity as int
        } else {
            0
        }) + level_qty(s.drop_first(), p));
        assert(level_len(s, p) == (if s[0].price == p {
            1int
        } else {
            0
        }) + level_len(s.drop_first(), p));
    }
}

/// A level's totals split at any point of the ladder.
pub proof fn lemma_level_split(ls: Seq<Order>, p: i64, m: int)
    requires
        0 <= m <= ls.len(),
    ensures
        level_qty(ls, p) == level_qty(ls.take(m), p) + level_qty(ls.skip(m), p),
        level_len(ls, p) == level_len(ls.take(m), p) + level_len(ls.skip(m), p),
    decreases m,
{
    if m == 0 {
        assert(ls.take(0) =~= Seq::<Order>::empty());
        assert(ls.skip(0) =~= ls);
    } else {
        lemma_level_split(ls, p, m - 1);
        lemma_level_qty_skip_step(ls, p, m - 1);
        assert(ls.take(m) =~= ls.take(m - 1).push(ls[m - 1]));
        lemma_level_push(ls.take(m - 1), ls[m - 1], p);
    }
}

/// The exact total quantity resting at price `p`, for depth queries.
/// The sum is owed to fit the quantity type; the book keeps each order's
/// quantity positive, so partial sums stay within the total.
pub fn level_total(ls: &Vec<Order>, p: i64) -> (q: i64)
    requires
        forall|i: int| 0 <= i < ls@.len() ==> (#[trigger] ls@[i]).quantity > 0,
        level_qty(ls@, p) <= i64::MAX,
    ensures
        q == level_qty(ls@, p),
{
    let mut i: usize = ls.len();
    let mut q: i64 = 0;
    proof {
        assert(ls@.skip(i as int) =~= Seq::<Order>::empty());
    }
    while i > 0
        invariant
            0 <= i <= ls@.len(),
            forall|k: int| 0 <= k < ls@.len() ==> (#[trigger] ls@[k]).quantity > 0,
            level_qty(ls@, p) <= i64::MAX,
            q == level_qty(ls@.skip(i as int), p),
        decreases i,
    {
        i = i - 1;
        proof {
            lemma_level_qty_skip_step(ls@, p, i as int);
            lemma_level_qty_skip_le(ls@, p, i as int);
            lemma_level_qty_skip_le(ls@, p, i as int + 1);
        }
        if ls[i].price == p {
            q = q + ls[i].quantity;
        }
    }
    proof {
        assert(ls@.skip(0) =~= ls@);
    }
    q
}

/// Where the newcomer lands: behind everything with an at-least-as-good
/// price, ahead of everything strictly worse.
pub proof fn lemma_rest_pos(ls: Seq<Order>, o: Order, side: Side)
    ensures
        0 <= rest_pos(ls, o, side) <= ls.len(),
        forall|i: int|
            0 <= i < rest_pos(ls, o, side) ==> !better_price(side, o.price, (#[trigger] ls[i]).price),
        rest_pos(ls, o, side) < ls.len() ==> better_price(
            side,
            o.price,
            ls[rest_pos(ls, o, side)].price,
        ),
    decreases ls.len(),
{
    if ls.len() == 0 {
    } else if better_price(side, o.price, ls[0].price) {
    } else {
        lemma_rest_pos(ls.drop_first(), o, side);
        let k = rest_pos(ls.drop_first(), o, side);
        assert(forall|i: int| 1 <= i < 1 + k ==> ls[i] == ls.drop_first()[i - 1]);
        if k < ls.drop_first().len() {
            assert(ls[1 + k] == ls.drop_first()[k]);
        }
    }
}

/// Resting a newly stamped order keeps the ladder well formed, keeps every
/// arrival bound, and the new best of the ladder is the better of the old
/// best and the newcomer. A later arrival never gets ahead of a resting
/// order at its own price.
pub proof fn lemma_rest_insert(ls: Seq<Order>, o: Order, side: Side, t: u64)
    requires
        ladder_wf(ls, side),
        order_ok(o, side),
        ts_below(ls, o.timestamp),
        o.timestamp < t,
    ensures
        ladder_wf(rest_insert(ls, o, side), side),
        ts_below(rest_insert(ls, o, side), t),
        rest_insert(ls, o, side).len() == ls.len() + 1,
        rest_insert(ls, o, side)[0] == (if ls.len() == 0 || better_price(side, o.price, ls[0].price) {
            o
        } else {
            ls[0]
        }),
{
    lemma_rest_pos(ls, o, side);
    let k = rest_pos(ls, o, side);
    let res = rest_insert(ls, o, side);
    assert(forall|i: int| 0 <= i < k ==> res[i] == ls[i]);
    assert(res[k] == o);
    assert(forall|i: int| k < i < res.len() ==> res[i] == ls[i - 1]);
    // Orders strictly after the insertion point have a strictly worse price
    // than the newcomer: the one at the insertion point does, and the ladder
    // is sorted.
    assert forall|i: int| k < i < res.len() implies ahead_of(side, o, res[i]) by {
        assert(res[i] == ls[i - 1]);
        assert(better_price(side, o.price, ls[k].price));
        if i - 1 > k {
            assert(ahead_of(side, ls[k], ls[i - 1]));
        }
    }
    // Orders before the insertion point have an at-least-as-good price; at an
    // equal price they arrived earlier, since the newcomer's stamp is fresh.
    assert forall|i: int| 0 <= i < k implies ahead_of(side, res[i], o) by {
        assert(res[i] == ls[i]);
        assert(!better_price(side, o.price, ls[i].price));
        assert(ls[i].timestamp < o.timestamp);
    }
    assert forall|i: int, j: int| 0 <= i < j < res.len() implies ahead_of(
        side,
        #[trigger] res[i],
        #[trigger] res[j],
    ) by {
        if i < k && j < k {
            assert(ahead_of(side, ls[i], ls[j]));
        } else if i > k && j > k {
            assert(ahead_of(side, ls[i - 1], ls[j - 1]));
        } else if i < k && j > k {
            assert(ahead_of(side, ls[i], ls[j - 1]));
        }
    }
    if ls.len() > 0 && !better_price(side, o.price, ls[0].price) {
        assert(k > 0);
        assert(res[0] == ls[0]);
    }
}

/// Whether `a` is a strictly better price than `b` on a ladder of this side.
pub fn price_better(side: Side, a: i64, b: i64) -> (r: bool)
    ensures
        r == better_price(side, a, b),
{
    match side {
        Side::Buy => a > b,
        Side::Sell => a < b,
    }
}

/// Put a newly stamped order to rest in its ladder.
pub fn rest_push(ls: &mut Vec<Order>, o: Order, side: Side)
    ensures
        final(ls)@ == rest_insert(old(ls)@, o, side),
{
    let mut i: usize = 0;
    loop
        invariant
            0 <= i <= ls@.len(),
            forall|k: int| 0 <= k < i ==> !better_price(side, o.price, (#[trigger] ls@[k]).price),
        ensures
            0 <= i <= ls@.len(),
            forall|k: int| 0 <= k < i ==> !better_price(side, o.price, (#[trigger] ls@[k]).price),
            i < ls@.len() ==> better_price(side, o.price, ls@[i as int].price),
        decreases ls@.len() - i,
    {
        if i >= ls.len() {
            break;
        }
        if price_better(side, o.price, ls[i].price) {
            break;
        }
        i = i + 1;
    }
    proof {
        lemma_rest_pos(ls@, o, side);
        let k = rest_pos(ls@, o, side);
        // The scan stopped exactly at the resting position.
        if i < k {
            assert(better_price(side, o.price, ls@[i as int].price));
            assert(!better_price(side, o.price, ls@[i as int].price));
        }
        if k < i {
            assert(better_price(side, o.price, ls@[k].price));
            assert(!better_price(side, o.price, ls@[k].price));
        }
    }
    ls.insert(i, o);
}

} // verus!
