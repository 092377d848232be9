use vstd::prelude::*;
use std::collections::VecDeque;
use crate::order::{next_revision, updated, Order, OrderId, Price, Quantity, Revision, Side};
use crate::trade::{now_unix_ns, Trade};
use crate::id_count::{lcount, lemma_deleted_unique, lemma_lcount_pos, lemma_lcount_zero, lemma_matched_unique, unique_ids};

verus! {

/// A price with the total quantity resting there.
#[derive(PartialEq, Eq, Structural, Clone, Copy, Debug)]
pub struct OrderBookLevel {
    pub price: Price,
    pub quantity: Quantity,
}

impl OrderBookLevel {
    pub fn new(price: i64, quantity: i64) -> (r: OrderBookLevel)
        ensures
            r == (OrderBookLevel { price: Price(price), quantity: Quantity(quantity) }),
    {
        OrderBookLevel { price: Price(price), quantity: Quantity(quantity) }
    }
}

#[derive(PartialEq, Eq, Structural, Clone, Copy, Debug)]
pub enum OrderModificationError {
    OrderNotFound,
}

/// The orders resting at one price, oldest first.
pub struct PriceLevel {
    pub price: Price,
    pub orders: VecDeque<Order>,
}

/// A level as the contracts see it: its price and its queue.
pub type LevelView = (i64, Seq<Order>);

pub open spec fn view_levels(v: Seq<PriceLevel>) -> Seq<LevelView> {
    v.map_values(|l: PriceLevel| (l.price.0, l.orders@))
}

pub open spec fn opposite(s: Side) -> Side {
    match s {
        Side::Buy => Side::Sell,
        Side::Sell => Side::Buy,
    }
}

/// On side `s`, price `a` is further from the touch than price `b`.
/// Each side keeps its levels from the worst price to the best, so its best level is the last.
pub open spec fn worse(s: Side, a: i64, b: i64) -> bool {
    match s {
        Side::Buy => a < b,
        Side::Sell => a > b,
    }
}

/// An order of side `s` with limit `limit` may trade with a level at price `level`.
pub open spec fn crosses(s: Side, limit: i64, level: i64) -> bool {
    match s {
        Side::Buy => limit >= level,
        Side::Sell => limit <= level,
    }
}

/// The levels of side `s`: strictly sorted from worst to best price, none empty, and each
/// holding only live orders of that side at that price.
pub open spec fn side_wf(levels: Seq<LevelView>, s: Side) -> bool {
    &&& forall|i: int, j: int|
        0 <= i < j < levels.len() ==> #[trigger] worse(s, levels[i].0, levels[j].0)
    &&& forall|i: int| 0 <= i < levels.len() ==> (#[trigger] levels[i]).1.len() > 0
    &&& forall|i: int, k: int|
        0 <= i < levels.len() && 0 <= k < levels[i].1.len() ==> {
            let o = #[trigger] levels[i].1[k];
            &&& o.price.0 == levels[i].0
            &&& o.side == s
            &&& o.quantity.0 > 0
        }
}

/// The best bid is below the best ask.
pub open spec fn uncrossed(bids: Seq<LevelView>, asks: Seq<LevelView>) -> bool {
    bids.len() > 0 && asks.len() > 0 ==> bids.last().0 < asks.last().0
}

/// The trade of `q` lots against the resting `maker`.
pub open spec fn trade_at(maker: Order, q: int, taker: OrderId, now: i64) -> Trade {
    Trade {
        price: maker.price,
        quantity: Quantity(q as i64),
        maker_id: maker.id,
        taker_id: taker,
        exec_time: now,
    }
}

/// A maker that gave `q` of its lots and stays: fewer lots, next revision, same place.
pub open spec fn partially_filled(maker: Order, q: int) -> Order {
    Order {
        quantity: Quantity((maker.quantity.0 - q) as i64),
        revision: Revision(next_revision(maker.revision.0)),
        ..maker
    }
}

/// Fills up to `qty` lots against a queue, oldest first: the trades, what is left of the
/// queue and the lots still wanted.
pub open spec fn fill(q: Seq<Order>, qty: int, taker: OrderId, now: i64) -> (Seq<Trade>, Seq<Order>, int)
    decreases q.len(),
{
    if qty <= 0 || q.len() == 0 {
        (Seq::empty(), q, qty)
    } else if q[0].quantity.0 > qty {
        (seq![trade_at(q[0], qty, taker, now)], q.update(0, partially_filled(q[0], qty)), 0)
    } else {
        let r = fill(q.drop_first(), qty - q[0].quantity.0, taker, now);
        (seq![trade_at(q[0], q[0].quantity.0 as int, taker, now)] + r.0, r.1, r.2)
    }
}

/// Fills up to `qty` lots of a taker of side `s` and limit `limit` against the opposite
/// side's levels, best level first, until the taker is done or the next level does not
/// cross: the trades, the levels left and the lots still wanted.
pub open spec fn sweep(levels: Seq<LevelView>, s: Side, limit: i64, qty: int, taker: OrderId, now: i64) -> (
    Seq<Trade>,
    Seq<LevelView>,
    int,
)
    decreases levels.len(),
{
    if qty <= 0 || levels.len() == 0 || !crosses(s, limit, levels.last().0) {
        (Seq::empty(), levels, qty)
    } else {
        let lv = levels.last();
        let f = fill(lv.1, qty, taker, now);
        if f.1.len() == 0 {
            let r = sweep(levels.drop_last(), s, limit, f.2, taker, now);
            (f.0 + r.0, r.1, r.2)
        } else {
            (f.0, levels.update(levels.len() - 1, (lv.0, f.1)), f.2)
        }
    }
}

/// Rests `o` on side `s`: at the tail of the level of its price, or in a new level at its
/// place in the order of prices.
pub open spec fn rest_in(levels: Seq<LevelView>, o: Order, s: Side) -> Seq<LevelView>
    decreases levels.len(),
{
    if levels.len() == 0 {
        seq![(o.price.0, seq![o])]
    } else if levels[0].0 == o.price.0 {
        levels.update(0, (o.price.0, levels[0].1.push(o)))
    } else if worse(s, o.price.0, levels[0].0) {
        seq![(o.price.0, seq![o])] + levels
    } else {
        seq![levels[0]] + rest_in(levels.drop_first(), o, s)
    }
}

/// Total quantity of a sequence of trades.
pub open spec fn traded(ts: Seq<Trade>) -> int
    decreases ts.len(),
{
    if ts.len() == 0 {
        0
    } else {
        traded(ts.drop_last()) + ts.last().quantity.0
    }
}

/// Total quantity of a queue.
pub open spec fn queued(q: Seq<Order>) -> int
    decreases q.len(),
{
    if q.len() == 0 {
        0
    } else {
        queued(q.drop_last()) + q.last().quantity.0
    }
}

/// The outcome of matching `o` against a book with levels `bids` and `asks`: the trades,
/// then the bids and the asks after the residual, if any, came to rest.
pub open spec fn matched(bids: Seq<LevelView>, asks: Seq<LevelView>, o: Order, now: i64) -> (
    Seq<Trade>,
    Seq<LevelView>,
    Seq<LevelView>,
) {
    let opp = match o.side {
        Side::Buy => asks,
        Side::Sell => bids,
    };
    let r = sweep(opp, o.side, o.price.0, o.quantity.0 as int, o.id, now);
    let residual = Order { quantity: Quantity(r.2 as i64), ..o };
    match o.side {
        Side::Buy => (r.0, if r.2 > 0 { rest_in(bids, residual, Side::Buy) } else { bids }, r.1),
        Side::Sell => (r.0, r.1, if r.2 > 0 { rest_in(asks, residual, Side::Sell) } else { asks }),
    }
}

fn fill_queue(q: &mut VecDeque<Order>, qty: i64, taker: OrderId, now: i64, trades: &mut Vec<Trade>) -> (rem: i64)
    requires
        qty >= 0,
        forall|k: int| 0 <= k < old(q)@.len() ==> (#[trigger] old(q)@[k]).quantity.0 > 0,
    ensures
        ({
            let r = fill(old(q)@, qty as int, taker, now);
            &&& final(trades)@ == old(trades)@ + r.0
            &&& final(q)@ == r.1
            &&& rem == r.2
        }),
{
    let ghost q0 = q@;
    let ghost t0 = trades@;
    let mut rem: i64 = qty;
    while rem > 0 && q.len() > 0
        invariant
            0 <= rem <= qty,
            forall|k: int| 0 <= k < q@.len() ==> (#[trigger] q@[k]).quantity.0 > 0,
            ({
                let r = fill(q@, rem as int, taker, now);
                let r0 = fill(q0, qty as int, taker, now);
                &&& trades@ + r.0 == t0 + r0.0
                &&& r.1 == r0.1
                &&& r.2 == r0.2
            }),
        decreases q@.len() + rem,
    {
        let ghost qa = q@;
        let ghost ta = trades@;
        let ghost ra = rem as int;
        let m = match q.pop_front() {
            Some(m) => m,
            None => { return rem; },
        };
        if m.quantity.0 > rem {
            trades.push(Trade { price: m.price, quantity: Quantity(rem), maker_id: m.id, taker_id: taker, exec_time: now });
            let left = Order { quantity: Quantity(m.quantity.0 - rem), revision: m.revision.next(), ..m };
            q.push_front(left);
            rem = 0;
            assert(q@ =~= qa.update(0, partially_filled(qa[0], ra)));
            assert(trades@ + Seq::<Trade>::empty() =~= ta + fill(qa, ra, taker, now).0);
        } else {
            trades.push(Trade { price: m.price, quantity: m.quantity, maker_id: m.id, taker_id: taker, exec_time: now });
            rem = rem - m.quantity.0;
            assert(q@ =~= qa.drop_first());
            let ghost r = fill(q@, rem as int, taker, now);
            assert(trades@ + r.0 =~= ta + (seq![trade_at(qa[0], qa[0].quantity.0 as int, taker, now)] + r.0));
        }
    }
    assert(trades@ + Seq::<Trade>::empty() =~= trades@);
    rem
}

pub(crate) proof fn lemma_fill(q: Seq<Order>, qty: int, taker: OrderId, now: i64, p: i64, s: Side)
    requires
        0 <= qty <= i64::MAX,
        forall|k: int|
            0 <= k < q.len() ==> {
                let o = #[trigger] q[k];
                &&& o.price.0 == p
                &&& o.side == s
                &&& o.quantity.0 > 0
            },
    ensures
        ({
            let r = fill(q, qty, taker, now);
            &&& forall|k: int|
                0 <= k < r.1.len() ==> {
                    let o = #[trigger] r.1[k];
                    &&& o.price.0 == p
                    &&& o.side == s
                    &&& o.quantity.0 > 0
                }
            &&& r.1.len() > 0 ==> r.2 == 0
            &&& r.1.len() <= q.len()
            &&& 0 <= r.2 <= qty
            &&& traded(r.0) + r.2 == qty
            &&& forall|t: int|
                0 <= t < r.0.len() ==> {
                    let tr = #[trigger] r.0[t];
                    &&& tr.price.0 == p
                    &&& tr.quantity.0 > 0
                    &&& tr.taker_id == taker
                    &&& tr.exec_time == now
                }
        }),
    decreases q.len(),
{
    let r = fill(q, qty, taker, now);
    if qty <= 0 || q.len() == 0 {
    } else if q[0].quantity.0 > qty {
        let t = trade_at(q[0], qty, taker, now);
        assert(seq![t].drop_last() =~= Seq::<Trade>::empty());
        assert(seq![t].last() == t);
        assert(traded(seq![t]) == traded(seq![t].drop_last()) + t.quantity.0);
        assert forall|k: int| 0 <= k < r.1.len() implies {
            let o = #[trigger] r.1[k];
            &&& o.price.0 == p
            &&& o.side == s
            &&& o.quantity.0 > 0
        } by {
            if k > 0 {
                assert(r.1[k] == q[k]);
            }
        }
    } else {
        let rest = q.drop_first();
        assert forall|k: int| 0 <= k < rest.len() implies {
            let o = #[trigger] rest[k];
            &&& o.price.0 == p
            &&& o.side == s
            &&& o.quantity.0 > 0
        } by {
            assert(rest[k] == q[k + 1]);
        }
        let t = trade_at(q[0], q[0].quantity.0 as int, taker, now);
        let sub = fill(rest, qty - q[0].quantity.0, taker, now);
        lemma_fill(rest, qty - q[0].quantity.0, taker, now, p, s);
        lemma_traded_prepend(t, sub.0);
    }
}

pub(crate) proof fn lemma_traded_prepend(t: Trade, ts: Seq<Trade>)
    ensures
        traded(seq![t] + ts) == t.quantity.0 + traded(ts),
    decreases ts.len(),
{
    let whole = seq![t] + ts;
    if ts.len() == 0 {
        assert(whole =~= seq![t]);
        assert(whole.drop_last() =~= Seq::<Trade>::empty());
        assert(whole.last() == t);
        assert(traded(whole) == traded(whole.drop_last()) + t.quantity.0);
        assert(traded(ts) == 0);
    } else {
        assert(whole.drop_last() =~= seq![t] + ts.drop_last());
        assert(whole.last() == ts.last());
        lemma_traded_prepend(t, ts.drop_last());
        assert(traded(whole) == traded(whole.drop_last()) + ts.last().quantity.0);
        assert(traded(ts) == traded(ts.drop_last()) + ts.last().quantity.0);
    }
}

pub(crate) proof fn lemma_traded_append(a: Seq<Trade>, b: Seq<Trade>)
    ensures
        traded(a + b) == traded(a) + traded(b),
    decreases b.len(),
{
    if b.len() == 0 {
        assert(a + b =~= a);
    } else {
        assert((a + b).drop_last() =~= a + b.drop_last());
        lemma_traded_append(a, b.drop_last());
    }
}

fn crosses_at(s: Side, limit: i64, level: i64) -> (r: bool)
    ensures
        r == crosses(s, limit, level),
{
    match s {
        Side::Buy => limit >= level,
        Side::Sell => limit <= level,
    }
}

fn sweep_levels(
    levels: &mut Vec<PriceLevel>,
    s: Side,
    limit: i64,
    qty: i64,
    taker: OrderId,
    now: i64,
    trades: &mut Vec<Trade>,
) -> (rem: i64)
    requires
        qty >= 0,
        side_wf(view_levels(old(levels)@), opposite(s)),
    ensures
        ({
            let r = sweep(view_levels(old(levels)@), s, limit, qty as int, taker, now);
            &&& final(trades)@ == old(trades)@ + r.0
            &&& view_levels(final(levels)@) == r.1
            &&& rem == r.2
        }),
{
    let ghost l0 = view_levels(levels@);
    let ghost t0 = trades@;
    let mut rem: i64 = qty;
    while rem > 0 && levels.len() > 0 && crosses_at(s, limit, levels[levels.len() - 1].price.0)
        invariant
            0 <= rem <= qty,
            side_wf(view_levels(levels@), opposite(s)),
            ({
                let r = sweep(view_levels(levels@), s, limit, rem as int, taker, now);
                let r0 = sweep(l0, s, limit, qty as int, taker, now);
                &&& trades@ + r.0 == t0 + r0.0
                &&& r.1 == r0.1
                &&& r.2 == r0.2
            }),
        decreases levels@.len() + rem,
    {
        let ghost la = view_levels(levels@);
        let ghost ta = trades@;
        let ghost ra = rem as int;
        let mut lvl = match levels.pop() {
            Some(l) => l,
            None => { return rem; },
        };
        assert(view_levels(levels@) =~= la.drop_last());
        let ghost last = la.last();
        assert(last == la[la.len() - 1]);
        assert forall|k: int| 0 <= k < last.1.len() implies {
            let o = #[trigger] last.1[k];
            &&& o.price.0 == last.0
            &&& o.side == opposite(s)
            &&& o.quantity.0 > 0
        } by {
            assert(la[la.len() - 1].1[k] == last.1[k]);
        }
        proof {
            lemma_fill(last.1, ra, taker, now, last.0, opposite(s));
        }
        rem = fill_queue(&mut lvl.orders, rem, taker, now, trades);
        let ghost f = fill(last.1, ra, taker, now);
        if lvl.orders.len() > 0 {
            levels.push(lvl);
            assert(view_levels(levels@) =~= la.update(la.len() - 1, (last.0, f.1)));
            assert(trades@ + Seq::<Trade>::empty() =~= trades@);
            assert forall|i: int, k: int|
                0 <= i < view_levels(levels@).len() && 0 <= k < view_levels(levels@)[i].1.len() implies {
                    let o = #[trigger] view_levels(levels@)[i].1[k];
                    &&& o.price.0 == view_levels(levels@)[i].0
                    &&& o.side == opposite(s)
                    &&& o.quantity.0 > 0
                } by {
                if i < la.len() - 1 {
                    assert(view_levels(levels@)[i] == la[i]);
                }
            }
            assert(side_wf(view_levels(levels@), opposite(s)));
        } else {
            let ghost r = sweep(view_levels(levels@), s, limit, rem as int, taker, now);
            assert(trades@ + r.0 =~= ta + (f.0 + r.0));
            assert(side_wf(view_levels(levels@), opposite(s)));
        }
    }
    assert(trades@ + Seq::<Trade>::empty() =~= trades@);
    rem
}

pub(crate) proof fn lemma_sweep(levels: Seq<LevelView>, s: Side, limit: i64, qty: int, taker: OrderId, now: i64)
    requires
        0 <= qty <= i64::MAX,
        side_wf(levels, opposite(s)),
    ensures
        ({
            let r = sweep(levels, s, limit, qty, taker, now);
            &&& side_wf(r.1, opposite(s))
            &&& r.1.len() <= levels.len()
            &&& forall|i: int| 0 <= i < r.1.len() ==> (#[trigger] r.1[i]).0 == levels[i].0
            &&& r.2 > 0 ==> r.1.len() == 0 || !crosses(s, limit, r.1.last().0)
            &&& 0 <= r.2 <= qty
            &&& traded(r.0) + r.2 == qty
            &&& forall|t: int|
                0 <= t < r.0.len() ==> {
                    let tr = #[trigger] r.0[t];
                    &&& crosses(s, limit, tr.price.0)
                    &&& tr.quantity.0 > 0
                    &&& tr.taker_id == taker
                    &&& tr.exec_time == now
                }
        }),
    decreases levels.len(),
{
    let r = sweep(levels, s, limit, qty, taker, now);
    if qty <= 0 || levels.len() == 0 || !crosses(s, limit, levels.last().0) {
        assert(r.0.len() == 0);
        assert(traded(r.0) == 0);
    } else {
        let n = levels.len() - 1;
        let lv = levels.last();
        assert(lv == levels[n]);
        assert forall|k: int| 0 <= k < lv.1.len() implies {
            let o = #[trigger] lv.1[k];
            &&& o.price.0 == lv.0
            &&& o.side == opposite(s)
            &&& o.quantity.0 > 0
        } by {
            assert(levels[n].1[k] == lv.1[k]);
        }
        lemma_fill(lv.1, qty, taker, now, lv.0, opposite(s));
        let f = fill(lv.1, qty, taker, now);
        if f.1.len() == 0 {
            let rest = levels.drop_last();
            assert forall|i: int, j: int| 0 <= i < j < rest.len() implies #[trigger] worse(opposite(s), rest[i].0, rest[j].0) by {
                assert(rest[i] == levels[i] && rest[j] == levels[j]);
            }
            assert forall|i: int| 0 <= i < rest.len() implies (#[trigger] rest[i]).1.len() > 0 by {
                assert(rest[i] == levels[i]);
            }
            assert forall|i: int, k: int| 0 <= i < rest.len() && 0 <= k < rest[i].1.len() implies {
                let o = #[trigger] rest[i].1[k];
                &&& o.price.0 == rest[i].0
                &&& o.side == opposite(s)
                &&& o.quantity.0 > 0
            } by {
                assert(rest[i] == levels[i]);
            }
            lemma_sweep(rest, s, limit, f.2, taker, now);
            let sub = sweep(rest, s, limit, f.2, taker, now);
            lemma_traded_append(f.0, sub.0);
            assert forall|i: int| 0 <= i < r.1.len() implies (#[trigger] r.1[i]).0 == levels[i].0 by {
                assert(rest[i] == levels[i]);
            }
            assert forall|t: int| 0 <= t < r.0.len() implies {
                let tr = #[trigger] r.0[t];
                &&& crosses(s, limit, tr.price.0)
                &&& tr.quantity.0 > 0
                &&& tr.taker_id == taker
                &&& tr.exec_time == now
            } by {
                if t < f.0.len() {
                    assert(r.0[t] == f.0[t]);
                } else {
                    assert(r.0[t] == sub.0[t - f.0.len()]);
                }
            }
        } else {
            let up = levels.update(n, (lv.0, f.1));
            assert forall|i: int, j: int| 0 <= i < j < up.len() implies #[trigger] worse(opposite(s), up[i].0, up[j].0) by {
                assert(up[i].0 == levels[i].0 && up[j].0 == levels[j].0);
            }
            assert forall|i: int| 0 <= i < up.len() implies (#[trigger] up[i]).1.len() > 0 by {
                if i < n {
                    assert(up[i] == levels[i]);
                }
            }
            assert forall|i: int, k: int| 0 <= i < up.len() && 0 <= k < up[i].1.len() implies {
                let o = #[trigger] up[i].1[k];
                &&& o.price.0 == up[i].0
                &&& o.side == opposite(s)
                &&& o.quantity.0 > 0
            } by {
                if i < n {
                    assert(up[i] == levels[i]);
                } else {
                    assert(up[i].1[k] == f.1[k]);
                }
            }
            assert forall|t: int| 0 <= t < r.0.len() implies {
                let tr = #[trigger] r.0[t];
                &&& crosses(s, limit, tr.price.0)
                &&& tr.quantity.0 > 0
                &&& tr.taker_id == taker
                &&& tr.exec_time == now
            } by {
                assert(r.0[t] == f.0[t]);
            }
        }
    }
}

fn worse_at(s: Side, a: i64, b: i64) -> (r: bool)
    ensures
        r == worse(s, a, b),
{
    match s {
        Side::Buy => a < b,
        Side::Sell => a > b,
    }
}

pub(crate) proof fn lemma_rest_step(levels: Seq<LevelView>, o: Order, s: Side)
    requires
        levels.len() > 0,
        levels[0].0 != o.price.0,
        !worse(s, o.price.0, levels[0].0),
    ensures
        rest_in(levels, o, s) == seq![levels[0]] + rest_in(levels.drop_first(), o, s),
{
}

fn rest_order(levels: &mut Vec<PriceLevel>, o: Order, s: Side)
    ensures
        view_levels(final(levels)@) == rest_in(view_levels(old(levels)@), o, s),
{
    let ghost v0 = view_levels(levels@);
    let p = o.price.0;
    let mut i: usize = 0;
    assert(v0.skip(0) =~= v0);
    assert(v0.take(0) + rest_in(v0, o, s) =~= rest_in(v0, o, s));
    while i < levels.len() && levels[i].price.0 != p && !worse_at(s, p, levels[i].price.0)
        invariant
            i <= levels.len(),
            p == o.price.0,
            view_levels(levels@) == v0,
            rest_in(v0, o, s) == v0.take(i as int) + rest_in(v0.skip(i as int), o, s),
        decreases levels.len() - i,
    {
        let ghost tail = v0.skip(i as int);
        assert(v0[i as int].0 == levels@[i as int].price.0);
        assert(tail[0] == v0[i as int]);
        assert(tail.len() > 0);
        assert(tail[0].0 != p);
        assert(!worse(s, p, tail[0].0));
        assert(tail.drop_first() =~= v0.skip(i + 1));
        proof {
            lemma_rest_step(tail, o, s);
        }
        assert(v0.take(i + 1) =~= v0.take(i as int) + seq![v0[i as int]]);
        assert(v0.take(i + 1) + rest_in(v0.skip(i + 1), o, s) =~= v0.take(i as int) + (seq![v0[i as int]] + rest_in(v0.skip(i + 1), o, s)));
        i = i + 1;
    }
    let ghost tail = v0.skip(i as int);
    assert(i < levels.len() ==> v0[i as int].0 == levels@[i as int].price.0);
    if i == levels.len() {
        let mut q: VecDeque<Order> = VecDeque::new();
        q.push_back(o);
        levels.push(PriceLevel { price: o.price, orders: q });
        assert(tail.len() == 0);
        assert(v0.take(i as int) =~= v0);
        assert(view_levels(levels@) =~= v0 + seq![(p, seq![o])]);
    } else if levels[i].price.0 == p {
        assert(tail[0] == v0[i as int]);
        let mut lvl = levels.remove(i);
        lvl.orders.push_back(o);
        levels.insert(i, lvl);
        assert(view_levels(levels@) =~= v0.take(i as int) + tail.update(0, (p, tail[0].1.push(o))));
    } else {
        assert(tail[0] == v0[i as int]);
        let mut q: VecDeque<Order> = VecDeque::new();
        q.push_back(o);
        levels.insert(i, PriceLevel { price: o.price, orders: q });
        assert(view_levels(levels@) =~= v0.take(i as int) + (seq![(p, seq![o])] + tail));
    }
}

/// Resting an order keeps its side well formed, puts the order at the tail of the level of
/// its price, and brings in no price but its own.
pub(crate) proof fn lemma_rest(levels: Seq<LevelView>, o: Order, s: Side, pred: spec_fn(i64) -> bool)
    requires
        side_wf(levels, s),
        o.side == s,
        o.quantity.0 > 0,
    ensures
        ({
            let r = rest_in(levels, o, s);
            &&& side_wf(r, s)
            &&& (forall|i: int| 0 <= i < levels.len() ==> pred(#[trigger] levels[i].0)) && pred(o.price.0)
                ==> forall|i: int| 0 <= i < r.len() ==> pred(#[trigger] r[i].0)
            &&& exists|i: int| 0 <= i < r.len() && (#[trigger] r[i]).0 == o.price.0 && r[i].1.last() == o
        }),
    decreases levels.len(),
{
    let r = rest_in(levels, o, s);
    let p = o.price.0;
    if levels.len() == 0 {
        assert(r[0].1.last() == o);
    } else if levels[0].0 == p {
        assert forall|i: int, k: int| 0 <= i < r.len() && 0 <= k < r[i].1.len() implies {
            let x = #[trigger] r[i].1[k];
            &&& x.price.0 == r[i].0
            &&& x.side == s
            &&& x.quantity.0 > 0
        } by {
            if i == 0 && k < levels[0].1.len() {
                assert(r[0].1[k] == levels[0].1[k]);
            }
        }
        assert(r[0].1.last() == o);
    } else if worse(s, p, levels[0].0) {
        assert forall|i: int, j: int| 0 <= i < j < r.len() implies #[trigger] worse(s, r[i].0, r[j].0) by {
            if i > 0 {
                assert(r[i] == levels[i - 1] && r[j] == levels[j - 1]);
            } else if j > 1 {
                assert(r[j] == levels[j - 1]);
                assert(worse(s, levels[0].0, levels[j - 1].0));
            }
        }
        assert forall|i: int, k: int| 0 <= i < r.len() && 0 <= k < r[i].1.len() implies {
            let x = #[trigger] r[i].1[k];
            &&& x.price.0 == r[i].0
            &&& x.side == s
            &&& x.quantity.0 > 0
        } by {
            if i > 0 {
                assert(r[i] == levels[i - 1]);
            }
        }
        assert forall|i: int| 0 <= i < r.len() implies (#[trigger] r[i]).1.len() > 0 by {
            if i > 0 {
                assert(r[i] == levels[i - 1]);
            }
        }
        assert(r[0].1.last() == o);
    } else {
        let rest = levels.drop_first();
        assert forall|i: int, j: int| 0 <= i < j < rest.len() implies #[trigger] worse(s, rest[i].0, rest[j].0) by {
            assert(rest[i] == levels[i + 1] && rest[j] == levels[j + 1]);
        }
        assert forall|i: int| 0 <= i < rest.len() implies (#[trigger] rest[i]).1.len() > 0 by {
            assert(rest[i] == levels[i + 1]);
        }
        assert forall|i: int, k: int| 0 <= i < rest.len() && 0 <= k < rest[i].1.len() implies {
            let x = #[trigger] rest[i].1[k];
            &&& x.price.0 == rest[i].0
            &&& x.side == s
            &&& x.quantity.0 > 0
        } by {
            assert(rest[i] == levels[i + 1]);
        }
        let sub = rest_in(rest, o, s);
        let head = levels[0].0;
        let after_head = |x: i64| worse(s, head, x);
        assert forall|i: int| 0 <= i < rest.len() implies after_head(#[trigger] rest[i].0) by {
            assert(rest[i] == levels[i + 1]);
        }
        lemma_rest(rest, o, s, after_head);
        lemma_rest(rest, o, s, pred);
        assert forall|i: int, j: int| 0 <= i < j < r.len() implies #[trigger] worse(s, r[i].0, r[j].0) by {
            if i > 0 {
                assert(r[i] == sub[i - 1] && r[j] == sub[j - 1]);
            } else {
                assert(r[j] == sub[j - 1]);
                assert(after_head(sub[j - 1].0));
            }
        }
        assert forall|i: int| 0 <= i < r.len() implies (#[trigger] r[i]).1.len() > 0 by {
            if i > 0 {
                assert(r[i] == sub[i - 1]);
            }
        }
        assert forall|i: int, k: int| 0 <= i < r.len() && 0 <= k < r[i].1.len() implies {
            let x = #[trigger] r[i].1[k];
            &&& x.price.0 == r[i].0
            &&& x.side == s
            &&& x.quantity.0 > 0
        } by {
            if i > 0 {
                assert(r[i] == sub[i - 1]);
            }
        }
        if (forall|i: int| 0 <= i < levels.len() ==> pred(#[trigger] levels[i].0)) && pred(p) {
            assert forall|i: int| 0 <= i < rest.len() implies pred(#[trigger] rest[i].0) by {
                assert(rest[i] == levels[i + 1]);
            }
            assert forall|i: int| 0 <= i < r.len() implies pred(#[trigger] r[i].0) by {
                if i > 0 {
                    assert(r[i] == sub[i - 1]);
                }
            }
        }
        let w = choose|i: int| 0 <= i < sub.len() && (#[trigger] sub[i]).0 == o.price.0 && sub[i].1.last() == o;
        assert(r[w + 1] == sub[w]);
    }
}

/// Resting orders of both sides, each side a sequence of price levels from the worst price
/// to the best, each level a first-in first-out queue.
pub struct OrderBook {
    bid: Vec<PriceLevel>,
    ask: Vec<PriceLevel>,
}

impl OrderBook {
    /// The bid levels, from the lowest price to the highest.
    pub closed spec fn bids(&self) -> Seq<LevelView> {
        view_levels(self.bid@)
    }

    /// The ask levels, from the highest price to the lowest.
    pub closed spec fn asks(&self) -> Seq<LevelView> {
        view_levels(self.ask@)
    }

    pub open spec fn wf(&self) -> bool {
        &&& side_wf(self.bids(), Side::Buy)
        &&& side_wf(self.asks(), Side::Sell)
        &&& uncrossed(self.bids(), self.asks())
        &&& unique_ids(self.bids(), self.asks())
    }

    /// Some resting order carries `id`.
    pub open spec fn rests_id(&self, id: OrderId) -> bool {
        lcount(self.bids(), id) + lcount(self.asks(), id) > 0
    }

    /// An empty book.
    pub fn new() -> (r: OrderBook)
        ensures
            r.wf(),
            r.bids() == Seq::<LevelView>::empty(),
            r.asks() == Seq::<LevelView>::empty(),
    {
        let r = OrderBook { bid: Vec::new(), ask: Vec::new() };
        assert(r.bids() =~= Seq::<LevelView>::empty());
        assert(r.asks() =~= Seq::<LevelView>::empty());
        assert forall|id: OrderId| #![trigger lcount(r.bids(), id)] #![trigger lcount(r.asks(), id)] lcount(r.bids(), id) + lcount(r.asks(), id) <= 1 by {
            assert(lcount(Seq::<LevelView>::empty(), id) == 0);
        }
        r
    }

    /// Matches `order` against the opposite side at time `now` and rests what is left of it.
    /// `None` when nothing traded.
    pub fn match_order_at(&mut self, order: Order, now: i64) -> (r: Option<Vec<Trade>>)
        requires
            old(self).wf(),
            !old(self).rests_id(order.id),
        ensures
            final(self).wf(),
            ({
                let m = matched(old(self).bids(), old(self).asks(), order, now);
                &&& final(self).bids() == m.1
                &&& final(self).asks() == m.2
                &&& match r {
                    None => m.0.len() == 0,
                    Some(ts) => ts@ == m.0 && m.0.len() > 0,
                }
            }),
    {
        let ghost b0 = self.bids();
        let ghost a0 = self.asks();
        proof {
            lemma_matched_unique(b0, a0, order, now);
        }
        if order.quantity.0 <= 0 {
            return None;
        }
        let mut trades: Vec<Trade> = Vec::new();
        let qty = order.quantity.0;
        let limit = order.price.0;
        match order.side {
            Side::Buy => {
                proof {
                    lemma_sweep(a0, Side::Buy, limit, qty as int, order.id, now);
                }
                let rem = sweep_levels(&mut self.ask, Side::Buy, limit, qty, order.id, now, &mut trades);
                let ghost a1 = self.asks();
                let residual = Order { quantity: Quantity(rem), ..order };
                if rem > 0 {
                    proof {
                        if a1.len() > 0 {
                            let top = a1.last().0;
                            assert(top == a0[a1.len() - 1].0);
                            assert forall|i: int| 0 <= i < b0.len() implies (#[trigger] b0[i].0) < top by {
                                if i < b0.len() - 1 {
                                    assert(worse(Side::Buy, b0[i].0, b0[b0.len() - 1].0));
                                }
                                if a1.len() < a0.len() {
                                    assert(worse(Side::Sell, a0[a1.len() - 1].0, a0[a0.len() - 1].0));
                                }
                            }
                            lemma_rest(b0, residual, Side::Buy, |x: i64| x < top);
                        } else {
                            lemma_rest(b0, residual, Side::Buy, |x: i64| true);
                        }
                    }
                    rest_order(&mut self.bid, residual, Side::Buy);
                } else {
                    proof {
                        if a1.len() > 0 && b0.len() > 0 {
                            assert(a1.last().0 == a0[a1.len() - 1].0);
                            if a1.len() < a0.len() {
                                assert(worse(Side::Sell, a0[a1.len() - 1].0, a0[a0.len() - 1].0));
                            }
                        }
                    }
                }
            },
            Side::Sell => {
                proof {
                    lemma_sweep(b0, Side::Sell, limit, qty as int, order.id, now);
                }
                let rem = sweep_levels(&mut self.bid, Side::Sell, limit, qty, order.id, now, &mut trades);
                let ghost b1 = self.bids();
                let residual = Order { quantity: Quantity(rem), ..order };
                if rem > 0 {
                    proof {
                        if b1.len() > 0 {
                            let top = b1.last().0;
                            assert(top == b0[b1.len() - 1].0);
                            assert forall|i: int| 0 <= i < a0.len() implies (#[trigger] a0[i].0) > top by {
                                if i < a0.len() - 1 {
                                    assert(worse(Side::Sell, a0[i].0, a0[a0.len() - 1].0));
                                }
                                if b1.len() < b0.len() {
                                    assert(worse(Side::Buy, b0[b1.len() - 1].0, b0[b0.len() - 1].0));
                                }
                            }
                            lemma_rest(a0, residual, Side::Sell, |x: i64| x > top);
                        } else {
                            lemma_rest(a0, residual, Side::Sell, |x: i64| true);
                        }
                    }
                    rest_order(&mut self.ask, residual, Side::Sell);
                } else {
                    proof {
                        if b1.len() > 0 && a0.len() > 0 {
                            assert(b1.last().0 == b0[b1.len() - 1].0);
                            if b1.len() < b0.len() {
                                assert(worse(Side::Buy, b0[b1.len() - 1].0, b0[b0.len() - 1].0));
                            }
                        }
                    }
                }
            },
        }
        assert(Seq::<Trade>::empty() + matched(b0, a0, order, now).0 =~= matched(b0, a0, order, now).0);
        if trades.len() == 0 {
            None
        } else {
            Some(trades)
        }
    }

    /// Matches `order` against the opposite side, stamping the trades with the current time,
    /// and rests what is left of it. `None` when nothing traded.
    pub fn match_order(&mut self, order: Order) -> (r: Option<Vec<Trade>>)
        requires
            old(self).wf(),
            !old(self).rests_id(order.id),
        ensures
            final(self).wf(),
            exists|now: i64|
                {
                    let m = #[trigger] matched(old(self).bids(), old(self).asks(), order, now);
                    &&& final(self).bids() == m.1
                    &&& final(self).asks() == m.2
                    &&& match r {
                        None => m.0.len() == 0,
                        Some(ts) => ts@ == m.0 && m.0.len() > 0,
                    }
                },
    {
        let now = now_unix_ns();
        self.match_order_at(order, now)
    }
}

/// The order at queue position `k` of level `i` carries `(id, rev)`.
pub open spec fn holds_at(levels: Seq<LevelView>, i: int, k: int, id: OrderId, rev: Revision) -> bool {
    &&& 0 <= i < levels.len()
    &&& 0 <= k < levels[i].1.len()
    &&& levels[i].1[k].id == id
    &&& levels[i].1[k].revision == rev
}

pub open spec fn holds_key(levels: Seq<LevelView>, id: OrderId, rev: Revision) -> bool {
    exists|i: int, k: int| holds_at(levels, i, k, id, rev)
}

/// The levels without the order at position `k` of level `i`; a level left empty goes too.
pub open spec fn removed_at(levels: Seq<LevelView>, i: int, k: int) -> Seq<LevelView> {
    let q = levels[i].1.remove(k);
    if q.len() == 0 {
        levels.remove(i)
    } else {
        levels.update(i, (levels[i].0, q))
    }
}

pub(crate) proof fn lemma_queued_prefix(q: Seq<Order>, k: int)
    requires
        0 <= k <= q.len(),
        forall|j: int| 0 <= j < q.len() ==> (#[trigger] q[j]).quantity.0 > 0,
    ensures
        0 <= queued(q.take(k)) <= queued(q),
    decreases q.len(),
{
    if k == q.len() {
        assert(q.take(k) =~= q);
        if q.len() > 0 {
            lemma_queued_prefix(q.drop_last(), k - 1);
            assert(q.drop_last().take(k - 1) =~= q.drop_last());
        } else {
            assert(queued(q) == 0);
        }
    } else {
        let d = q.drop_last();
        assert forall|j: int| 0 <= j < d.len() implies (#[trigger] d[j]).quantity.0 > 0 by {
            assert(d[j] == q[j]);
        }
        lemma_queued_prefix(d, k);
        assert(d.take(k) =~= q.take(k));
        assert(q.last() == q[q.len() - 1]);
    }
}

fn level_total(q: &VecDeque<Order>) -> (r: i64)
    requires
        forall|j: int| 0 <= j < q@.len() ==> (#[trigger] q@[j]).quantity.0 > 0,
        queued(q@) <= i64::MAX,
    ensures
        r == queued(q@),
{
    let mut acc: i64 = 0;
    let mut k: usize = 0;
    assert(q@.take(0) =~= Seq::<Order>::empty());
    while k < q.len()
        invariant
            k <= q@.len(),
            forall|j: int| 0 <= j < q@.len() ==> (#[trigger] q@[j]).quantity.0 > 0,
            queued(q@) <= i64::MAX,
            acc == queued(q@.take(k as int)),
        decreases q@.len() - k,
    {
        proof {
            lemma_queued_prefix(q@, k + 1);
            assert(q@.take(k + 1).drop_last() =~= q@.take(k as int));
            assert(q@.take(k + 1).last() == q@[k as int]);
        }
        acc = acc + q[k].quantity.0;
        k = k + 1;
    }
    assert(q@.take(k as int) =~= q@);
    acc
}

fn top_level(levels: &Vec<PriceLevel>, s: Side) -> (r: Option<OrderBookLevel>)
    requires
        side_wf(view_levels(levels@), s),
        view_levels(levels@).len() > 0 ==> queued(view_levels(levels@).last().1) <= i64::MAX,
    ensures
        r == best_level(view_levels(levels@)),
{
    let n = levels.len();
    if n == 0 {
        None
    } else {
        let ghost v = view_levels(levels@);
        assert(v.last() == v[n - 1]);
        assert forall|j: int| 0 <= j < levels@[n - 1].orders@.len() implies (#[trigger] levels@[n - 1].orders@[j]).quantity.0 > 0 by {
            assert(v[n - 1].1[j] == levels@[n - 1].orders@[j]);
        }
        let total = level_total(&levels[n - 1].orders);
        Some(OrderBookLevel { price: levels[n - 1].price, quantity: Quantity(total) })
    }
}

/// The best level of a side, with its price and the sum of the quantities resting there.
pub open spec fn best_level(levels: Seq<LevelView>) -> Option<OrderBookLevel> {
    if levels.len() == 0 {
        None
    } else {
        Some(OrderBookLevel { price: Price(levels.last().0), quantity: Quantity(queued(levels.last().1) as i64) })
    }
}

fn find_order(levels: &Vec<PriceLevel>, id: OrderId, rev: Revision) -> (r: Option<(usize, usize)>)
    ensures
        match r {
            Some((i, k)) => holds_at(view_levels(levels@), i as int, k as int, id, rev),
            None => !holds_key(view_levels(levels@), id, rev),
        },
{
    let ghost v = view_levels(levels@);
    let mut i: usize = 0;
    while i < levels.len()
        invariant
            i <= levels@.len(),
            v == view_levels(levels@),
            forall|a: int, b: int| 0 <= a < i ==> !#[trigger] holds_at(v, a, b, id, rev),
        decreases levels@.len() - i,
    {
        let q = &levels[i].orders;
        let mut k: usize = 0;
        while k < q.len()
            invariant
                i < levels@.len(),
                k <= q@.len(),
                v == view_levels(levels@),
                *q == levels@[i as int].orders,
                forall|b: int| 0 <= b < k ==> !#[trigger] holds_at(v, i as int, b, id, rev),
            decreases q@.len() - k,
        {
            if q[k].id == id && q[k].revision == rev {
                assert(v[i as int].1[k as int] == q@[k as int]);
                return Some((i, k));
            }
            assert(v[i as int].1[k as int] == q@[k as int]);
            k = k + 1;
        }
        assert forall|a: int, b: int| 0 <= a < i + 1 implies !#[trigger] holds_at(v, a, b, id, rev) by {
            if a == i && holds_at(v, a, b, id, rev) {
                assert(v[a].1.len() == q@.len());
            }
        }
        i = i + 1;
    }
    None
}

fn remove_at(levels: &mut Vec<PriceLevel>, i: usize, k: usize) -> (o: Order)
    requires
        0 <= i < old(levels)@.len(),
        0 <= k < old(levels)@[i as int].orders@.len(),
    ensures
        o == view_levels(old(levels)@)[i as int].1[k as int],
        view_levels(final(levels)@) == removed_at(view_levels(old(levels)@), i as int, k as int),
{
    let ghost v = view_levels(levels@);
    let mut lvl = levels.remove(i);
    let o = match lvl.orders.remove(k) {
        Some(o) => o,
        None => {
            assert(false);
            lvl.orders[0]
        },
    };
    if lvl.orders.len() > 0 {
        levels.insert(i, lvl);
        assert(view_levels(levels@) =~= removed_at(v, i as int, k as int));
    } else {
        assert(view_levels(levels@) =~= removed_at(v, i as int, k as int));
    }
    o
}

/// Taking one order out keeps a side well formed and brings in no new price.
pub(crate) proof fn lemma_removed(levels: Seq<LevelView>, i: int, k: int, s: Side, pred: spec_fn(i64) -> bool)
    requires
        side_wf(levels, s),
        0 <= i < levels.len(),
        0 <= k < levels[i].1.len(),
    ensures
        side_wf(removed_at(levels, i, k), s),
        (forall|j: int| 0 <= j < levels.len() ==> pred(#[trigger] levels[j].0)) ==> forall|j: int|
            0 <= j < removed_at(levels, i, k).len() ==> pred(#[trigger] removed_at(levels, i, k)[j].0),
        removed_at(levels, i, k).len() > 0 ==> (removed_at(levels, i, k).last().0 == levels.last().0
            || worse(s, removed_at(levels, i, k).last().0, levels.last().0)),
{
    let r = removed_at(levels, i, k);
    let q = levels[i].1.remove(k);
    let n = levels.len() - 1;
    if q.len() == 0 {
        assert forall|a: int| 0 <= a < r.len() implies #[trigger] r[a] == levels[if a < i { a } else { a + 1 }] by {}
        assert forall|a: int, b: int| 0 <= a < b < r.len() implies #[trigger] worse(s, r[a].0, r[b].0) by {
            assert(r[a] == levels[if a < i { a } else { a + 1 }]);
            assert(r[b] == levels[if b < i { b } else { b + 1 }]);
        }
        assert forall|a: int| 0 <= a < r.len() implies (#[trigger] r[a]).1.len() > 0 by {
            assert(r[a] == levels[if a < i { a } else { a + 1 }]);
        }
        assert forall|a: int, b: int| 0 <= a < r.len() && 0 <= b < r[a].1.len() implies {
            let o = #[trigger] r[a].1[b];
            &&& o.price.0 == r[a].0
            &&& o.side == s
            &&& o.quantity.0 > 0
        } by {
            assert(r[a] == levels[if a < i { a } else { a + 1 }]);
        }
        if (forall|j: int| 0 <= j < levels.len() ==> pred(#[trigger] levels[j].0)) {
            assert forall|j: int| 0 <= j < r.len() implies pred(#[trigger] r[j].0) by {
                assert(r[j] == levels[if j < i { j } else { j + 1 }]);
            }
        }
        if r.len() > 0 {
            let m = r.len() - 1;
            assert(r[m] == levels[if m < i { m } else { m + 1 }]);
            if m < i || m + 1 < n {
                assert(worse(s, levels[if m < i { m } else { m + 1 }].0, levels[n].0));
            }
        }
    } else {
        assert forall|a: int, b: int| 0 <= a < r.len() && 0 <= b < r[a].1.len() implies {
            let o = #[trigger] r[a].1[b];
            &&& o.price.0 == r[a].0
            &&& o.side == s
            &&& o.quantity.0 > 0
        } by {
            if a == i {
                assert(r[a].1[b] == levels[i].1[if b < k { b } else { b + 1 }]);
            }
        }
        assert forall|a: int| 0 <= a < r.len() implies (#[trigger] r[a]).1.len() > 0 by {}
        assert forall|a: int, b: int| 0 <= a < b < r.len() implies #[trigger] worse(s, r[a].0, r[b].0) by {
            assert(r[a].0 == levels[a].0 && r[b].0 == levels[b].0);
        }
        if (forall|j: int| 0 <= j < levels.len() ==> pred(#[trigger] levels[j].0)) {
            assert forall|j: int| 0 <= j < r.len() implies pred(#[trigger] r[j].0) by {
                assert(r[j].0 == levels[j].0);
            }
        }
        assert(r.last().0 == levels[n].0);
    }
}

impl OrderBook {
    /// The best bid and the best ask, each with the total quantity resting at its price.
    pub fn best_of_book(&self) -> (r: (Option<OrderBookLevel>, Option<OrderBookLevel>))
        requires
            self.wf(),
            self.bids().len() > 0 ==> queued(self.bids().last().1) <= i64::MAX,
            self.asks().len() > 0 ==> queued(self.asks().last().1) <= i64::MAX,
        ensures
            r.0 == best_level(self.bids()),
            r.1 == best_level(self.asks()),
    {
        (top_level(&self.bid, Side::Buy), top_level(&self.ask, Side::Sell))
    }

    /// Takes out the resting order that carries `(id, revision)`.
    pub fn delete_order(&mut self, key: &(OrderId, Revision)) -> (r: Result<Order, OrderModificationError>)
        requires
            old(self).wf(),
        ensures
            final(self).wf(),
            deletion(old(self).bids(), old(self).asks(), key.0, key.1, final(self).bids(), final(self).asks(), r),
            r matches Ok(o) ==> !final(self).rests_id(o.id),
    {
        let ghost b0 = self.bids();
        let ghost a0 = self.asks();
        let (id, rev) = *key;
        match find_order(&self.bid, id, rev) {
            Some((i, k)) => {
                proof {
                    if a0.len() > 0 {
                        lemma_removed(b0, i as int, k as int, Side::Buy, |x: i64| x < a0.last().0);
                    } else {
                        lemma_removed(b0, i as int, k as int, Side::Buy, |x: i64| true);
                    }
                }
                let o = remove_at(&mut self.bid, i, k);
                proof {
                    assert(deletion(b0, a0, id, rev, self.bids(), self.asks(), Ok(o)));
                    lemma_deleted_unique(b0, a0, id, rev, self.bids(), self.asks(), Ok(o));
                }
                return Ok(o);
            },
            None => {},
        }
        match find_order(&self.ask, id, rev) {
            Some((i, k)) => {
                proof {
                    if b0.len() > 0 {
                        lemma_removed(a0, i as int, k as int, Side::Sell, |x: i64| x > b0.last().0);
                    } else {
                        lemma_removed(a0, i as int, k as int, Side::Sell, |x: i64| true);
                    }
                }
                let o = remove_at(&mut self.ask, i, k);
                proof {
                    assert(deletion(b0, a0, id, rev, self.bids(), self.asks(), Ok(o)));
                    lemma_deleted_unique(b0, a0, id, rev, self.bids(), self.asks(), Ok(o));
                }
                Ok(o)
            },
            None => Err(OrderModificationError::OrderNotFound),
        }
    }
}

/// What deleting `(id, rev)` may do: when the key rests, the order that carries it leaves its
/// level and is returned; otherwise the book stays as it was and the answer is
/// `OrderNotFound`.
pub open spec fn deletion(
    bids: Seq<LevelView>,
    asks: Seq<LevelView>,
    id: OrderId,
    rev: Revision,
    bids2: Seq<LevelView>,
    asks2: Seq<LevelView>,
    r: Result<Order, OrderModificationError>,
) -> bool {
    match r {
        Err(e) => {
            &&& e == OrderModificationError::OrderNotFound
            &&& !holds_key(bids, id, rev)
            &&& !holds_key(asks, id, rev)
            &&& bids2 == bids
            &&& asks2 == asks
        },
        Ok(o) => {
            ||| exists|i: int, k: int|
                {
                    &&& #[trigger] holds_at(bids, i, k, id, rev)
                    &&& o == bids[i].1[k]
                    &&& bids2 == removed_at(bids, i, k)
                    &&& asks2 == asks
                }
            ||| exists|i: int, k: int|
                {
                    &&& #[trigger] holds_at(asks, i, k, id, rev)
                    &&& o == asks[i].1[k]
                    &&& asks2 == removed_at(asks, i, k)
                    &&& bids2 == bids
                }
        },
    }
}

/// What a modify may do: `OrderNotFound` with the book untouched when `(id, rev)` does not
/// rest; otherwise the order is deleted, updated, and matched again as an incoming order.
pub open spec fn modification(
    bids: Seq<LevelView>,
    asks: Seq<LevelView>,
    id: OrderId,
    rev: Revision,
    new_price: Option<Price>,
    new_quantity: Option<Quantity>,
    now: i64,
    bids2: Seq<LevelView>,
    asks2: Seq<LevelView>,
    r: Result<Option<Vec<Trade>>, OrderModificationError>,
) -> bool {
    match r {
        Err(e) => {
            &&& e == OrderModificationError::OrderNotFound
            &&& !holds_key(bids, id, rev)
            &&& !holds_key(asks, id, rev)
            &&& bids2 == bids
            &&& asks2 == asks
        },
        Ok(t) => exists|o: Order, b: Seq<LevelView>, a: Seq<LevelView>|
            {
                let m = matched(b, a, updated(o, new_price, new_quantity), now);
                &&& #[trigger] deletion(bids, asks, id, rev, b, a, Ok(o))
                &&& bids2 == m.1
                &&& asks2 == m.2
                &&& match t {
                    None => m.0.len() == 0,
                    Some(ts) => ts@ == m.0 && m.0.len() > 0,
                }
            },
    }
}

impl OrderBook {
    /// Deletes the order that carries `(order_id, revision)`, applies the new price and/or
    /// quantity, and matches it again at time `now`; it loses its place in the queue.
    pub fn modify_order_at(
        &mut self,
        order_id: OrderId,
        revision: Revision,
        price: Option<Price>,
        quantity: Option<Quantity>,
        now: i64,
    ) -> (r: Result<Option<Vec<Trade>>, OrderModificationError>)
        requires
            old(self).wf(),
        ensures
            final(self).wf(),
            modification(old(self).bids(), old(self).asks(), order_id, revision, price, quantity, now,
                final(self).bids(), final(self).asks(), r),
    {
        let ghost b0 = self.bids();
        let ghost a0 = self.asks();
        match self.delete_order(&(order_id, revision)) {
            Ok(o) => {
                let ghost b1 = self.bids();
                let ghost a1 = self.asks();
                assert(deletion(b0, a0, order_id, revision, b1, a1, Ok(o)));
                let mut changed = o;
                changed.update(price, quantity);
                let t = self.match_order_at(changed, now);
                Ok(t)
            },
            Err(e) => Err(e),
        }
    }

    /// `modify_order_at` with the trades stamped with the current time.
    pub fn modify_order(
        &mut self,
        order_id: OrderId,
        revision: Revision,
        price: Option<Price>,
        quantity: Option<Quantity>,
    ) -> (r: Result<Option<Vec<Trade>>, OrderModificationError>)
        requires
            old(self).wf(),
        ensures
            final(self).wf(),
            exists|now: i64|
                #[trigger] modification(old(self).bids(), old(self).asks(), order_id, revision, price, quantity,
                    now, final(self).bids(), final(self).asks(), r),
    {
        let now = now_unix_ns();
        self.modify_order_at(order_id, revision, price, quantity, now)
    }
}

impl Default for OrderBook {
    fn default() -> (r: OrderBook)
        ensures
            r.wf(),
            r.bids() == Seq::<LevelView>::empty(),
            r.asks() == Seq::<LevelView>::empty(),
    {
        OrderBook::new()
    }
}

impl OrderBook {
    /// The resting order that carries `(order_id, revision)`, if any.
    pub fn get_order(&self, order_id: OrderId, revision: Revision) -> (r: Option<Order>)
        ensures
            match r {
                None => !holds_key(self.bids(), order_id, revision) && !holds_key(self.asks(), order_id, revision),
                Some(o) => (exists|i: int, k: int| #[trigger] holds_at(self.bids(), i, k, order_id, revision) && o == self.bids()[i].1[k])
                    || (exists|i: int, k: int| #[trigger] holds_at(self.asks(), i, k, order_id, revision) && o == self.asks()[i].1[k]),
            },
    {
        match find_order(&self.bid, order_id, revision) {
            Some((i, k)) => {
                let o = self.bid[i].orders[k];
                assert(o == self.bids()[i as int].1[k as int]);
                return Some(o);
            },
            None => {},
        }
        match find_order(&self.ask, order_id, revision) {
            Some((i, k)) => {
                let o = self.ask[i].orders[k];
                assert(o == self.asks()[i as int].1[k as int]);
                Some(o)
            },
            None => None,
        }
    }

    /// Number of price levels on the bid side.
    pub fn bid_levels(&self) -> (r: usize)
        ensures
            r == self.bids().len(),
    {
        self.bid.len()
    }

    /// Number of price levels on the ask side.
    pub fn ask_levels(&self) -> (r: usize)
        ensures
            r == self.asks().len(),
    {
        self.ask.len()
    }
}

fn copy_levels(levels: &Vec<PriceLevel>) -> (r: Vec<(Price, Vec<Order>)>)
    ensures
        r@.len() == levels@.len(),
        forall|i: int|
            0 <= i < r@.len() ==> (#[trigger] r@[i]).0.0 == view_levels(levels@)[i].0 && r@[i].1@ == view_levels(
                levels@,
            )[i].1,
{
    let mut r: Vec<(Price, Vec<Order>)> = Vec::new();
    let mut i: usize = 0;
    while i < levels.len()
        invariant
            i <= levels@.len(),
            r@.len() == i,
            forall|j: int|
                0 <= j < i ==> (#[trigger] r@[j]).0.0 == view_levels(levels@)[j].0 && r@[j].1@ == view_levels(
                    levels@,
                )[j].1,
        decreases levels@.len() - i,
    {
        let q = &levels[i].orders;
        let mut v: Vec<Order> = Vec::new();
        let mut k: usize = 0;
        while k < q.len()
            invariant
                k <= q@.len(),
                v@ == q@.take(k as int),
            decreases q@.len() - k,
        {
            v.push(q[k]);
            assert(q@.take(k + 1) =~= q@.take(k as int).push(q@[k as int]));
            k = k + 1;
        }
        assert(q@.take(k as int) =~= q@);
        r.push((levels[i].price, v));
        i = i + 1;
    }
    r
}

impl OrderBook {
    /// The levels of side `s` as prices and queues, from the worst price to the best.
    pub fn side_snapshot(&self, s: Side) -> (r: Vec<(Price, Vec<Order>)>)
        ensures
            ({
                let lv = match s {
                    Side::Buy => self.bids(),
                    Side::Sell => self.asks(),
                };
                &&& r@.len() == lv.len()
                &&& forall|i: int| 0 <= i < r@.len() ==> (#[trigger] r@[i]).0.0 == lv[i].0 && r@[i].1@ == lv[i].1
            }),
    {
        match s {
            Side::Buy => copy_levels(&self.bid),
            Side::Sell => copy_levels(&self.ask),
        }
    }
}

fn holds_id(levels: &Vec<PriceLevel>, id: OrderId) -> (r: bool)
    ensures
        r == (lcount(view_levels(levels@), id) > 0),
{
    let ghost v = view_levels(levels@);
    let mut i: usize = 0;
    while i < levels.len()
        invariant
            i <= levels@.len(),
            v == view_levels(levels@),
            forall|a: int, b: int| 0 <= a < i && 0 <= b < v[a].1.len() ==> (#[trigger] v[a].1[b]).id != id,
        decreases levels@.len() - i,
    {
        let q = &levels[i].orders;
        let mut k: usize = 0;
        while k < q.len()
            invariant
                i < levels@.len(),
                k <= q@.len(),
                v == view_levels(levels@),
                *q == levels@[i as int].orders,
                forall|b: int| 0 <= b < k ==> (#[trigger] v[i as int].1[b]).id != id,
            decreases q@.len() - k,
        {
            assert(v[i as int].1[k as int] == q@[k as int]);
            if q[k].id == id {
                proof {
                    lemma_lcount_pos(v, i as int, k as int, i as int, k as int, id);
                }
                return true;
            }
            k = k + 1;
        }
        i = i + 1;
    }
    proof {
        lemma_lcount_zero(v, id);
    }
    false
}

impl OrderBook {
    /// Whether some resting order carries `id`.
    pub fn rests(&self, id: OrderId) -> (r: bool)
        ensures
            r == self.rests_id(id),
    {
        holds_id(&self.bid, id) || holds_id(&self.ask, id)
    }
}

} // verus!
