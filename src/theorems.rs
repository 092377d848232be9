use vstd::prelude::*;
use crate::trade::Trade;
use crate::id_count::{lcount, lemma_lcount_pos, unique_ids};
use crate::order::{updated, Order, OrderId, Price, Quantity, Revision, Side};
use crate::order_book::{
    crosses, deletion, modification, fill, holds_at, holds_key, removed_at, OrderModificationError, lemma_fill, lemma_rest, lemma_sweep, matched, opposite, partially_filled, rest_in,
    side_wf, sweep, traded, worse, LevelView, OrderBook, lemma_removed,
};

verus! {

/// No resting bid is at or above any resting ask, in every well-formed book; every operation
/// of the book keeps it well formed.
pub proof fn book_never_crossed(book: &OrderBook)
    requires
        book.wf(),
    ensures
        forall|i: int, j: int|
            0 <= i < book.bids().len() && 0 <= j < book.asks().len() ==> #[trigger] book.bids()[i].0
                < #[trigger] book.asks()[j].0,
{
    let b = book.bids();
    let a = book.asks();
    assert forall|i: int, j: int| 0 <= i < b.len() && 0 <= j < a.len() implies #[trigger] b[i].0 < #[trigger] a[j].0 by {
        if i < b.len() - 1 {
            assert(worse(Side::Buy, b[i].0, b[b.len() - 1].0));
        }
        if j < a.len() - 1 {
            assert(worse(Side::Sell, a[j].0, a[a.len() - 1].0));
        }
    }
}

/// The lots still wanted after an incoming order has met the opposite side; they rest when
/// positive.
pub open spec fn unfilled(bids: Seq<LevelView>, asks: Seq<LevelView>, o: Order, now: i64) -> int {
    let opp = match o.side {
        Side::Buy => asks,
        Side::Sell => bids,
    };
    sweep(opp, o.side, o.price.0, o.quantity.0 as int, o.id, now).2
}

/// The levels of side `s` in the outcome of a match.
pub open spec fn own_side(m: (Seq<Trade>, Seq<LevelView>, Seq<LevelView>), s: Side) -> Seq<LevelView> {
    match s {
        Side::Buy => m.1,
        Side::Sell => m.2,
    }
}

/// For one incoming order with a non-negative quantity, the quantity traded plus the quantity
/// left unfilled is the quantity it came with, and what is left unfilled, if anything, rests
/// at the tail of the level of its price.
pub proof fn match_conserves_quantity(bids: Seq<LevelView>, asks: Seq<LevelView>, o: Order, now: i64)
    requires
        side_wf(bids, Side::Buy),
        side_wf(asks, Side::Sell),
        o.quantity.0 >= 0,
    ensures
        traded(matched(bids, asks, o, now).0) + unfilled(bids, asks, o, now) == o.quantity.0,
        0 <= unfilled(bids, asks, o, now),
        unfilled(bids, asks, o, now) > 0 ==> exists|i: int|
            0 <= i < own_side(matched(bids, asks, o, now), o.side).len()
                && (#[trigger] own_side(matched(bids, asks, o, now), o.side)[i]).0 == o.price.0
                && own_side(matched(bids, asks, o, now), o.side)[i].1.last() == (Order {
                quantity: Quantity(unfilled(bids, asks, o, now) as i64),
                ..o
            }),
{
    let u = unfilled(bids, asks, o, now);
    let m = matched(bids, asks, o, now);
    let residual = Order { quantity: Quantity(u as i64), ..o };
    match o.side {
        Side::Buy => {
            lemma_sweep(asks, Side::Buy, o.price.0, o.quantity.0 as int, o.id, now);
            if u > 0 {
                assert(m.1 == rest_in(bids, residual, Side::Buy));
                lemma_rest(bids, residual, Side::Buy, |x: i64| true);
                let w = choose|i: int| 0 <= i < m.1.len() && (#[trigger] m.1[i]).0 == residual.price.0 && m.1[i].1.last() == residual;
                assert(0 <= w < m.1.len() && m.1[w].0 == o.price.0 && m.1[w].1.last() == residual);
                assert(own_side(m, o.side)[w] == m.1[w]);
            }
        },
        Side::Sell => {
            lemma_sweep(bids, Side::Sell, o.price.0, o.quantity.0 as int, o.id, now);
            if u > 0 {
                assert(m.2 == rest_in(asks, residual, Side::Sell));
                lemma_rest(asks, residual, Side::Sell, |x: i64| true);
                let w = choose|i: int| 0 <= i < m.2.len() && (#[trigger] m.2[i]).0 == residual.price.0 && m.2[i].1.last() == residual;
                assert(0 <= w < m.2.len() && m.2[w].0 == o.price.0 && m.2[w].1.last() == residual);
                assert(own_side(m, o.side)[w] == m.2[w]);
            }
        },
    }
}

/// Within a level, makers are filled oldest first: the `t`-th trade is against the `t`-th
/// order of the queue at that order's price, every maker but the last gives its whole
/// quantity, and the last one either gives all and leaves, or gives part and stays at the
/// head of the queue with exactly that much less and the next revision.
pub proof fn fill_in_queue_order(q: Seq<Order>, qty: int, taker: OrderId, now: i64)
    requires
        0 <= qty <= i64::MAX,
        forall|k: int| 0 <= k < q.len() ==> (#[trigger] q[k]).quantity.0 > 0,
    ensures
        ({
            let r = fill(q, qty, taker, now);
            let n = r.0.len() as int;
            &&& n <= q.len()
            &&& forall|t: int|
                0 <= t < n ==> {
                    &&& (#[trigger] r.0[t]).maker_id == q[t].id
                    &&& r.0[t].price == q[t].price
                    &&& r.0[t].taker_id == taker
                }
            &&& forall|t: int| 0 <= t < n - 1 ==> (#[trigger] r.0[t]).quantity == q[t].quantity
            &&& {
                ||| r.1 == q.skip(n) && (n > 0 ==> r.0[n - 1].quantity == q[n - 1].quantity)
                ||| n > 0 && r.0[n - 1].quantity.0 < q[n - 1].quantity.0 && r.1 == q.skip(n - 1).update(
                    0,
                    partially_filled(q[n - 1], r.0[n - 1].quantity.0 as int),
                )
            }
        }),
    decreases q.len(),
{
    let r = fill(q, qty, taker, now);
    if qty <= 0 || q.len() == 0 {
        assert(q.skip(0) =~= q);
    } else if q[0].quantity.0 > qty {
        assert(q.skip(0) =~= q);
    } else {
        let qd = q.drop_first();
        assert forall|k: int| 0 <= k < qd.len() implies (#[trigger] qd[k]).quantity.0 > 0 by {
            assert(qd[k] == q[k + 1]);
        }
        fill_in_queue_order(qd, qty - q[0].quantity.0, taker, now);
        let sub = fill(qd, qty - q[0].quantity.0, taker, now);
        let n = r.0.len() as int;
        let m = sub.0.len() as int;
        assert(n == m + 1);
        assert forall|t: int| 0 <= t < n implies {
            &&& (#[trigger] r.0[t]).maker_id == q[t].id
            &&& r.0[t].price == q[t].price
            &&& r.0[t].taker_id == taker
        } by {
            if t > 0 {
                assert(r.0[t] == sub.0[t - 1]);
                assert(qd[t - 1] == q[t]);
            }
        }
        assert forall|t: int| 0 <= t < n - 1 implies (#[trigger] r.0[t]).quantity == q[t].quantity by {
            if t > 0 {
                assert(r.0[t] == sub.0[t - 1]);
                assert(qd[t - 1] == q[t]);
            }
        }
        assert(r.0[n - 1] == if m > 0 { sub.0[m - 1] } else { r.0[0] });
        if m > 0 {
            assert(qd[m - 1] == q[n - 1]);
            assert(qd.skip(m - 1) =~= q.skip(n - 1));
        }
        assert(qd.skip(m) =~= q.skip(n));
    }
}

/// Across levels, the best price goes first: the first trade is with the oldest order of the
/// best opposite level, at that level's price, each later trade is at the same price or a
/// worse one for the taker, and no order at a better price than the last trade is left.
pub proof fn sweep_price_priority(levels: Seq<LevelView>, s: Side, limit: i64, qty: int, taker: OrderId, now: i64)
    requires
        0 <= qty <= i64::MAX,
        side_wf(levels, opposite(s)),
    ensures
        ({
            let r = sweep(levels, s, limit, qty, taker, now);
            &&& qty > 0 && levels.len() > 0 && crosses(s, limit, levels.last().0) ==> {
                &&& r.0.len() > 0
                &&& r.0[0].price.0 == levels.last().0
                &&& r.0[0].maker_id == levels.last().1[0].id
            }
            &&& forall|t1: int, t2: int|
                0 <= t1 < t2 < r.0.len() ==> #[trigger] r.0[t1].price == #[trigger] r.0[t2].price || worse(
                    opposite(s),
                    r.0[t2].price.0,
                    r.0[t1].price.0,
                )
            &&& r.0.len() > 0 ==> forall|i: int|
                0 <= i < r.1.len() ==> (#[trigger] r.1[i]).0 == r.0.last().price.0 || worse(
                    opposite(s),
                    r.1[i].0,
                    r.0.last().price.0,
                )
        }),
{
    lemma_priority(levels, s, limit, qty, taker, now, |x: i64| true);
}

proof fn lemma_priority(
    levels: Seq<LevelView>,
    s: Side,
    limit: i64,
    qty: int,
    taker: OrderId,
    now: i64,
    pred: spec_fn(i64) -> bool,
)
    requires
        0 <= qty <= i64::MAX,
        side_wf(levels, opposite(s)),
    ensures
        ({
            let r = sweep(levels, s, limit, qty, taker, now);
            &&& qty > 0 && levels.len() > 0 && crosses(s, limit, levels.last().0) ==> {
                &&& r.0.len() > 0
                &&& r.0[0].price.0 == levels.last().0
                &&& r.0[0].maker_id == levels.last().1[0].id
            }
            &&& forall|t1: int, t2: int|
                0 <= t1 < t2 < r.0.len() ==> #[trigger] r.0[t1].price == #[trigger] r.0[t2].price || worse(
                    opposite(s),
                    r.0[t2].price.0,
                    r.0[t1].price.0,
                )
            &&& r.0.len() > 0 ==> forall|i: int|
                0 <= i < r.1.len() ==> (#[trigger] r.1[i]).0 == r.0.last().price.0 || worse(
                    opposite(s),
                    r.1[i].0,
                    r.0.last().price.0,
                )
            &&& (forall|i: int| 0 <= i < levels.len() ==> pred(#[trigger] levels[i].0)) ==> forall|t: int|
                0 <= t < r.0.len() ==> pred(#[trigger] r.0[t].price.0)
        }),
    decreases levels.len(),
{
    let r = sweep(levels, s, limit, qty, taker, now);
    if qty <= 0 || levels.len() == 0 || !crosses(s, limit, levels.last().0) {
    } else {
        let n = levels.len() - 1;
        let lv = levels.last();
        assert(lv == levels[n]);
        assert forall|k: int| 0 <= k < lv.1.len() implies {
            let o = #[trigger] lv.1[k];
            &&& o.price.0 == lv.0
            &&& o.side == opposite(s)
            &&& o.quantity.0 > 0
        } by {
            assert(levels[n].1[k] == lv.1[k]);
        }
        lemma_fill(lv.1, qty, taker, now, lv.0, opposite(s));
        fill_in_queue_order(lv.1, qty, taker, now);
        let f = fill(lv.1, qty, taker, now);
        assert(f.0.len() > 0);
        if f.1.len() == 0 {
            let rest = levels.drop_last();
            assert forall|i: int, j: int| 0 <= i < j < rest.len() implies #[trigger] worse(opposite(s), rest[i].0, rest[j].0) by {
                assert(rest[i] == levels[i] && rest[j] == levels[j]);
            }
            assert forall|i: int| 0 <= i < rest.len() implies (#[trigger] rest[i]).1.len() > 0 by {
                assert(rest[i] == levels[i]);
            }
            assert forall|i: int, k: int| 0 <= i < rest.len() && 0 <= k < rest[i].1.len() implies {
                let o = #[trigger] rest[i].1[k];
                &&& o.price.0 == rest[i].0
                &&& o.side == opposite(s)
                &&& o.quantity.0 > 0
            } by {
                assert(rest[i] == levels[i]);
            }
            let beyond = |x: i64| worse(opposite(s), x, lv.0);
            assert forall|i: int| 0 <= i < rest.len() implies beyond(#[trigger] rest[i].0) by {
                assert(rest[i] == levels[i]);
            }
            lemma_priority(rest, s, limit, f.2, taker, now, beyond);
            lemma_priority(rest, s, limit, f.2, taker, now, pred);
            let sub = sweep(rest, s, limit, f.2, taker, now);
            lemma_sweep(rest, s, limit, f.2, taker, now);
            if sub.0.len() == 0 {
                assert(r.0.last() == f.0.last());
                assert(f.0.last() == f.0[f.0.len() - 1]);
                assert forall|i: int| 0 <= i < r.1.len() implies (#[trigger] r.1[i]).0 == r.0.last().price.0 || worse(
                    opposite(s),
                    r.1[i].0,
                    r.0.last().price.0,
                ) by {
                    assert(r.1[i].0 == rest[i].0);
                    assert(rest[i] == levels[i]);
                }
            } else {
                assert(r.0.last() == sub.0.last());
            }
            assert forall|t1: int, t2: int| 0 <= t1 < t2 < r.0.len() implies #[trigger] r.0[t1].price == #[trigger] r.0[t2].price
                || worse(opposite(s), r.0[t2].price.0, r.0[t1].price.0) by {
                if t2 < f.0.len() {
                } else if t1 < f.0.len() {
                    assert(r.0[t2] == sub.0[t2 - f.0.len()]);
                    assert(beyond(sub.0[t2 - f.0.len()].price.0));
                } else {
                    assert(r.0[t1] == sub.0[t1 - f.0.len()]);
                    assert(r.0[t2] == sub.0[t2 - f.0.len()]);
                }
            }
            if (forall|i: int| 0 <= i < levels.len() ==> pred(#[trigger] levels[i].0)) {
                assert forall|i: int| 0 <= i < rest.len() implies pred(#[trigger] rest[i].0) by {
                    assert(rest[i] == levels[i]);
                }
                assert forall|t: int| 0 <= t < r.0.len() implies pred(#[trigger] r.0[t].price.0) by {
                    if t >= f.0.len() {
                        assert(r.0[t] == sub.0[t - f.0.len()]);
                    } else {
                        assert(levels[n].0 == lv.0);
                    }
                }
            }
            assert(r.0[0] == f.0[0]);
        } else {
            if (forall|i: int| 0 <= i < levels.len() ==> pred(#[trigger] levels[i].0)) {
                assert(pred(levels[n].0));
            }
            assert(r.0.last() == f.0[f.0.len() - 1]);
            assert forall|i: int| 0 <= i < r.1.len() implies (#[trigger] r.1[i]).0 == r.0.last().price.0 || worse(
                opposite(s),
                r.1[i].0,
                r.0.last().price.0,
            ) by {
                assert(r.1[i].0 == levels[i].0);
            }
        }
    }
}

/// An order that trades with nothing joins the tail of the level of its price; so a modify
/// to the order's own price puts it behind every order already resting there.
pub proof fn resting_goes_to_tail(bids: Seq<LevelView>, asks: Seq<LevelView>, o: Order, now: i64)
    requires
        side_wf(bids, Side::Buy),
        side_wf(asks, Side::Sell),
        o.quantity.0 > 0,
        matched(bids, asks, o, now).0.len() == 0,
    ensures
        exists|i: int|
            0 <= i < own_side(matched(bids, asks, o, now), o.side).len()
                && (#[trigger] own_side(matched(bids, asks, o, now), o.side)[i]).0 == o.price.0
                && own_side(matched(bids, asks, o, now), o.side)[i].1.last() == o,
{
    match_conserves_quantity(bids, asks, o, now);
    let m = matched(bids, asks, o, now);
    assert(traded(m.0) == 0);
    let u = unfilled(bids, asks, o, now);
    assert(u == o.quantity.0);
    assert(Order { quantity: Quantity(u as i64), ..o } == o);
}

/// A change of price or quantity moves the revision on, and so does a partial fill: a
/// revision below `usize::MAX` only grows.
pub proof fn revisions_grow(o: Order, new_price: Option<Price>, new_quantity: Option<Quantity>, q: int)
    requires
        o.revision.0 < usize::MAX,
    ensures
        new_price is Some || new_quantity is Some ==> updated(o, new_price, new_quantity).revision.0 > o.revision.0,
        new_price is None && new_quantity is None ==> updated(o, new_price, new_quantity) == o,
        partially_filled(o, q).revision.0 == o.revision.0 + 1,
        partially_filled(o, q).id == o.id,
{
}

/// The key `(id, rev)` names at most one resting order in the book.
pub open spec fn rests_at_most_once(bids: Seq<LevelView>, asks: Seq<LevelView>, id: OrderId, rev: Revision) -> bool {
    &&& forall|i1: int, k1: int, i2: int, k2: int|
        #[trigger] holds_at(bids, i1, k1, id, rev) && #[trigger] holds_at(bids, i2, k2, id, rev) ==> i1 == i2 && k1
            == k2
    &&& forall|i1: int, k1: int, i2: int, k2: int|
        #[trigger] holds_at(asks, i1, k1, id, rev) && #[trigger] holds_at(asks, i2, k2, id, rev) ==> i1 == i2 && k1
            == k2
    &&& !(holds_key(bids, id, rev) && holds_key(asks, id, rev))
}

proof fn lemma_removed_gone(levels: Seq<LevelView>, i: int, k: int, id: OrderId, rev: Revision)
    requires
        holds_at(levels, i, k, id, rev),
        forall|i1: int, k1: int, i2: int, k2: int|
            #[trigger] holds_at(levels, i1, k1, id, rev) && #[trigger] holds_at(levels, i2, k2, id, rev) ==> i1 == i2
                && k1 == k2,
    ensures
        !holds_key(removed_at(levels, i, k), id, rev),
{
    let r = removed_at(levels, i, k);
    let q = levels[i].1.remove(k);
    if holds_key(r, id, rev) {
        let (i2, k2) = choose|i2: int, k2: int| holds_at(r, i2, k2, id, rev);
        if q.len() == 0 {
            let j = if i2 < i { i2 } else { i2 + 1 };
            assert(r[i2] == levels[j]);
            assert(holds_at(levels, j, k2, id, rev));
        } else if i2 != i {
            assert(r[i2] == levels[i2]);
            assert(holds_at(levels, i2, k2, id, rev));
        } else {
            let j = if k2 < k { k2 } else { k2 + 1 };
            assert(r[i].1[k2] == levels[i].1[j]);
            assert(holds_at(levels, i, j, id, rev));
        }
    }
}

/// Deleting `(id, rev)` a second time finds nothing and leaves the book as the first
/// deletion left it.
pub proof fn delete_is_idempotent(
    bids: Seq<LevelView>,
    asks: Seq<LevelView>,
    id: OrderId,
    rev: Revision,
    bids1: Seq<LevelView>,
    asks1: Seq<LevelView>,
    r1: Result<Order, OrderModificationError>,
    bids2: Seq<LevelView>,
    asks2: Seq<LevelView>,
    r2: Result<Order, OrderModificationError>,
)
    requires
        unique_ids(bids, asks),
        deletion(bids, asks, id, rev, bids1, asks1, r1),
        deletion(bids1, asks1, id, rev, bids2, asks2, r2),
    ensures
        r2 == Err::<Order, OrderModificationError>(OrderModificationError::OrderNotFound),
        bids2 == bids1,
        asks2 == asks1,
{
    keys_rest_at_most_once(bids, asks, id, rev);
    match r1 {
        Err(_) => {},
        Ok(o) => {
            if exists|i: int, k: int|
                {
                    &&& #[trigger] holds_at(bids, i, k, id, rev)
                    &&& o == bids[i].1[k]
                    &&& bids1 == removed_at(bids, i, k)
                    &&& asks1 == asks
                } {
                let (i, k) = choose|i: int, k: int|
                    {
                        &&& #[trigger] holds_at(bids, i, k, id, rev)
                        &&& o == bids[i].1[k]
                        &&& bids1 == removed_at(bids, i, k)
                        &&& asks1 == asks
                    };
                lemma_removed_gone(bids, i, k, id, rev);
            } else {
                let (i, k) = choose|i: int, k: int|
                    {
                        &&& #[trigger] holds_at(asks, i, k, id, rev)
                        &&& o == asks[i].1[k]
                        &&& asks1 == removed_at(asks, i, k)
                        &&& bids1 == bids
                    };
                lemma_removed_gone(asks, i, k, id, rev);
            }
        },
    }
    match r2 {
        Err(_) => {},
        Ok(o2) => {
            assert(false);
        },
    }
}

/// The best level of each side holds its extreme price: the highest bid, the lowest ask.
pub proof fn best_is_extreme(book: &OrderBook)
    requires
        book.wf(),
    ensures
        forall|i: int| 0 <= i < book.bids().len() ==> (#[trigger] book.bids()[i]).0 <= book.bids().last().0,
        forall|i: int| 0 <= i < book.asks().len() ==> (#[trigger] book.asks()[i]).0 >= book.asks().last().0,
{
    let b = book.bids();
    let a = book.asks();
    assert forall|i: int| 0 <= i < b.len() implies (#[trigger] b[i]).0 <= b.last().0 by {
        if i < b.len() - 1 {
            assert(worse(Side::Buy, b[i].0, b[b.len() - 1].0));
        }
    }
    assert forall|i: int| 0 <= i < a.len() implies (#[trigger] a[i]).0 >= a.last().0 by {
        if i < a.len() - 1 {
            assert(worse(Side::Sell, a[i].0, a[a.len() - 1].0));
        }
    }
}

proof fn lemma_rest_then_remove(levels: Seq<LevelView>, o: Order, s: Side, i: int, k: int)
    requires
        forall|j: int| 0 <= j < levels.len() ==> (#[trigger] levels[j]).1.len() > 0,
        !holds_key(levels, o.id, o.revision),
        holds_at(rest_in(levels, o, s), i, k, o.id, o.revision),
    ensures
        rest_in(levels, o, s)[i].1[k] == o,
        removed_at(rest_in(levels, o, s), i, k) == levels,
    decreases levels.len(),
{
    let r = rest_in(levels, o, s);
    let p = o.price.0;
    if levels.len() == 0 {
        assert(removed_at(r, i, k) =~= levels);
    } else if levels[0].0 == p {
        if i != 0 {
            assert(r[i] == levels[i]);
            assert(holds_at(levels, i, k, o.id, o.revision));
        } else if k < levels[0].1.len() {
            assert(r[0].1[k] == levels[0].1[k]);
            assert(holds_at(levels, 0, k, o.id, o.revision));
        } else {
            assert(r[0].1.remove(k) =~= levels[0].1);
            assert(removed_at(r, i, k) =~= levels);
        }
    } else if worse(s, p, levels[0].0) {
        if i != 0 {
            assert(r[i] == levels[i - 1]);
            assert(holds_at(levels, i - 1, k, o.id, o.revision));
        } else {
            assert(removed_at(r, i, k) =~= levels);
        }
    } else {
        let rest = levels.drop_first();
        let sub = rest_in(rest, o, s);
        if i == 0 {
            assert(holds_at(levels, 0, k, o.id, o.revision));
        } else {
            assert(r[i] == sub[i - 1]);
            assert forall|j: int| 0 <= j < rest.len() implies (#[trigger] rest[j]).1.len() > 0 by {
                assert(rest[j] == levels[j + 1]);
            }
            if holds_key(rest, o.id, o.revision) {
                let (a, b) = choose|a: int, b: int| holds_at(rest, a, b, o.id, o.revision);
                assert(holds_at(levels, a + 1, b, o.id, o.revision));
            }
            lemma_rest_then_remove(rest, o, s, i - 1, k);
            assert(removed_at(r, i, k) =~= seq![levels[0]] + removed_at(sub, i - 1, k));
            assert(seq![levels[0]] + rest =~= levels);
        }
    }
}

/// Resting an order that crosses nothing and then deleting it by its key gives back the
/// very book it came into, and the deletion returns that order.
pub proof fn add_then_delete_restores(
    bids: Seq<LevelView>,
    asks: Seq<LevelView>,
    o: Order,
    now: i64,
    bids2: Seq<LevelView>,
    asks2: Seq<LevelView>,
    r: Result<Order, OrderModificationError>,
)
    requires
        side_wf(bids, Side::Buy),
        side_wf(asks, Side::Sell),
        o.quantity.0 > 0,
        matched(bids, asks, o, now).0.len() == 0,
        !holds_key(bids, o.id, o.revision),
        !holds_key(asks, o.id, o.revision),
        deletion(matched(bids, asks, o, now).1, matched(bids, asks, o, now).2, o.id, o.revision, bids2, asks2, r),
    ensures
        r == Ok::<Order, OrderModificationError>(o),
        bids2 == bids,
        asks2 == asks,
{
    let m = matched(bids, asks, o, now);
    match_conserves_quantity(bids, asks, o, now);
    assert(traded(m.0) == 0);
    assert(Order { quantity: Quantity(o.quantity.0), ..o } == o);
    match o.side {
        Side::Buy => {
            sweep_price_priority(asks, Side::Buy, o.price.0, o.quantity.0 as int, o.id, now);
            assert(m.2 == asks);
            assert(m.1 == rest_in(bids, o, Side::Buy));
        },
        Side::Sell => {
            sweep_price_priority(bids, Side::Sell, o.price.0, o.quantity.0 as int, o.id, now);
            assert(m.1 == bids);
            assert(m.2 == rest_in(asks, o, Side::Sell));
        },
    }
    match r {
        Err(_) => {
            match o.side {
                Side::Buy => lemma_rest(bids, o, Side::Buy, |x: i64| true),
                Side::Sell => lemma_rest(asks, o, Side::Sell, |x: i64| true),
            }
            let own = own_side(m, o.side);
            let w = choose|i: int| 0 <= i < own.len() && (#[trigger] own[i]).0 == o.price.0 && own[i].1.last() == o;
            assert(holds_at(own, w, own[w].1.len() - 1, o.id, o.revision));
        },
        Ok(x) => {
            if exists|i: int, k: int|
                {
                    &&& #[trigger] holds_at(m.1, i, k, o.id, o.revision)
                    &&& x == m.1[i].1[k]
                    &&& bids2 == removed_at(m.1, i, k)
                    &&& asks2 == m.2
                } {
                let (i, k) = choose|i: int, k: int|
                    {
                        &&& #[trigger] holds_at(m.1, i, k, o.id, o.revision)
                        &&& x == m.1[i].1[k]
                        &&& bids2 == removed_at(m.1, i, k)
                        &&& asks2 == m.2
                    };
                if o.side == Side::Buy {
                    lemma_rest_then_remove(bids, o, Side::Buy, i, k);
                } else {
                    assert(holds_at(bids, i, k, o.id, o.revision));
                }
            } else {
                let (i, k) = choose|i: int, k: int|
                    {
                        &&& #[trigger] holds_at(m.2, i, k, o.id, o.revision)
                        &&& x == m.2[i].1[k]
                        &&& asks2 == removed_at(m.2, i, k)
                        &&& bids2 == m.1
                    };
                if o.side == Side::Sell {
                    lemma_rest_then_remove(asks, o, Side::Sell, i, k);
                } else {
                    assert(holds_at(asks, i, k, o.id, o.revision));
                }
            }
        },
    }
}

/// With unique identifiers, a key `(id, rev)` names at most one resting order.
pub proof fn keys_rest_at_most_once(bids: Seq<LevelView>, asks: Seq<LevelView>, id: OrderId, rev: Revision)
    requires
        unique_ids(bids, asks),
    ensures
        rests_at_most_once(bids, asks, id, rev),
{
    assert(lcount(bids, id) + lcount(asks, id) <= 1);
    assert forall|i1: int, k1: int, i2: int, k2: int|
        #[trigger] holds_at(bids, i1, k1, id, rev) && #[trigger] holds_at(bids, i2, k2, id, rev) implies i1 == i2 && k1 == k2 by {
        lemma_lcount_pos(bids, i1, k1, i2, k2, id);
    }
    assert forall|i1: int, k1: int, i2: int, k2: int|
        #[trigger] holds_at(asks, i1, k1, id, rev) && #[trigger] holds_at(asks, i2, k2, id, rev) implies i1 == i2 && k1 == k2 by {
        lemma_lcount_pos(asks, i1, k1, i2, k2, id);
    }
    if holds_key(bids, id, rev) && holds_key(asks, id, rev) {
        let (i1, k1) = choose|i1: int, k1: int| holds_at(bids, i1, k1, id, rev);
        let (i2, k2) = choose|i2: int, k2: int| holds_at(asks, i2, k2, id, rev);
        lemma_lcount_pos(bids, i1, k1, i1, k1, id);
        lemma_lcount_pos(asks, i2, k2, i2, k2, id);
    }
}

/// The levels of side `s`.
pub open spec fn levels_of(bids: Seq<LevelView>, asks: Seq<LevelView>, s: Side) -> Seq<LevelView> {
    match s {
        Side::Buy => bids,
        Side::Sell => asks,
    }
}

/// A resting order re-priced to its own price, when it trades with nothing, comes back as
/// the last order of its level, with the next revision: it gives up its place in the queue.
pub proof fn modify_forfeits_priority(
    bids: Seq<LevelView>,
    asks: Seq<LevelView>,
    s: Side,
    i: int,
    k: int,
    now: i64,
    bids2: Seq<LevelView>,
    asks2: Seq<LevelView>,
)
    requires
        side_wf(bids, Side::Buy),
        side_wf(asks, Side::Sell),
        unique_ids(bids, asks),
        0 <= i < levels_of(bids, asks, s).len(),
        0 <= k < levels_of(bids, asks, s)[i].1.len(),
        modification(bids, asks, levels_of(bids, asks, s)[i].1[k].id, levels_of(bids, asks, s)[i].1[k].revision,
            Some(levels_of(bids, asks, s)[i].1[k].price), None, now, bids2, asks2, Ok(None)),
    ensures
        ({
            let o = levels_of(bids, asks, s)[i].1[k];
            let u = updated(o, Some(o.price), None);
            exists|j: int|
                0 <= j < levels_of(bids2, asks2, s).len() && (#[trigger] levels_of(bids2, asks2, s)[j]).0 == o.price.0
                    && levels_of(bids2, asks2, s)[j].1.last() == u
        }),
{
    let lv = levels_of(bids, asks, s);
    let o = lv[i].1[k];
    let id = o.id;
    let rev = o.revision;
    let (x, b, a) = choose|x: Order, b: Seq<LevelView>, a: Seq<LevelView>|
        {
            let m = matched(b, a, updated(x, Some(o.price), None), now);
            &&& #[trigger] deletion(bids, asks, id, rev, b, a, Ok(x))
            &&& bids2 == m.1
            &&& asks2 == m.2
            &&& m.0.len() == 0
        };
    keys_rest_at_most_once(bids, asks, id, rev);
    assert(holds_at(lv, i, k, id, rev));
    if exists|i2: int, k2: int|
        {
            &&& #[trigger] holds_at(bids, i2, k2, id, rev)
            &&& x == bids[i2].1[k2]
            &&& b == removed_at(bids, i2, k2)
            &&& a == asks
        } {
        let (i2, k2) = choose|i2: int, k2: int|
            {
                &&& #[trigger] holds_at(bids, i2, k2, id, rev)
                &&& x == bids[i2].1[k2]
                &&& b == removed_at(bids, i2, k2)
                &&& a == asks
            };
        if s == Side::Sell {
            assert(holds_key(asks, id, rev));
            assert(holds_key(bids, id, rev));
        }
        assert(x == o);
        lemma_removed(bids, i2, k2, Side::Buy, |p: i64| true);
    } else {
        let (i2, k2) = choose|i2: int, k2: int|
            {
                &&& #[trigger] holds_at(asks, i2, k2, id, rev)
                &&& x == asks[i2].1[k2]
                &&& a == removed_at(asks, i2, k2)
                &&& b == bids
            };
        if s == Side::Buy {
            assert(holds_key(asks, id, rev));
            assert(holds_key(bids, id, rev));
        }
        assert(x == o);
        lemma_removed(asks, i2, k2, Side::Sell, |p: i64| true);
    }
    let u = updated(o, Some(o.price), None);
    assert(o.side == s && o.quantity.0 > 0);
    resting_goes_to_tail(b, a, u, now);
    let w = choose|j: int|
        0 <= j < own_side(matched(b, a, u, now), u.side).len() && (#[trigger] own_side(matched(b, a, u, now), u.side)[j]).0
            == u.price.0 && own_side(matched(b, a, u, now), u.side)[j].1.last() == u;
    assert(levels_of(bids2, asks2, s)[w] == own_side(matched(b, a, u, now), u.side)[w]);
}

} // verus!
