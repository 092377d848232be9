use vstd::prelude::*;
use crate::order::{Order, OrderId};
use crate::order_book::{deletion, fill, holds_at, matched, partially_filled, removed_at, rest_in, sweep, LevelView, OrderModificationError};
use crate::order::Quantity;
use crate::order::Side;

verus! {

/// How many orders of the queue carry `id`.
pub open spec fn qcount(q: Seq<Order>, id: OrderId) -> nat
    decreases q.len(),
{
    if q.len() == 0 {
        0
    } else {
        qcount(q.drop_first(), id) + if q[0].id == id {
            1nat
        } else {
            0nat
        }
    }
}

/// How many orders of the levels carry `id`.
pub open spec fn lcount(levels: Seq<LevelView>, id: OrderId) -> nat
    decreases levels.len(),
{
    if levels.len() == 0 {
        0
    } else {
        qcount(levels[0].1, id) + lcount(levels.drop_first(), id)
    }
}

pub open spec fn one_if(b: bool) -> nat {
    if b {
        1
    } else {
        0
    }
}

pub(crate) proof fn lemma_qcount_push(q: Seq<Order>, o: Order, id: OrderId)
    ensures
        qcount(q.push(o), id) == qcount(q, id) + one_if(o.id == id),
    decreases q.len(),
{
    if q.len() == 0 {
        assert(q.push(o).drop_first() =~= q);
    } else {
        assert(q.push(o).drop_first() =~= q.drop_first().push(o));
        lemma_qcount_push(q.drop_first(), o, id);
    }
}

pub(crate) proof fn lemma_qcount_remove(q: Seq<Order>, k: int, id: OrderId)
    requires
        0 <= k < q.len(),
    ensures
        qcount(q.remove(k), id) + one_if(q[k].id == id) == qcount(q, id),
    decreases k,
{
    if k == 0 {
        assert(q.remove(0) =~= q.drop_first());
    } else {
        assert(q.remove(k).drop_first() =~= q.drop_first().remove(k - 1));
        assert(q.remove(k)[0] == q[0]);
        lemma_qcount_remove(q.drop_first(), k - 1, id);
    }
}

/// An order of the queue with `id` counts; two of them count twice.
pub(crate) proof fn lemma_qcount_pos(q: Seq<Order>, k1: int, k2: int, id: OrderId)
    requires
        0 <= k1 < q.len(),
        0 <= k2 < q.len(),
        q[k1].id == id,
        q[k2].id == id,
    ensures
        qcount(q, id) >= 1,
        k1 != k2 ==> qcount(q, id) >= 2,
{
    lemma_qcount_remove(q, k1, id);
    if k1 != k2 {
        let j = if k2 < k1 { k2 } else { k2 - 1 };
        assert(q.remove(k1)[j] == q[k2]);
        lemma_qcount_remove(q.remove(k1), j, id);
    }
}

pub(crate) proof fn lemma_qcount_zero(q: Seq<Order>, id: OrderId)
    requires
        forall|k: int| 0 <= k < q.len() ==> (#[trigger] q[k]).id != id,
    ensures
        qcount(q, id) == 0,
    decreases q.len(),
{
    if q.len() > 0 {
        assert forall|k: int| 0 <= k < q.drop_first().len() implies (#[trigger] q.drop_first()[k]).id != id by {
            assert(q.drop_first()[k] == q[k + 1]);
        }
        lemma_qcount_zero(q.drop_first(), id);
    }
}

pub(crate) proof fn lemma_lcount_zero(levels: Seq<LevelView>, id: OrderId)
    requires
        forall|i: int, k: int|
            0 <= i < levels.len() && 0 <= k < levels[i].1.len() ==> (#[trigger] levels[i].1[k]).id != id,
    ensures
        lcount(levels, id) == 0,
    decreases levels.len(),
{
    if levels.len() > 0 {
        assert forall|k: int| 0 <= k < levels[0].1.len() implies (#[trigger] levels[0].1[k]).id != id by {}
        lemma_qcount_zero(levels[0].1, id);
        let d = levels.drop_first();
        assert forall|i: int, k: int| 0 <= i < d.len() && 0 <= k < d[i].1.len() implies (#[trigger] d[i].1[k]).id != id by {
            assert(d[i] == levels[i + 1]);
        }
        lemma_lcount_zero(d, id);
    }
}

pub(crate) proof fn lemma_lcount_remove(levels: Seq<LevelView>, i: int, id: OrderId)
    requires
        0 <= i < levels.len(),
    ensures
        lcount(levels.remove(i), id) + qcount(levels[i].1, id) == lcount(levels, id),
    decreases i,
{
    if i == 0 {
        assert(levels.remove(0) =~= levels.drop_first());
    } else {
        assert(levels.remove(i).drop_first() =~= levels.drop_first().remove(i - 1));
        assert(levels.remove(i)[0] == levels[0]);
        lemma_lcount_remove(levels.drop_first(), i - 1, id);
    }
}

pub(crate) proof fn lemma_lcount_update(levels: Seq<LevelView>, i: int, x: LevelView, id: OrderId)
    requires
        0 <= i < levels.len(),
    ensures
        lcount(levels.update(i, x), id) + qcount(levels[i].1, id) == lcount(levels, id) + qcount(x.1, id),
    decreases i,
{
    if i == 0 {
        assert(levels.update(0, x).drop_first() =~= levels.drop_first());
    } else {
        assert(levels.update(i, x).drop_first() =~= levels.drop_first().update(i - 1, x));
        lemma_lcount_update(levels.drop_first(), i - 1, x, id);
    }
}

/// An order of the levels with `id` counts; two of them count twice.
pub(crate) proof fn lemma_lcount_pos(levels: Seq<LevelView>, i1: int, k1: int, i2: int, k2: int, id: OrderId)
    requires
        0 <= i1 < levels.len(),
        0 <= k1 < levels[i1].1.len(),
        0 <= i2 < levels.len(),
        0 <= k2 < levels[i2].1.len(),
        levels[i1].1[k1].id == id,
        levels[i2].1[k2].id == id,
    ensures
        lcount(levels, id) >= 1,
        i1 != i2 || k1 != k2 ==> lcount(levels, id) >= 2,
{
    lemma_lcount_remove(levels, i1, id);
    if i1 == i2 {
        lemma_qcount_pos(levels[i1].1, k1, k2, id);
    } else {
        lemma_qcount_pos(levels[i1].1, k1, k1, id);
        let r = levels.remove(i1);
        let j = if i2 < i1 { i2 } else { i2 - 1 };
        assert(r[j] == levels[i2]);
        lemma_lcount_remove(r, j, id);
        lemma_qcount_pos(levels[i2].1, k2, k2, id);
    }
}

pub(crate) proof fn lemma_lcount_drop_last(levels: Seq<LevelView>, id: OrderId)
    requires
        levels.len() > 0,
    ensures
        lcount(levels, id) == lcount(levels.drop_last(), id) + qcount(levels.last().1, id),
{
    let n = levels.len() - 1;
    assert(levels.remove(n) =~= levels.drop_last());
    lemma_lcount_remove(levels, n, id);
}

pub(crate) proof fn lemma_fill_count(q: Seq<Order>, qty: int, taker: OrderId, now: i64, id: OrderId)
    ensures
        qcount(fill(q, qty, taker, now).1, id) <= qcount(q, id),
    decreases q.len(),
{
    if qty <= 0 || q.len() == 0 {
    } else if q[0].quantity.0 > qty {
        let u = q.update(0, partially_filled(q[0], qty));
        assert(u.drop_first() =~= q.drop_first());
    } else {
        lemma_fill_count(q.drop_first(), qty - q[0].quantity.0, taker, now, id);
    }
}

pub(crate) proof fn lemma_sweep_count(levels: Seq<LevelView>, s: Side, limit: i64, qty: int, taker: OrderId, now: i64, id: OrderId)
    ensures
        lcount(sweep(levels, s, limit, qty, taker, now).1, id) <= lcount(levels, id),
    decreases levels.len(),
{
    if qty <= 0 || levels.len() == 0 || !crate::order_book::crosses(s, limit, levels.last().0) {
    } else {
        let lv = levels.last();
        let f = fill(lv.1, qty, taker, now);
        lemma_lcount_drop_last(levels, id);
        lemma_fill_count(lv.1, qty, taker, now, id);
        if f.1.len() == 0 {
            lemma_sweep_count(levels.drop_last(), s, limit, f.2, taker, now, id);
        } else {
            let n = levels.len() - 1;
            lemma_lcount_update(levels, n, (lv.0, f.1), id);
        }
    }
}

pub(crate) proof fn lemma_rest_count(levels: Seq<LevelView>, o: Order, s: Side, id: OrderId)
    ensures
        lcount(rest_in(levels, o, s), id) == lcount(levels, id) + one_if(o.id == id),
    decreases levels.len(),
{
    let r = rest_in(levels, o, s);
    assert(qcount(seq![o], id) == qcount(seq![o].drop_first(), id) + one_if(o.id == id));
    assert(seq![o].drop_first() =~= Seq::<Order>::empty());
    assert(qcount(Seq::<Order>::empty(), id) == 0);
    if levels.len() == 0 {
        assert(r.drop_first() =~= Seq::<LevelView>::empty());
        assert(lcount(Seq::<LevelView>::empty(), id) == 0);
        assert(lcount(r, id) == qcount(r[0].1, id) + lcount(r.drop_first(), id));
    } else if levels[0].0 == o.price.0 {
        lemma_qcount_push(levels[0].1, o, id);
        assert(r.drop_first() =~= levels.drop_first());
        assert(lcount(r, id) == qcount(r[0].1, id) + lcount(r.drop_first(), id));
    } else if crate::order_book::worse(s, o.price.0, levels[0].0) {
        assert(r.drop_first() =~= levels);
        assert(lcount(r, id) == qcount(r[0].1, id) + lcount(r.drop_first(), id));
    } else {
        lemma_rest_count(levels.drop_first(), o, s, id);
        assert(r.drop_first() =~= rest_in(levels.drop_first(), o, s));
        assert(lcount(r, id) == qcount(r[0].1, id) + lcount(r.drop_first(), id));
    }
}

pub(crate) proof fn lemma_removed_count(levels: Seq<LevelView>, i: int, k: int, id: OrderId)
    requires
        0 <= i < levels.len(),
        0 <= k < levels[i].1.len(),
    ensures
        lcount(removed_at(levels, i, k), id) + one_if(levels[i].1[k].id == id) == lcount(levels, id),
{
    let q = levels[i].1.remove(k);
    lemma_qcount_remove(levels[i].1, k, id);
    if q.len() == 0 {
        lemma_lcount_remove(levels, i, id);
    } else {
        lemma_lcount_update(levels, i, (levels[i].0, q), id);
    }
}

/// No two resting orders of the book share an identifier.
pub open spec fn unique_ids(bids: Seq<LevelView>, asks: Seq<LevelView>) -> bool {
    forall|id: OrderId|
        #![trigger lcount(bids, id)]
        #![trigger lcount(asks, id)]
        lcount(bids, id) + lcount(asks, id) <= 1
}

/// Matching an order whose identifier rests nowhere keeps identifiers unique.
pub(crate) proof fn lemma_matched_unique(bids: Seq<LevelView>, asks: Seq<LevelView>, o: Order, now: i64)
    requires
        unique_ids(bids, asks),
        lcount(bids, o.id) + lcount(asks, o.id) == 0,
    ensures
        unique_ids(matched(bids, asks, o, now).1, matched(bids, asks, o, now).2),
{
    let m = matched(bids, asks, o, now);
    assert forall|id: OrderId| #![trigger lcount(m.1, id)] #![trigger lcount(m.2, id)] lcount(m.1, id) + lcount(m.2, id) <= 1 by {
        let q = o.quantity.0 as int;
        match o.side {
            Side::Buy => {
                let r = sweep(asks, o.side, o.price.0, q, o.id, now);
                lemma_sweep_count(asks, o.side, o.price.0, q, o.id, now, id);
                lemma_rest_count(bids, Order { quantity: Quantity(r.2 as i64), ..o }, Side::Buy, id);
                assert(lcount(bids, id) + lcount(asks, id) <= 1);
            },
            Side::Sell => {
                let r = sweep(bids, o.side, o.price.0, q, o.id, now);
                lemma_sweep_count(bids, o.side, o.price.0, q, o.id, now, id);
                lemma_rest_count(asks, Order { quantity: Quantity(r.2 as i64), ..o }, Side::Sell, id);
                assert(lcount(bids, id) + lcount(asks, id) <= 1);
            },
        }
    }
}

/// A deletion keeps identifiers unique, and the identifier of the deleted order rests no more.
pub(crate) proof fn lemma_deleted_unique(
    bids: Seq<LevelView>,
    asks: Seq<LevelView>,
    id: OrderId,
    rev: crate::order::Revision,
    bids2: Seq<LevelView>,
    asks2: Seq<LevelView>,
    r: Result<Order, OrderModificationError>,
)
    requires
        unique_ids(bids, asks),
        deletion(bids, asks, id, rev, bids2, asks2, r),
    ensures
        unique_ids(bids2, asks2),
        r matches Ok(o) ==> lcount(bids2, o.id) + lcount(asks2, o.id) == 0,
{
    match r {
        Err(_) => {},
        Ok(o) => {
            if exists|i: int, k: int|
                {
                    &&& #[trigger] holds_at(bids, i, k, id, rev)
                    &&& o == bids[i].1[k]
                    &&& bids2 == removed_at(bids, i, k)
                    &&& asks2 == asks
                } {
                let (i, k) = choose|i: int, k: int|
                    {
                        &&& #[trigger] holds_at(bids, i, k, id, rev)
                        &&& o == bids[i].1[k]
                        &&& bids2 == removed_at(bids, i, k)
                        &&& asks2 == asks
                    };
                assert forall|x: OrderId| #![trigger lcount(bids2, x)] #![trigger lcount(asks2, x)] lcount(bids2, x) + lcount(asks2, x) <= 1 by {
                    lemma_removed_count(bids, i, k, x);
                    assert(lcount(bids, x) + lcount(asks, x) <= 1);
                }
                lemma_removed_count(bids, i, k, o.id);
                lemma_lcount_pos(bids, i, k, i, k, o.id);
                assert(lcount(bids, o.id) + lcount(asks, o.id) <= 1);
            } else {
                let (i, k) = choose|i: int, k: int|
                    {
                        &&& #[trigger] holds_at(asks, i, k, id, rev)
                        &&& o == asks[i].1[k]
                        &&& asks2 == removed_at(asks, i, k)
                        &&& bids2 == bids
                    };
                assert forall|x: OrderId| #![trigger lcount(bids2, x)] #![trigger lcount(asks2, x)] lcount(bids2, x) + lcount(asks2, x) <= 1 by {
                    lemma_removed_count(asks, i, k, x);
                    assert(lcount(bids, x) + lcount(asks, x) <= 1);
                }
                lemma_removed_count(asks, i, k, o.id);
                lemma_lcount_pos(asks, i, k, i, k, o.id);
                assert(lcount(bids, o.id) + lcount(asks, o.id) <= 1);
            }
        },
    }
}

} // verus!
