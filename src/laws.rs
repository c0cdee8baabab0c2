//! Laws relating the book's operations to one another.
use vstd::prelude::*;
use crate::order::Order;
use crate::orderbook::{
    is_added, is_cancelled, is_requantified, lemma_sum_update, lemma_without_absent, levels_after_remove,
    queue_after_add, without, OrderBook,
};
use crate::types::{OrderId, Quantity};

verus! {

/// Adding an order and then cancelling it leaves the book as it was: the
/// same live orders, the same levels with the same queues on both sides
/// (hence the same sizes and best prices), and the same time.
pub proof fn law_add_then_cancel(b0: OrderBook, b1: OrderBook, b2: OrderBook, o: Order)
    requires
        b0.wf(),
        b0.add_error(o).is_none(),
        is_added(b0, b1, o),
        is_cancelled(b1, b2, o.id),
    ensures
        b2.live() == b0.live(),
        b2.levels(o.side) == b0.levels(o.side),
        b2.levels(o.side.spec_opposite()) == b0.levels(o.side.spec_opposite()),
        b2.time() == b0.time(),
{
    let side = o.side;
    let p = o.price;
    let id = o.id;
    assert(b2.live() =~= b0.live());
    assert(b1.live()[id].side == side && b1.live()[id].price == p);
    let lv = b0.levels(side);
    b0.lemma_levels_consistent();
    let qa = queue_after_add(lv, p, id);
    if lv.contains_key(p) {
        let q = lv[p];
        assert(!q.contains(id)) by {
            if q.contains(id) {
                let k = choose|k: int| 0 <= k < q.len() && q[k] == id;
                assert(b0.live().contains_key(q[k]));
            }
        }
        lemma_without_absent(q, id);
        assert(qa.drop_last() =~= q);
        assert(without(qa, id) == q);
        assert(levels_after_remove(b1.levels(side), p, id) =~= lv);
    } else {
        assert(qa.drop_last() =~= Seq::<OrderId>::empty());
        assert(qa.last() == id);
        assert(without(qa.drop_last(), id) =~= Seq::<OrderId>::empty());
        assert(without(qa, id) =~= Seq::<OrderId>::empty());
        assert(levels_after_remove(b1.levels(side), p, id) =~= lv);
    }
}

/// Adding a fresh order (nothing filled) and then setting its quantity to
/// `q` moves the size of its level by `q` minus the order's quantity.
pub proof fn law_add_then_update(b0: OrderBook, b1: OrderBook, b2: OrderBook, o: Order, q: Quantity)
    requires
        b0.wf(),
        b1.wf(),
        b0.add_error(o).is_none(),
        o.remaining_quantity == o.quantity,
        is_added(b0, b1, o),
        b1.update_error(o.id, q).is_none(),
        is_requantified(b1, b2, o.id, q),
    ensures
        b2.volume(o.side, o.price) == b1.volume(o.side, o.price) + q - o.quantity,
{
    let side = o.side;
    let p = o.price;
    let id = o.id;
    b1.lemma_levels_consistent();
    let ids = b1.levels(side)[p];
    let k = ids.len() - 1;
    assert(ids[k] == id);
    let upd = Order::requantified(b1.live()[id], q, b1.time());
    lemma_sum_update(b1.live(), ids, k, upd);
    assert(b2.levels(side) == b1.levels(side)) by {
        match side {
            crate::types::Side::Buy => {},
            crate::types::Side::Sell => {},
        }
    }
}

/// Two books that are both the cancellation of the same order from the same
/// book agree in every view: cancelling through the unified write path (a
/// zero quantity for a live id) is cancelling.
pub proof fn law_cancel_determined(b0: OrderBook, b1: OrderBook, b2: OrderBook, id: OrderId)
    requires
        b0.wf(),
        b0.live().contains_key(id),
        is_cancelled(b0, b1, id),
        is_cancelled(b0, b2, id),
    ensures
        b1.live() == b2.live(),
        b1.levels(b0.live()[id].side) == b2.levels(b0.live()[id].side),
        b1.levels(b0.live()[id].side.spec_opposite()) == b2.levels(b0.live()[id].side.spec_opposite()),
        b1.time() == b2.time(),
{
}

} // verus!
