//! The order book: orders and levels in two arenas, their indices, and the
//! mutation and query operations.
use vstd::prelude::*;
use std::collections::HashMap;
use crate::avl_tree::{lists, top_asc, top_desc, PriceTree};
use crate::limit::Limit;
use crate::order::Order;
use crate::types::{OrderId, OrderStatus, Price, Quantity, Side, Timestamp};
use crate::{OrderBookError, Result};

verus! {

broadcast use vstd::std_specs::hash::group_hash_axioms;

/// Sum of the working quantities of the orders `ids` names in `live`.
pub open spec fn sum_qty(live: Map<OrderId, Order>, ids: Seq<OrderId>) -> int
    decreases ids.len(),
{
    if ids.len() == 0 {
        0
    } else {
        sum_qty(live, ids.drop_last()) + live[ids.last()].remaining_quantity
    }
}

/// The size of each level of `lv`: the sum of its orders' working quantities in `live`.
pub open spec fn sizes_of(live: Map<OrderId, Order>, lv: Map<Price, Seq<OrderId>>) -> Map<Price, Quantity> {
    Map::new(|p: Price| lv.contains_key(p), |p: Price| sum_qty(live, lv[p]) as Quantity)
}

/// `p` is the highest price of `lv`.
pub open spec fn is_highest(lv: Map<Price, Seq<OrderId>>, p: Price) -> bool {
    lv.contains_key(p) && forall|k: Price| #[trigger] lv.contains_key(k) ==> k <= p
}

/// `p` is the lowest price of `lv`.
pub open spec fn is_lowest(lv: Map<Price, Seq<OrderId>>, p: Price) -> bool {
    lv.contains_key(p) && forall|k: Price| #[trigger] lv.contains_key(k) ==> k >= p
}

/// The sum over `ids` depends only on the working quantities of the listed orders.
pub proof fn lemma_sum_frame(a: Map<OrderId, Order>, b: Map<OrderId, Order>, ids: Seq<OrderId>)
    requires
        forall|k: int| 0 <= k < ids.len() ==> (#[trigger] a[ids[k]]).remaining_quantity
            == b[ids[k]].remaining_quantity,
    ensures
        sum_qty(a, ids) == sum_qty(b, ids),
    decreases ids.len(),
{
    if ids.len() > 0 {
        let d = ids.drop_last();
        assert forall|k: int| 0 <= k < d.len() implies (#[trigger] a[d[k]]).remaining_quantity
            == b[d[k]].remaining_quantity by {
            assert(d[k] == ids[k]);
        }
        lemma_sum_frame(a, b, d);
        assert(a[ids[ids.len() - 1]].remaining_quantity == b[ids[ids.len() - 1]].remaining_quantity);
    }
}

/// Appending an id adds its working quantity.
pub proof fn lemma_sum_push(live: Map<OrderId, Order>, ids: Seq<OrderId>, id: OrderId)
    ensures
        sum_qty(live, ids.push(id)) == sum_qty(live, ids) + live[id].remaining_quantity,
{
    assert(ids.push(id).drop_last() =~= ids);
}

/// The sum is never negative.
pub proof fn lemma_sum_nonneg(live: Map<OrderId, Order>, ids: Seq<OrderId>)
    ensures
        sum_qty(live, ids) >= 0,
    decreases ids.len(),
{
    if ids.len() > 0 {
        lemma_sum_nonneg(live, ids.drop_last());
    }
}

/// Removing the id at position `k` subtracts its working quantity.
pub proof fn lemma_sum_remove(live: Map<OrderId, Order>, ids: Seq<OrderId>, k: int)
    requires
        0 <= k < ids.len(),
    ensures
        sum_qty(live, ids.remove(k)) == sum_qty(live, ids) - live[ids[k]].remaining_quantity,
    decreases ids.len(),
{
    if k < ids.len() - 1 {
        let d = ids.drop_last();
        lemma_sum_remove(live, d, k);
        assert(ids.remove(k).drop_last() =~= d.remove(k));
        assert(ids.remove(k).last() == ids.last());
    } else {
        assert(ids.remove(k) =~= ids.drop_last());
    }
}

/// Changing the order of an id listed once changes the sum by the difference
/// of its working quantities.
pub proof fn lemma_sum_update(
    live: Map<OrderId, Order>,
    ids: Seq<OrderId>,
    k: int,
    o: Order,
)
    requires
        0 <= k < ids.len(),
        ids.no_duplicates(),
    ensures
        sum_qty(live.insert(ids[k], o), ids) == sum_qty(live, ids) - live[ids[k]].remaining_quantity
            + o.remaining_quantity,
{
    let live2 = live.insert(ids[k], o);
    lemma_sum_remove(live, ids, k);
    lemma_sum_remove(live2, ids, k);
    let r = ids.remove(k);
    assert forall|j: int| 0 <= j < r.len() implies (#[trigger] live[r[j]]).remaining_quantity
        == live2[r[j]].remaining_quantity by {
        if j < k {
            assert(r[j] == ids[j]);
        } else {
            assert(r[j] == ids[j + 1]);
        }
    }
    lemma_sum_frame(live, live2, r);
}

/// `p` is the best price of `lv` for `side`: the highest bid or the lowest ask.
pub open spec fn is_best(lv: Map<Price, Seq<OrderId>>, side: Side, p: Price) -> bool {
    match side {
        Side::Buy => is_highest(lv, p),
        Side::Sell => is_lowest(lv, p),
    }
}

/// The best price of the levels `lv` of `side`, if there is a level.
pub open spec fn best_of(lv: Map<Price, Seq<OrderId>>, side: Side) -> Option<Price> {
    if lv == Map::<Price, Seq<OrderId>>::empty() {
        None
    } else {
        Some(choose|p: Price| is_best(lv, side, p))
    }
}

/// The best price is unique.
pub proof fn lemma_best_unique(lv: Map<Price, Seq<OrderId>>, side: Side, p: Price)
    requires
        is_best(lv, side, p),
    ensures
        best_of(lv, side) == Some(p),
{
    assert(lv.contains_key(p));
    assert(lv != Map::<Price, Seq<OrderId>>::empty());
    let c = choose|c: Price| is_best(lv, side, c);
    assert(is_best(lv, side, c));
    assert(lv.contains_key(c));
}

/// Takes a free slot of an arena: one from the free list, or a new one at the end.
fn allocate_order_index(slots: &mut Vec<Option<Order>>, free: &mut Vec<usize>) -> (r: usize)
    requires
        old(free)@.no_duplicates(),
        forall|i: int| #![trigger old(free)@[i]]
            0 <= i < old(free)@.len() ==> old(free)@[i] < old(slots)@.len() && old(slots)@[old(free)@[i] as int].is_none(),
    ensures
        r < final(slots)@.len(),
        final(slots)@[r as int].is_none(),
        final(slots)@.len() == old(slots)@.len() || final(slots)@ == old(slots)@.push(None),
        final(slots)@.len() >= old(slots)@.len(),
        forall|i: int| 0 <= i < old(slots)@.len() ==> #[trigger] final(slots)@[i] == old(slots)@[i],
        final(free)@.no_duplicates(),
        forall|i: int| #![trigger final(free)@[i]]
            0 <= i < final(free)@.len() ==> final(free)@[i] < final(slots)@.len() && final(slots)@[final(free)@[i] as int].is_none() && final(free)@[i] != r,
{
    match free.pop() {
        Some(index) => {
            proof {
                let f = old(free)@;
                assert forall|i: int| 0 <= i < free@.len() implies free@[i] != index by {
                    assert(f[i] == free@[i] && f[f.len() - 1] == index);
                }
            }
            index
        },
        None => {
            let index = slots.len();
            slots.push(None);
            index
        },
    }
}

/// Returns slot `index` of an arena to the free list.
fn free_order_index(slots: &mut Vec<Option<Order>>, free: &mut Vec<usize>, index: usize)
    requires
        index < old(slots)@.len(),
        old(slots)@[index as int].is_some(),
        old(free)@.no_duplicates(),
        forall|i: int| #![trigger old(free)@[i]]
            0 <= i < old(free)@.len() ==> old(free)@[i] < old(slots)@.len() && old(slots)@[old(free)@[i] as int].is_none(),
    ensures
        final(slots)@ == old(slots)@.update(index as int, None),
        final(free)@ == old(free)@.push(index),
        final(free)@.no_duplicates(),
        forall|i: int| #![trigger final(free)@[i]]
            0 <= i < final(free)@.len() ==> final(free)@[i] < final(slots)@.len() && final(slots)@[final(free)@[i] as int].is_none(),
{
    slots[index] = None;
    free.push(index);
    proof {
        assert forall|i: int| 0 <= i < old(free)@.len() implies old(free)@[i] != index by {
            assert(old(slots)@[old(free)@[i] as int].is_none());
        }
    }
}

/// Takes a free slot of the level arena: one from the free list, or a new one at the end.
fn allocate_limit_index(slots: &mut Vec<Option<Limit>>, free: &mut Vec<usize>) -> (r: usize)
    requires
        old(free)@.no_duplicates(),
        forall|i: int| #![trigger old(free)@[i]]
            0 <= i < old(free)@.len() ==> old(free)@[i] < old(slots)@.len() && old(slots)@[old(free)@[i] as int].is_none(),
    ensures
        r < final(slots)@.len(),
        final(slots)@[r as int].is_none(),
        final(slots)@.len() >= old(slots)@.len(),
        forall|i: int| 0 <= i < old(slots)@.len() ==> #[trigger] final(slots)@[i] == old(slots)@[i],
        forall|i: int| old(slots)@.len() <= i < final(slots)@.len() ==> #[trigger] final(slots)@[i].is_none(),
        final(free)@.no_duplicates(),
        forall|i: int| #![trigger final(free)@[i]]
            0 <= i < final(free)@.len() ==> final(free)@[i] < final(slots)@.len() && final(slots)@[final(free)@[i] as int].is_none() && final(free)@[i] != r,
{
    match free.pop() {
        Some(index) => {
            proof {
                let f = old(free)@;
                assert forall|i: int| 0 <= i < free@.len() implies free@[i] != index by {
                    assert(f[i] == free@[i] && f[f.len() - 1] == index);
                }
            }
            index
        },
        None => {
            let index = slots.len();
            slots.push(None);
            index
        },
    }
}

/// Returns slot `index` of the level arena to the free list.
fn free_limit_index(slots: &mut Vec<Option<Limit>>, free: &mut Vec<usize>, index: usize)
    requires
        index < old(slots)@.len(),
        old(slots)@[index as int].is_some(),
        old(free)@.no_duplicates(),
        forall|i: int| #![trigger old(free)@[i]]
            0 <= i < old(free)@.len() ==> old(free)@[i] < old(slots)@.len() && old(slots)@[old(free)@[i] as int].is_none(),
    ensures
        final(slots)@ == old(slots)@.update(index as int, None),
        final(free)@ == old(free)@.push(index),
        final(free)@.no_duplicates(),
        forall|i: int| #![trigger final(free)@[i]]
            0 <= i < final(free)@.len() ==> final(free)@[i] < final(slots)@.len() && final(slots)@[final(free)@[i] as int].is_none(),
{
    slots[index] = None;
    free.push(index);
    proof {
        assert forall|i: int| 0 <= i < old(free)@.len() implies old(free)@[i] != index by {
            assert(old(slots)@[old(free)@[i] as int].is_none());
        }
    }
}

/// The queue of the levels `lv` at `price` with `id` appended (a new level
/// when there is none at that price).
pub open spec fn queue_after_add(lv: Map<Price, Seq<OrderId>>, price: Price, id: OrderId) -> Seq<OrderId> {
    if lv.contains_key(price) {
        lv[price].push(id)
    } else {
        seq![id]
    }
}

/// `q` without the entries equal to `id`, the others in their order.
pub open spec fn without(q: Seq<OrderId>, id: OrderId) -> Seq<OrderId>
    decreases q.len(),
{
    if q.len() == 0 {
        q
    } else if q.last() == id {
        without(q.drop_last(), id)
    } else {
        without(q.drop_last(), id).push(q.last())
    }
}

/// The levels `lv` after the order `id` left the level at `price`: the level
/// goes when it held only that order.
pub open spec fn levels_after_remove(lv: Map<Price, Seq<OrderId>>, price: Price, id: OrderId) -> Map<Price, Seq<OrderId>> {
    if without(lv[price], id).len() == 0 {
        lv.remove(price)
    } else {
        lv.insert(price, without(lv[price], id))
    }
}

/// Removing an id that a sequence without duplicates holds at `k` is
/// removing position `k`.
pub proof fn lemma_without_at(q: Seq<OrderId>, k: int)
    requires
        0 <= k < q.len(),
        q.no_duplicates(),
    ensures
        without(q, q[k]) == q.remove(k),
    decreases q.len(),
{
    let id = q[k];
    if k == q.len() - 1 {
        lemma_without_absent(q.drop_last(), id);
        assert(q.remove(k) =~= q.drop_last());
    } else {
        let d = q.drop_last();
        assert(d[k] == id);
        lemma_without_at(d, k);
        assert(q.remove(k) =~= d.remove(k).push(q.last()));
    }
}

/// Removing an id that a sequence does not hold changes nothing.
pub proof fn lemma_without_absent(q: Seq<OrderId>, id: OrderId)
    requires
        !q.contains(id),
    ensures
        without(q, id) == q,
    decreases q.len(),
{
    if q.len() > 0 {
        let d = q.drop_last();
        assert(!d.contains(id)) by {
            if d.contains(id) {
                let i = choose|i: int| 0 <= i < d.len() && d[i] == id;
                assert(q[i] == id);
            }
        }
        lemma_without_absent(d, id);
        assert(q.last() != id) by {
            if q.last() == id {
                assert(q[q.len() - 1] == id);
            }
        }
        assert(d.push(q.last()) =~= q);
    }
}

/// Finds the position of handle `s` in a queue that holds it.
fn position_in_queue(q: &Vec<usize>, s: usize) -> (k: usize)
    requires
        q@.contains(s),
    ensures
        k < q@.len(),
        q@[k as int] == s,
{
    let mut k: usize = 0;
    while k < q.len() && q[k] != s
        invariant
            k <= q@.len(),
            q@.contains(s),
            forall|j: int| 0 <= j < k ==> q@[j] != s,
        decreases q@.len() - k,
    {
        k = k + 1;
    }
    proof {
        if k == q@.len() {
            let j = choose|j: int| 0 <= j < q@.len() && q@[j] == s;
            assert(q@[j] != s);
        }
    }
    k
}

/// `b1` is `b0` after `order` was added: it is live, stamped with the book's
/// time, at the tail of the queue at its price on its side.
pub open spec fn is_added(b0: OrderBook, b1: OrderBook, order: Order) -> bool {
    &&& b1.live() == b0.live().insert(order.id, Order { event_time: b0.time(), ..order })
    &&& b1.levels(order.side) == b0.levels(order.side).insert(
        order.price,
        queue_after_add(b0.levels(order.side), order.price, order.id),
    )
    &&& b1.levels(order.side.spec_opposite()) == b0.levels(order.side.spec_opposite())
    &&& b1.time() == b0.time()
}

/// `b1` is `b0` after the live order `id` was cancelled: it is gone from the
/// live orders and from its level's queue, and the level is gone if it held
/// nothing else.
pub open spec fn is_cancelled(b0: OrderBook, b1: OrderBook, id: OrderId) -> bool {
    let o = b0.live()[id];
    &&& b1.live() == b0.live().remove(id)
    &&& b1.levels(o.side) == levels_after_remove(b0.levels(o.side), o.price, id)
    &&& b1.levels(o.side.spec_opposite()) == b0.levels(o.side.spec_opposite())
    &&& b1.time() == b0.time()
}

/// `b1` is `b0` after the live order `id` got the total quantity `q`, its
/// place in the queue kept.
pub open spec fn is_requantified(b0: OrderBook, b1: OrderBook, id: OrderId, q: Quantity) -> bool {
    &&& b1.live() == b0.live().insert(id, Order::requantified(b0.live()[id], q, b0.time()))
    &&& b1.levels(Side::Buy) == b0.levels(Side::Buy)
    &&& b1.levels(Side::Sell) == b0.levels(Side::Sell)
    &&& b1.time() == b0.time()
}

/// A listing of prices with level handles carries over to the same prices
/// with the levels' sizes.
pub proof fn lemma_listing_sizes(
    hl: Seq<(Price, usize)>,
    out: Seq<(Price, Quantity)>,
    handles: Map<Price, usize>,
    sizes: Map<Price, Quantity>,
    n: nat,
    descending: bool,
)
    requires
        descending ==> top_desc(hl, handles, n),
        !descending ==> top_asc(hl, handles, n),
        out.len() == hl.len(),
        forall|j: int| 0 <= j < out.len() ==> (#[trigger] out[j]).0 == hl[j].0 && out[j].1 == sizes[hl[j].0],
        sizes.dom() == handles.dom(),
    ensures
        descending ==> top_desc(out, sizes, n),
        !descending ==> top_asc(out, sizes, n),
{
    assert forall|j: int| 0 <= j < out.len() implies #[trigger] out[j].0 == hl[j].0 && handles.contains_key(hl[j].0) by {
        assert(hl[j] == hl[j]);
    }
    assert forall|k: Price| #[trigger] lists(hl, k) implies lists(out, k) by {
        let i = choose|i: int| 0 <= i < hl.len() && (#[trigger] hl[i]).0 == k;
        assert(out[i].0 == k);
    }
    if descending {
        assert forall|i: int, j: int| 0 <= i < j < out.len() implies (#[trigger] out[i]).0 > (#[trigger] out[j]).0 by {
            assert(hl[i].0 > hl[j].0);
        }
        assert forall|k: Price| #[trigger] sizes.contains_key(k) && !lists(out, k) implies {
            &&& out.len() == n
            &&& forall|i: int| 0 <= i < out.len() ==> k < (#[trigger] out[i]).0
        } by {
            assert(handles.dom().contains(k));
            assert(!lists(hl, k));
            assert forall|i: int| 0 <= i < out.len() implies k < (#[trigger] out[i]).0 by {
                assert(k < hl[i].0);
            }
        }
    } else {
        assert forall|i: int, j: int| 0 <= i < j < out.len() implies (#[trigger] out[i]).0 < (#[trigger] out[j]).0 by {
            assert(hl[i].0 < hl[j].0);
        }
        assert forall|k: Price| #[trigger] sizes.contains_key(k) && !lists(out, k) implies {
            &&& out.len() == n
            &&& forall|i: int| 0 <= i < out.len() ==> k > (#[trigger] out[i]).0
        } by {
            assert(handles.dom().contains(k));
            assert(!lists(hl, k));
            assert forall|i: int| 0 <= i < out.len() implies k > (#[trigger] out[i]).0 by {
                assert(k > hl[i].0);
            }
        }
    }
    assert forall|k: Price| sizes.contains_key(k) implies #[trigger] handles.contains_key(k) by {
        assert(sizes.dom().contains(k));
    }
    assert forall|k: Price| handles.contains_key(k) implies #[trigger] sizes.contains_key(k) by {
        assert(handles.dom().contains(k));
    }
}

/// A limit order book for one instrument.
///
/// Orders and levels are stored in arenas with free lists and addressed by
/// handles (arena indices). Each level keeps its orders' handles in time
/// priority; each side has a hash map from price to level handle and an
/// ordered price tree over the same levels; the best level of each side is
/// cached.
#[derive(Debug)]
pub struct OrderBook {
    orders: Vec<Option<Order>>,
    free_order_indices: Vec<usize>,
    order_id_to_index: HashMap<OrderId, usize>,
    limits: Vec<Option<Limit>>,
    free_limit_indices: Vec<usize>,
    bid_levels: HashMap<Price, usize>,
    ask_levels: HashMap<Price, usize>,
    buy_tree: PriceTree,
    sell_tree: PriceTree,
    best_bid_index: Option<usize>,
    best_ask_index: Option<usize>,
    current_time: Timestamp,
}

impl OrderBook {
    /// The live orders by id.
    pub closed spec fn live(&self) -> Map<OrderId, Order> {
        Map::new(
            |id: OrderId| self.order_id_to_index@.contains_key(id),
            |id: OrderId| self.orders@[self.order_id_to_index@[id] as int].unwrap(),
        )
    }

    /// The price-to-level-handle map of one side.
    closed spec fn side_map(&self, side: Side) -> Map<Price, usize> {
        match side {
            Side::Buy => self.bid_levels@,
            Side::Sell => self.ask_levels@,
        }
    }

    /// The ids of the orders at the handles `q`.
    closed spec fn ids_of(&self, q: Seq<usize>) -> Seq<OrderId> {
        q.map_values(|s: usize| self.orders@[s as int].unwrap().id)
    }

    /// The level at handle `l`.
    closed spec fn lim(&self, l: usize) -> Limit {
        self.limits@[l as int].unwrap()
    }

    /// The levels of one side: each price mapped to the ids of its orders,
    /// oldest first.
    pub closed spec fn levels(&self, side: Side) -> Map<Price, Seq<OrderId>> {
        Map::new(
            |p: Price| self.side_map(side).contains_key(p),
            |p: Price| self.ids_of(self.lim(self.side_map(side)[p]).queue@),
        )
    }

    /// The time stamped on mutations.
    pub closed spec fn time(&self) -> Timestamp {
        self.current_time
    }

    /// Aggregate working quantity of the level at `price` on `side`.
    pub open spec fn volume(&self, side: Side, price: Price) -> int {
        sum_qty(self.live(), self.levels(side)[price])
    }

    /// The id-to-handle map agrees with the order arena.
    closed spec fn orders_indexed(&self) -> bool {
        let o = self.orders@;
        let idx = self.order_id_to_index@;
        &&& forall|id: OrderId| #[trigger]
            idx.contains_key(id) ==> idx[id] < o.len() && o[idx[id] as int].is_some()
                && o[idx[id] as int].unwrap().id == id
        &&& forall|s: int| #![trigger o[s]]
            0 <= s < o.len() && o[s].is_some() ==> idx.contains_key(o[s].unwrap().id)
                && idx[o[s].unwrap().id] == s
    }

    /// Each stored order is consistent, and queued at the level of its side and price.
    closed spec fn orders_placed(&self) -> bool {
        let o = self.orders@;
        forall|s: int| #![trigger o[s]]
            0 <= s < o.len() && o[s].is_some() ==> {
                let ord = o[s].unwrap();
                &&& ord.wf()
                &&& ord.remaining_quantity > 0
                &&& self.side_map(ord.side).contains_key(ord.price)
                &&& self.lim(self.side_map(ord.side)[ord.price]).queue@.contains(s as usize)
            }
    }

    /// The side maps point at stored levels of their side and price.
    closed spec fn maps_ok(&self) -> bool {
        let lv = self.limits@;
        &&& forall|side: Side, p: Price| #[trigger]
            self.side_map(side).contains_key(p) ==> {
                let l = self.side_map(side)[p];
                &&& l < lv.len()
                &&& lv[l as int].is_some()
                &&& lv[l as int].unwrap().price == p
                &&& lv[l as int].unwrap().side == side
            }
        &&& forall|l: int| #![trigger lv[l]]
            0 <= l < lv.len() && lv[l].is_some() ==> {
                let lm = lv[l].unwrap();
                &&& self.side_map(lm.side).contains_key(lm.price)
                &&& self.side_map(lm.side)[lm.price] == l
            }
    }

    /// One stored level: its statistics and its queue agree with the orders.
    closed spec fn level_ok(&self, lm: Limit) -> bool {
        let q = lm.queue@;
        let o = self.orders@;
        &&& lm.wf()
        &&& q.len() == lm.order_count
        &&& q.len() > 0
        &&& q.no_duplicates()
        &&& forall|k: int| #![trigger q[k]]
            0 <= k < q.len() ==> {
                &&& q[k] < o.len()
                &&& o[q[k] as int].is_some()
                &&& o[q[k] as int].unwrap().price == lm.price
                &&& o[q[k] as int].unwrap().side == lm.side
            }
        &&& lm.size == sum_qty(self.live(), self.ids_of(q))
    }

    /// Every stored level is consistent.
    closed spec fn levels_ok(&self) -> bool {
        let lv = self.limits@;
        forall|l: int| #![trigger lv[l]]
            0 <= l < lv.len() && lv[l].is_some() ==> self.level_ok(lv[l].unwrap())
    }

    /// The free lists hold distinct empty slots.
    closed spec fn free_ok(&self) -> bool {
        let fo = self.free_order_indices@;
        let fl = self.free_limit_indices@;
        &&& fo.no_duplicates()
        &&& forall|i: int| #![trigger fo[i]]
            0 <= i < fo.len() ==> fo[i] < self.orders@.len() && self.orders@[fo[i] as int].is_none()
        &&& fl.no_duplicates()
        &&& forall|i: int| #![trigger fl[i]]
            0 <= i < fl.len() ==> fl[i] < self.limits@.len() && self.limits@[fl[i] as int].is_none()
    }

    /// The trees hold the side maps, and the cached best levels are the
    /// highest bid and the lowest ask.
    closed spec fn best_ok(&self) -> bool {
        &&& self.buy_tree.wf()
        &&& self.buy_tree@ == self.bid_levels@
        &&& self.sell_tree.wf()
        &&& self.sell_tree@ == self.ask_levels@
        &&& match self.best_bid_index {
            None => self.bid_levels@ == Map::<Price, usize>::empty(),
            Some(l) => {
                &&& l < self.limits@.len()
                &&& self.limits@[l as int].is_some()
                &&& self.bid_levels@.contains_key(self.lim(l).price)
                &&& self.bid_levels@[self.lim(l).price] == l
                &&& forall|k: Price| #[trigger]
                    self.bid_levels@.contains_key(k) ==> k <= self.lim(l).price
            },
        }
        &&& match self.best_ask_index {
            None => self.ask_levels@ == Map::<Price, usize>::empty(),
            Some(l) => {
                &&& l < self.limits@.len()
                &&& self.limits@[l as int].is_some()
                &&& self.ask_levels@.contains_key(self.lim(l).price)
                &&& self.ask_levels@[self.lim(l).price] == l
                &&& forall|k: Price| #[trigger]
                    self.ask_levels@.contains_key(k) ==> k >= self.lim(l).price
            },
        }
    }

    /// The book's invariant.
    pub closed spec fn wf(&self) -> bool {
        &&& self.orders_indexed()
        &&& self.orders_placed()
        &&& self.maps_ok()
        &&& self.levels_ok()
        &&& self.free_ok()
        &&& self.best_ok()
    }

    /// An empty book at time zero.
    pub fn new() -> (r: OrderBook)
        ensures
            r.wf(),
            r.live() == Map::<OrderId, Order>::empty(),
            r.levels(Side::Buy) == Map::<Price, Seq<OrderId>>::empty(),
            r.levels(Side::Sell) == Map::<Price, Seq<OrderId>>::empty(),
            r.time() == 0,
    {
        let r = OrderBook {
            orders: Vec::new(),
            free_order_indices: Vec::new(),
            order_id_to_index: HashMap::new(),
            limits: Vec::new(),
            free_limit_indices: Vec::new(),
            bid_levels: HashMap::new(),
            ask_levels: HashMap::new(),
            buy_tree: PriceTree::new(),
            sell_tree: PriceTree::new(),
            best_bid_index: None,
            best_ask_index: None,
            current_time: 0,
        };
        proof {
            assert(r.live() =~= Map::<OrderId, Order>::empty());
            assert(r.levels(Side::Buy) =~= Map::<Price, Seq<OrderId>>::empty());
            assert(r.levels(Side::Sell) =~= Map::<Price, Seq<OrderId>>::empty());
        }
        r
    }

    /// An empty book at time zero whose arenas and maps are pre-sized for
    /// `order_capacity` orders and `limit_capacity` levels.
    pub fn with_capacity(order_capacity: usize, limit_capacity: usize) -> (r: OrderBook)
        ensures
            r.wf(),
            r.live() == Map::<OrderId, Order>::empty(),
            r.levels(Side::Buy) == Map::<Price, Seq<OrderId>>::empty(),
            r.levels(Side::Sell) == Map::<Price, Seq<OrderId>>::empty(),
            r.time() == 0,
    {
        let r = OrderBook {
            orders: Vec::with_capacity(order_capacity),
            free_order_indices: Vec::new(),
            order_id_to_index: HashMap::with_capacity(order_capacity),
            limits: Vec::with_capacity(limit_capacity),
            free_limit_indices: Vec::new(),
            bid_levels: HashMap::with_capacity(limit_capacity),
            ask_levels: HashMap::with_capacity(limit_capacity),
            buy_tree: PriceTree::new(),
            sell_tree: PriceTree::new(),
            best_bid_index: None,
            best_ask_index: None,
            current_time: 0,
        };
        proof {
            assert(r.live() =~= Map::<OrderId, Order>::empty());
            assert(r.levels(Side::Buy) =~= Map::<Price, Seq<OrderId>>::empty());
            assert(r.levels(Side::Sell) =~= Map::<Price, Seq<OrderId>>::empty());
        }
        r
    }
    /// The handle of the level at `price` on `side`, if there is one.
    fn find_level(&self, side: Side, price: Price) -> (r: Option<usize>)
        requires
            self.wf(),
        ensures
            r.is_some() == self.side_map(side).contains_key(price),
            r.is_some() == self.levels(side).contains_key(price),
            r.is_some() ==> {
                let l = r.unwrap();
                &&& l == self.side_map(side)[price]
                &&& l < self.limits@.len()
                &&& self.limits@[l as int].is_some()
                &&& self.lim(l).price == price
                &&& self.lim(l).side == side
                &&& self.level_ok(self.lim(l))
                &&& self.lim(l).size == self.volume(side, price)
                &&& self.lim(l).order_count == self.levels(side)[price].len()
            },
    {
        let found = match side {
            Side::Buy => self.bid_levels.get(&price),
            Side::Sell => self.ask_levels.get(&price),
        };
        match found {
            Some(l) => {
                proof {
                    assert(self.side_map(side).contains_key(price));
                    assert(self.limits@[*l as int].is_some());
                    assert(self.level_ok(self.lim(*l)));
                }
                Some(*l)
            },
            None => None,
        }
    }

    /// The best level of one side as `(price, size)`, from the cached handle.
    fn best_level(&self, side: Side) -> (r: Option<(Price, Quantity)>)
        requires
            self.wf(),
        ensures
            r == match best_of(self.levels(side), side) {
                None => None,
                Some(p) => Some((p, self.volume(side, p) as Quantity)),
            },
    {
        let cached = match side {
            Side::Buy => self.best_bid_index,
            Side::Sell => self.best_ask_index,
        };
        match cached {
            None => {
                proof {
                    assert(self.levels(side) =~= Map::<Price, Seq<OrderId>>::empty());
                }
                None
            },
            Some(l) => {
                let lm = self.limits[l].as_ref().unwrap();
                proof {
                    let lv = self.levels(side);
                    assert(self.side_map(side).contains_key(lm.price));
                    assert(lv.contains_key(lm.price));
                    assert forall|k: Price| #[trigger] lv.contains_key(k) implies (match side {
                        Side::Buy => k <= lm.price,
                        Side::Sell => k >= lm.price,
                    }) by {
                        assert(self.side_map(side).contains_key(k));
                    }
                    assert(is_best(lv, side, lm.price));
                    lemma_best_unique(lv, side, lm.price);
                    assert(self.limits@[l as int].is_some());
                    assert(self.level_ok(self.lim(l)));
                }
                Some((lm.price, lm.size))
            },
        }
    }

    /// Sets the time stamped on later mutations.
    pub fn set_time(&mut self, timestamp: Timestamp)
        requires
            old(self).wf(),
        ensures
            final(self).wf(),
            final(self).time() == timestamp,
            final(self).live() == old(self).live(),
            final(self).levels(Side::Buy) == old(self).levels(Side::Buy),
            final(self).levels(Side::Sell) == old(self).levels(Side::Sell),
    {
        self.current_time = timestamp;
        proof {
            assert(final(self).live() =~= old(self).live());
            assert(final(self).levels(Side::Buy) =~= old(self).levels(Side::Buy));
            assert(final(self).levels(Side::Sell) =~= old(self).levels(Side::Sell));
        }
    }

    /// The time stamped on mutations.
    pub fn current_time(&self) -> (r: Timestamp)
        ensures
            r == self.time(),
    {
        self.current_time
    }

    /// The highest bid as `(price, size)`, or `None` without bids.
    pub fn best_bid(&self) -> (r: Option<(Price, Quantity)>)
        requires
            self.wf(),
        ensures
            r == match best_of(self.levels(Side::Buy), Side::Buy) {
                None => None,
                Some(p) => Some((p, self.volume(Side::Buy, p) as Quantity)),
            },
    {
        self.best_level(Side::Buy)
    }

    /// The lowest ask as `(price, size)`, or `None` without asks.
    pub fn best_ask(&self) -> (r: Option<(Price, Quantity)>)
        requires
            self.wf(),
        ensures
            r == match best_of(self.levels(Side::Sell), Side::Sell) {
                None => None,
                Some(p) => Some((p, self.volume(Side::Sell, p) as Quantity)),
            },
    {
        self.best_level(Side::Sell)
    }

    /// Best ask minus best bid (zero when crossed), or `None` when a side is empty.
    pub fn spread(&self) -> (r: Option<Price>)
        requires
            self.wf(),
        ensures
            r == match (best_of(self.levels(Side::Sell), Side::Sell), best_of(self.levels(Side::Buy), Side::Buy)) {
                (Some(a), Some(b)) => Some(if a > b { (a - b) as Price } else { 0 }),
                _ => None,
            },
    {
        match (self.best_ask(), self.best_bid()) {
            (Some((a, _)), Some((b, _))) => {
                if a > b {
                    Some(a - b)
                } else {
                    Some(0)
                }
            },
            _ => None,
        }
    }

    /// The integer average of best bid and best ask, or `None` when a side is empty.
    pub fn mid_price(&self) -> (r: Option<Price>)
        requires
            self.wf(),
        ensures
            r == match (best_of(self.levels(Side::Sell), Side::Sell), best_of(self.levels(Side::Buy), Side::Buy)) {
                (Some(a), Some(b)) => Some(((a + b) / 2) as Price),
                _ => None,
            },
    {
        match (self.best_ask(), self.best_bid()) {
            (Some((a, _)), Some((b, _))) => {
                let m = a / 2 + b / 2 + (a % 2 + b % 2) / 2;
                Some(m)
            },
            _ => None,
        }
    }

    /// Size of the level at `price` (the bid side is consulted first), or
    /// `None` when no level has that price. A book crossed by direct adds may
    /// hold a bid and an ask level at one price; the ask level is then not
    /// reported here (`get_levels` lists both).
    pub fn volume_at_price(&self, price: Price) -> (r: Option<Quantity>)
        requires
            self.wf(),
        ensures
            r == (if self.levels(Side::Buy).contains_key(price) {
                Some(self.volume(Side::Buy, price) as Quantity)
            } else if self.levels(Side::Sell).contains_key(price) {
                Some(self.volume(Side::Sell, price) as Quantity)
            } else {
                None
            }),
    {
        let found = match self.find_level(Side::Buy, price) {
            Some(l) => Some(l),
            None => self.find_level(Side::Sell, price),
        };
        match found {
            Some(l) => {
                let lm = self.limits[l].as_ref().unwrap();
                Some(lm.size)
            },
            None => None,
        }
    }

    /// Number of orders at `price` (the bid side is consulted first), or
    /// `None` when no level has that price. A book crossed by direct adds may
    /// hold a bid and an ask level at one price; the ask level is then not
    /// reported here (`get_levels` lists both).
    pub fn orders_at_price(&self, price: Price) -> (r: Option<usize>)
        requires
            self.wf(),
        ensures
            r == (if self.levels(Side::Buy).contains_key(price) {
                Some(self.levels(Side::Buy)[price].len() as usize)
            } else if self.levels(Side::Sell).contains_key(price) {
                Some(self.levels(Side::Sell)[price].len() as usize)
            } else {
                None
            }),
    {
        let found = match self.find_level(Side::Buy, price) {
            Some(l) => Some(l),
            None => self.find_level(Side::Sell, price),
        };
        match found {
            Some(l) => {
                let lm = self.limits[l].as_ref().unwrap();
                Some(lm.order_count)
            },
            None => None,
        }
    }

    /// True when an order with this id is live.
    pub fn contains_order(&self, order_id: OrderId) -> (r: bool)
        requires
            self.wf(),
        ensures
            r == self.live().contains_key(order_id),
    {
        self.order_id_to_index.contains_key(&order_id)
    }

    /// The live order with this id, if any.
    pub fn get_order(&self, order_id: OrderId) -> (r: Option<&Order>)
        requires
            self.wf(),
        ensures
            r.is_some() == self.live().contains_key(order_id),
            r.is_some() ==> *r.unwrap() == self.live()[order_id],
            r.is_some() ==> r.unwrap().id == order_id,
    {
        match self.order_id_to_index.get(&order_id) {
            Some(s) => self.orders[*s].as_ref(),
            None => None,
        }
    }

    /// Number of live orders.
    pub fn total_orders(&self) -> (r: usize)
        requires
            self.wf(),
        ensures
            r == self.live().len(),
    {
        proof {
            assert(self.live().dom() =~= self.order_id_to_index@.dom());
        }
        self.order_id_to_index.len()
    }

    /// Number of price levels over both sides (saturating).
    pub fn total_levels(&self) -> (r: usize)
        requires
            self.wf(),
        ensures
            r == (if self.levels(Side::Buy).len() + self.levels(Side::Sell).len() <= usize::MAX {
                self.levels(Side::Buy).len() + self.levels(Side::Sell).len()
            } else {
                usize::MAX as nat
            }),
    {
        proof {
            assert(self.levels(Side::Buy).dom() =~= self.bid_levels@.dom());
            assert(self.levels(Side::Sell).dom() =~= self.ask_levels@.dom());
        }
        self.bid_levels.len().saturating_add(self.ask_levels.len())
    }
    /// Why `add_order` refuses `order`, if it does: a zero price, a zero or
    /// inconsistent quantity, a live id, or a level that cannot take the
    /// order's working quantity (its size or order count would overflow).
    pub open spec fn add_error(&self, order: Order) -> Option<OrderBookError> {
        if order.price == 0 {
            Some(OrderBookError::InvalidPrice(order.price))
        } else if order.quantity == 0 {
            Some(OrderBookError::InvalidQuantity(order.quantity))
        } else if order.remaining_quantity == 0 || order.remaining_quantity > order.quantity {
            Some(OrderBookError::InvalidQuantity(order.remaining_quantity))
        } else if self.live().contains_key(order.id) {
            Some(OrderBookError::OrderAlreadyExists(order.id))
        } else if self.levels(order.side).contains_key(order.price) && (self.volume(
            order.side,
            order.price,
        ) + order.remaining_quantity > u64::MAX || self.levels(order.side)[order.price].len()
            >= usize::MAX) {
            Some(OrderBookError::InvalidQuantity(order.remaining_quantity))
        } else {
            None
        }
    }

    /// Adds a new resting order at the tail of its level, stamped with the
    /// book's time; the level is created when it is the first at its price.
    pub fn add_order(&mut self, order: Order) -> (r: Result<()>)
        requires
            old(self).wf(),
        ensures
            final(self).wf(),
            final(self).time() == old(self).time(),
            r.is_err() == old(self).add_error(order).is_some(),
            r.is_err() ==> r == Err::<(), OrderBookError>(old(self).add_error(order).unwrap())
                && *final(self) == *old(self),
            r.is_ok() ==> is_added(*old(self), *final(self), order),
    {
        if order.price == 0 {
            return Err(OrderBookError::InvalidPrice(order.price));
        }
        if order.quantity == 0 {
            return Err(OrderBookError::InvalidQuantity(order.quantity));
        }
        if order.remaining_quantity == 0 || order.remaining_quantity > order.quantity {
            return Err(OrderBookError::InvalidQuantity(order.remaining_quantity));
        }
        if self.contains_order(order.id) {
            return Err(OrderBookError::OrderAlreadyExists(order.id));
        }
        match self.find_level(order.side, order.price) {
            Some(l) => {
                let lm = self.limits[l].as_ref().unwrap();
                if lm.size > u64::MAX - order.remaining_quantity || lm.order_count == usize::MAX {
                    return Err(OrderBookError::InvalidQuantity(order.remaining_quantity));
                }
            },
            None => {},
        }
        let mut order = order;
        order.event_time = self.current_time;
        self.add_order_to_book(order);
        Ok(())
    }

    /// Stores an accepted order and queues it at its level.
    fn add_order_to_book(&mut self, order: Order)
        requires
            old(self).wf(),
            old(self).add_error(order).is_none(),
        ensures
            final(self).wf(),
            final(self).time() == old(self).time(),
            final(self).live() == old(self).live().insert(order.id, order),
            final(self).levels(order.side) == old(self).levels(order.side).insert(
                order.price,
                queue_after_add(old(self).levels(order.side), order.price, order.id),
            ),
            final(self).levels(order.side.spec_opposite()) == old(self).levels(
                order.side.spec_opposite(),
            ),
    {
        let id = order.id;
        let price = order.price;
        let side = order.side;
        let rem = order.remaining_quantity;
        let existing = self.find_level(side, price);
        let s = allocate_order_index(&mut self.orders, &mut self.free_order_indices);
        self.orders[s] = Some(order);
        self.order_id_to_index.insert(id, s);
        let l = match existing {
            Some(l) => {
                let mut slot: Option<Limit> = None;
                std::mem::swap(&mut self.limits[l], &mut slot);
                let mut lm = slot.unwrap();
                lm.queue.push(s);
                lm.add_order_stats(rem);
                self.limits[l] = Some(lm);
                l
            },
            None => {
                let l = allocate_limit_index(&mut self.limits, &mut self.free_limit_indices);
                let mut lm = Limit::new(price, side);
                lm.queue.push(s);
                lm.add_order_stats(rem);
                self.limits[l] = Some(lm);
                match side {
                    Side::Buy => {
                        let ghost before = self.bid_levels@;
                        self.bid_levels.insert(price, l);
                        proof {
                            assert(before.dom().finite());
                            assert(vstd::std_specs::hash::spec_hash_map_len(&self.bid_levels)
                                == self.bid_levels@.len());
                            assert(self.bid_levels@.dom() =~= before.dom().insert(price));
                        }
                        self.buy_tree.insert(price, l);
                    },
                    Side::Sell => {
                        let ghost before = self.ask_levels@;
                        self.ask_levels.insert(price, l);
                        proof {
                            assert(before.dom().finite());
                            assert(vstd::std_specs::hash::spec_hash_map_len(&self.ask_levels)
                                == self.ask_levels@.len());
                            assert(self.ask_levels@.dom() =~= before.dom().insert(price));
                        }
                        self.sell_tree.insert(price, l);
                    },
                }
                l
            },
        };
        self.update_best_prices(l, side);
        proof {
            let o = *old(self);
            let n = *self;
            assert(existing.is_none() ==> !o.side_map(side).contains_key(price));
            assert(n.side_map(side) == (if existing.is_some() {
                o.side_map(side)
            } else {
                o.side_map(side).insert(price, l)
            }));
            assert(n.side_map(side.spec_opposite()) == o.side_map(side.spec_opposite()));
            assert(n.free_ok()) by {
                assert forall|i: int| #![trigger n.free_limit_indices@[i]]
                    0 <= i < n.free_limit_indices@.len() implies n.free_limit_indices@[i] != l by {
                    if existing.is_some() {
                        assert(o.free_limit_indices@[i] == n.free_limit_indices@[i]);
                    }
                }
            }
            assert(n.best_ok()) by {
                match side {
                    Side::Buy => {
                        assert(n.buy_tree@ =~= n.bid_levels@);
                        if let Some(b) = n.best_ask_index {
                            assert(o.limits@[b as int].is_some());
                        }
                        if let Some(b) = o.best_bid_index {
                            assert(o.limits@[b as int].is_some());
                            if existing.is_some() {
                                assert(o.bid_levels@.contains_key(price));
                            }
                        }
                    },
                    Side::Sell => {
                        assert(n.sell_tree@ =~= n.ask_levels@);
                        if let Some(b) = n.best_bid_index {
                            assert(o.limits@[b as int].is_some());
                        }
                        if let Some(b) = o.best_ask_index {
                            assert(o.limits@[b as int].is_some());
                            if existing.is_some() {
                                assert(o.ask_levels@.contains_key(price));
                            }
                        }
                    },
                }
            }
            assert(OrderBook::add_frame(o, n, order, s, l, existing.is_some()));
            OrderBook::lemma_add_views(o, n, order, s, l, existing.is_some());
            OrderBook::lemma_add_indexed(o, n, order, s, l, existing.is_some());
            OrderBook::lemma_add_maps(o, n, order, s, l, existing.is_some());
            OrderBook::lemma_add_placed(o, n, order, s, l, existing.is_some());
            OrderBook::lemma_add_levels(o, n, order, s, l, existing.is_some());
        }
    }

    /// What `add_order_to_book` changed between `o` and `n`: the order was
    /// stored at slot `s` and queued at level `l`, which `existed` before or was
    /// created; nothing else moved.
    closed spec fn add_frame(o: OrderBook, n: OrderBook, order: Order, s: usize, l: usize, existed: bool) -> bool {
        let side = order.side;
        let price = order.price;
        let oq = if existed { o.lim(l).queue@ } else { Seq::<usize>::empty() };
        let lm = n.lim(l);
        &&& o.wf()
        &&& o.add_error(order).is_none()
        &&& existed == o.side_map(side).contains_key(price)
        &&& existed ==> l == o.side_map(side)[price]
        &&& s < n.orders@.len()
        &&& n.orders@.len() >= o.orders@.len()
        &&& (s >= o.orders@.len() || o.orders@[s as int].is_none())
        &&& n.orders@[s as int] == Some(order)
        &&& forall|t: int| #![trigger n.orders@[t]] 0 <= t < o.orders@.len() && t != s ==> n.orders@[t] == o.orders@[t]
        &&& forall|t: int| #![trigger n.orders@[t]] o.orders@.len() <= t < n.orders@.len() && t != s ==> n.orders@[t].is_none()
        &&& l < n.limits@.len()
        &&& n.limits@.len() >= o.limits@.len()
        &&& (!existed ==> l >= o.limits@.len() || o.limits@[l as int].is_none())
        &&& n.limits@[l as int].is_some()
        &&& forall|j: int| #![trigger n.limits@[j]] 0 <= j < o.limits@.len() && j != l ==> n.limits@[j] == o.limits@[j]
        &&& forall|j: int| #![trigger n.limits@[j]] o.limits@.len() <= j < n.limits@.len() && j != l ==> n.limits@[j].is_none()
        &&& lm.price == price
        &&& lm.side == side
        &&& lm.wf()
        &&& lm.queue@ == oq.push(s)
        &&& lm.size == (if existed { o.lim(l).size as int } else { 0 }) + order.remaining_quantity
        &&& lm.order_count == (if existed { o.lim(l).order_count as int } else { 0 }) + 1
        &&& n.order_id_to_index@ == o.order_id_to_index@.insert(order.id, s)
        &&& n.side_map(side) == (if existed { o.side_map(side) } else { o.side_map(side).insert(price, l) })
        &&& n.side_map(side.spec_opposite()) == o.side_map(side.spec_opposite())
        &&& n.free_ok()
        &&& n.best_ok()
        &&& n.current_time == o.current_time
    }

    /// The two sides are the side and its opposite.
    proof fn lemma_sides(side: Side, other: Side)
        ensures
            other == side || other == side.spec_opposite(),
    {
    }

    /// After an add: the live orders and the levels.
    proof fn lemma_add_views(o: OrderBook, n: OrderBook, order: Order, s: usize, l: usize, existed: bool)
        requires
            OrderBook::add_frame(o, n, order, s, l, existed),
        ensures
            n.live() == o.live().insert(order.id, order),
            n.levels(order.side) == o.levels(order.side).insert(
                order.price,
                queue_after_add(o.levels(order.side), order.price, order.id),
            ),
            n.levels(order.side.spec_opposite()) == o.levels(order.side.spec_opposite()),
            forall|j: usize| j < o.limits@.len() && o.limits@[j as int].is_some() && j != l
                ==> #[trigger] n.lim(j) == o.lim(j) && n.ids_of(n.lim(j).queue@) == o.ids_of(o.lim(j).queue@),
    {
        let side = order.side;
        let price = order.price;
        let id = order.id;
        let oq = if existed { o.lim(l).queue@ } else { Seq::<usize>::empty() };
        let lm = n.lim(l);
        assert forall|k: OrderId| #[trigger] o.order_id_to_index@.contains_key(k) && k != id implies
            n.orders@[o.order_id_to_index@[k] as int] == o.orders@[o.order_id_to_index@[k] as int] by {
            assert(o.orders@[o.order_id_to_index@[k] as int].is_some());
        }
        assert(n.live() =~= o.live().insert(id, order));
        assert forall|j: usize| j < o.limits@.len() && o.limits@[j as int].is_some() && j != l
            implies #[trigger] n.lim(j) == o.lim(j) && n.ids_of(n.lim(j).queue@) == o.ids_of(
            o.lim(j).queue@) by {
            assert(n.limits@[j as int] == o.limits@[j as int]);
            assert(o.level_ok(o.lim(j)));
            let q = o.lim(j).queue@;
            assert forall|k: int| 0 <= k < q.len() implies n.orders@[q[k] as int] == o.orders@[q[k] as int] by {
                assert(o.orders@[q[k] as int].is_some());
            }
            assert(n.ids_of(q) =~= o.ids_of(q));
        }
        assert forall|k: int| 0 <= k < oq.len() implies #[trigger] n.orders@[oq[k] as int] == o.orders@[oq[k] as int] by {
            assert(o.level_ok(o.lim(l)));
            assert(o.orders@[oq[k] as int].is_some());
        }
        assert(n.ids_of(lm.queue@) =~= o.ids_of(oq).push(id));
        assert forall|p: Price| #[trigger] n.side_map(side).contains_key(p) && p != price implies
            n.side_map(side)[p] != l && n.side_map(side)[p] == o.side_map(side)[p]
            && o.limits@[n.side_map(side)[p] as int].is_some() by {
            assert(o.side_map(side).contains_key(p));
        }
        assert forall|p: Price| #[trigger] n.side_map(side.spec_opposite()).contains_key(p)
            implies n.side_map(side.spec_opposite())[p] != l && o.limits@[n.side_map(side.spec_opposite())[p] as int].is_some() by {
            assert(o.side_map(side.spec_opposite()).contains_key(p));
        }
        assert(existed ==> o.ids_of(oq) == o.levels(side)[price]);
        assert(n.side_map(side)[price] == l);
        assert(n.levels(side)[price] == n.ids_of(lm.queue@));
        if !existed {
            assert(o.ids_of(oq).push(id) =~= seq![id]);
        }
        assert forall|p: Price| #[trigger] n.levels(side).contains_key(p) && p != price implies
            n.levels(side)[p] == o.levels(side)[p] by {
            let j = n.side_map(side)[p];
            assert(n.lim(j) == o.lim(j));
        }
        assert(n.levels(side) =~= o.levels(side).insert(price, queue_after_add(o.levels(side), price, id)));
        assert forall|p: Price| #[trigger] n.levels(side.spec_opposite()).contains_key(p) implies
            n.levels(side.spec_opposite())[p] == o.levels(side.spec_opposite())[p] by {
            let j = n.side_map(side.spec_opposite())[p];
            assert(n.lim(j) == o.lim(j));
        }
        assert(n.levels(side.spec_opposite()) =~= o.levels(side.spec_opposite()));
    }

    /// After an add: the id index agrees with the order arena.
    proof fn lemma_add_indexed(o: OrderBook, n: OrderBook, order: Order, s: usize, l: usize, existed: bool)
        requires
            OrderBook::add_frame(o, n, order, s, l, existed),
        ensures
            n.orders_indexed(),
    {
        assert forall|t: int| #![trigger n.orders@[t]]
            0 <= t < n.orders@.len() && n.orders@[t].is_some() implies n.order_id_to_index@.contains_key(n.orders@[t].unwrap().id)
                && n.order_id_to_index@[n.orders@[t].unwrap().id] == t by {
            if t != s {
                assert(o.orders@[t].is_some());
                assert(o.order_id_to_index@.contains_key(o.orders@[t].unwrap().id));
            }
        }
    }

    /// After an add: the side maps and the level arena agree.
    proof fn lemma_add_maps(o: OrderBook, n: OrderBook, order: Order, s: usize, l: usize, existed: bool)
        requires
            OrderBook::add_frame(o, n, order, s, l, existed),
        ensures
            n.maps_ok(),
    {
        let side = order.side;
        let price = order.price;
        assert forall|sd: Side, p: Price| #[trigger] n.side_map(sd).contains_key(p) implies {
            let j = n.side_map(sd)[p];
            &&& j < n.limits@.len()
            &&& n.limits@[j as int].is_some()
            &&& n.limits@[j as int].unwrap().price == p
            &&& n.limits@[j as int].unwrap().side == sd
        } by {
            OrderBook::lemma_sides(side, sd);
            if sd != side {
                assert(o.side_map(sd).contains_key(p));
            } else if p != price {
                assert(o.side_map(sd).contains_key(p));
            }
        }
        assert forall|j: int| #![trigger n.limits@[j]]
            0 <= j < n.limits@.len() && n.limits@[j].is_some() implies {
                let lmj = n.limits@[j].unwrap();
                &&& n.side_map(lmj.side).contains_key(lmj.price)
                &&& n.side_map(lmj.side)[lmj.price] == j
            } by {
            if j != l {
                assert(j < o.limits@.len());
                assert(o.limits@[j].is_some());
                let lmj = o.limits@[j].unwrap();
                assert(o.side_map(lmj.side).contains_key(lmj.price));
                OrderBook::lemma_sides(side, lmj.side);
            }
        }
    }

    /// After an add: each stored order sits in the queue of its level.
    proof fn lemma_add_placed(o: OrderBook, n: OrderBook, order: Order, s: usize, l: usize, existed: bool)
        requires
            OrderBook::add_frame(o, n, order, s, l, existed),
        ensures
            n.orders_placed(),
    {
        let side = order.side;
        let price = order.price;
        let oq = if existed { o.lim(l).queue@ } else { Seq::<usize>::empty() };
        let lm = n.lim(l);
        assert forall|t: int| #![trigger n.orders@[t]]
            0 <= t < n.orders@.len() && n.orders@[t].is_some() implies {
                let ord = n.orders@[t].unwrap();
                &&& ord.wf()
                &&& ord.remaining_quantity > 0
                &&& n.side_map(ord.side).contains_key(ord.price)
                &&& n.lim(n.side_map(ord.side)[ord.price]).queue@.contains(t as usize)
            } by {
            if t != s {
                assert(t < o.orders@.len());
                assert(o.orders@[t].is_some());
                let ord = o.orders@[t].unwrap();
                assert(o.side_map(ord.side).contains_key(ord.price));
                let j = o.side_map(ord.side)[ord.price];
                assert(o.lim(j).queue@.contains(t as usize));
                OrderBook::lemma_sides(side, ord.side);
                if ord.side == side && ord.price == price {
                    assert(j == l);
                    let k = choose|k: int| 0 <= k < oq.len() && oq[k] == t as usize;
                    assert(lm.queue@[k] == t as usize);
                } else {
                    assert(o.limits@[j as int].is_some());
                    assert(j != l);
                    assert(n.limits@[j as int] == o.limits@[j as int]);
                }
            } else {
                assert(lm.queue@[oq.len() as int] == s);
            }
        }
    }

    /// After an add: every level's statistics and queue agree with the orders.
    #[verifier::rlimit(40)]
    proof fn lemma_add_levels(o: OrderBook, n: OrderBook, order: Order, s: usize, l: usize, existed: bool)
        requires
            OrderBook::add_frame(o, n, order, s, l, existed),
        ensures
            n.levels_ok(),
    {
        let id = order.id;
        let oq = if existed { o.lim(l).queue@ } else { Seq::<usize>::empty() };
        let lm = n.lim(l);
        OrderBook::lemma_add_views(o, n, order, s, l, existed);
        assert forall|j: int| #![trigger n.limits@[j]]
            0 <= j < n.limits@.len() && n.limits@[j].is_some() implies n.level_ok(n.limits@[j].unwrap()) by {
            if j != l {
                assert(j < o.limits@.len());
                assert(o.limits@[j].is_some());
                let lmj = o.limits@[j].unwrap();
                assert(o.level_ok(lmj));
                assert(n.lim(j as usize) == o.lim(j as usize));
                let q = lmj.queue@;
                assert forall|k: int| #![trigger q[k]] 0 <= k < q.len() implies {
                    &&& q[k] < n.orders@.len()
                    &&& n.orders@[q[k] as int].is_some()
                    &&& n.orders@[q[k] as int].unwrap().price == lmj.price
                    &&& n.orders@[q[k] as int].unwrap().side == lmj.side
                } by {
                    assert(o.orders@[q[k] as int].is_some());
                }
                let ids = o.ids_of(q);
                assert forall|k: int| 0 <= k < ids.len() implies (#[trigger] n.live()[ids[k]]).remaining_quantity
                    == o.live()[ids[k]].remaining_quantity by {
                    assert(o.orders@[q[k] as int].is_some());
                    assert(o.live().contains_key(ids[k]));
                }
                lemma_sum_frame(n.live(), o.live(), ids);
            } else {
                let q = lm.queue@;
                if existed {
                    assert(o.level_ok(o.lim(l)));
                }
                assert forall|k: int| #![trigger q[k]] 0 <= k < q.len() implies {
                    &&& q[k] < n.orders@.len()
                    &&& n.orders@[q[k] as int].is_some()
                    &&& n.orders@[q[k] as int].unwrap().price == lm.price
                    &&& n.orders@[q[k] as int].unwrap().side == lm.side
                } by {
                    if k < oq.len() {
                        assert(q[k] == oq[k]);
                        assert(o.orders@[oq[k] as int].is_some());
                    }
                }
                assert(q.no_duplicates()) by {
                    assert forall|a: int, b: int| 0 <= a < b < q.len() implies q[a] != q[b] by {
                        assert(q[a] == oq[a]);
                        if b < oq.len() {
                            assert(q[b] == oq[b]);
                        } else {
                            assert(o.orders@[oq[a] as int].is_some());
                        }
                    }
                }
                let ids = o.ids_of(oq);
                assert forall|k: int| 0 <= k < ids.len() implies (#[trigger] n.live()[ids[k]]).remaining_quantity
                    == o.live()[ids[k]].remaining_quantity by {
                    assert(o.orders@[oq[k] as int].is_some());
                    assert(o.live().contains_key(ids[k]));
                }
                lemma_sum_frame(n.live(), o.live(), ids);
                lemma_sum_push(n.live(), ids, id);
                assert(n.ids_of(q) =~= ids.push(id));
                if !existed {
                    assert(ids =~= Seq::<OrderId>::empty());
                }
            }
        }
    }


    /// Makes the level at `l` the cached best of `side` when its price beats the cached one.
    fn update_best_prices(&mut self, l: usize, side: Side)
        requires
            l < old(self).limits@.len(),
            old(self).limits@[l as int].is_some(),
            match side {
                Side::Buy => old(self).best_bid_index.is_some() ==> {
                    let b = old(self).best_bid_index.unwrap();
                    b < old(self).limits@.len() && old(self).limits@[b as int].is_some()
                },
                Side::Sell => old(self).best_ask_index.is_some() ==> {
                    let b = old(self).best_ask_index.unwrap();
                    b < old(self).limits@.len() && old(self).limits@[b as int].is_some()
                },
            },
        ensures
            *final(self) == (match side {
                Side::Buy => OrderBook {
                    best_bid_index: if old(self).best_bid_index.is_none() || old(self).lim(l).price
                        > old(self).lim(old(self).best_bid_index.unwrap()).price {
                        Some(l)
                    } else {
                        old(self).best_bid_index
                    },
                    ..*old(self)
                },
                Side::Sell => OrderBook {
                    best_ask_index: if old(self).best_ask_index.is_none() || old(self).lim(l).price
                        < old(self).lim(old(self).best_ask_index.unwrap()).price {
                        Some(l)
                    } else {
                        old(self).best_ask_index
                    },
                    ..*old(self)
                },
            }),
    {
        let price = self.limits[l].as_ref().unwrap().price;
        match side {
            Side::Buy => {
                let better = match self.best_bid_index {
                    None => true,
                    Some(b) => price > self.limits[b].as_ref().unwrap().price,
                };
                if better {
                    self.best_bid_index = Some(l);
                }
            },
            Side::Sell => {
                let better = match self.best_ask_index {
                    None => true,
                    Some(b) => price < self.limits[b].as_ref().unwrap().price,
                };
                if better {
                    self.best_ask_index = Some(l);
                }
            },
        }
    }
    /// Cancels the live order `order_id`: it leaves its level's queue (the
    /// level goes when it empties, and the cached best is recomputed from the
    /// tree), its slot is freed, and it is returned marked cancelled and
    /// stamped with the book's time.
    pub fn remove_order(&mut self, order_id: OrderId) -> (r: Result<Order>)
        requires
            old(self).wf(),
        ensures
            final(self).wf(),
            final(self).time() == old(self).time(),
            r.is_err() == !old(self).live().contains_key(order_id),
            r.is_err() ==> r == Err::<Order, OrderBookError>(OrderBookError::OrderNotFound(order_id))
                && *final(self) == *old(self),
            r.is_ok() ==> r == Ok::<Order, OrderBookError>(
                Order {
                    status: OrderStatus::Cancelled,
                    event_time: old(self).time(),
                    ..old(self).live()[order_id]
                },
            ) && is_cancelled(*old(self), *final(self), order_id),
            r.is_ok() ==> r.unwrap().id == order_id,
    {
        let s = match self.order_id_to_index.get(&order_id) {
            Some(s) => *s,
            None => {
                return Err(OrderBookError::OrderNotFound(order_id));
            },
        };
        let order = self.orders[s].unwrap();
        proof {
            assert(self.live()[order_id] == order);
        }
        self.remove_order_from_limit(s);
        let mut cancelled = order;
        cancelled.cancel(self.current_time);
        Ok(cancelled)
    }

    /// Takes the order at slot `s` out of its level's queue and the book.
    fn remove_order_from_limit(&mut self, s: usize)
        requires
            old(self).wf(),
            s < old(self).orders@.len(),
            old(self).orders@[s as int].is_some(),
        ensures
            ({
                let o = old(self).orders@[s as int].unwrap();
                &&& final(self).wf()
                &&& final(self).time() == old(self).time()
                &&& final(self).live() == old(self).live().remove(o.id)
                &&& final(self).levels(o.side) == levels_after_remove(
                    old(self).levels(o.side),
                    o.price,
                    o.id,
                )
                &&& final(self).levels(o.side.spec_opposite()) == old(self).levels(
                    o.side.spec_opposite(),
                )
            }),
    {
        let order = self.orders[s].unwrap();
        let side = order.side;
        let price = order.price;
        let l = self.find_level(side, price).unwrap();
        let k = position_in_queue(&self.limits[l].as_ref().unwrap().queue, s);
        let ghost pre = *self;
        let mut slot: Option<Limit> = None;
        std::mem::swap(&mut self.limits[l], &mut slot);
        let mut lm = slot.unwrap();
        proof {
            assert(pre.level_ok(pre.lim(l)));
            let ids = pre.ids_of(lm.queue@);
            assert(ids[k as int] == order.id);
            lemma_sum_remove(pre.live(), ids, k as int);
            lemma_sum_nonneg(pre.live(), ids.remove(k as int));
        }
        lm.queue.remove(k);
        lm.remove_order_stats(order.remaining_quantity);
        let emptied = lm.order_count == 0;
        self.limits[l] = Some(lm);
        free_order_index(&mut self.orders, &mut self.free_order_indices, s);
        self.order_id_to_index.remove(&order.id);
        let ghost mid = *self;
        if emptied {
            proof {
                assert(mid.maps_ok()) by {
                    assert forall|j: int| #![trigger mid.limits@[j]]
                        0 <= j < mid.limits@.len() && mid.limits@[j].is_some() implies {
                            let lmj = mid.limits@[j].unwrap();
                            &&& mid.side_map(lmj.side).contains_key(lmj.price)
                            &&& mid.side_map(lmj.side)[lmj.price] == j
                        } by {
                        assert(pre.limits@[j].is_some());
                    }
                    assert forall|sd: Side, p: Price| #[trigger] mid.side_map(sd).contains_key(p) implies {
                        let j = mid.side_map(sd)[p];
                        &&& j < mid.limits@.len()
                        &&& mid.limits@[j as int].is_some()
                        &&& mid.limits@[j as int].unwrap().price == p
                        &&& mid.limits@[j as int].unwrap().side == sd
                    } by {
                        assert(pre.side_map(sd).contains_key(p));
                    }
                }
                assert(mid.best_ok()) by {
                    if let Some(b) = mid.best_bid_index {
                        assert(pre.limits@[b as int].is_some());
                    }
                    if let Some(b) = mid.best_ask_index {
                        assert(pre.limits@[b as int].is_some());
                    }
                }
                assert(mid.free_ok()) by {
                    assert forall|i: int| #![trigger mid.free_limit_indices@[i]]
                        0 <= i < mid.free_limit_indices@.len() implies mid.limits@[mid.free_limit_indices@[i] as int].is_none() by {
                        assert(pre.limits@[pre.free_limit_indices@[i] as int].is_none());
                    }
                }
            }
            self.remove_empty_limit(l, side, price);
        }
        proof {
            let o = pre;
            let n = *self;
            assert(n.free_ok() && n.best_ok()) by {
                if !emptied {
                    if let Some(b) = n.best_bid_index {
                        assert(o.limits@[b as int].is_some());
                    }
                    if let Some(b) = n.best_ask_index {
                        assert(o.limits@[b as int].is_some());
                    }
                    assert forall|i: int| #![trigger n.free_limit_indices@[i]]
                        0 <= i < n.free_limit_indices@.len() implies n.limits@[n.free_limit_indices@[i] as int].is_none() by {
                        assert(o.limits@[o.free_limit_indices@[i] as int].is_none());
                    }
                }
            }
            let oq = o.lim(l).queue@;
            assert(o.level_ok(o.lim(l)));
            assert(emptied == (oq.len() == 1));
            assert(n.orders@ == o.orders@.update(s as int, None));
            assert(n.order_id_to_index@ == o.order_id_to_index@.remove(order.id));
            assert(oq[k as int] == s);
            assert(n.side_map(side.spec_opposite()) == o.side_map(side.spec_opposite()));
            if emptied {
                assert(n.limits@ =~= o.limits@.update(l as int, None));
                assert(n.side_map(side) == o.side_map(side).remove(price));
            } else {
                assert(n.limits@ == o.limits@.update(l as int, Some(lm)));
                assert(n.side_map(side) == o.side_map(side));
            }
            assert(OrderBook::remove_frame(o, n, s, l, k as int));
            OrderBook::lemma_remove_views(o, n, s, l, k as int);
            OrderBook::lemma_remove_indexed(o, n, s, l, k as int);
            OrderBook::lemma_remove_maps(o, n, s, l, k as int);
            OrderBook::lemma_remove_placed(o, n, s, l, k as int);
            OrderBook::lemma_remove_levels(o, n, s, l, k as int);
        }
    }

    /// Drops the emptied level `l` at `price` on `side`: from its side map,
    /// its tree and the arena; the cached best of the side is recomputed from
    /// the tree when it was this level.
    fn remove_empty_limit(&mut self, l: usize, side: Side, price: Price)
        requires
            old(self).maps_ok(),
            old(self).best_ok(),
            old(self).free_ok(),
            old(self).side_map(side).contains_key(price),
            old(self).side_map(side)[price] == l,
        ensures
            final(self).orders == old(self).orders,
            final(self).order_id_to_index == old(self).order_id_to_index,
            final(self).free_order_indices == old(self).free_order_indices,
            final(self).current_time == old(self).current_time,
            final(self).limits@ == old(self).limits@.update(l as int, None),
            final(self).side_map(side) == old(self).side_map(side).remove(price),
            final(self).side_map(side.spec_opposite()) == old(self).side_map(side.spec_opposite()),
            final(self).best_ok(),
            final(self).free_ok(),
    {
        proof {
            assert(self.limits@[l as int].is_some());
        }
        match side {
            Side::Buy => {
                self.bid_levels.remove(&price);
                self.buy_tree.remove(price);
                if self.best_bid_index == Some(l) {
                    self.best_bid_index = self.find_new_best_bid();
                }
            },
            Side::Sell => {
                self.ask_levels.remove(&price);
                self.sell_tree.remove(price);
                if self.best_ask_index == Some(l) {
                    self.best_ask_index = self.find_new_best_ask();
                }
            },
        }
        free_limit_index(&mut self.limits, &mut self.free_limit_indices, l);
        proof {
            let o = *old(self);
            let n = *self;
            assert(n.bid_levels@ =~= n.buy_tree@);
            assert(n.ask_levels@ =~= n.sell_tree@);
            assert(o.lim(l).price == price && o.lim(l).side == side);
            if let Some(b) = n.best_bid_index {
                if side == Side::Buy && o.best_bid_index == Some(l) {
                    let p = choose|p: Price| #[trigger]
                        n.bid_levels@.contains_key(p) && n.bid_levels@[p] == b && forall|k: Price|
                            #[trigger] n.bid_levels@.contains_key(k) ==> k <= p;
                    assert(o.side_map(Side::Buy).contains_key(p));
                    assert(o.lim(b).price == p);
                } else {
                    assert(o.best_bid_index == Some(b));
                    assert(o.limits@[b as int].is_some());
                    assert(o.side_map(Side::Buy).contains_key(o.lim(b).price));
                    assert(o.lim(b).side == Side::Buy);
                }
                assert(b != l);
            }
            if let Some(b) = n.best_ask_index {
                if side == Side::Sell && o.best_ask_index == Some(l) {
                    let p = choose|p: Price| #[trigger]
                        n.ask_levels@.contains_key(p) && n.ask_levels@[p] == b && forall|k: Price|
                            #[trigger] n.ask_levels@.contains_key(k) ==> k >= p;
                    assert(o.side_map(Side::Sell).contains_key(p));
                    assert(o.lim(b).price == p);
                } else {
                    assert(o.best_ask_index == Some(b));
                    assert(o.limits@[b as int].is_some());
                    assert(o.side_map(Side::Sell).contains_key(o.lim(b).price));
                    assert(o.lim(b).side == Side::Sell);
                }
                assert(b != l);
            }
            assert forall|i: int| #![trigger n.free_limit_indices@[i]]
                0 <= i < n.free_limit_indices@.len() - 1 implies n.free_limit_indices@[i] != l by {
                assert(o.limits@[o.free_limit_indices@[i] as int].is_none());
            }
        }
    }

    /// The handle of the highest bid level, from the bid tree.
    fn find_new_best_bid(&self) -> (r: Option<usize>)
        requires
            self.buy_tree.wf(),
            self.buy_tree@ == self.bid_levels@,
        ensures
            r.is_none() == (self.bid_levels@ == Map::<Price, usize>::empty()),
            r.is_some() ==> exists|p: Price| #[trigger]
                self.bid_levels@.contains_key(p) && self.bid_levels@[p] == r.unwrap() && forall|k: Price|
                    #[trigger] self.bid_levels@.contains_key(k) ==> k <= p,
    {
        match self.buy_tree.max() {
            Some((_, l)) => Some(l),
            None => None,
        }
    }

    /// The handle of the lowest ask level, from the ask tree.
    fn find_new_best_ask(&self) -> (r: Option<usize>)
        requires
            self.sell_tree.wf(),
            self.sell_tree@ == self.ask_levels@,
        ensures
            r.is_none() == (self.ask_levels@ == Map::<Price, usize>::empty()),
            r.is_some() ==> exists|p: Price| #[trigger]
                self.ask_levels@.contains_key(p) && self.ask_levels@[p] == r.unwrap() && forall|k: Price|
                    #[trigger] self.ask_levels@.contains_key(k) ==> k >= p,
    {
        match self.sell_tree.min() {
            Some((_, l)) => Some(l),
            None => None,
        }
    }
    /// What `remove_order_from_limit` changed between `o` and `n`: the order at
    /// slot `s`, at position `k` of level `l`'s queue, left the book; the level
    /// went with it when it held only that order.
    closed spec fn remove_frame(o: OrderBook, n: OrderBook, s: usize, l: usize, k: int) -> bool {
        let ord = o.orders@[s as int].unwrap();
        let side = ord.side;
        let price = ord.price;
        let oq = o.lim(l).queue@;
        let lm = n.lim(l);
        &&& o.wf()
        &&& s < o.orders@.len()
        &&& o.orders@[s as int].is_some()
        &&& o.side_map(side).contains_key(price)
        &&& o.side_map(side)[price] == l
        &&& 0 <= k < oq.len()
        &&& oq[k] == s
        &&& n.orders@ == o.orders@.update(s as int, None)
        &&& n.order_id_to_index@ == o.order_id_to_index@.remove(ord.id)
        &&& oq.len() == 1 ==> {
            &&& n.limits@ == o.limits@.update(l as int, None)
            &&& n.side_map(side) == o.side_map(side).remove(price)
        }
        &&& oq.len() != 1 ==> {
            &&& n.limits@.len() == o.limits@.len()
            &&& n.limits@[l as int].is_some()
            &&& forall|j: int| #![trigger n.limits@[j]] 0 <= j < o.limits@.len() && j != l ==> n.limits@[j] == o.limits@[j]
            &&& lm.queue@ == oq.remove(k)
            &&& lm.price == price
            &&& lm.side == side
            &&& lm.wf()
            &&& lm.size == o.lim(l).size - ord.remaining_quantity
            &&& lm.order_count == o.lim(l).order_count - 1
            &&& n.side_map(side) == o.side_map(side)
        }
        &&& n.side_map(side.spec_opposite()) == o.side_map(side.spec_opposite())
        &&& n.free_ok()
        &&& n.best_ok()
        &&& n.current_time == o.current_time
    }

    /// The ids of a level's queue have no duplicates, and the handle at each
    /// position is the one the id index gives.
    proof fn lemma_queue_ids(o: OrderBook, l: usize)
        requires
            o.wf(),
            l < o.limits@.len(),
            o.limits@[l as int].is_some(),
        ensures
            o.ids_of(o.lim(l).queue@).no_duplicates(),
            forall|k: int| 0 <= k < o.lim(l).queue@.len() ==> o.live().contains_key(
                #[trigger] o.ids_of(o.lim(l).queue@)[k],
            ) && o.order_id_to_index@[o.ids_of(o.lim(l).queue@)[k]] == o.lim(l).queue@[k],
    {
        let q = o.lim(l).queue@;
        let ids = o.ids_of(q);
        assert(o.level_ok(o.lim(l)));
        assert forall|k: int| 0 <= k < q.len() implies o.live().contains_key(#[trigger] ids[k])
            && o.order_id_to_index@[ids[k]] == q[k] by {
            assert(o.orders@[q[k] as int].is_some());
        }
        assert forall|a: int, b: int| 0 <= a < b < ids.len() implies ids[a] != ids[b] by {
            assert(o.orders@[q[a] as int].is_some());
            assert(o.orders@[q[b] as int].is_some());
            assert(o.order_id_to_index@[ids[a]] == q[a]);
            assert(o.order_id_to_index@[ids[b]] == q[b]);
        }
    }

    /// A handle queued at a level other than the level of its order's side
    /// and price is impossible.
    proof fn lemma_queued_once(o: OrderBook, j: usize, t: usize)
        requires
            o.wf(),
            j < o.limits@.len(),
            o.limits@[j as int].is_some(),
            o.lim(j).queue@.contains(t),
        ensures
            t < o.orders@.len(),
            o.orders@[t as int].is_some(),
            o.side_map(o.orders@[t as int].unwrap().side)[o.orders@[t as int].unwrap().price] == j,
    {
        assert(o.level_ok(o.lim(j)));
        let q = o.lim(j).queue@;
        let k = choose|k: int| 0 <= k < q.len() && q[k] == t;
        assert(q[k] == t);
    }

    /// After a removal: the live orders and the levels.
    proof fn lemma_remove_views(o: OrderBook, n: OrderBook, s: usize, l: usize, k: int)
        requires
            OrderBook::remove_frame(o, n, s, l, k),
        ensures
            ({
                let ord = o.orders@[s as int].unwrap();
                &&& n.live() == o.live().remove(ord.id)
                &&& n.levels(ord.side) == levels_after_remove(o.levels(ord.side), ord.price, ord.id)
                &&& n.levels(ord.side.spec_opposite()) == o.levels(ord.side.spec_opposite())
            }),
            forall|j: usize| j < o.limits@.len() && o.limits@[j as int].is_some() && j != l
                ==> #[trigger] n.lim(j) == o.lim(j) && n.ids_of(n.lim(j).queue@) == o.ids_of(o.lim(j).queue@),
            o.lim(l).queue@.len() != 1 ==> n.ids_of(n.lim(l).queue@) == o.ids_of(o.lim(l).queue@).remove(k),
    {
        let ord = o.orders@[s as int].unwrap();
        let side = ord.side;
        let price = ord.price;
        let id = ord.id;
        let oq = o.lim(l).queue@;
        assert forall|kk: OrderId| #[trigger] o.order_id_to_index@.contains_key(kk) && kk != id implies
            n.orders@[o.order_id_to_index@[kk] as int] == o.orders@[o.order_id_to_index@[kk] as int] by {
            assert(o.orders@[o.order_id_to_index@[kk] as int].is_some());
        }
        assert(n.live() =~= o.live().remove(id));
        assert forall|j: usize| j < o.limits@.len() && o.limits@[j as int].is_some() && j != l
            implies #[trigger] n.lim(j) == o.lim(j) && n.ids_of(n.lim(j).queue@) == o.ids_of(
            o.lim(j).queue@) by {
            assert(n.limits@[j as int] == o.limits@[j as int]);
            assert(o.level_ok(o.lim(j)));
            let q = o.lim(j).queue@;
            assert forall|kk: int| 0 <= kk < q.len() implies n.orders@[q[kk] as int] == o.orders@[q[kk] as int] by {
                if q[kk] == s {
                    assert(q.contains(s));
                    OrderBook::lemma_queued_once(o, j, s);
                }
            }
            assert(n.ids_of(q) =~= o.ids_of(q));
        }
        OrderBook::lemma_queue_ids(o, l);
        assert(o.level_ok(o.lim(l)));
        let ids = o.ids_of(oq);
        assert(ids[k] == id);
        lemma_without_at(ids, k);
        if oq.len() != 1 {
            let nq = oq.remove(k);
            assert forall|kk: int| 0 <= kk < nq.len() implies n.orders@[nq[kk] as int] == o.orders@[nq[kk] as int] by {
                if kk < k {
                    assert(nq[kk] == oq[kk]);
                } else {
                    assert(nq[kk] == oq[kk + 1]);
                }
            }
            assert(n.ids_of(nq) =~= ids.remove(k));
        }
        assert(o.levels(side)[price] == ids);
        assert forall|p: Price| #[trigger] n.levels(side).contains_key(p) implies
            n.levels(side)[p] == levels_after_remove(o.levels(side), price, id)[p] by {
            assert(o.side_map(side).contains_key(p));
            if p != price {
                let j = o.side_map(side)[p];
                assert(o.limits@[j as int].is_some());
                assert(n.lim(j) == o.lim(j));
            }
        }
        assert(n.levels(side) =~= levels_after_remove(o.levels(side), price, id));
        assert forall|p: Price| #[trigger] n.levels(side.spec_opposite()).contains_key(p) implies
            n.levels(side.spec_opposite())[p] == o.levels(side.spec_opposite())[p] by {
            assert(o.side_map(side.spec_opposite()).contains_key(p));
            let j = o.side_map(side.spec_opposite())[p];
            assert(o.limits@[j as int].is_some());
            assert(n.lim(j) == o.lim(j));
        }
        assert(n.levels(side.spec_opposite()) =~= o.levels(side.spec_opposite()));
    }

    /// After a removal: the id index agrees with the order arena.
    proof fn lemma_remove_indexed(o: OrderBook, n: OrderBook, s: usize, l: usize, k: int)
        requires
            OrderBook::remove_frame(o, n, s, l, k),
        ensures
            n.orders_indexed(),
    {
        assert forall|t: int| #![trigger n.orders@[t]]
            0 <= t < n.orders@.len() && n.orders@[t].is_some() implies n.order_id_to_index@.contains_key(n.orders@[t].unwrap().id)
                && n.order_id_to_index@[n.orders@[t].unwrap().id] == t by {
            assert(o.orders@[t].is_some());
            assert(o.order_id_to_index@.contains_key(o.orders@[t].unwrap().id));
        }
    }

    /// After a removal: the side maps and the level arena agree.
    proof fn lemma_remove_maps(o: OrderBook, n: OrderBook, s: usize, l: usize, k: int)
        requires
            OrderBook::remove_frame(o, n, s, l, k),
        ensures
            n.maps_ok(),
    {
        let ord = o.orders@[s as int].unwrap();
        let side = ord.side;
        let price = ord.price;
        assert forall|sd: Side, p: Price| #[trigger] n.side_map(sd).contains_key(p) implies {
            let j = n.side_map(sd)[p];
            &&& j < n.limits@.len()
            &&& n.limits@[j as int].is_some()
            &&& n.limits@[j as int].unwrap().price == p
            &&& n.limits@[j as int].unwrap().side == sd
        } by {
            OrderBook::lemma_sides(side, sd);
            assert(o.side_map(sd).contains_key(p));
        }
        assert forall|j: int| #![trigger n.limits@[j]]
            0 <= j < n.limits@.len() && n.limits@[j].is_some() implies {
                let lmj = n.limits@[j].unwrap();
                &&& n.side_map(lmj.side).contains_key(lmj.price)
                &&& n.side_map(lmj.side)[lmj.price] == j
            } by {
            if j != l {
                assert(o.limits@[j].is_some());
                let lmj = o.limits@[j].unwrap();
                assert(o.side_map(lmj.side).contains_key(lmj.price));
                OrderBook::lemma_sides(side, lmj.side);
            }
        }
    }

    /// After a removal: each stored order sits in the queue of its level.
    proof fn lemma_remove_placed(o: OrderBook, n: OrderBook, s: usize, l: usize, k: int)
        requires
            OrderBook::remove_frame(o, n, s, l, k),
        ensures
            n.orders_placed(),
    {
        let ord0 = o.orders@[s as int].unwrap();
        let side = ord0.side;
        let price = ord0.price;
        let oq = o.lim(l).queue@;
        assert(o.level_ok(o.lim(l)));
        assert forall|t: int| #![trigger n.orders@[t]]
            0 <= t < n.orders@.len() && n.orders@[t].is_some() implies {
                let ord = n.orders@[t].unwrap();
                &&& ord.wf()
                &&& ord.remaining_quantity > 0
                &&& n.side_map(ord.side).contains_key(ord.price)
                &&& n.lim(n.side_map(ord.side)[ord.price]).queue@.contains(t as usize)
            } by {
            assert(t != s);
            assert(o.orders@[t].is_some());
            let ord = o.orders@[t].unwrap();
            assert(o.side_map(ord.side).contains_key(ord.price));
            let j = o.side_map(ord.side)[ord.price];
            assert(o.lim(j).queue@.contains(t as usize));
            OrderBook::lemma_sides(side, ord.side);
            if ord.side == side && ord.price == price {
                assert(j == l);
                let kk = choose|kk: int| 0 <= kk < oq.len() && oq[kk] == t as usize;
                if oq.len() == 1 {
                    assert(oq[0] == s);
                }
                assert(kk != k);
                let nq = oq.remove(k);
                if kk < k {
                    assert(nq[kk] == t as usize);
                } else {
                    assert(nq[kk - 1] == t as usize);
                }
            } else {
                assert(o.limits@[j as int].is_some());
                assert(j != l);
                assert(n.limits@[j as int] == o.limits@[j as int]);
            }
        }
    }

    /// After a removal: every level's statistics and queue agree with the orders.
    #[verifier::rlimit(40)]
    proof fn lemma_remove_levels(o: OrderBook, n: OrderBook, s: usize, l: usize, k: int)
        requires
            OrderBook::remove_frame(o, n, s, l, k),
        ensures
            n.levels_ok(),
    {
        let ord = o.orders@[s as int].unwrap();
        let id = ord.id;
        let oq = o.lim(l).queue@;
        OrderBook::lemma_remove_views(o, n, s, l, k);
        OrderBook::lemma_queue_ids(o, l);
        assert forall|j: int| #![trigger n.limits@[j]]
            0 <= j < n.limits@.len() && n.limits@[j].is_some() implies n.level_ok(n.limits@[j].unwrap()) by {
            assert(o.limits@[j].is_some());
            if j != l {
                let lmj = o.limits@[j].unwrap();
                assert(o.level_ok(lmj));
                assert(n.lim(j as usize) == o.lim(j as usize));
                let q = lmj.queue@;
                assert forall|kk: int| #![trigger q[kk]] 0 <= kk < q.len() implies {
                    &&& q[kk] < n.orders@.len()
                    &&& n.orders@[q[kk] as int].is_some()
                    &&& n.orders@[q[kk] as int].unwrap().price == lmj.price
                    &&& n.orders@[q[kk] as int].unwrap().side == lmj.side
                } by {
                    assert(o.orders@[q[kk] as int].is_some());
                    if q[kk] == s {
                        assert(q.contains(s));
                        OrderBook::lemma_queued_once(o, j as usize, s);
                    }
                }
                let ids = o.ids_of(q);
                assert forall|kk: int| 0 <= kk < ids.len() implies (#[trigger] n.live()[ids[kk]]).remaining_quantity
                    == o.live()[ids[kk]].remaining_quantity by {
                    assert(o.orders@[q[kk] as int].is_some());
                    assert(o.order_id_to_index@[ids[kk]] == q[kk]);
                    if ids[kk] == id {
                        assert(q.contains(s));
                        OrderBook::lemma_queued_once(o, j as usize, s);
                    }
                }
                lemma_sum_frame(n.live(), o.live(), ids);
            } else {
                let lm = n.lim(l);
                let q = lm.queue@;
                assert(o.level_ok(o.lim(l)));
                assert forall|kk: int| #![trigger q[kk]] 0 <= kk < q.len() implies {
                    &&& q[kk] < n.orders@.len()
                    &&& n.orders@[q[kk] as int].is_some()
                    &&& n.orders@[q[kk] as int].unwrap().price == lm.price
                    &&& n.orders@[q[kk] as int].unwrap().side == lm.side
                } by {
                    if kk < k {
                        assert(q[kk] == oq[kk]);
                    } else {
                        assert(q[kk] == oq[kk + 1]);
                    }
                }
                assert(q.no_duplicates()) by {
                    assert forall|a: int, b: int| 0 <= a < b < q.len() implies q[a] != q[b] by {
                        let a2 = if a < k { a } else { a + 1 };
                        let b2 = if b < k { b } else { b + 1 };
                        assert(q[a] == oq[a2] && q[b] == oq[b2]);
                    }
                }
                let ids = o.ids_of(oq);
                let r = ids.remove(k);
                assert forall|kk: int| 0 <= kk < r.len() implies (#[trigger] n.live()[r[kk]]).remaining_quantity
                    == o.live()[r[kk]].remaining_quantity by {
                    let k2 = if kk < k { kk } else { kk + 1 };
                    assert(r[kk] == ids[k2]);
                }
                lemma_sum_frame(n.live(), o.live(), r);
                lemma_sum_remove(o.live(), ids, k);
                assert(o.live()[ids[k]] == ord);
            }
        }
    }
    /// Why `update_order` refuses to give `order_id` the total quantity
    /// `new_quantity`, if it does: a zero quantity, an id that is not live, a
    /// quantity that leaves nothing to fill (at most the filled part), or a
    /// level whose size would overflow.
    pub open spec fn update_error(&self, order_id: OrderId, new_quantity: Quantity) -> Option<OrderBookError> {
        let o = self.live()[order_id];
        if new_quantity == 0 {
            Some(OrderBookError::InvalidQuantity(new_quantity))
        } else if !self.live().contains_key(order_id) {
            Some(OrderBookError::OrderNotFound(order_id))
        } else if new_quantity <= o.filled() {
            Some(OrderBookError::InvalidQuantity(new_quantity))
        } else if self.volume(o.side, o.price) - o.remaining_quantity + (new_quantity - o.filled())
            > u64::MAX {
            Some(OrderBookError::InvalidQuantity(new_quantity))
        } else {
            None
        }
    }

    /// Sets the total quantity of the live order `order_id`, keeping its
    /// filled part and its place in the queue; the level's size follows.
    /// A quantity equal to the filled part is refused like one below it: it
    /// would leave a live order with nothing to fill (cancel it instead).
    pub fn update_order(&mut self, order_id: OrderId, new_quantity: Quantity) -> (r: Result<()>)
        requires
            old(self).wf(),
        ensures
            final(self).wf(),
            r.is_err() == old(self).update_error(order_id, new_quantity).is_some(),
            r.is_err() ==> r == Err::<(), OrderBookError>(
                old(self).update_error(order_id, new_quantity).unwrap(),
            ) && *final(self) == *old(self),
            r.is_ok() ==> is_requantified(*old(self), *final(self), order_id, new_quantity),
    {
        if new_quantity == 0 {
            return Err(OrderBookError::InvalidQuantity(new_quantity));
        }
        let s = match self.order_id_to_index.get(&order_id) {
            Some(s) => *s,
            None => {
                return Err(OrderBookError::OrderNotFound(order_id));
            },
        };
        let order = self.orders[s].unwrap();
        proof {
            assert(self.live()[order_id] == order);
            assert(order.wf() && order.remaining_quantity > 0);
        }
        let filled = order.quantity - order.remaining_quantity;
        if new_quantity <= filled {
            return Err(OrderBookError::InvalidQuantity(new_quantity));
        }
        let l = self.find_level(order.side, order.price).unwrap();
        let ghost pre = *self;
        proof {
            assert(pre.lim(l).queue@.contains(s));
            let q = pre.lim(l).queue@;
            let k = choose|k: int| 0 <= k < q.len() && q[k] == s;
            let ids = pre.ids_of(q);
            assert(ids[k] == order_id);
            lemma_sum_remove(pre.live(), ids, k);
            lemma_sum_nonneg(pre.live(), ids.remove(k));
        }
        let new_rem = new_quantity - filled;
        let size = self.limits[l].as_ref().unwrap().size;
        if size - order.remaining_quantity > u64::MAX - new_rem {
            return Err(OrderBookError::InvalidQuantity(new_quantity));
        }
        let mut updated = order;
        let accepted = updated.update_quantity(new_quantity, self.current_time);
        self.orders[s] = Some(updated);
        let mut slot: Option<Limit> = None;
        std::mem::swap(&mut self.limits[l], &mut slot);
        let mut lm = slot.unwrap();
        lm.update_order_stats(order.remaining_quantity, updated.remaining_quantity);
        self.limits[l] = Some(lm);
        proof {
            assert(accepted);
            assert(self.orders@ == pre.orders@.update(s as int, Some(updated)));
            assert(self.limits@ == pre.limits@.update(l as int, Some(lm)));
            OrderBook::lemma_update(pre, *self, s, l, updated, lm);
        }
        Ok(())
    }

    /// The unified write path: for a live id, cancels when the quantity is
    /// zero and otherwise sets the new total quantity (price and side kept);
    /// for any other id, adds the order.
    pub fn process_order(&mut self, order: Order) -> (r: Result<()>)
        requires
            old(self).wf(),
        ensures
            final(self).wf(),
            old(self).live().contains_key(order.id) && order.quantity == 0 ==> r.is_ok()
                && is_cancelled(*old(self), *final(self), order.id),
            old(self).live().contains_key(order.id) && order.quantity != 0 ==> {
                &&& r.is_err() == old(self).update_error(order.id, order.quantity).is_some()
                &&& r.is_err() ==> r == Err::<(), OrderBookError>(
                    old(self).update_error(order.id, order.quantity).unwrap(),
                ) && *final(self) == *old(self)
                &&& r.is_ok() ==> is_requantified(*old(self), *final(self), order.id, order.quantity)
            },
            !old(self).live().contains_key(order.id) ==> {
                &&& r.is_err() == old(self).add_error(order).is_some()
                &&& r.is_err() ==> r == Err::<(), OrderBookError>(old(self).add_error(order).unwrap())
                    && *final(self) == *old(self)
                &&& r.is_ok() ==> is_added(*old(self), *final(self), order)
            },
    {
        if self.contains_order(order.id) {
            if order.quantity == 0 {
                match self.remove_order(order.id) {
                    Ok(_) => Ok(()),
                    Err(e) => Err(e),
                }
            } else {
                self.update_order(order.id, order.quantity)
            }
        } else {
            self.add_order(order)
        }
    }
    /// After a quantity change of the order at slot `s`, queued at level `l`:
    /// the invariant holds, the order is replaced, and the levels keep their queues.
    #[verifier::rlimit(60)]
    proof fn lemma_update(o: OrderBook, n: OrderBook, s: usize, l: usize, updated: Order, lm: Limit)
        requires
            o.wf(),
            s < o.orders@.len(),
            o.orders@[s as int].is_some(),
            ({
                let ord = o.orders@[s as int].unwrap();
                &&& updated.id == ord.id
                &&& updated.price == ord.price
                &&& updated.side == ord.side
                &&& updated.wf()
                &&& updated.remaining_quantity > 0
                &&& o.side_map(ord.side).contains_key(ord.price)
                &&& o.side_map(ord.side)[ord.price] == l
                &&& lm.queue == o.lim(l).queue
                &&& lm.price == o.lim(l).price
                &&& lm.side == o.lim(l).side
                &&& lm.wf()
                &&& lm.size == o.lim(l).size - ord.remaining_quantity + updated.remaining_quantity
                &&& lm.order_count == o.lim(l).order_count
            }),
            n == (OrderBook { orders: n.orders, limits: n.limits, ..o }),
            n.orders@ == o.orders@.update(s as int, Some(updated)),
            n.limits@ == o.limits@.update(l as int, Some(lm)),
        ensures
            n.wf(),
            n.live() == o.live().insert(updated.id, updated),
            n.levels(Side::Buy) == o.levels(Side::Buy),
            n.levels(Side::Sell) == o.levels(Side::Sell),
    {
        assert(o.limits@[l as int].is_some());
        assert(o.lim(l).queue@.contains(s));
        let q = o.lim(l).queue@;
        let k = choose|k: int| 0 <= k < q.len() && q[k] == s;
        assert(n.live() =~= o.live().insert(updated.id, updated));
        assert forall|j: usize| j < n.limits@.len() && n.limits@[j as int].is_some() implies
            #[trigger] n.ids_of(n.lim(j).queue@) == o.ids_of(o.lim(j).queue@) by {
            assert(o.limits@[j as int].is_some());
            assert(o.level_ok(o.lim(j)));
            assert(n.lim(j).queue@ == o.lim(j).queue@);
            assert(n.ids_of(n.lim(j).queue@) =~= o.ids_of(o.lim(j).queue@));
        }
        assert forall|sd: Side| #[trigger] n.levels(sd) == o.levels(sd) by {
            assert forall|p: Price| #[trigger] n.levels(sd).contains_key(p) implies
                n.levels(sd)[p] == o.levels(sd)[p] by {
                assert(o.side_map(sd).contains_key(p));
                assert(o.limits@[o.side_map(sd)[p] as int].is_some());
            }
            assert(n.levels(sd) =~= o.levels(sd));
        }
        assert(n.orders_indexed()) by {
            assert forall|t: int| #![trigger n.orders@[t]]
                0 <= t < n.orders@.len() && n.orders@[t].is_some() implies n.order_id_to_index@.contains_key(n.orders@[t].unwrap().id)
                    && n.order_id_to_index@[n.orders@[t].unwrap().id] == t by {
                assert(o.orders@[t].is_some());
            }
        }
        assert(n.orders_placed()) by {
            assert forall|t: int| #![trigger n.orders@[t]]
                0 <= t < n.orders@.len() && n.orders@[t].is_some() implies {
                    let ord = n.orders@[t].unwrap();
                    &&& ord.wf()
                    &&& ord.remaining_quantity > 0
                    &&& n.side_map(ord.side).contains_key(ord.price)
                    &&& n.lim(n.side_map(ord.side)[ord.price]).queue@.contains(t as usize)
                } by {
                assert(o.orders@[t].is_some());
                let ord = o.orders@[t].unwrap();
                assert(o.side_map(ord.side).contains_key(ord.price));
                assert(o.limits@[o.side_map(ord.side)[ord.price] as int].is_some());
            }
        }
        assert(n.maps_ok()) by {
            assert forall|sd: Side, p: Price| #[trigger] n.side_map(sd).contains_key(p) implies {
                let j = n.side_map(sd)[p];
                &&& j < n.limits@.len()
                &&& n.limits@[j as int].is_some()
                &&& n.limits@[j as int].unwrap().price == p
                &&& n.limits@[j as int].unwrap().side == sd
            } by {
                assert(o.side_map(sd).contains_key(p));
            }
            assert forall|j: int| #![trigger n.limits@[j]]
                0 <= j < n.limits@.len() && n.limits@[j].is_some() implies {
                    let lmj = n.limits@[j].unwrap();
                    &&& n.side_map(lmj.side).contains_key(lmj.price)
                    &&& n.side_map(lmj.side)[lmj.price] == j
                } by {
                assert(o.limits@[j].is_some());
            }
        }
        assert(n.levels_ok()) by {
            assert forall|j: int| #![trigger n.limits@[j]]
                0 <= j < n.limits@.len() && n.limits@[j].is_some() implies n.level_ok(n.limits@[j].unwrap()) by {
                assert(o.limits@[j].is_some());
                let lmj = o.limits@[j].unwrap();
                assert(o.level_ok(lmj));
                let qj = lmj.queue@;
                assert forall|kk: int| #![trigger qj[kk]] 0 <= kk < qj.len() implies {
                    &&& qj[kk] < n.orders@.len()
                    &&& n.orders@[qj[kk] as int].is_some()
                    &&& n.orders@[qj[kk] as int].unwrap().price == lmj.price
                    &&& n.orders@[qj[kk] as int].unwrap().side == lmj.side
                } by {
                    assert(o.orders@[qj[kk] as int].is_some());
                }
                let ids = o.ids_of(qj);
                assert(n.ids_of(n.lim(j as usize).queue@) == ids);
                if j == l {
                    OrderBook::lemma_queue_ids(o, l);
                    assert(ids[k] == updated.id);
                    lemma_sum_update(o.live(), ids, k, updated);
                } else {
                    assert forall|kk: int| 0 <= kk < ids.len() implies (#[trigger] n.live()[ids[kk]]).remaining_quantity
                        == o.live()[ids[kk]].remaining_quantity by {
                        assert(o.orders@[qj[kk] as int].is_some());
                        if ids[kk] == updated.id {
                            assert(o.order_id_to_index@[ids[kk]] == qj[kk]);
                            assert(qj.contains(s));
                            OrderBook::lemma_queued_once(o, j as usize, s);
                        }
                    }
                    lemma_sum_frame(n.live(), o.live(), ids);
                }
            }
        }
        assert(n.best_ok()) by {
            if let Some(b) = n.best_bid_index {
                assert(o.limits@[b as int].is_some());
            }
            if let Some(b) = n.best_ask_index {
                assert(o.limits@[b as int].is_some());
            }
        }
        assert(n.free_ok()) by {
            assert forall|i: int| #![trigger n.free_limit_indices@[i]]
                0 <= i < n.free_limit_indices@.len() implies n.limits@[n.free_limit_indices@[i] as int].is_none() by {
                assert(o.limits@[o.free_limit_indices@[i] as int].is_none());
            }
            assert forall|i: int| #![trigger n.free_order_indices@[i]]
                0 <= i < n.free_order_indices@.len() implies n.orders@[n.free_order_indices@[i] as int].is_none() by {
                assert(o.orders@[o.free_order_indices@[i] as int].is_none());
            }
        }
        assert(n.levels(Side::Buy) == o.levels(Side::Buy));
        assert(n.levels(Side::Sell) == o.levels(Side::Sell));
    }
    /// The sizes of the levels of one side, by price.
    pub open spec fn sizes(&self, side: Side) -> Map<Price, Quantity> {
        sizes_of(self.live(), self.levels(side))
    }

    /// Turns a listing of level handles into `(price, size)` pairs.
    fn listing_sizes(&self, side: Side, hl: &Vec<(Price, usize)>, descending: bool, n: usize) -> (r: Vec<(Price, Quantity)>)
        requires
            self.wf(),
            descending ==> top_desc(hl@, self.side_map(side), n as nat),
            !descending ==> top_asc(hl@, self.side_map(side), n as nat),
        ensures
            descending ==> top_desc(r@, self.sizes(side), n as nat),
            !descending ==> top_asc(r@, self.sizes(side), n as nat),
    {
        let mut out: Vec<(Price, Quantity)> = Vec::new();
        let mut i: usize = 0;
        while i < hl.len()
            invariant
                self.wf(),
                i <= hl@.len(),
                out@.len() == i,
                forall|j: int| 0 <= j < hl@.len() ==> self.side_map(side).contains_key(#[trigger] hl@[j].0)
                    && self.side_map(side)[hl@[j].0] == hl@[j].1,
                forall|j: int| 0 <= j < i ==> (#[trigger] out@[j]).0 == hl@[j].0 && out@[j].1
                    == self.sizes(side)[hl@[j].0],
            decreases hl@.len() - i,
        {
            let (p, l) = hl[i];
            proof {
                assert(self.side_map(side).contains_key(hl@[i as int].0));
                assert(self.limits@[l as int].is_some());
                assert(self.level_ok(self.lim(l)));
                assert(self.levels(side)[p] == self.ids_of(self.lim(l).queue@));
            }
            let size = self.limits[l].as_ref().unwrap().size;
            out.push((p, size));
            i = i + 1;
        }
        proof {
            if descending {
                assert forall|j: int| 0 <= j < hl@.len() implies self.side_map(side).contains_key(#[trigger] hl@[j].0)
                    && self.side_map(side)[hl@[j].0] == hl@[j].1 by {
                    assert(hl@[j] == hl@[j]);
                }
            }
            assert(self.sizes(side).dom() =~= self.side_map(side).dom());
            lemma_listing_sizes(hl@, out@, self.side_map(side), self.sizes(side), n as nat, descending);
        }
        out
    }

    /// Depth snapshot: the bid levels from the highest price down and the ask
    /// levels from the lowest price up, each as `(price, size)` and cut to
    /// `depth` levels per side when a depth is given.
    pub fn get_levels(&self, depth: Option<usize>) -> (r: (Vec<(Price, Quantity)>, Vec<(Price, Quantity)>))
        requires
            self.wf(),
        ensures
            top_desc(r.0@, self.sizes(Side::Buy), match depth { Some(d) => d as nat, None => usize::MAX as nat }),
            top_asc(r.1@, self.sizes(Side::Sell), match depth { Some(d) => d as nat, None => usize::MAX as nat }),
    {
        let n = match depth {
            Some(d) => d,
            None => usize::MAX,
        };
        let hb = self.buy_tree.highest(n);
        let ha = self.sell_tree.lowest(n);
        let bids = self.listing_sizes(Side::Buy, &hb, true, n);
        let asks = self.listing_sizes(Side::Sell, &ha, false, n);
        (bids, asks)
    }
    /// Every level of a well-formed book holds at least one order; each id
    /// queued there is live, rests on that side at that price with a positive
    /// working quantity, and appears once; every live order is queued at the
    /// level of its side and price.
    pub proof fn lemma_levels_consistent(&self)
        requires
            self.wf(),
        ensures
            forall|sd: Side, p: Price| #[trigger] self.levels(sd).contains_key(p) ==> {
                let q = self.levels(sd)[p];
                &&& q.len() > 0
                &&& q.no_duplicates()
                &&& forall|k: int| 0 <= k < q.len() ==> {
                    &&& self.live().contains_key(#[trigger] q[k])
                    &&& self.live()[q[k]].side == sd
                    &&& self.live()[q[k]].price == p
                    &&& self.live()[q[k]].remaining_quantity > 0
                    &&& self.live()[q[k]].wf()
                }
            },
            forall|id: OrderId| #[trigger] self.live().contains_key(id) ==> {
                let o = self.live()[id];
                &&& o.id == id
                &&& self.levels(o.side).contains_key(o.price)
                &&& self.levels(o.side)[o.price].contains(id)
            },
    {
        assert forall|sd: Side, p: Price| #[trigger] self.levels(sd).contains_key(p) implies {
            let q = self.levels(sd)[p];
            &&& q.len() > 0
            &&& q.no_duplicates()
            &&& forall|k: int| 0 <= k < q.len() ==> {
                &&& self.live().contains_key(#[trigger] q[k])
                &&& self.live()[q[k]].side == sd
                &&& self.live()[q[k]].price == p
                &&& self.live()[q[k]].remaining_quantity > 0
                &&& self.live()[q[k]].wf()
            }
        } by {
            let l = self.side_map(sd)[p];
            assert(self.limits@[l as int].is_some());
            OrderBook::lemma_queue_ids(*self, l);
            let q = self.lim(l).queue@;
            assert forall|k: int| 0 <= k < q.len() implies {
                let id = #[trigger] self.ids_of(q)[k];
                &&& self.live().contains_key(id)
                &&& self.live()[id].side == sd
                &&& self.live()[id].price == p
                &&& self.live()[id].remaining_quantity > 0
                &&& self.live()[id].wf()
            } by {
                assert(self.level_ok(self.lim(l)));
                assert(self.orders@[q[k] as int].is_some());
            }
        }
        assert forall|id: OrderId| #[trigger] self.live().contains_key(id) implies {
            let o = self.live()[id];
            &&& o.id == id
            &&& self.levels(o.side).contains_key(o.price)
            &&& self.levels(o.side)[o.price].contains(id)
        } by {
            let s = self.order_id_to_index@[id];
            let o = self.orders@[s as int].unwrap();
            assert(self.orders@[s as int].is_some());
            let l = self.side_map(o.side)[o.price];
            let q = self.lim(l).queue@;
            assert(q.contains(s));
            let k = choose|k: int| 0 <= k < q.len() && q[k] == s;
            assert(self.ids_of(q)[k] == id);
        }
    }

    /// The oldest order at the best level of `side`: `(id, price, working quantity)`.
    pub fn best_head(&self, side: Side) -> (r: Option<(OrderId, Price, Quantity)>)
        requires
            self.wf(),
        ensures
            r == match best_of(self.levels(side), side) {
                None => None,
                Some(p) => Some(
                    (
                        self.levels(side)[p][0],
                        p,
                        self.live()[self.levels(side)[p][0]].remaining_quantity,
                    ),
                ),
            },
    {
        let cached = match side {
            Side::Buy => self.best_bid_index,
            Side::Sell => self.best_ask_index,
        };
        match cached {
            None => {
                proof {
                    assert(self.levels(side) =~= Map::<Price, Seq<OrderId>>::empty());
                }
                None
            },
            Some(l) => {
                let lm = self.limits[l].as_ref().unwrap();
                proof {
                    let lv = self.levels(side);
                    assert(self.side_map(side).contains_key(lm.price));
                    assert(lv.contains_key(lm.price));
                    assert forall|k: Price| #[trigger] lv.contains_key(k) implies (match side {
                        Side::Buy => k <= lm.price,
                        Side::Sell => k >= lm.price,
                    }) by {
                        assert(self.side_map(side).contains_key(k));
                    }
                    assert(is_best(lv, side, lm.price));
                    lemma_best_unique(lv, side, lm.price);
                    assert(self.level_ok(self.lim(l)));
                    OrderBook::lemma_queue_ids(*self, l);
                    assert(self.orders@[lm.queue@[0] as int].is_some());
                }
                let s = lm.queue[0];
                let o = self.orders[s].as_ref().unwrap();
                Some((o.id, lm.price, o.remaining_quantity))
            },
        }
    }

    /// Fills the live order `order_id` by up to `quantity`: the amount filled
    /// is the smaller of `quantity` and its working quantity, and is returned.
    /// An order filled completely leaves the book; a partly filled one keeps
    /// its place in the queue.
    pub fn fill_order(&mut self, order_id: OrderId, quantity: Quantity) -> (r: Result<Quantity>)
        requires
            old(self).wf(),
        ensures
            final(self).wf(),
            final(self).time() == old(self).time(),
            r.is_err() == !old(self).live().contains_key(order_id),
            r.is_err() ==> r == Err::<Quantity, OrderBookError>(OrderBookError::OrderNotFound(order_id))
                && *final(self) == *old(self),
            r.is_ok() ==> {
                let o = old(self).live()[order_id];
                &&& r == Ok::<Quantity, OrderBookError>(
                    if quantity < o.remaining_quantity { quantity } else { o.remaining_quantity },
                )
                &&& quantity >= o.remaining_quantity ==> is_cancelled(*old(self), *final(self), order_id)
                &&& quantity < o.remaining_quantity ==> {
                    &&& final(self).live() == old(self).live().insert(
                        order_id,
                        Order::filled_by(o, quantity, old(self).time()),
                    )
                    &&& final(self).levels(Side::Buy) == old(self).levels(Side::Buy)
                    &&& final(self).levels(Side::Sell) == old(self).levels(Side::Sell)
                }
            },
    {
        let s = match self.order_id_to_index.get(&order_id) {
            Some(s) => *s,
            None => {
                return Err(OrderBookError::OrderNotFound(order_id));
            },
        };
        let order = self.orders[s].unwrap();
        proof {
            assert(self.live()[order_id] == order);
            assert(order.wf() && order.remaining_quantity > 0);
        }
        if quantity >= order.remaining_quantity {
            self.remove_order_from_limit(s);
            return Ok(order.remaining_quantity);
        }
        let l = self.find_level(order.side, order.price).unwrap();
        let ghost pre = *self;
        let mut updated = order;
        updated.fill(quantity, self.current_time);
        self.orders[s] = Some(updated);
        let mut slot: Option<Limit> = None;
        std::mem::swap(&mut self.limits[l], &mut slot);
        let mut lm = slot.unwrap();
        proof {
            assert(pre.lim(l).queue@.contains(s));
            let q = pre.lim(l).queue@;
            let k = choose|k: int| 0 <= k < q.len() && q[k] == s;
            let ids = pre.ids_of(q);
            assert(ids[k] == order_id);
            lemma_sum_remove(pre.live(), ids, k);
            lemma_sum_nonneg(pre.live(), ids.remove(k));
        }
        lm.update_order_stats(order.remaining_quantity, updated.remaining_quantity);
        self.limits[l] = Some(lm);
        proof {
            assert(self.orders@ == pre.orders@.update(s as int, Some(updated)));
            assert(self.limits@ == pre.limits@.update(l as int, Some(lm)));
            OrderBook::lemma_update(pre, *self, s, l, updated, lm);
        }
        Ok(quantity)
    }
    /// A side with levels has a best price, which `best_of` names.
    pub proof fn lemma_best_exists(&self, side: Side)
        requires
            self.wf(),
        ensures
            best_of(self.levels(side), side).is_some() ==> is_best(
                self.levels(side),
                side,
                best_of(self.levels(side), side).unwrap(),
            ),
            best_of(self.levels(side), side).is_none() == (self.levels(side) == Map::<Price, Seq<OrderId>>::empty()),
    {
        let cached = match side {
            Side::Buy => self.best_bid_index,
            Side::Sell => self.best_ask_index,
        };
        match cached {
            None => {
                assert(self.levels(side) =~= Map::<Price, Seq<OrderId>>::empty());
            },
            Some(l) => {
                let lm = self.lim(l);
                let lv = self.levels(side);
                assert(self.side_map(side).contains_key(lm.price));
                assert forall|k: Price| #[trigger] lv.contains_key(k) implies (match side {
                    Side::Buy => k <= lm.price,
                    Side::Sell => k >= lm.price,
                }) by {
                    assert(self.side_map(side).contains_key(k));
                }
                assert(is_best(lv, side, lm.price));
                lemma_best_unique(lv, side, lm.price);
            },
        }
    }
    /// The level stored for `price` on `side`.
    pub closed spec fn stored_level(&self, side: Side, price: Price) -> Limit {
        self.lim(self.side_map(side)[price])
    }

    /// Every stored level's aggregates agree with its queue: its size is the
    /// sum of its orders' working quantities, its order count is the length
    /// of its queue, and its notional is its price times its size.
    pub proof fn lemma_level_aggregates(&self)
        requires
            self.wf(),
        ensures
            forall|sd: Side, p: Price| #[trigger] self.levels(sd).contains_key(p) ==> {
                let lm = self.stored_level(sd, p);
                &&& lm.price == p
                &&& lm.side == sd
                &&& lm.size == self.volume(sd, p)
                &&& lm.order_count == self.levels(sd)[p].len()
                &&& lm.total_volume == p * lm.size
            },
    {
        assert forall|sd: Side, p: Price| #[trigger] self.levels(sd).contains_key(p) implies {
            let lm = self.stored_level(sd, p);
            &&& lm.price == p
            &&& lm.side == sd
            &&& lm.size == self.volume(sd, p)
            &&& lm.order_count == self.levels(sd)[p].len()
            &&& lm.total_volume == p * lm.size
        } by {
            let l = self.side_map(sd)[p];
            assert(self.limits@[l as int].is_some());
            assert(self.level_ok(self.lim(l)));
        }
    }
}

impl Default for OrderBook {
    /// An empty book at time zero.
    fn default() -> (r: OrderBook)
        ensures
            r.wf(),
            r.live() == Map::<OrderId, Order>::empty(),
            r.levels(Side::Buy) == Map::<Price, Seq<OrderId>>::empty(),
            r.levels(Side::Sell) == Map::<Price, Seq<OrderId>>::empty(),
            r.time() == 0,
    {
        OrderBook::new()
    }
}

} // verus!
