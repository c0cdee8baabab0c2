//! The matching engine: walks the opposing side of the book in price-time
//! priority, emits trades, and rests what is left of the incoming order.
use vstd::prelude::*;
use crate::order::Order;
use crate::orderbook::{
    best_of, is_added, is_best, is_cancelled, lemma_sum_frame, lemma_without_at, levels_after_remove,
    queue_after_add, OrderBook,
};
use crate::types::{OrderId, Price, Quantity, Side, Trade};
use crate::{OrderBookError, Result};

verus! {

/// Total quantity of `trades`.
pub open spec fn total_qty(trades: Seq<Trade>) -> int
    decreases trades.len(),
{
    if trades.len() == 0 {
        0
    } else {
        total_qty(trades.drop_last()) + trades.last().quantity
    }
}

/// Quantity of `trades` executed against the resting order `id`.
pub open spec fn traded_against(trades: Seq<Trade>, id: OrderId) -> int
    decreases trades.len(),
{
    if trades.len() == 0 {
        0
    } else {
        traded_against(trades.drop_last(), id) + if trades.last().passive_order_id == id {
            trades.last().quantity as int
        } else {
            0
        }
    }
}

/// An incoming order on `side` with limit `limit` crosses a resting price `p`.
pub open spec fn marketable(side: Side, limit: Price, p: Price) -> bool {
    match side {
        Side::Buy => limit >= p,
        Side::Sell => limit <= p,
    }
}

/// No bid is at or above an ask.
pub open spec fn uncrossed(b: OrderBook) -> bool {
    match (best_of(b.levels(Side::Buy), Side::Buy), best_of(b.levels(Side::Sell), Side::Sell)) {
        (Some(bid), Some(ask)) => bid < ask,
        _ => true,
    }
}

/// The working quantity of `id` in `b`, zero when it is not live.
pub open spec fn working(b: OrderBook, id: OrderId) -> int {
    if b.live().contains_key(id) {
        b.live()[id].remaining_quantity as int
    } else {
        0
    }
}

/// Why the engine refuses an incoming order before matching, if it does:
/// a zero price, a zero or inconsistent quantity, or an id already live.
pub open spec fn intake_error(b: OrderBook, order: Order) -> Option<OrderBookError> {
    if order.price == 0 {
        Some(OrderBookError::InvalidPrice(order.price))
    } else if order.quantity == 0 {
        Some(OrderBookError::InvalidQuantity(order.quantity))
    } else if order.remaining_quantity == 0 || order.remaining_quantity > order.quantity {
        Some(OrderBookError::InvalidQuantity(order.remaining_quantity))
    } else if b.live().contains_key(order.id) {
        Some(OrderBookError::OrderAlreadyExists(order.id))
    } else {
        None
    }
}

/// For an aggressor on `side`, the resting price `a` is at least as good as `b`:
/// no higher for a buy, no lower for a sell.
pub open spec fn no_worse(side: Side, a: Price, b: Price) -> bool {
    match side {
        Side::Buy => a <= b,
        Side::Sell => a >= b,
    }
}

/// The trades of an aggressor on `side` come best price first.
pub open spec fn price_priority(side: Side, trades: Seq<Trade>) -> bool {
    forall|i: int, j: int| 0 <= i < j < trades.len() ==> no_worse(side, (#[trigger] trades[i]).price, (#[trigger] trades[j]).price)
}

/// For an aggressor on `side`, the resting price `a` is strictly better than `b`.
pub open spec fn strictly_better(side: Side, a: Price, b: Price) -> bool {
    no_worse(side, a, b) && a != b
}

/// `a` stands before `b` in the queue `q`.
pub open spec fn precedes(q: Seq<OrderId>, a: OrderId, b: OrderId) -> bool {
    exists|i: int, j: int| 0 <= i < j < q.len() && #[trigger] q[i] == a && #[trigger] q[j] == b
}

/// `cur` is what is left of the queue `full` after orders left from its front.
pub open spec fn is_suffix(cur: Seq<OrderId>, full: Seq<OrderId>) -> bool {
    cur.len() <= full.len() && cur == full.subrange(full.len() - cur.len(), full.len() as int)
}

/// Price-time priority of the trade `tr` of `order`: every order resting in
/// `b0` on the opposite side at a better price, or ahead of the trade's
/// resting order in its queue, is gone from `b1`.
pub open spec fn consumed_before(b0: OrderBook, b1: OrderBook, order: Order, tr: Trade) -> bool {
    forall|id: OrderId| #[trigger] b0.live().contains_key(id) && b0.live()[id].side == order.side.spec_opposite()
        && (strictly_better(order.side, b0.live()[id].price, tr.price) || precedes(
        b0.levels(order.side.spec_opposite())[tr.price],
        id,
        tr.passive_order_id,
    )) ==> !b1.live().contains_key(id)
}

/// A trade of the incoming order `order` against the book `b`: against an
/// order live in `b` on the opposite side, at that order's price, stamped
/// with `b`'s time.
pub open spec fn trade_of(b: OrderBook, order: Order, tr: Trade) -> bool {
    &&& tr.aggressor_order_id == order.id
    &&& tr.aggressor_side == order.side
    &&& tr.timestamp == b.time()
    &&& b.live().contains_key(tr.passive_order_id)
    &&& b.live()[tr.passive_order_id].side == order.side.spec_opposite()
    &&& tr.price == b.live()[tr.passive_order_id].price
    &&& tr.quantity <= b.live()[tr.passive_order_id].remaining_quantity
    &&& tr.quantity > 0
    &&& tr.passive_order_id != order.id
    &&& marketable(order.side, order.price, tr.price)
}

/// The total quantity of trades is never negative.
proof fn lemma_total_nonneg(trades: Seq<Trade>)
    ensures
        total_qty(trades) >= 0,
    decreases trades.len(),
{
    if trades.len() > 0 {
        lemma_total_nonneg(trades.drop_last());
    }
}

/// The quantity traded against an order is never negative.
proof fn lemma_traded_nonneg(trades: Seq<Trade>, id: OrderId)
    ensures
        traded_against(trades, id) >= 0,
    decreases trades.len(),
{
    if trades.len() > 0 {
        lemma_traded_nonneg(trades.drop_last(), id);
    }
}

/// Appending a trade adds its quantity to the total.
proof fn lemma_total_push(trades: Seq<Trade>, tr: Trade)
    ensures
        total_qty(trades.push(tr)) == total_qty(trades) + tr.quantity,
        forall|id: OrderId| #[trigger] traded_against(trades.push(tr), id) == traded_against(trades, id)
            + if tr.passive_order_id == id { tr.quantity as int } else { 0 },
{
    assert(trades.push(tr).drop_last() =~= trades);
}

/// A side's best price does not get better when levels are only taken away.
proof fn lemma_best_shrink(a: Map<Price, Seq<OrderId>>, b: Map<Price, Seq<OrderId>>, side: Side)
    requires
        b.dom().subset_of(a.dom()),
        best_of(b, side).is_some(),
        is_best(b, side, best_of(b, side).unwrap()),
        best_of(a, side).is_some() ==> is_best(a, side, best_of(a, side).unwrap()),
    ensures
        best_of(a, side).is_some(),
        side == Side::Buy ==> best_of(b, side).unwrap() <= best_of(a, side).unwrap(),
        side == Side::Sell ==> best_of(b, side).unwrap() >= best_of(a, side).unwrap(),
{
    let pb = best_of(b, side).unwrap();
    assert(a.contains_key(pb));
    assert(a != Map::<Price, Seq<OrderId>>::empty());
}

/// Adding a level at `p` makes the side's best the better of `p` and the old best.
proof fn lemma_best_insert(a: Map<Price, Seq<OrderId>>, side: Side, p: Price, q: Seq<OrderId>)
    requires
        best_of(a, side).is_some() ==> is_best(a, side, best_of(a, side).unwrap()),
    ensures
        best_of(a.insert(p, q), side) == Some(match best_of(a, side) {
            None => p,
            Some(o) => match side {
                Side::Buy => if p > o { p } else { o },
                Side::Sell => if p < o { p } else { o },
            },
        }),
{
    let b = a.insert(p, q);
    match best_of(a, side) {
        None => {
            assert(a =~= Map::<Price, Seq<OrderId>>::empty());
            assert(is_best(b, side, p));
            crate::orderbook::lemma_best_unique(b, side, p);
        },
        Some(o) => {
            let w = match side {
                Side::Buy => if p > o { p } else { o },
                Side::Sell => if p < o { p } else { o },
            };
            assert(is_best(b, side, w));
            crate::orderbook::lemma_best_unique(b, side, w);
        },
    }
}

/// The matching engine. It keeps no state of its own.
pub struct MatchingEngine {}

impl MatchingEngine {
    /// A matching engine.
    pub fn new() -> (r: MatchingEngine) {
        MatchingEngine {}
    }

    /// Matches the incoming `order` against the opposing side of `book`, best
    /// price first and oldest order first within a price, each trade at the
    /// resting order's price; rests what is left of the order at its limit
    /// price. Returns the trades in execution order.
    pub fn process_order(&self, book: &mut OrderBook, order: Order) -> (r: Result<Vec<Trade>>)
        requires
            old(book).wf(),
        ensures
            final(book).wf(),
            final(book).time() == old(book).time(),
            intake_error(*old(book), order).is_some() ==> r == Err::<Vec<Trade>, OrderBookError>(
                intake_error(*old(book), order).unwrap(),
            ) && *final(book) == *old(book),
            r.is_err() ==> intake_error(*old(book), order).is_some() || {
                &&& r matches Err(OrderBookError::InvalidQuantity(_))
                &&& old(book).levels(order.side).contains_key(order.price)
                &&& old(book).volume(order.side, order.price) + order.remaining_quantity > u64::MAX
                    || old(book).levels(order.side)[order.price].len() >= usize::MAX
            },
            r.is_ok() ==> {
                let t = r.unwrap()@;
                let residual = order.remaining_quantity - total_qty(t);
                &&& intake_error(*old(book), order).is_none()
                &&& forall|i: int| 0 <= i < t.len() ==> trade_of(*old(book), order, #[trigger] t[i])
                &&& forall|i: int| 0 <= i < t.len() ==> consumed_before(*old(book), *final(book), order, #[trigger] t[i])
                &&& forall|i: int| 0 <= i < t.len() - 1 ==> !final(book).live().contains_key(#[trigger] t[i].passive_order_id)
                &&& 0 <= residual <= order.remaining_quantity
                &&& residual > 0 ==> final(book).live().contains_key(order.id)
                    && final(book).live()[order.id].remaining_quantity == residual
                &&& residual == 0 ==> !final(book).live().contains_key(order.id)
                &&& residual > 0 ==> {
                    &&& final(book).live()[order.id].price == order.price
                    &&& final(book).live()[order.id].side == order.side
                    &&& final(book).levels(order.side) == old(book).levels(order.side).insert(
                        order.price,
                        queue_after_add(old(book).levels(order.side), order.price, order.id),
                    )
                }
                &&& residual == 0 ==> final(book).levels(order.side) == old(book).levels(order.side)
                &&& final(book).levels(order.side.spec_opposite()).dom().subset_of(
                    old(book).levels(order.side.spec_opposite()).dom(),
                )
                &&& price_priority(order.side, t)
                &&& residual > 0 ==> match best_of(
                    final(book).levels(order.side.spec_opposite()),
                    order.side.spec_opposite(),
                ) {
                    None => true,
                    Some(p) => !marketable(order.side, order.price, p),
                }
                &&& forall|id: OrderId| #[trigger] old(book).live().contains_key(id) ==> working(
                    *old(book),
                    id,
                ) == working(*final(book), id) + traded_against(t, id)
                &&& forall|id: OrderId| #[trigger] final(book).live().contains_key(id) ==> id
                    == order.id || old(book).live().contains_key(id)
                &&& uncrossed(*old(book)) ==> uncrossed(*final(book))
            },
    {
        if order.price == 0 {
            return Err(OrderBookError::InvalidPrice(order.price));
        }
        if order.quantity == 0 {
            return Err(OrderBookError::InvalidQuantity(order.quantity));
        }
        if order.remaining_quantity == 0 || order.remaining_quantity > order.quantity {
            return Err(OrderBookError::InvalidQuantity(order.remaining_quantity));
        }
        if book.contains_order(order.id) {
            return Err(OrderBookError::OrderAlreadyExists(order.id));
        }
        let ghost b0 = *book;
        let mut incoming = order;
        let trades = self.match_order(book, &mut incoming);
        let ghost b1 = *book;
        proof {
            lemma_total_nonneg(trades@);
            assert(incoming.remaining_quantity == order.remaining_quantity - total_qty(trades@));
        }
        if incoming.remaining_quantity > 0 {
            match book.add_order(incoming) {
                Ok(()) => {
                    proof {
                        assert(is_added(b1, *book, incoming));
                        assert(book.live().contains_key(order.id));
                        assert(book.live()[order.id].remaining_quantity == incoming.remaining_quantity);
                        assert forall|id: OrderId| #[trigger] book.live().contains_key(id) implies id == order.id
                            || b0.live().contains_key(id) by {
                            if id != order.id {
                                assert(b1.live().contains_key(id));
                            }
                        }
                        assert forall|id: OrderId| #[trigger] b0.live().contains_key(id) implies working(b0, id)
                            == working(*book, id) + traded_against(trades@, id) by {
                            assert(id != order.id);
                        }
                        if uncrossed(b0) {
                            b0.lemma_best_exists(Side::Buy);
                            b0.lemma_best_exists(Side::Sell);
                            b1.lemma_best_exists(Side::Buy);
                            b1.lemma_best_exists(Side::Sell);
                            let own = order.side;
                            let opp = own.spec_opposite();
                            lemma_best_insert(b1.levels(own), own, order.price, if b1.levels(own).contains_key(order.price) {
                                b1.levels(own)[order.price].push(order.id)
                            } else {
                                seq![order.id]
                            });
                            assert(book.levels(own) == b1.levels(own).insert(order.price, crate::orderbook::queue_after_add(b1.levels(own), order.price, order.id)));
                            if best_of(b1.levels(opp), opp).is_some() {
                                lemma_best_shrink(b0.levels(opp), b1.levels(opp), opp);
                            }
                            assert(book.levels(opp) == b1.levels(opp));
                            assert(b1.levels(own) == b0.levels(own));
                            match own {
                                Side::Buy => {
                                    assert(uncrossed(*book));
                                },
                                Side::Sell => {
                                    assert(uncrossed(*book));
                                },
                            }
                        }
                        assert(forall|i: int| 0 <= i < trades@.len() ==> trade_of(b0, order, #[trigger] trades@[i]));
                    }
                    Ok(trades)
                },
                Err(e) => {
                    proof {
                        let own = order.side;
                        b0.lemma_levels_consistent();
                        assert(b1.levels(own) == b0.levels(own));
                        if b0.levels(own).contains_key(order.price) {
                            let ids = b0.levels(own)[order.price];
                            assert forall|k: int| 0 <= k < ids.len() implies (#[trigger] b1.live()[ids[k]]).remaining_quantity
                                == b0.live()[ids[k]].remaining_quantity by {
                                assert(b0.live().contains_key(ids[k]));
                            }
                            lemma_sum_frame(b1.live(), b0.live(), ids);
                        }
                    }
                    Err(e)
                },
            }
        } else {
            proof {
                if uncrossed(b0) {
                    b0.lemma_best_exists(Side::Buy);
                    b0.lemma_best_exists(Side::Sell);
                    b1.lemma_best_exists(Side::Buy);
                    b1.lemma_best_exists(Side::Sell);
                    let opp = order.side.spec_opposite();
                    if best_of(b1.levels(opp), opp).is_some() {
                        lemma_best_shrink(b0.levels(opp), b1.levels(opp), opp);
                    }
                    match order.side {
                        Side::Buy => {
                            assert(uncrossed(b1));
                        },
                        Side::Sell => {
                            assert(uncrossed(b1));
                        },
                    }
                }
                assert(forall|i: int| 0 <= i < trades@.len() ==> trade_of(b0, order, #[trigger] trades@[i]));
                assert(!book.live().contains_key(order.id));
            }
            Ok(trades)
        }
    }

    /// Walks the opposing side while the incoming order has working quantity
    /// and the opposing best price is marketable, filling the oldest order
    /// at the best price each step.
    fn match_order(&self, book: &mut OrderBook, incoming: &mut Order) -> (r: Vec<Trade>)
        requires
            old(book).wf(),
            old(incoming).wf(),
            !old(book).live().contains_key(old(incoming).id),
        ensures
            final(book).wf(),
            final(book).time() == old(book).time(),
            final(incoming).id == old(incoming).id,
            final(incoming).side == old(incoming).side,
            final(incoming).price == old(incoming).price,
            final(incoming).quantity == old(incoming).quantity,
            final(incoming).wf(),
            final(incoming).remaining_quantity == old(incoming).remaining_quantity - total_qty(r@),
            !final(book).live().contains_key(old(incoming).id),
            forall|i: int| 0 <= i < r@.len() ==> trade_of(*old(book), *old(incoming), #[trigger] r@[i]),
            forall|id: OrderId| #[trigger] old(book).live().contains_key(id) ==> working(*old(book), id)
                == working(*final(book), id) + traded_against(r@, id),
            forall|id: OrderId| #[trigger] final(book).live().contains_key(id) ==> old(book).live().contains_key(id),
            forall|id: OrderId| #[trigger] final(book).live().contains_key(id) ==> final(book).live()[id].price
                == old(book).live()[id].price && final(book).live()[id].side == old(book).live()[id].side,
            forall|id: OrderId| #[trigger] old(book).live().contains_key(id) && old(book).live()[id].side
                == old(incoming).side ==> final(book).live().contains_key(id) && final(book).live()[id]
                == old(book).live()[id],
            final(book).levels(old(incoming).side) == old(book).levels(old(incoming).side),
            final(book).levels(old(incoming).side.spec_opposite()).dom().subset_of(
                old(book).levels(old(incoming).side.spec_opposite()).dom(),
            ),
            price_priority(old(incoming).side, r@),
            forall|i: int| 0 <= i < r@.len() ==> consumed_before(*old(book), *final(book), *old(incoming), #[trigger] r@[i]),
            forall|i: int| 0 <= i < r@.len() - 1 ==> !final(book).live().contains_key(#[trigger] r@[i].passive_order_id),
            final(incoming).remaining_quantity > 0 ==> match best_of(
                final(book).levels(old(incoming).side.spec_opposite()),
                old(incoming).side.spec_opposite(),
            ) {
                None => true,
                Some(p) => !marketable(old(incoming).side, old(incoming).price, p),
            },
    {
        let ghost b0 = *book;
        let ghost o0 = *incoming;
        let side = incoming.side;
        let opp = side.opposite();
        let mut trades: Vec<Trade> = Vec::new();
        proof {
            assert forall|p: Price| #[trigger] book.levels(opp).contains_key(p) implies b0.levels(opp).contains_key(p)
                && is_suffix(book.levels(opp)[p], b0.levels(opp)[p]) by {
                let q = b0.levels(opp)[p];
                assert(q.subrange(0, q.len() as int) =~= q);
            }
        }
        loop
            invariant
                book.wf(),
                book.time() == b0.time(),
                b0.wf(),
                incoming.id == o0.id,
                incoming.side == side,
                side == o0.side,
                opp == side.spec_opposite(),
                incoming.price == o0.price,
                incoming.quantity == o0.quantity,
                incoming.wf(),
                incoming.remaining_quantity == o0.remaining_quantity - total_qty(trades@),
                !book.live().contains_key(o0.id),
                !b0.live().contains_key(o0.id),
                forall|i: int| 0 <= i < trades@.len() ==> trade_of(b0, o0, #[trigger] trades@[i]),
                forall|id: OrderId| #[trigger] b0.live().contains_key(id) ==> working(b0, id) == working(*book, id)
                    + traded_against(trades@, id),
                forall|id: OrderId| #[trigger] book.live().contains_key(id) ==> b0.live().contains_key(id),
                forall|id: OrderId| #[trigger] book.live().contains_key(id) ==> book.live()[id].price
                    == b0.live()[id].price && book.live()[id].side == b0.live()[id].side,
                forall|id: OrderId| #[trigger] b0.live().contains_key(id) && b0.live()[id].side == side
                    ==> book.live().contains_key(id) && book.live()[id] == b0.live()[id],
                book.levels(side) == b0.levels(side),
                book.levels(opp).dom().subset_of(b0.levels(opp).dom()),
                price_priority(side, trades@),
                forall|i: int| 0 <= i < trades@.len() ==> consumed_before(b0, *book, o0, #[trigger] trades@[i]),
                forall|i: int| 0 <= i < trades@.len() - 1 ==> !book.live().contains_key(#[trigger] trades@[i].passive_order_id),
                trades@.len() > 0 ==> !book.live().contains_key(trades@[trades@.len() - 1].passive_order_id)
                    || incoming.remaining_quantity == 0,
                forall|p: Price| #[trigger] book.levels(opp).contains_key(p) ==> b0.levels(opp).contains_key(p)
                    && is_suffix(book.levels(opp)[p], b0.levels(opp)[p]),
                forall|i: int, p: Price| 0 <= i < trades@.len() && #[trigger] book.levels(opp).contains_key(p)
                    ==> no_worse(side, (#[trigger] trades@[i]).price, p),
            ensures
                book.wf(),
                book.time() == b0.time(),
                incoming.id == o0.id,
                incoming.side == o0.side,
                incoming.price == o0.price,
                incoming.quantity == o0.quantity,
                incoming.wf(),
                incoming.remaining_quantity == o0.remaining_quantity - total_qty(trades@),
                !book.live().contains_key(o0.id),
                forall|i: int| 0 <= i < trades@.len() ==> trade_of(b0, o0, #[trigger] trades@[i]),
                forall|id: OrderId| #[trigger] b0.live().contains_key(id) ==> working(b0, id) == working(*book, id)
                    + traded_against(trades@, id),
                forall|id: OrderId| #[trigger] book.live().contains_key(id) ==> b0.live().contains_key(id),
                forall|id: OrderId| #[trigger] book.live().contains_key(id) ==> book.live()[id].price
                    == b0.live()[id].price && book.live()[id].side == b0.live()[id].side,
                forall|id: OrderId| #[trigger] b0.live().contains_key(id) && b0.live()[id].side == side
                    ==> book.live().contains_key(id) && book.live()[id] == b0.live()[id],
                book.levels(side) == b0.levels(side),
                book.levels(opp).dom().subset_of(b0.levels(opp).dom()),
                price_priority(side, trades@),
                forall|i: int| 0 <= i < trades@.len() ==> consumed_before(b0, *book, o0, #[trigger] trades@[i]),
                forall|i: int| 0 <= i < trades@.len() - 1 ==> !book.live().contains_key(#[trigger] trades@[i].passive_order_id),
                trades@.len() > 0 ==> !book.live().contains_key(trades@[trades@.len() - 1].passive_order_id)
                    || incoming.remaining_quantity == 0,
                forall|p: Price| #[trigger] book.levels(opp).contains_key(p) ==> b0.levels(opp).contains_key(p)
                    && is_suffix(book.levels(opp)[p], b0.levels(opp)[p]),
                forall|i: int, p: Price| 0 <= i < trades@.len() && #[trigger] book.levels(opp).contains_key(p)
                    ==> no_worse(side, (#[trigger] trades@[i]).price, p),
                incoming.remaining_quantity > 0 ==> match best_of(book.levels(opp), opp) {
                    None => true,
                    Some(p) => !marketable(side, incoming.price, p),
                },
            decreases incoming.remaining_quantity,
        {
            if incoming.remaining_quantity == 0 {
                break;
            }
            let head = book.best_head(opp);
            match head {
                None => {
                    break;
                },
                Some((passive_id, price, _)) => {
                    let crosses = match side {
                        Side::Buy => incoming.price >= price,
                        Side::Sell => incoming.price <= price,
                    };
                    if !crosses {
                        break;
                    }
                    proof {
                        book.lemma_best_exists(opp);
                    }
                    let ghost prev = *book;
                    let trade = self.execute_at_price(book, incoming, passive_id, price);
                    let ghost before = trades@;
                    trades.push(trade);
                    proof {
                        lemma_total_push(before, trade);
                        prev.lemma_levels_consistent();
                        b0.lemma_levels_consistent();
                        let q = prev.levels(opp)[price];
                        let full = b0.levels(opp)[price];
                        let d = full.len() - q.len();
                        assert(q[0] == passive_id);
                        assert(full[d] == passive_id);
                        assert forall|pp: Price| #[trigger] book.levels(opp).contains_key(pp) implies b0.levels(opp).contains_key(pp)
                            && is_suffix(book.levels(opp)[pp], b0.levels(opp)[pp]) by {
                            assert(prev.levels(opp).contains_key(pp));
                            if book.levels(opp) != prev.levels(opp) && pp == price {
                                lemma_without_at(q, 0);
                                assert(book.levels(opp)[pp] == q.remove(0));
                                assert(q.remove(0) =~= full.subrange(d + 1, full.len() as int));
                            }
                        }
                        assert forall|i: int| 0 <= i < trades@.len() implies consumed_before(b0, *book, o0, #[trigger] trades@[i]) by {
                            if i < before.len() {
                                assert(trades@[i] == before[i]);
                                assert(consumed_before(b0, prev, o0, before[i]));
                            } else {
                                assert forall|id: OrderId| #[trigger] b0.live().contains_key(id) && b0.live()[id].side == opp
                                    && (strictly_better(side, b0.live()[id].price, trade.price) || precedes(full, id, passive_id))
                                    implies !book.live().contains_key(id) by {
                                    if book.live().contains_key(id) {
                                        assert(prev.live().contains_key(id));
                                        let pr = prev.live()[id].price;
                                        assert(prev.levels(opp).contains_key(pr));
                                        if strictly_better(side, b0.live()[id].price, trade.price) {
                                            assert(is_best(prev.levels(opp), opp, price));
                                        } else {
                                            let (ii, jj) = choose|ii: int, jj: int| 0 <= ii < jj < full.len() && #[trigger] full[ii] == id && #[trigger] full[jj] == passive_id;
                                            assert(jj == d);
                                            assert(pr == price);
                                            assert(q.contains(id));
                                            let k = choose|k: int| 0 <= k < q.len() && q[k] == id;
                                            assert(q[k] == full[d + k]);
                                            assert(ii == d + k);
                                        }
                                    }
                                }
                            }
                        }
                        assert forall|i: int| 0 <= i < trades@.len() - 1 implies !book.live().contains_key(#[trigger] trades@[i].passive_order_id) by {
                            assert(trades@[i] == before[i]);
                        }
                        assert forall|i: int| 0 <= i < trades@.len() implies trade_of(b0, o0, #[trigger] trades@[i]) by {
                            if i < before.len() {
                                assert(trades@[i] == before[i]);
                            } else {
                                let p = trade.passive_order_id;
                                assert(prev.live().contains_key(p));
                                assert(b0.live().contains_key(p));
                                lemma_traded_nonneg(before, p);
                                assert(working(b0, p) == working(prev, p) + traded_against(before, p));
                            }
                        }
                        assert(is_best(prev.levels(opp), opp, price));
                        assert forall|i: int, p: Price| 0 <= i < trades@.len() && #[trigger] book.levels(opp).contains_key(p)
                            implies no_worse(side, (#[trigger] trades@[i]).price, p) by {
                            assert(prev.levels(opp).contains_key(p));
                            if i < before.len() {
                                assert(trades@[i] == before[i]);
                            }
                        }
                        assert forall|i: int, j: int| 0 <= i < j < trades@.len() implies no_worse(side, (#[trigger] trades@[i]).price, (#[trigger] trades@[j]).price) by {
                            if j < before.len() {
                                assert(trades@[i] == before[i] && trades@[j] == before[j]);
                            } else {
                                assert(trades@[i] == before[i]);
                                assert(prev.levels(opp).contains_key(price));
                            }
                        }
                        assert forall|id: OrderId| #[trigger] b0.live().contains_key(id) implies working(b0, id)
                            == working(*book, id) + traded_against(trades@, id) by {
                            assert(working(b0, id) == working(prev, id) + traded_against(before, id));
                            assert(traded_against(trades@, id) == traded_against(before, id) + if trade.passive_order_id
                                == id { trade.quantity as int } else { 0 });
                            if prev.live().contains_key(id) {
                                assert(working(prev, id) == working(*book, id) + if id == passive_id {
                                    trade.quantity as int
                                } else {
                                    0
                                });
                            } else {
                                assert(!book.live().contains_key(id));
                            }
                        }
                    }
                },
            }
        }
        trades
    }

    /// One execution: fills the resting order `passive_id`, the oldest at
    /// the opposing best `price`, against the incoming order, and returns the
    /// trade at `price`.
    fn execute_at_price(&self, book: &mut OrderBook, incoming: &mut Order, passive_id: OrderId, price: Price) -> (r: Trade)
        requires
            old(book).wf(),
            old(incoming).wf(),
            old(incoming).remaining_quantity > 0,
            !old(book).live().contains_key(old(incoming).id),
            best_of(old(book).levels(old(incoming).side.spec_opposite()), old(incoming).side.spec_opposite()) == Some(price),
            old(book).levels(old(incoming).side.spec_opposite())[price][0] == passive_id,
            marketable(old(incoming).side, old(incoming).price, price),
        ensures
            final(book).wf(),
            final(book).time() == old(book).time(),
            final(incoming).id == old(incoming).id,
            final(incoming).side == old(incoming).side,
            final(incoming).price == old(incoming).price,
            final(incoming).quantity == old(incoming).quantity,
            final(incoming).wf(),
            final(incoming).remaining_quantity == old(incoming).remaining_quantity - r.quantity,
            r.passive_order_id == passive_id,
            r.price == price,
            old(book).live().contains_key(passive_id),
            trade_of(*old(book), *old(incoming), r),
            !final(book).live().contains_key(old(incoming).id),
            forall|id: OrderId| #[trigger] old(book).live().contains_key(id) ==> working(*old(book), id)
                == working(*final(book), id) + if id == passive_id { r.quantity as int } else { 0 },
            forall|id: OrderId| #[trigger] final(book).live().contains_key(id) ==> old(book).live().contains_key(id),
            forall|id: OrderId| #[trigger] final(book).live().contains_key(id) ==> final(book).live()[id].price
                == old(book).live()[id].price && final(book).live()[id].side == old(book).live()[id].side,
            forall|id: OrderId| #[trigger] old(book).live().contains_key(id) && id != passive_id
                ==> final(book).live().contains_key(id) && final(book).live()[id] == old(book).live()[id],
            r.quantity == old(book).live()[passive_id].remaining_quantity ==> !final(book).live().contains_key(passive_id),
            r.quantity < old(book).live()[passive_id].remaining_quantity ==> final(incoming).remaining_quantity == 0,
            r.quantity == (if old(incoming).remaining_quantity < old(book).live()[passive_id].remaining_quantity {
                old(incoming).remaining_quantity
            } else {
                old(book).live()[passive_id].remaining_quantity
            }),
            final(book).levels(old(incoming).side) == old(book).levels(old(incoming).side),
            final(book).levels(old(incoming).side.spec_opposite()).dom().subset_of(
                old(book).levels(old(incoming).side.spec_opposite()).dom(),
            ),
            final(book).levels(old(incoming).side.spec_opposite()) == old(book).levels(old(incoming).side.spec_opposite())
                || final(book).levels(old(incoming).side.spec_opposite()) == levels_after_remove(
                old(book).levels(old(incoming).side.spec_opposite()),
                price,
                passive_id,
            ),
    {
        let ghost b0 = *book;
        let ghost opp = incoming.side.spec_opposite();
        proof {
            b0.lemma_levels_consistent();
            b0.lemma_best_exists(opp);
            assert(b0.levels(opp).contains_key(price));
            assert(b0.live().contains_key(passive_id));
        }
        let wanted = incoming.remaining_quantity;
        let filled = match book.fill_order(passive_id, wanted) {
            Ok(f) => f,
            Err(_) => {
                proof {
                    assert(false);
                }
                0
            },
        };
        let now = book.current_time();
        incoming.fill(filled, now);
        proof {
            let o = b0.live()[passive_id];
            assert(o.side == opp);
            assert(opp.spec_opposite() == incoming.side);
            if wanted >= o.remaining_quantity {
                assert(book.levels(opp).dom() =~= crate::orderbook::levels_after_remove(b0.levels(opp), price, passive_id).dom());
                assert(book.levels(opp).dom().subset_of(b0.levels(opp).dom()));
            } else {
                assert(book.levels(opp).dom() == b0.levels(opp).dom());
            }
            assert(passive_id != incoming.id);
        }
        Trade::new(incoming.id, passive_id, price, filled, now, incoming.side)
    }
}

impl Default for MatchingEngine {
    /// A matching engine.
    fn default() -> (r: MatchingEngine) {
        MatchingEngine::new()
    }
}

} // verus!
