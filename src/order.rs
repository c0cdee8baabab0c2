//! A single limit order: a passive record of its attributes and fill state.
use vstd::prelude::*;
use crate::types::{ExchangeId, OrderId, OrderStatus, Price, Quantity, Side, Timestamp};

verus! {

/// A limit order.
#[derive(Debug, Clone, Copy, PartialEq, Eq, Structural)]
pub struct Order {
    /// Unique identifier.
    pub id: OrderId,
    /// Buy or sell.
    pub side: Side,
    /// Total quantity of the order, filled part included.
    pub quantity: Quantity,
    /// Working quantity: what is left to fill.
    pub remaining_quantity: Quantity,
    /// Limit price.
    pub price: Price,
    /// Entry time, which orders the queue at a price.
    pub entry_time: Timestamp,
    /// Time of the last event on the order.
    pub event_time: Timestamp,
    /// Originating venue.
    pub exchange_id: ExchangeId,
    /// Lifecycle state.
    pub status: OrderStatus,
}

impl Order {
    /// The working quantity never exceeds the total quantity.
    pub open spec fn wf(self) -> bool {
        self.remaining_quantity <= self.quantity
    }

    /// Quantity already filled.
    pub open spec fn filled(self) -> int {
        self.quantity - self.remaining_quantity
    }

    /// A fresh order: nothing filled, event time equal to entry time.
    pub fn new(
        id: OrderId,
        side: Side,
        quantity: Quantity,
        price: Price,
        entry_time: Timestamp,
        exchange_id: ExchangeId,
    ) -> (r: Order)
        ensures
            r == (Order {
                id,
                side,
                quantity,
                remaining_quantity: quantity,
                price,
                entry_time,
                event_time: entry_time,
                exchange_id,
                status: OrderStatus::Active,
            }),
            r.wf(),
    {
        Order {
            id,
            side,
            quantity,
            remaining_quantity: quantity,
            price,
            entry_time,
            event_time: entry_time,
            exchange_id,
            status: OrderStatus::Active,
        }
    }

    /// True for a buy order.
    pub fn is_buy(&self) -> (r: bool)
        ensures
            r == (self.side == Side::Buy),
    {
        self.side.is_buy()
    }

    /// True for a sell order.
    pub fn is_sell(&self) -> (r: bool)
        ensures
            r == (self.side == Side::Sell),
    {
        self.side.is_sell()
    }

    /// True when nothing is left to fill.
    pub fn is_filled(&self) -> (r: bool)
        ensures
            r == (self.remaining_quantity == 0),
    {
        self.remaining_quantity == 0
    }

    /// True when some but not all of the quantity is filled.
    pub fn is_partially_filled(&self) -> (r: bool)
        ensures
            r == (0 < self.remaining_quantity < self.quantity),
    {
        self.remaining_quantity > 0 && self.remaining_quantity < self.quantity
    }

    /// Quantity already filled: total minus working quantity.
    pub fn filled_quantity(&self) -> (r: Quantity)
        requires
            self.wf(),
        ensures
            r == self.filled(),
    {
        self.quantity - self.remaining_quantity
    }

    /// Notional of the whole order: price times quantity.
    pub fn value(&self) -> (r: u128)
        ensures
            r == self.price * self.quantity,
    {
        proof {
            crate::types::lemma_product_fits(self.price, self.quantity);
        }
        self.price as u128 * self.quantity as u128
    }

    /// Notional of the working quantity: price times remaining quantity.
    pub fn remaining_value(&self) -> (r: u128)
        ensures
            r == self.price * self.remaining_quantity,
    {
        proof {
            crate::types::lemma_product_fits(self.price, self.remaining_quantity);
        }
        self.price as u128 * self.remaining_quantity as u128
    }

    /// The state of `o` after a fill of `amount` at time `t` (see `fill`).
    pub open spec fn filled_by(o: Order, amount: u64, t: Timestamp) -> Order {
        let f = if amount < o.remaining_quantity { amount } else { o.remaining_quantity };
        let rem = (o.remaining_quantity - f) as u64;
        Order {
            remaining_quantity: rem,
            event_time: t,
            status: if rem == 0 {
                OrderStatus::Filled
            } else if rem < o.quantity {
                OrderStatus::PartiallyFilled
            } else {
                o.status
            },
            ..o
        }
    }

    /// Fills up to `quantity`: the working quantity drops by the smaller of
    /// `quantity` and itself, which is returned; the event time is stamped.
    pub fn fill(&mut self, quantity: Quantity, event_time: Timestamp) -> (r: Quantity)
        ensures
            r == (if quantity < old(self).remaining_quantity {
                quantity
            } else {
                old(self).remaining_quantity
            }),
            *final(self) == Order::filled_by(*old(self), quantity, event_time),
            old(self).wf() ==> final(self).wf(),
    {
        let f = if quantity < self.remaining_quantity {
            quantity
        } else {
            self.remaining_quantity
        };
        self.remaining_quantity = self.remaining_quantity - f;
        self.event_time = event_time;
        if self.remaining_quantity == 0 {
            self.status = OrderStatus::Filled;
        } else if self.remaining_quantity < self.quantity {
            self.status = OrderStatus::PartiallyFilled;
        }
        f
    }

    /// Marks the order cancelled and stamps the event time.
    pub fn cancel(&mut self, event_time: Timestamp)
        ensures
            *final(self) == (Order {
                status: OrderStatus::Cancelled,
                event_time,
                ..*old(self)
            }),
    {
        self.status = OrderStatus::Cancelled;
        self.event_time = event_time;
    }

    /// The state of `o` after its total quantity is set to `q` at time `t`,
    /// the filled part kept (see `update_quantity`).
    pub open spec fn requantified(o: Order, q: u64, t: Timestamp) -> Order {
        let rem = (q - o.filled()) as u64;
        Order {
            quantity: q,
            remaining_quantity: rem,
            event_time: t,
            status: if rem == 0 {
                OrderStatus::Filled
            } else if q > rem {
                OrderStatus::PartiallyFilled
            } else {
                OrderStatus::Active
            },
            ..o
        }
    }

    /// Sets the total quantity to `new_quantity`, keeping what was filled.
    /// Refuses (returns false, changing nothing) a quantity below the filled part.
    pub fn update_quantity(&mut self, new_quantity: Quantity, event_time: Timestamp) -> (r: bool)
        requires
            old(self).wf(),
        ensures
            r == (new_quantity >= old(self).filled()),
            r ==> *final(self) == Order::requantified(*old(self), new_quantity, event_time),
            !r ==> *final(self) == *old(self),
            final(self).wf(),
    {
        let filled = self.filled_quantity();
        if new_quantity < filled {
            return false;
        }
        self.quantity = new_quantity;
        self.remaining_quantity = new_quantity - filled;
        self.event_time = event_time;
        if self.remaining_quantity == 0 {
            self.status = OrderStatus::Filled;
        } else if self.quantity > self.remaining_quantity {
            self.status = OrderStatus::PartiallyFilled;
        } else {
            self.status = OrderStatus::Active;
        }
        true
    }
}

} // verus!
