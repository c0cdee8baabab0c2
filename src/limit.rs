//! A price level: aggregate statistics and the FIFO queue of one price on one side.
use vstd::prelude::*;
use crate::types::{Price, Quantity, Side};

verus! {

/// All resting orders at one price on one side.
///
/// The level keeps its aggregate size, notional and order count, and the
/// handles of its orders in time priority; the book keeps the orders.
#[derive(Debug, Clone)]
pub struct Limit {
    /// Price of the level.
    pub price: Price,
    /// Sum of the working quantities of the level's orders.
    pub size: Quantity,
    /// Notional of the level: price times size.
    pub total_volume: u128,
    /// Number of orders at the level.
    pub order_count: usize,
    /// Side of the level's orders.
    pub side: Side,
    /// Handles of the level's orders, oldest first.
    pub queue: Vec<usize>,
}

impl Limit {
    /// The notional is the price times the size.
    pub open spec fn wf(self) -> bool {
        self.total_volume == self.price * self.size
    }

    /// An empty level at `price` on `side`.
    pub fn new(price: Price, side: Side) -> (r: Limit)
        ensures
            r.price == price,
            r.size == 0,
            r.total_volume == 0,
            r.order_count == 0,
            r.side == side,
            r.queue@ == Seq::<usize>::empty(),
            r.wf(),
    {
        Limit { price, size: 0, total_volume: 0, order_count: 0, side, queue: Vec::new() }
    }

    /// The side of the level.
    pub fn side(&self) -> (r: Side)
        ensures
            r == self.side,
    {
        self.side
    }

    /// True when the level holds no order.
    pub fn is_empty(&self) -> (r: bool)
        ensures
            r == (self.order_count == 0),
    {
        self.order_count == 0
    }

    /// The average execution price of the level, which is its price.
    pub fn average_price(&self) -> (r: Price)
        ensures
            r == self.price,
    {
        self.price
    }

    /// Counts one more order of working quantity `quantity`.
    pub fn add_order_stats(&mut self, quantity: Quantity)
        requires
            old(self).wf(),
            old(self).size + quantity <= u64::MAX,
            old(self).order_count < usize::MAX,
        ensures
            final(self).wf(),
            final(self).size == old(self).size + quantity,
            final(self).order_count == old(self).order_count + 1,
            final(self).price == old(self).price,
            final(self).side == old(self).side,
            final(self).queue == old(self).queue,
    {
        proof {
            crate::types::lemma_product_fits(self.price, (self.size + quantity) as u64);
            assert(self.price * (self.size + quantity) == self.price * self.size + self.price
                * quantity) by (nonlinear_arith);
        }
        self.size = self.size + quantity;
        self.total_volume = self.total_volume + self.price as u128 * quantity as u128;
        self.order_count = self.order_count + 1;
    }

    /// Counts one order of working quantity `quantity` out.
    pub fn remove_order_stats(&mut self, quantity: Quantity)
        requires
            old(self).wf(),
            old(self).size >= quantity,
            old(self).order_count > 0,
        ensures
            final(self).wf(),
            final(self).size == old(self).size - quantity,
            final(self).order_count == old(self).order_count - 1,
            final(self).price == old(self).price,
            final(self).side == old(self).side,
            final(self).queue == old(self).queue,
    {
        proof {
            assert(self.price * self.size == self.price * (self.size - quantity) + self.price
                * quantity) by (nonlinear_arith);
            assert(self.price * (self.size - quantity) >= 0) by (nonlinear_arith)
                requires self.size >= quantity;
        }
        self.size = self.size - quantity;
        self.total_volume = self.total_volume - self.price as u128 * quantity as u128;
        self.order_count = self.order_count - 1;
    }

    /// Replaces a working quantity of `old_quantity` by `new_quantity`;
    /// the order count is unchanged.
    pub fn update_order_stats(&mut self, old_quantity: Quantity, new_quantity: Quantity)
        requires
            old(self).wf(),
            old(self).size >= old_quantity,
            old(self).size - old_quantity + new_quantity <= u64::MAX,
        ensures
            final(self).wf(),
            final(self).size == old(self).size - old_quantity + new_quantity,
            final(self).order_count == old(self).order_count,
            final(self).price == old(self).price,
            final(self).side == old(self).side,
            final(self).queue == old(self).queue,
    {
        if new_quantity > old_quantity {
            let diff = new_quantity - old_quantity;
            proof {
                crate::types::lemma_product_fits(self.price, (self.size + diff) as u64);
                assert(self.price * (self.size + diff) == self.price * self.size + self.price
                    * diff) by (nonlinear_arith);
            }
            self.size = self.size + diff;
            self.total_volume = self.total_volume + self.price as u128 * diff as u128;
        } else if old_quantity > new_quantity {
            let diff = old_quantity - new_quantity;
            proof {
                assert(self.price * self.size == self.price * (self.size - diff) + self.price
                    * diff) by (nonlinear_arith);
                assert(self.price * (self.size - diff) >= 0) by (nonlinear_arith)
                    requires self.size >= diff;
            }
            self.size = self.size - diff;
            self.total_volume = self.total_volume - self.price as u128 * diff as u128;
        }
    }

    /// The notional of the level.
    pub fn total_value(&self) -> (r: u128)
        ensures
            r == self.total_volume,
    {
        self.total_volume
    }

    /// Empties the level: no order, no size, no notional.
    pub fn reset(&mut self)
        ensures
            final(self).wf(),
            final(self).size == 0,
            final(self).total_volume == 0,
            final(self).order_count == 0,
            final(self).queue@ == Seq::<usize>::empty(),
            final(self).price == old(self).price,
            final(self).side == old(self).side,
    {
        self.size = 0;
        self.total_volume = 0;
        self.order_count = 0;
        self.queue = Vec::new();
    }
}

} // verus!
