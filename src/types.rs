//! Identifiers, the side tag and the trade record.
use vstd::prelude::*;

verus! {

/// Unique identifier of an order.
pub type OrderId = u64;

/// Price in minimum tick units.
pub type Price = u64;

/// Quantity in minimum lot units.
pub type Quantity = u64;

/// Monotonic event time.
pub type Timestamp = u64;

/// Originating venue of an order.
pub type ExchangeId = u32;

/// Side of an order: buy (bid) or sell (ask).
#[derive(Debug, Clone, Copy, PartialEq, Eq, Hash, Structural)]
pub enum Side {
    Buy,
    Sell,
}

impl Side {
    /// True for the buy side.
    pub fn is_buy(&self) -> (r: bool)
        ensures
            r == (*self == Side::Buy),
    {
        match self {
            Side::Buy => true,
            Side::Sell => false,
        }
    }

    /// True for the sell side.
    pub fn is_sell(&self) -> (r: bool)
        ensures
            r == (*self == Side::Sell),
    {
        match self {
            Side::Buy => false,
            Side::Sell => true,
        }
    }

    /// The other side.
    pub open spec fn spec_opposite(self) -> Side {
        match self {
            Side::Buy => Side::Sell,
            Side::Sell => Side::Buy,
        }
    }

    /// The other side.
    pub fn opposite(&self) -> (r: Side)
        ensures
            r == self.spec_opposite(),
            r != *self,
    {
        match self {
            Side::Buy => Side::Sell,
            Side::Sell => Side::Buy,
        }
    }
}

/// Lifecycle state of an order.
#[derive(Debug, Clone, Copy, PartialEq, Eq, Hash, Structural)]
pub enum OrderStatus {
    /// Nothing filled yet.
    Active,
    /// Some but not all of the quantity filled.
    PartiallyFilled,
    /// The whole quantity filled.
    Filled,
    /// Withdrawn from the book.
    Cancelled,
}

/// An execution between an incoming (aggressor) order and a resting (passive) one.
#[derive(Debug, Clone, Copy, PartialEq, Eq, Structural)]
pub struct Trade {
    /// Id of the incoming order.
    pub aggressor_order_id: OrderId,
    /// Id of the resting order.
    pub passive_order_id: OrderId,
    /// Execution price: the resting order's price.
    pub price: Price,
    /// Executed quantity.
    pub quantity: Quantity,
    /// Time of execution.
    pub timestamp: Timestamp,
    /// Side of the incoming order.
    pub aggressor_side: Side,
}

impl Trade {
    /// Builds a trade record from its fields.
    pub fn new(
        aggressor_order_id: OrderId,
        passive_order_id: OrderId,
        price: Price,
        quantity: Quantity,
        timestamp: Timestamp,
        aggressor_side: Side,
    ) -> (r: Trade)
        ensures
            r == (Trade {
                aggressor_order_id,
                passive_order_id,
                price,
                quantity,
                timestamp,
                aggressor_side,
            }),
    {
        Trade { aggressor_order_id, passive_order_id, price, quantity, timestamp, aggressor_side }
    }

    /// Notional of the trade: price times quantity.
    pub fn value(&self) -> (r: u128)
        ensures
            r == self.price * self.quantity,
    {
        proof {
            lemma_product_fits(self.price, self.quantity);
        }
        self.price as u128 * self.quantity as u128
    }
}

/// The product of two 64-bit values fits in 128 bits.
pub proof fn lemma_product_fits(a: u64, b: u64)
    ensures
        a * b <= u64::MAX * u64::MAX,
        u64::MAX * u64::MAX <= u128::MAX,
{
    assert(a * b <= u64::MAX * u64::MAX) by (nonlinear_arith)
        requires a <= u64::MAX, b <= u64::MAX, 0 <= a, 0 <= b;
    assert(u64::MAX * u64::MAX <= u128::MAX) by (nonlinear_arith);
}

} // verus!
