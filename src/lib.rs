//! A limit order book for a single instrument, with a matching engine that
//! walks the opposing side in price-time priority.
//!
//! Orders and price levels live in two arenas addressed by integer handles.
//! A hash map resolves order ids to order handles, one hash map per side
//! resolves prices to level handles, and one ordered price tree per side
//! serves best-price recovery and ordered depth snapshots.
use vstd::prelude::*;

pub mod types;
pub mod order;
pub mod limit;
pub mod avl_tree;
pub mod orderbook;
pub mod matching_engine;
pub mod laws;

pub use types::{ExchangeId, OrderId, OrderStatus, Price, Quantity, Side, Timestamp, Trade};
pub use order::Order;
pub use limit::Limit;
pub use orderbook::OrderBook;
pub use matching_engine::MatchingEngine;

verus! {

/// Errors reported by the order book and the matching engine.
#[derive(Debug, Clone, PartialEq)]
pub enum OrderBookError {
    /// An order with this id is already live.
    OrderAlreadyExists(OrderId),
    /// No live order has this id.
    OrderNotFound(OrderId),
    /// The price is zero.
    InvalidPrice(Price),
    /// The quantity is zero, inconsistent, or would overflow its level.
    InvalidQuantity(Quantity),
    /// A price-keyed lookup failed where the book's invariants promise a level.
    LimitNotFound(Price),
    /// The price tree's structure was found broken.
    TreeError(String),
}

/// Result of the order book's operations.
pub type Result<T> = std::result::Result<T, OrderBookError>;

} // verus!
