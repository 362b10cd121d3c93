//! A single-venue, single-symbol limit order book matching engine.
//!
//! The book keeps price-time priority across both sides, crosses incoming
//! limit and market orders against resting liquidity, and serves depth and
//! best-price queries from cached state.
//!
//! Orders live in a fixed-capacity pool ([`memory::OrderPool`]); each side
//! of the book is a dense array of price levels indexed by tick offset
//! from a base price, each level a FIFO of pool handles
//! ([`types::PriceLevel`]); an id index maps external order ids to
//! handles. The [`orderbook::OrderBook`] facade keeps these three
//! structures and the best-price caches consistent across every admit and
//! cancel; its contracts are stated against the ghost matching model in
//! [`model`], which says exactly which orders an incoming quantity
//! consumes and in which sequence the executions are reported.

mod invariants;
pub mod memory;
pub mod model;
pub mod orderbook;
pub mod types;

pub use memory::{OrderPool, PriceLookupTable};
pub use orderbook::{BookError, OrderBook, OrderBookSummary};
pub use types::{Execution, Order, OrderType, Side};
