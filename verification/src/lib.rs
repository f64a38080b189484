//! A single-instrument limit order book matching engine.
//!
//! The book accepts order submissions and cancellations, applies
//! price-time priority matching, produces trade records, and keeps a
//! queryable set of resting orders. Price levels live in an
//! index-addressed arena with free-index reuse, so insertion and
//! cancellation touch no more state than the affected level.

pub mod custom_errors;
pub mod models;
pub mod order;
pub mod orderbook_impl;
pub mod price_level;
mod runtime;
