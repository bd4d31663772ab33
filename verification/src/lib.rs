//! Aggregated bid/ask service core.
//!
//! The library keeps a depth-bounded, per-side view of an order book that is
//! fed by several exchange streams, reconciles each venue's snapshot/delta
//! protocol, and assembles the top-of-book summaries that the service
//! publishes. Prices and quantities are carried as order-preserving `u64`
//! encodings of the venue's decimal numbers (for non-negative finite doubles,
//! the IEEE-754 bit pattern is such an encoding); the surrounding process
//! converts at its I/O boundary.

pub mod exchanges;
pub mod order_book;
