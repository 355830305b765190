//! A single-instrument limit order book.
//!
//! The book accepts buy and sell limit orders, matches crossing orders by
//! price-time priority, and tracks each order's lifecycle.  The in-memory
//! book is authoritative; mutations are reported back to the caller as
//! trade and order-state events so that a surrounding process can write
//! them behind to a durable store and rebuild the book from that store on
//! startup.

pub mod book;
pub mod engine;
pub mod index;
pub mod matching;
pub mod order;
pub mod wire;
