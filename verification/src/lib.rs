//! Order matching, wire protocol and journaling for a low-latency trading
//! server, with the pure decision logic of its companion bot service.
//!
//! Everything in this crate is verified: the order book keeps price-time
//! priority, the binary protocol parses exactly what it encodes, and the
//! write-ahead-log framing reads back exactly the records it wrote.
//! Sockets, threads, files and clocks stay outside, in the application.

pub mod bot;
mod clock;
pub mod engine;
pub mod error;
pub mod marketdata;
pub mod metrics;
pub mod orderbook;
pub mod protocol;
pub mod server;
pub mod session;
pub mod text;
pub mod wal;

pub use error::Error;

use vstd::prelude::*;

verus! {

/// Fixed-point scale applied to all price values on the wire and in the book.
/// `1.00` is encoded as `100_000_000`.
pub const PRICE_SCALE: i64 = 100_000_000;

/// Price tick. Negative values are legal (spreads, P&L deltas).
pub type Price = i64;

/// Order quantity in whole units.
pub type Qty = u64;

/// Globally unique order identifier assigned by the client.
pub type OrderId = u64;

/// Identifier for a tradable instrument; ids are dense and assigned at startup.
pub type SymbolId = u32;

/// Opaque per-connection identifier used to route execution reports back to
/// the client that submitted the order.
pub type ConnId = u64;

} // verus!
