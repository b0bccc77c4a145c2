//! Core of a limit-order exchange: price-time-priority order books, a
//! per-user balance ledger with lock/settle semantics, the engine that
//! serializes requests against both, and the message types it exchanges
//! with the HTTP gateway, the WebSocket fan-out and the DB writer.
//!
//! All prices and quantities are fixed-point amounts held as integer
//! ticks; conversion to and from the wire's decimal strings happens in
//! `numeric`.

pub mod depth;
pub mod engine;
pub mod gateway;
pub mod ladder;
pub mod laws;
pub mod ledger;
pub mod matching;
pub mod numeric;
pub mod orderbook;
pub mod protocol;
pub mod subscriptions;
pub mod ws;
