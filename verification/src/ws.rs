//! Market-data stream schema for the WebSocket fan-out: compact
//! per-event payloads published on `trade@<market>` and
//! `depth@<market>` channels.

use vstd::prelude::*;

verus! {

/// Ticker event payload (optional stream; the engine does not emit it).
#[derive(Debug)]
pub struct TickerData {
    pub c: Option<String>,
    pub h: Option<String>,
    pub l: Option<String>,
    pub v: Option<String>,
    pub volume: Option<String>,
    pub s: Option<String>,
    pub id: i64,
    pub e: String,
}

/// Depth event payload: updated `[price, quantity]` rows per side.
#[derive(Debug)]
pub struct DepthData {
    pub b: Option<Vec<(String, String)>>,
    pub a: Option<Vec<(String, String)>>,
    pub e: String,
}

/// Trade event payload.
#[derive(Debug)]
pub struct TradeData {
    pub e: String,
    pub t: i64,
    pub m: bool,
    pub p: String,
    pub q: String,
    pub s: String,
}

/// The payload of a stream message.
#[derive(Debug)]
pub enum WsMessageData {
    Ticker(TickerData),
    Depth(DepthData),
    Trade(TradeData),
}

/// A stream message: the channel name and its payload.
#[derive(Debug)]
pub struct WsMessage {
    pub stream: String,
    pub data: WsMessageData,
}

} // verus!
