//! Wire schema between the engine and its collaborators: requests from
//! the API gateway, replies to it, and the records pushed to the DB
//! writer.  All amounts travel as decimal strings; executed quantities
//! and fill quantities are tick numbers.

use vstd::prelude::*;
use crate::orderbook::{Order, Fill, OrderSide};

verus! {

/// Body of a `CREATE_ORDER` request.
#[derive(Debug)]
pub struct CreateOrderData {
    pub market: String,
    pub price: String,
    pub quantity: String,
    pub side: OrderSide,
}

/// Body of a `CANCEL_ORDER` request.
#[derive(Debug)]
pub struct CancelOrderData {
    pub order_id: String,
    pub market: String,
}

/// Body of an `ON_RAMP` request.
#[derive(Debug)]
pub struct OnRampData {
    pub amount: String,
    pub user_id: String,
    pub txn_id: String,
}

/// Body of a `GET_DEPTH` request.
#[derive(Debug)]
pub struct GetDepthData {
    pub market: String,
}

/// Body of a `GET_OPEN_ORDERS` request.
#[derive(Debug)]
pub struct GetOpenOrdersData {
    pub user_id: String,
    pub market: String,
}

/// A request to the engine.  The requesting user is carried on the
/// envelope, never in the body.
#[derive(Debug)]
pub enum MessageFromApi {
    CreateOrder { data: CreateOrderData },
    CancelOrder { data: CancelOrderData },
    OnRamp { data: OnRampData },
    GetDepth { data: GetDepthData },
    GetOpenOrders { data: GetOpenOrdersData },
}

/// Payload of a depth reply: `(price, quantity)` rows as strings.
#[derive(Debug)]
pub struct DepthPayload {
    pub market: String,
    pub bids: Vec<(String, String)>,
    pub asks: Vec<(String, String)>,
}

/// A reply from the engine to the API gateway.
#[derive(Debug)]
pub enum MessageToApi {
    Depth { payload: DepthPayload },
    OrderPlaced { order_id: String, executed_qty: u64, fills: Vec<Fill> },
    OrderCancelled { order_id: String, executed_qty: u64, remaining_qty: u64 },
    OpenOrders { payload: Vec<Order> },
    Error { message: String },
}

/// A trade record for the DB writer.
#[derive(Debug)]
pub struct TradeMessage {
    pub id: String,
    pub is_buyer_maker: bool,
    pub price: String,
    pub quantity: String,
    pub quote_quantity: String,
    pub timestamp: i64,
    pub market: String,
}

/// An order update for the DB writer.  The maker-side update carries
/// only the order id and the newly executed quantity.
#[derive(Debug)]
pub struct OrderMessage {
    pub order_id: String,
    pub executed_qty: u64,
    pub market: Option<String>,
    pub price: Option<String>,
    pub quantity: Option<String>,
    pub side: Option<OrderSide>,
}

/// A record pushed onto the DB writer's queue.
#[derive(Debug)]
pub enum DbMessage {
    TradeAdded(TradeMessage),
    OrderUpdate(OrderMessage),
}

} // verus!
