//! Types the HTTP gateway exchanges with its clients and with the
//! engine: the request schema it pushes on the bus, the reply schema it
//! awaits, authentication forms, and route parameter shapes.

use vstd::prelude::*;
use crate::orderbook::OrderSide;
use crate::protocol::{CreateOrderData, CancelOrderData, OnRampData, GetDepthData};

verus! {

/// A request envelope body pushed to the engine's queue.
#[derive(Debug)]
pub enum MessageToEngine {
    CreateOrder { data: CreateOrderData },
    CancelOrder { data: CancelOrderData },
    OnRamp { data: OnRampData },
    GetDepth { data: GetDepthData },
    GetOpenOrders { data: GetOpenOrdersData },
}

/// Body of the gateway's open-orders request: the market alone; the
/// user rides on the envelope.
#[derive(Debug)]
pub struct GetOpenOrdersData {
    pub market: String,
}

/// Depth payload as the gateway re-serves it.
#[derive(Debug)]
pub struct DepthPayload {
    pub market: String,
    pub bids: Vec<(String, String)>,
    pub asks: Vec<(String, String)>,
}

/// A fill as the gateway re-serves it.
#[derive(Debug)]
pub struct Fill {
    pub price: String,
    pub qty: u64,
    pub trade_id: u64,
}

/// Payload of an order-placed reply.
#[derive(Debug)]
pub struct OrderPlacedPayload {
    pub order_id: String,
    pub executed_qty: u64,
    pub fills: Vec<Fill>,
}

/// Payload of an order-cancelled reply.
#[derive(Debug)]
pub struct OrderCancelledPayload {
    pub order_id: String,
    pub executed_qty: u64,
    pub remaining_qty: u64,
}

/// One open order as the gateway re-serves it.
#[derive(Debug)]
pub struct OpenOrder {
    pub order_id: String,
    pub executed_qty: u64,
    pub price: String,
    pub quantity: String,
    pub side: OrderSide,
    pub user_id: String,
}

/// A reply envelope awaited by the gateway.
#[derive(Debug)]
pub enum MessageFromOrderbook {
    Depth { payload: DepthPayload },
    OrderPlaced { payload: OrderPlacedPayload },
    OrderCancelled { payload: OrderCancelledPayload },
    OpenOrders { payload: Vec<OpenOrder> },
}

/// Login form of the auth routes.
#[derive(Debug)]
pub struct LoginForm {
    pub email: String,
    pub password: String,
}

/// Signup form of the auth routes.
#[derive(Debug)]
pub struct SignupForm {
    pub username: String,
    pub email: String,
    pub password: String,
}

/// Path parameter of the depth route.
#[derive(Debug)]
pub struct MarketPath {
    pub market: String,
}

/// Query parameters of the open-orders route.
#[derive(Debug)]
pub struct OpenOrdersQuery {
    pub market: String,
}

/// The authentication middleware factory; the middleware itself wraps
/// an inner service and lives with the HTTP stack.
#[derive(Clone, Debug)]
pub struct AuthService;

impl AuthService {
    /// A fresh factory.
    pub fn new() -> (r: AuthService)
        ensures
            r == (AuthService {}),
    {
        AuthService
    }
}

} // verus!
