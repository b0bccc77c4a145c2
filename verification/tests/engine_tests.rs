//! Engine-level scenarios: resting and matching with settlement, price
//! improvement, partial fills, self-trade prevention, cancellation and
//! insufficient funds, plus the request dispatch.

use matching_engine::engine::{Engine, ProcessOutput};
use matching_engine::ledger::UserBalance;
use matching_engine::orderbook::{Orderbook, OrderSide};
use matching_engine::protocol::{
    CancelOrderData, CreateOrderData, GetDepthData, GetOpenOrdersData, MessageFromApi,
    MessageToApi, OnRampData,
};

// ticks per whole unit at each scale
const PT: u64 = 100; // price
const QT: u64 = 100; // quantity
const AT: u64 = 10000; // balances

fn engine_with_market() -> Engine {
    let mut engine = Engine::new();
    engine.add_orderbook(Orderbook::new("SOL_USDC".to_string()));
    engine
}

fn seed(engine: &mut Engine, user: &str) {
    assert!(engine.deposit(user, "SOL", 100 * AT));
    assert!(engine.deposit(user, "USDC", 100000 * AT));
}

fn bal(engine: &Engine, user: &str, asset: &str) -> UserBalance {
    engine.balances.balance_of(user, asset).unwrap()
}

#[test]
fn scenario_resting_bid_later_matched() {
    let mut engine = engine_with_market();
    seed(&mut engine, "A");
    seed(&mut engine, "B");

    let (executed, fills, order_id) = engine
        .create_order("SOL_USDC", "100", "10", OrderSide::Buy, "A")
        .unwrap();
    assert_eq!(executed, 0);
    assert_eq!(fills.len(), 0);
    assert_eq!(order_id.len(), 26);
    assert_eq!(bal(&engine, "A", "USDC"),
        UserBalance { available: 99000 * AT, locked: 1000 * AT });

    let (executed, fills, _) = engine
        .create_order("SOL_USDC", "100", "10", OrderSide::Sell, "B")
        .unwrap();
    assert_eq!(executed, 10 * QT);
    assert_eq!(fills.len(), 1);
    assert_eq!(fills[0].price, 100 * PT);
    assert_eq!(fills[0].qty, 10 * QT);
    assert_eq!(fills[0].trade_id, 1);
    assert_eq!(fills[0].other_user_id, "A");

    assert_eq!(bal(&engine, "A", "SOL"), UserBalance { available: 110 * AT, locked: 0 });
    assert_eq!(bal(&engine, "A", "USDC"), UserBalance { available: 99000 * AT, locked: 0 });
    assert_eq!(bal(&engine, "B", "SOL"), UserBalance { available: 90 * AT, locked: 0 });
    assert_eq!(bal(&engine, "B", "USDC"), UserBalance { available: 101000 * AT, locked: 0 });
    assert_eq!(engine.orderbooks[0].bids.len(), 0);
    assert_eq!(engine.orderbooks[0].asks.len(), 0);
}

#[test]
fn scenario_price_improvement() {
    let mut engine = engine_with_market();
    seed(&mut engine, "A");
    seed(&mut engine, "B");

    engine
        .create_order("SOL_USDC", "105", "5", OrderSide::Buy, "A")
        .unwrap();
    let (executed, fills, _) = engine
        .create_order("SOL_USDC", "100", "5", OrderSide::Sell, "B")
        .unwrap();
    assert_eq!(executed, 5 * QT);
    assert_eq!(fills.len(), 1);
    // the maker's price wins
    assert_eq!(fills[0].price, 105 * PT);
    assert_eq!(bal(&engine, "B", "USDC"), UserBalance { available: 100525 * AT, locked: 0 });
}

#[test]
fn scenario_partial_fill_residual() {
    let mut engine = engine_with_market();
    seed(&mut engine, "A");
    seed(&mut engine, "B");

    engine
        .create_order("SOL_USDC", "100", "10", OrderSide::Buy, "A")
        .unwrap();
    let (executed, fills, _) = engine
        .create_order("SOL_USDC", "100", "3", OrderSide::Sell, "B")
        .unwrap();
    assert_eq!(executed, 3 * QT);
    assert_eq!(fills.len(), 1);
    assert_eq!(fills[0].qty, 3 * QT);

    let book = &engine.orderbooks[0];
    assert_eq!(book.bids.len(), 1);
    assert_eq!(book.bids[0].orders[0].filled, 3 * QT);
    assert_eq!(book.bids[0].orders[0].quantity, 10 * QT);

    let depth = book.get_depth();
    assert_eq!(depth.bids.len(), 1);
    assert_eq!(depth.bids[0].0, "100");
    assert_eq!(depth.bids[0].1, "7");
}

#[test]
fn scenario_self_trade_prevention() {
    let mut engine = engine_with_market();
    seed(&mut engine, "A");

    let (e1, f1, _) = engine
        .create_order("SOL_USDC", "100", "5", OrderSide::Buy, "A")
        .unwrap();
    let (e2, f2, _) = engine
        .create_order("SOL_USDC", "100", "5", OrderSide::Sell, "A")
        .unwrap();
    assert_eq!(e1, 0);
    assert_eq!(e2, 0);
    assert_eq!(f1.len(), 0);
    assert_eq!(f2.len(), 0);

    let depth = engine.orderbooks[0].get_depth();
    assert_eq!(depth.bids.len(), 1);
    assert_eq!(depth.bids[0].0, "100");
    assert_eq!(depth.bids[0].1, "5");
    assert_eq!(depth.asks.len(), 1);
    assert_eq!(depth.asks[0].0, "100");
    assert_eq!(depth.asks[0].1, "5");
}

#[test]
fn scenario_cancel_releases_funds() {
    let mut engine = engine_with_market();
    seed(&mut engine, "A");

    let (_, _, order_id) = engine
        .create_order("SOL_USDC", "100", "10", OrderSide::Buy, "A")
        .unwrap();
    assert_eq!(bal(&engine, "A", "USDC"),
        UserBalance { available: 99000 * AT, locked: 1000 * AT });

    let out = engine.process(
        MessageFromApi::CancelOrder {
            data: CancelOrderData { order_id: order_id.clone(), market: "SOL_USDC".to_string() },
        },
        &"client".to_string(),
        0,
    );
    match out.reply {
        Some(MessageToApi::OrderCancelled { order_id: oid, executed_qty, remaining_qty }) => {
            assert_eq!(oid, order_id);
            assert_eq!(executed_qty, 0);
            assert_eq!(remaining_qty, 10 * QT);
        }
        other => panic!("unexpected reply: {:?}", other),
    }
    assert_eq!(bal(&engine, "A", "USDC"), UserBalance { available: 100000 * AT, locked: 0 });
    assert_eq!(engine.orderbooks[0].bids.len(), 0);
}

#[test]
fn scenario_insufficient_funds() {
    let mut engine = engine_with_market();
    assert!(engine.deposit("A", "USDC", 50 * AT));

    let before_bids = engine.orderbooks[0].bids.len();
    let out = engine.process(
        MessageFromApi::CreateOrder {
            data: CreateOrderData {
                market: "SOL_USDC".to_string(),
                price: "100".to_string(),
                quantity: "1".to_string(),
                side: OrderSide::Buy,
            },
        },
        &"A".to_string(),
        0,
    );
    match out.reply {
        Some(MessageToApi::Error { message }) => assert_eq!(message, "Insufficient funds"),
        other => panic!("unexpected reply: {:?}", other),
    }
    assert_eq!(out.db_messages.len(), 0);
    assert_eq!(out.ws_messages.len(), 0);
    assert_eq!(engine.orderbooks[0].bids.len(), before_bids);
    assert_eq!(bal(&engine, "A", "USDC"), UserBalance { available: 50 * AT, locked: 0 });
}

#[test]
fn create_order_rejects_bad_inputs() {
    let mut engine = engine_with_market();
    seed(&mut engine, "A");

    let r = engine.create_order("SOL_USDC", "1x0", "10", OrderSide::Buy, "A");
    assert_eq!(r.unwrap_err(), "Invalid price");
    let r = engine.create_order("SOL_USDC", "100", "", OrderSide::Buy, "A");
    assert_eq!(r.unwrap_err(), "Invalid quantity");
    let r = engine.create_order("BTC_USDC", "100", "10", OrderSide::Buy, "A");
    assert_eq!(r.unwrap_err(), "No orderbook found");
    let r = engine.cancel_order("nosuchorder", "SOL_USDC");
    assert_eq!(r.unwrap_err(), "Order not found");
}

#[test]
fn process_emits_trade_and_depth_events() {
    let mut engine = engine_with_market();
    seed(&mut engine, "A");
    seed(&mut engine, "B");
    engine
        .create_order("SOL_USDC", "100", "10", OrderSide::Buy, "A")
        .unwrap();

    let out: ProcessOutput = engine.process(
        MessageFromApi::CreateOrder {
            data: CreateOrderData {
                market: "SOL_USDC".to_string(),
                price: "100".to_string(),
                quantity: "4".to_string(),
                side: OrderSide::Sell,
            },
        },
        &"B".to_string(),
        1234,
    );
    match out.reply {
        Some(MessageToApi::OrderPlaced { executed_qty, fills, .. }) => {
            assert_eq!(executed_qty, 4 * QT);
            assert_eq!(fills.len(), 1);
        }
        other => panic!("unexpected reply: {:?}", other),
    }
    // one trade record, the taker's update, one maker update
    assert_eq!(out.db_messages.len(), 3);
    match &out.db_messages[0] {
        matching_engine::protocol::DbMessage::TradeAdded(t) => {
            assert_eq!(t.id, "1");
            assert_eq!(t.price, "100");
            assert_eq!(t.quantity, "4");
            assert_eq!(t.quote_quantity, "400");
            assert_eq!(t.timestamp, 1234);
            assert_eq!(t.market, "SOL_USDC");
        }
        other => panic!("unexpected db message: {:?}", other),
    }
    // the touched depth rows, then one trade event
    assert_eq!(out.ws_messages.len(), 2);
    assert_eq!(out.ws_messages[0].stream, "depth@SOL_USDC");
    match &out.ws_messages[0].data {
        matching_engine::ws::WsMessageData::Depth(d) => {
            // the seller touched the bid level at 100; its own side has
            // no resting row at that price
            assert_eq!(d.b, Some(vec![("100".to_string(), "6".to_string())]));
            assert_eq!(d.a, Some(vec![]));
        }
        other => panic!("unexpected ws payload: {:?}", other),
    }
    assert_eq!(out.ws_messages[1].stream, "trade@SOL_USDC");
    match &out.ws_messages[1].data {
        matching_engine::ws::WsMessageData::Trade(t) => {
            assert_eq!(t.e, "trade");
            assert_eq!(t.t, 1);
            assert_eq!(t.p, "100");
            assert_eq!(t.q, "4");
            assert_eq!(t.s, "SOL_USDC");
        }
        other => panic!("unexpected ws payload: {:?}", other),
    }
}

#[test]
fn process_get_depth_and_open_orders() {
    let mut engine = engine_with_market();
    seed(&mut engine, "A");
    engine
        .create_order("SOL_USDC", "100", "10", OrderSide::Buy, "A")
        .unwrap();

    let out = engine.process(
        MessageFromApi::GetDepth { data: GetDepthData { market: "SOL_USDC".to_string() } },
        &"client".to_string(),
        0,
    );
    match out.reply {
        Some(MessageToApi::Depth { payload }) => {
            assert_eq!(payload.market, "SOL_USDC");
            assert_eq!(payload.bids.len(), 1);
            assert_eq!(payload.bids[0].0, "100");
            assert_eq!(payload.bids[0].1, "10");
            assert_eq!(payload.asks.len(), 0);
        }
        other => panic!("unexpected reply: {:?}", other),
    }

    let out = engine.process(
        MessageFromApi::GetDepth { data: GetDepthData { market: "NOPE".to_string() } },
        &"client".to_string(),
        0,
    );
    match out.reply {
        Some(MessageToApi::Depth { payload }) => {
            assert_eq!(payload.bids.len(), 0);
            assert_eq!(payload.asks.len(), 0);
        }
        other => panic!("unexpected reply: {:?}", other),
    }

    let out = engine.process(
        MessageFromApi::GetOpenOrders {
            data: GetOpenOrdersData { user_id: "A".to_string(), market: "SOL_USDC".to_string() },
        },
        &"client".to_string(),
        0,
    );
    match out.reply {
        Some(MessageToApi::OpenOrders { payload }) => {
            assert_eq!(payload.len(), 1);
            assert_eq!(payload[0].user_id, "A");
            assert_eq!(payload[0].price, 100 * PT);
        }
        other => panic!("unexpected reply: {:?}", other),
    }
}

#[test]
fn on_ramp_is_idempotent_per_txn() {
    let mut engine = engine_with_market();
    assert!(engine.on_ramp("A", "500", "txn-1"));
    assert_eq!(bal(&engine, "A", "INR"), UserBalance { available: 500 * AT, locked: 0 });
    // the same transaction id credits nothing the second time
    assert!(!engine.on_ramp("A", "500", "txn-1"));
    assert_eq!(bal(&engine, "A", "INR"), UserBalance { available: 500 * AT, locked: 0 });
    assert!(engine.on_ramp("A", "250.5", "txn-2"));
    assert_eq!(bal(&engine, "A", "INR"),
        UserBalance { available: 7505 * AT / 10, locked: 0 });
    // an unparsable amount is rejected
    assert!(!engine.on_ramp("A", "25x", "txn-3"));

    let out = engine.process(
        MessageFromApi::OnRamp {
            data: OnRampData {
                amount: "10".to_string(),
                user_id: "A".to_string(),
                txn_id: "txn-2".to_string(),
            },
        },
        &"client".to_string(),
        0,
    );
    match out.reply {
        Some(MessageToApi::Error { message }) => assert_eq!(message, "On-ramp rejected"),
        other => panic!("unexpected reply: {:?}", other),
    }
}

#[test]
fn cancel_sell_releases_base_asset() {
    let mut engine = engine_with_market();
    seed(&mut engine, "A");

    let (_, _, order_id) = engine
        .create_order("SOL_USDC", "100", "8", OrderSide::Sell, "A")
        .unwrap();
    assert_eq!(bal(&engine, "A", "SOL"), UserBalance { available: 92 * AT, locked: 8 * AT });

    let (executed, remaining, price) = engine.cancel_order(&order_id, "SOL_USDC").unwrap();
    assert_eq!(executed, 0);
    assert_eq!(remaining, 8 * QT);
    assert_eq!(price, 100 * PT);
    assert_eq!(bal(&engine, "A", "SOL"), UserBalance { available: 100 * AT, locked: 0 });
    assert_eq!(engine.orderbooks[0].asks.len(), 0);
}

#[test]
fn cancel_after_partial_fill_releases_remaining_notional() {
    let mut engine = engine_with_market();
    seed(&mut engine, "A");
    seed(&mut engine, "B");

    let (_, _, order_id) = engine
        .create_order("SOL_USDC", "100", "10", OrderSide::Buy, "A")
        .unwrap();
    engine
        .create_order("SOL_USDC", "100", "4", OrderSide::Sell, "B")
        .unwrap();
    // 4 of 10 filled: 400 settled, 600 still locked against the rest
    assert_eq!(bal(&engine, "A", "USDC"),
        UserBalance { available: 99000 * AT, locked: 600 * AT });

    let (executed, remaining, price) = engine.cancel_order(&order_id, "SOL_USDC").unwrap();
    assert_eq!(executed, 4 * QT);
    assert_eq!(remaining, 6 * QT);
    assert_eq!(price, 100 * PT);
    // exactly the remaining notional (6 * 100) comes back
    assert_eq!(bal(&engine, "A", "USDC"), UserBalance { available: 99600 * AT, locked: 0 });
}

#[test]
fn fractional_amounts_trade_exactly() {
    let mut engine = engine_with_market();
    seed(&mut engine, "A");
    seed(&mut engine, "B");

    // 2.5 at 100.5 locks exactly 251.25 in quote
    let (executed, fills, _) = engine
        .create_order("SOL_USDC", "100.5", "2.5", OrderSide::Buy, "A")
        .unwrap();
    assert_eq!(executed, 0);
    assert_eq!(fills.len(), 0);
    assert_eq!(bal(&engine, "A", "USDC"),
        UserBalance { available: 100000 * AT - 25125 * AT / 100, locked: 25125 * AT / 100 });

    let (executed, fills, _) = engine
        .create_order("SOL_USDC", "100.5", "2.5", OrderSide::Sell, "B")
        .unwrap();
    assert_eq!(executed, 25 * QT / 10);
    assert_eq!(fills.len(), 1);
    assert_eq!(fills[0].price, 1005 * PT / 10);

    let depth = engine.orderbooks[0].get_depth();
    assert_eq!(depth.bids.len(), 0);
    assert_eq!(depth.asks.len(), 0);
    assert_eq!(bal(&engine, "A", "SOL"),
        UserBalance { available: 1025 * AT / 10, locked: 0 });
    assert_eq!(bal(&engine, "B", "USDC"),
        UserBalance { available: 100000 * AT + 25125 * AT / 100, locked: 0 });
    // amounts finer than the declared ticks are invalid
    let r = engine.create_order("SOL_USDC", "100.505", "1", OrderSide::Buy, "A");
    assert_eq!(r.unwrap_err(), "Invalid price");
    let r = engine.create_order("SOL_USDC", "100", "1.005", OrderSide::Buy, "A");
    assert_eq!(r.unwrap_err(), "Invalid quantity");
}

#[test]
fn cancel_event_carries_rows_at_the_cancelled_price() {
    let mut engine = engine_with_market();
    seed(&mut engine, "A");
    seed(&mut engine, "B");
    // another resting level that the event must not carry
    engine
        .create_order("SOL_USDC", "95", "1", OrderSide::Buy, "B")
        .unwrap();
    let (_, _, order_id) = engine
        .create_order("SOL_USDC", "100", "10", OrderSide::Buy, "A")
        .unwrap();

    let out = engine.process(
        MessageFromApi::CancelOrder {
            data: CancelOrderData { order_id, market: "SOL_USDC".to_string() },
        },
        &"client".to_string(),
        0,
    );
    assert_eq!(out.ws_messages.len(), 1);
    match &out.ws_messages[0].data {
        matching_engine::ws::WsMessageData::Depth(d) => {
            // the level at 100 vanished, so its row list is empty; the
            // untouched level at 95 is not in the event
            assert_eq!(d.b, Some(vec![]));
            assert_eq!(d.a, Some(vec![]));
        }
        other => panic!("unexpected ws payload: {:?}", other),
    }
}

#[test]
fn conservation_without_on_ramp() {
    let mut engine = engine_with_market();
    seed(&mut engine, "A");
    seed(&mut engine, "B");

    let total = |e: &Engine, asset: &str| -> u128 {
        let mut sum: u128 = 0;
        for user in ["A", "B"] {
            if let Some(b) = e.balances.balance_of(user, asset) {
                sum += b.available as u128 + b.locked as u128;
            }
        }
        sum
    };
    let sol0 = total(&engine, "SOL");
    let usdc0 = total(&engine, "USDC");

    engine
        .create_order("SOL_USDC", "101", "7", OrderSide::Buy, "A")
        .unwrap();
    engine
        .create_order("SOL_USDC", "99", "4", OrderSide::Sell, "B")
        .unwrap();
    engine
        .create_order("SOL_USDC", "101", "2", OrderSide::Sell, "B")
        .unwrap();

    assert_eq!(total(&engine, "SOL"), sol0);
    assert_eq!(total(&engine, "USDC"), usdc0);
}
