//! Order-book level tests: resting, matching, self-trade prevention,
//! partial fills and price priority.

use matching_engine::orderbook::{Order, Orderbook, OrderSide};
use rand::distributions::{Alphanumeric, DistString};
use rand::thread_rng;

fn generate_order_id() -> String {
    Alphanumeric.sample_string(&mut thread_rng(), 24)
}

#[test]
fn test_add_bid_order() {
    let mut orderbook = Orderbook::new("TEST_MARKET".to_string());
    let mut order = Order {
        order_id: generate_order_id(),
        user_id: "user1".to_string(),
        price: 100,
        quantity: 10,
        filled: 0,
        side: OrderSide::Buy,
    };

    let (fills, executed_qty) = orderbook.add_order(&mut order).unwrap();
    assert_eq!(fills.len(), 0);
    assert_eq!(executed_qty, 0);
    assert_eq!(orderbook.bids.len(), 1);
    assert_eq!(orderbook.asks.len(), 0);
}

#[test]
fn test_add_ask_order() {
    let mut orderbook = Orderbook::new("TEST_MARKET".to_string());
    let mut order = Order {
        order_id: generate_order_id(),
        user_id: "user1".to_string(),
        price: 100,
        quantity: 10,
        filled: 0,
        side: OrderSide::Sell,
    };

    let (fills, executed_qty) = orderbook.add_order(&mut order).unwrap();
    assert_eq!(fills.len(), 0);
    assert_eq!(executed_qty, 0);
    assert_eq!(orderbook.bids.len(), 0);
    assert_eq!(orderbook.asks.len(), 1);
}

#[test]
fn test_match_orders_different_users() {
    let mut orderbook = Orderbook::new("TEST_MARKET".to_string());

    let mut buy_order = Order {
        order_id: generate_order_id(),
        user_id: "user1".to_string(),
        price: 100,
        quantity: 5,
        filled: 0,
        side: OrderSide::Buy,
    };

    let (fills, executed_qty) = orderbook.add_order(&mut buy_order).unwrap();
    assert_eq!(fills.len(), 0);
    assert_eq!(executed_qty, 0);

    let mut sell_order = Order {
        order_id: generate_order_id(),
        user_id: "user2".to_string(),
        price: 100,
        quantity: 5,
        filled: 0,
        side: OrderSide::Sell,
    };

    let (fills, executed_qty) = orderbook.add_order(&mut sell_order).unwrap();
    assert_eq!(fills.len(), 1);
    assert_eq!(executed_qty, 5);
    assert_eq!(orderbook.bids.len(), 0);
    assert_eq!(orderbook.asks.len(), 0);
}

#[test]
fn test_match_orders_same_user() {
    let mut orderbook = Orderbook::new("TEST_MARKET".to_string());

    let mut buy_order = Order {
        order_id: generate_order_id(),
        user_id: "user1".to_string(),
        price: 100,
        quantity: 5,
        filled: 0,
        side: OrderSide::Buy,
    };

    let (fills, executed_qty) = orderbook.add_order(&mut buy_order).unwrap();
    assert_eq!(fills.len(), 0);
    assert_eq!(executed_qty, 0);

    let mut sell_order = Order {
        order_id: generate_order_id(),
        user_id: "user1".to_string(),
        price: 100,
        quantity: 5,
        filled: 0,
        side: OrderSide::Sell,
    };

    let (fills, executed_qty) = orderbook.add_order(&mut sell_order).unwrap();
    assert_eq!(fills.len(), 0);
    assert_eq!(executed_qty, 0);
    assert_eq!(orderbook.bids.len(), 1);
    assert_eq!(orderbook.asks.len(), 1);
}

#[test]
fn test_partial_match() {
    let mut orderbook = Orderbook::new("TEST_MARKET".to_string());

    let mut buy_order = Order {
        order_id: generate_order_id(),
        user_id: "user1".to_string(),
        price: 100,
        quantity: 10,
        filled: 0,
        side: OrderSide::Buy,
    };

    let (fills, executed_qty) = orderbook.add_order(&mut buy_order).unwrap();
    assert_eq!(fills.len(), 0);
    assert_eq!(executed_qty, 0);

    let mut sell_order = Order {
        order_id: generate_order_id(),
        user_id: "user2".to_string(),
        price: 100,
        quantity: 5,
        filled: 0,
        side: OrderSide::Sell,
    };

    let (fills, executed_qty) = orderbook.add_order(&mut sell_order).unwrap();
    assert_eq!(fills.len(), 1);
    assert_eq!(executed_qty, 5);
    assert_eq!(orderbook.bids.len(), 1);
    assert_eq!(orderbook.asks.len(), 0);

    let remaining_qty =
        orderbook.bids[0].orders[0].quantity - orderbook.bids[0].orders[0].filled;
    assert_eq!(remaining_qty, 5);
}

#[test]
fn test_price_priority() {
    let mut orderbook = Orderbook::new("TEST_MARKET".to_string());

    let mut buy_order1 = Order {
        order_id: generate_order_id(),
        user_id: "user1".to_string(),
        price: 100,
        quantity: 5,
        filled: 0,
        side: OrderSide::Buy,
    };

    let mut buy_order2 = Order {
        order_id: generate_order_id(),
        user_id: "user2".to_string(),
        price: 102,
        quantity: 5,
        filled: 0,
        side: OrderSide::Buy,
    };

    orderbook.add_order(&mut buy_order1).unwrap();
    orderbook.add_order(&mut buy_order2).unwrap();

    let mut sell_order = Order {
        order_id: generate_order_id(),
        user_id: "user3".to_string(),
        price: 99,
        quantity: 5,
        filled: 0,
        side: OrderSide::Sell,
    };

    let (fills, executed_qty) = orderbook.add_order(&mut sell_order).unwrap();
    assert_eq!(fills.len(), 1);
    assert_eq!(executed_qty, 5);
    assert_eq!(fills[0].price, 102);
    assert_eq!(orderbook.bids.len(), 1);
}

#[test]
fn test_trade_ids_strictly_increase() {
    let mut orderbook = Orderbook::new("TEST_MARKET".to_string());
    let mut b1 = Order {
        order_id: generate_order_id(),
        user_id: "user1".to_string(),
        price: 101,
        quantity: 3,
        filled: 0,
        side: OrderSide::Buy,
    };
    let mut b2 = Order {
        order_id: generate_order_id(),
        user_id: "user2".to_string(),
        price: 100,
        quantity: 4,
        filled: 0,
        side: OrderSide::Buy,
    };
    orderbook.add_order(&mut b1).unwrap();
    orderbook.add_order(&mut b2).unwrap();

    let mut s = Order {
        order_id: generate_order_id(),
        user_id: "user3".to_string(),
        price: 99,
        quantity: 7,
        filled: 0,
        side: OrderSide::Sell,
    };
    let (fills, executed) = orderbook.add_order(&mut s).unwrap();
    assert_eq!(executed, 7);
    assert_eq!(fills.len(), 2);
    assert_eq!(fills[0].trade_id, 1);
    assert_eq!(fills[1].trade_id, 2);
    assert!(fills[0].trade_id < fills[1].trade_id);
    // better price first, maker prices win
    assert_eq!(fills[0].price, 101);
    assert_eq!(fills[1].price, 100);
}

#[test]
fn test_time_priority_within_level() {
    let mut orderbook = Orderbook::new("TEST_MARKET".to_string());
    let first_id = generate_order_id();
    let mut b1 = Order {
        order_id: first_id.clone(),
        user_id: "user1".to_string(),
        price: 100,
        quantity: 5,
        filled: 0,
        side: OrderSide::Buy,
    };
    let mut b2 = Order {
        order_id: generate_order_id(),
        user_id: "user2".to_string(),
        price: 100,
        quantity: 5,
        filled: 0,
        side: OrderSide::Buy,
    };
    orderbook.add_order(&mut b1).unwrap();
    orderbook.add_order(&mut b2).unwrap();

    let mut s = Order {
        order_id: generate_order_id(),
        user_id: "user3".to_string(),
        price: 100,
        quantity: 3,
        filled: 0,
        side: OrderSide::Sell,
    };
    let (fills, _) = orderbook.add_order(&mut s).unwrap();
    assert_eq!(fills.len(), 1);
    // the earlier resting order at the level is filled first
    assert_eq!(fills[0].marker_order_id, first_id);
    assert_eq!(fills[0].other_user_id, "user1");
}

#[test]
fn test_cancel_bid_releases_level() {
    let mut orderbook = Orderbook::new("TEST_MARKET".to_string());
    let oid = generate_order_id();
    let mut b = Order {
        order_id: oid.clone(),
        user_id: "user1".to_string(),
        price: 100,
        quantity: 5,
        filled: 0,
        side: OrderSide::Buy,
    };
    orderbook.add_order(&mut b).unwrap();
    assert_eq!(orderbook.bids.len(), 1);

    let price = orderbook.cancel_bid(&oid).unwrap();
    assert_eq!(price, 100);
    assert_eq!(orderbook.bids.len(), 0);

    let err = orderbook.cancel_bid(&oid);
    assert!(err.is_err());
    assert_eq!(err.unwrap_err(), "Order not found");
}

#[test]
fn test_get_depth_aggregates_levels() {
    // tick fields: prices carry two decimals, quantities two
    let mut orderbook = Orderbook::new("TEST_MARKET".to_string());
    for (user, qty) in [("u1", 400u64), ("u2", 600u64)] {
        let mut b = Order {
            order_id: generate_order_id(),
            user_id: user.to_string(),
            price: 10000,
            quantity: qty,
            filled: 0,
            side: OrderSide::Buy,
        };
        orderbook.add_order(&mut b).unwrap();
    }
    let mut a = Order {
        order_id: generate_order_id(),
        user_id: "u3".to_string(),
        price: 10550,
        quantity: 250,
        filled: 0,
        side: OrderSide::Sell,
    };
    orderbook.add_order(&mut a).unwrap();

    let depth = orderbook.get_depth();
    assert_eq!(depth.bids.len(), 1);
    assert_eq!(depth.bids[0].0, "100");
    assert_eq!(depth.bids[0].1, "10");
    assert_eq!(depth.asks.len(), 1);
    assert_eq!(depth.asks[0].0, "105.5");
    assert_eq!(depth.asks[0].1, "2.5");
}

#[test]
fn test_get_open_orders_filters_user() {
    let mut orderbook = Orderbook::new("TEST_MARKET".to_string());
    let mut b1 = Order {
        order_id: generate_order_id(),
        user_id: "alice".to_string(),
        price: 100,
        quantity: 5,
        filled: 0,
        side: OrderSide::Buy,
    };
    let mut a1 = Order {
        order_id: generate_order_id(),
        user_id: "alice".to_string(),
        price: 110,
        quantity: 3,
        filled: 0,
        side: OrderSide::Sell,
    };
    let mut b2 = Order {
        order_id: generate_order_id(),
        user_id: "bob".to_string(),
        price: 99,
        quantity: 7,
        filled: 0,
        side: OrderSide::Buy,
    };
    orderbook.add_order(&mut b1).unwrap();
    orderbook.add_order(&mut a1).unwrap();
    orderbook.add_order(&mut b2).unwrap();

    let alice_orders = orderbook.get_open_orders("alice");
    assert_eq!(alice_orders.len(), 2);
    assert_eq!(alice_orders[0].price, 100);
    assert_eq!(alice_orders[1].price, 110);
    let bob_orders = orderbook.get_open_orders("bob");
    assert_eq!(bob_orders.len(), 1);
    assert_eq!(bob_orders[0].price, 99);
}
