use clob::book::VecOrderBook;
use clob::engine::{cancel_order, place_limit_order, PlaceOrderResult};
use clob::errors::ErrorCode;
use clob::event_queue::EventQueue;
use clob::market::{init_market, Market};
use clob::order::{Side, TimeInForce};
use clob::user_balance::UserBalance;

const BASE_MINT: u64 = 1;
const QUOTE_MINT: u64 = 2;
const MARKET_ID: u64 = 7;
const ALICE: u64 = 11;
const BOB: u64 = 22;
const CHARLIE: u64 = 33;

struct Venue {
    market: Market,
    bids: VecOrderBook,
    asks: VecOrderBook,
    queue: EventQueue,
}

fn new_venue() -> Venue {
    Venue {
        market: init_market(BASE_MINT, QUOTE_MINT, 1_000_000, 1_000).unwrap(),
        bids: VecOrderBook::new(Side::Bid),
        asks: VecOrderBook::new(Side::Ask),
        queue: EventQueue::new(),
    }
}

fn place(
    v: &mut Venue,
    bal: &mut UserBalance,
    side: Side,
    price: u64,
    qty: u64,
    tif: TimeInForce,
) -> Result<PlaceOrderResult, ErrorCode> {
    place_limit_order(
        &mut v.market,
        &mut v.bids,
        &mut v.asks,
        &mut v.queue,
        bal,
        MARKET_ID,
        side,
        price,
        qty,
        tif,
        0,
    )
}

#[test]
fn test_orderbook_basic_matching() {
    let mut v = new_venue();
    let mut alice = UserBalance::new(ALICE);
    let mut bob = UserBalance::new(BOB);

    let deposit_result = alice.deposit(&v.market, BASE_MINT, 100_000_000);
    assert!(deposit_result.is_ok(), "Alice's base deposit should succeed");
    let deposit_result = bob.deposit(&v.market, QUOTE_MINT, 100_000_000);
    assert!(deposit_result.is_ok(), "Bob's quote deposit should succeed");

    // Alice places a sell order (ask): 10 lots at price 5 (order id 1).
    let result = place(&mut v, &mut alice, Side::Ask, 5, 10, TimeInForce::GTC);
    assert!(result.is_ok(), "Alice's ask order should be placed successfully");

    let order_in_asks = v.asks.get_order(1);
    assert!(order_in_asks.is_some(), "Order 1 should be in asks orderbook");
    let alice_order = order_in_asks.unwrap();
    assert_eq!(alice_order.owner, ALICE, "Order owner should be Alice");
    assert_eq!(alice_order.price, 5, "Order price should be 5");
    assert_eq!(alice_order.quantity, 10, "Order quantity should be 10");
    assert_eq!(alice_order.remaining_quantity, 10, "Order remaining quantity should be 10");

    // Bob places a buy order (bid): 5 lots at price 5 (order id 2, fully matches).
    let result = place(&mut v, &mut bob, Side::Bid, 5, 5, TimeInForce::GTC);
    assert!(result.is_ok(), "Bob's bid order should match completely");

    let bob_order_in_bids = v.bids.get_order(2);
    assert!(bob_order_in_bids.is_none(), "Bob's order should not be in bids (fully matched)");

    let alice_order_after = v.asks.get_order(1);
    assert!(alice_order_after.is_some(), "Alice's order should still exist");
    assert_eq!(
        alice_order_after.unwrap().remaining_quantity,
        5,
        "Alice's remaining quantity should be 5"
    );

    // Bob places another buy order at a lower price (order id 3, no match).
    let result = place(&mut v, &mut bob, Side::Bid, 4, 3, TimeInForce::GTC);
    assert!(result.is_ok(), "Bob's lower-price bid should be placed without matching");

    let bob_order_in_bids = v.bids.get_order(3);
    assert!(bob_order_in_bids.is_some(), "Bob's order 3 should be in bids orderbook");
    let bob_order = bob_order_in_bids.unwrap();
    assert_eq!(bob_order.owner, BOB, "Order owner should be Bob");
    assert_eq!(bob_order.price, 4, "Order price should be 4");
    assert_eq!(bob_order.quantity, 3, "Order quantity should be 3");
    assert_eq!(bob_order.remaining_quantity, 3, "Order remaining quantity should be 3");

    assert_eq!(v.bids.len(), 1, "Should have 1 bid order");
    assert_eq!(v.asks.len(), 1, "Should have 1 ask order");

    // Bob cancels his resting bid (order id 3).
    let result = cancel_order(&v.market, &mut v.bids, &mut v.asks, &mut bob, 3, Side::Bid);
    assert!(result.is_ok(), "Bob should be able to cancel his order: {:?}", result.err());

    let bob_order_after_cancel = v.bids.get_order(3);
    assert!(
        bob_order_after_cancel.is_none(),
        "Bob's order 3 should be removed from bids after cancellation"
    );
    assert_eq!(v.bids.len(), 0, "Should have 0 bid orders after cancellation");
}

#[test]
fn test_partial_fills_and_price_time_priority() {
    let mut v = new_venue();
    let mut alice = UserBalance::new(ALICE);
    let mut bob = UserBalance::new(BOB);
    let mut charlie = UserBalance::new(CHARLIE);
    alice.deposit(&v.market, BASE_MINT, 100_000_000).unwrap();
    bob.deposit(&v.market, QUOTE_MINT, 100_000_000).unwrap();
    charlie.deposit(&v.market, QUOTE_MINT, 100_000_000).unwrap();

    // Alice places a large sell order (order id 1).
    place(&mut v, &mut alice, Side::Ask, 10, 50, TimeInForce::GTC).unwrap();

    let alice_order = v.asks.get_order(1);
    assert!(alice_order.is_some(), "Alice's order should be in asks");
    assert_eq!(alice_order.unwrap().remaining_quantity, 50, "Alice should have 50 remaining");

    // Bob places a smaller buy order at the same price (order id 2).
    place(&mut v, &mut bob, Side::Bid, 10, 20, TimeInForce::GTC).unwrap();

    let alice_order_after_bob = v.asks.get_order(1);
    assert!(alice_order_after_bob.is_some(), "Alice's order should still exist");
    assert_eq!(
        alice_order_after_bob.unwrap().remaining_quantity,
        30,
        "Alice should have 30 remaining after Bob's fill"
    );

    let bob_order = v.bids.get_order(2);
    assert!(bob_order.is_none(), "Bob's order should be fully filled and removed");

    // Charlie takes the rest (order id 3).
    place(&mut v, &mut charlie, Side::Bid, 10, 30, TimeInForce::GTC).unwrap();

    let alice_order_after_charlie = v.asks.get_order(1);
    assert!(
        alice_order_after_charlie.is_none(),
        "Alice's order should be fully filled and removed"
    );
    let charlie_order = v.bids.get_order(3);
    assert!(charlie_order.is_none(), "Charlie's order should be fully filled and removed");

    assert_eq!(v.bids.len(), 0, "Should have 0 bid orders");
    assert_eq!(v.asks.len(), 0, "Should have 0 ask orders");
}
