use clob::book::VecOrderBook;
use clob::engine::{place_limit_order, PlaceOrderResult};
use clob::errors::ErrorCode;
use clob::event_queue::EventQueue;
use clob::market::{init_market, Market};
use clob::order::{Side, TimeInForce};
use clob::user_balance::UserBalance;

const BASE_MINT: u64 = 1;
const QUOTE_MINT: u64 = 2;
const MARKET_ID: u64 = 7;
const ALICE: u64 = 11;
const BOB: u64 = 22;
const CHARLIE: u64 = 33;

struct Venue {
    market: Market,
    bids: VecOrderBook,
    asks: VecOrderBook,
    queue: EventQueue,
}

fn new_venue() -> Venue {
    Venue {
        market: init_market(BASE_MINT, QUOTE_MINT, 1_000_000, 1_000).unwrap(),
        bids: VecOrderBook::new(Side::Bid),
        asks: VecOrderBook::new(Side::Ask),
        queue: EventQueue::new(),
    }
}

fn funded(owner: u64, market: &Market, mint: u64) -> UserBalance {
    let mut bal = UserBalance::new(owner);
    bal.deposit(market, mint, 100_000_000).unwrap();
    bal
}

fn place(
    v: &mut Venue,
    bal: &mut UserBalance,
    side: Side,
    price: u64,
    qty: u64,
    tif: TimeInForce,
) -> Result<PlaceOrderResult, ErrorCode> {
    place_limit_order(
        &mut v.market,
        &mut v.bids,
        &mut v.asks,
        &mut v.queue,
        bal,
        MARKET_ID,
        side,
        price,
        qty,
        tif,
        0,
    )
}

#[test]
fn test_gtc_orders() {
    let mut v = new_venue();
    let mut alice = funded(ALICE, &v.market, BASE_MINT);
    let mut bob = funded(BOB, &v.market, QUOTE_MINT);

    // Alice places a GTC ask that will not match immediately.
    let result = place(&mut v, &mut alice, Side::Ask, 10, 50, TimeInForce::GTC);
    assert!(result.is_ok(), "GTC ask order should be placed successfully");

    let alice_order = v.asks.get_order(1);
    assert!(alice_order.is_some(), "GTC order should remain in orderbook");

    // Bob places a GTC bid that partially matches.
    let result = place(&mut v, &mut bob, Side::Bid, 10, 30, TimeInForce::GTC);
    assert!(result.is_ok(), "GTC bid order should match partially");

    let alice_order_after = v.asks.get_order(1);
    assert!(alice_order_after.is_some(), "Alice's GTC order should still exist");
    assert_eq!(
        alice_order_after.unwrap().remaining_quantity,
        20,
        "Alice should have 20 remaining after partial fill"
    );

    let bob_order = v.bids.get_order(2);
    assert!(bob_order.is_none(), "Bob's order should be fully filled");
}

#[test]
fn test_ioc_orders() {
    let mut v = new_venue();
    let mut alice = funded(ALICE, &v.market, BASE_MINT);
    let mut bob = funded(BOB, &v.market, QUOTE_MINT);

    // Alice places an ask; Bob's larger IOC bid fills 30 and discards 20.
    place(&mut v, &mut alice, Side::Ask, 10, 30, TimeInForce::GTC).unwrap();
    let result = place(&mut v, &mut bob, Side::Bid, 10, 50, TimeInForce::IOC);
    assert!(result.is_ok(), "IOC bid order should execute successfully");

    let alice_order = v.asks.get_order(1);
    assert!(alice_order.is_none(), "Alice's order should be fully filled");

    let bob_order = v.bids.get_order(2);
    assert!(bob_order.is_none(), "Bob's IOC order should not remain in orderbook");

    assert!(
        v.bids.is_empty() && v.asks.is_empty(),
        "Orderbooks should be empty after IOC"
    );

    // IOC with no match leaves no resting order either.
    let result = place(&mut v, &mut bob, Side::Bid, 5, 10, TimeInForce::IOC);
    assert!(result.is_ok(), "IOC order with no match should succeed");
    assert_eq!(v.bids.len(), 0, "IOC order with no match should not create resting order");
}

#[test]
fn test_fok_orders() {
    let mut v = new_venue();
    let mut alice = funded(ALICE, &v.market, BASE_MINT);
    let mut bob = funded(BOB, &v.market, QUOTE_MINT);

    // A FOK order that can be completely filled succeeds.
    place(&mut v, &mut alice, Side::Ask, 10, 30, TimeInForce::GTC).unwrap();
    let result = place(&mut v, &mut bob, Side::Bid, 10, 30, TimeInForce::FOK);
    assert!(result.is_ok(), "FOK order that can be completely filled should succeed");

    let alice_order = v.asks.get_order(1);
    assert!(alice_order.is_none(), "Alice's order should be fully filled");
    let bob_order = v.bids.get_order(2);
    assert!(bob_order.is_none(), "Bob's FOK order should be fully filled");

    // A FOK order that cannot be completely filled is rejected whole.
    place(&mut v, &mut alice, Side::Ask, 10, 20, TimeInForce::GTC).unwrap();
    let result = place(&mut v, &mut bob, Side::Bid, 10, 50, TimeInForce::FOK);
    assert!(result.is_err(), "FOK order that cannot be completely filled should fail");

    let alice_order_after = v.asks.get_order(3);
    assert!(alice_order_after.is_some(), "Alice's order should remain after failed FOK");
    assert_eq!(
        alice_order_after.unwrap().remaining_quantity,
        20,
        "Alice's order should be unchanged after failed FOK"
    );

    // A FOK order with nothing to match against is rejected too.
    let result = place(&mut v, &mut bob, Side::Bid, 5, 10, TimeInForce::FOK);
    assert!(result.is_err(), "FOK order with no match should fail");
}

#[test]
fn test_mixed_time_in_force_scenarios() {
    let mut v = new_venue();
    let mut alice = funded(ALICE, &v.market, BASE_MINT);
    let mut bob = funded(BOB, &v.market, QUOTE_MINT);
    let mut charlie = funded(CHARLIE, &v.market, QUOTE_MINT);

    // Alice places a large GTC ask.
    place(&mut v, &mut alice, Side::Ask, 10, 100, TimeInForce::GTC).unwrap();

    // Bob's IOC bid partially matches; its remainder is discarded.
    place(&mut v, &mut bob, Side::Bid, 10, 30, TimeInForce::IOC).unwrap();

    let alice_order = v.asks.get_order(1);
    assert!(alice_order.is_some(), "Alice's GTC order should still exist");
    assert_eq!(
        alice_order.unwrap().remaining_quantity,
        70,
        "Alice should have 70 remaining after Bob's IOC"
    );

    // Charlie's FOK bid for exactly the remaining amount succeeds.
    let result = place(&mut v, &mut charlie, Side::Bid, 10, 70, TimeInForce::FOK);
    assert!(result.is_ok(), "Charlie's FOK for exact remaining amount should succeed");

    let alice_order_final = v.asks.get_order(1);
    assert!(alice_order_final.is_none(), "Alice's order should be fully filled");
    let charlie_order = v.bids.get_order(3);
    assert!(charlie_order.is_none(), "Charlie's FOK order should be fully filled");

    assert!(
        v.bids.is_empty() && v.asks.is_empty(),
        "Orderbooks should be empty after mixed scenario"
    );
}
