use clob::book::VecOrderBook;
use clob::engine::{cancel_order, consume_events, place_limit_order, PlaceOrderResult};
use clob::errors::ErrorCode;
use clob::event_queue::EventQueue;
use clob::market::{init_market, Market};
use clob::order::{Side, TimeInForce};
use clob::user_balance::UserBalance;

const BASE_MINT: u64 = 1;
const QUOTE_MINT: u64 = 2;
const MARKET_ID: u64 = 7;
const ALICE: u64 = 11;
const BOB: u64 = 22;
const CHARLIE: u64 = 33;

struct Venue {
    market: Market,
    bids: VecOrderBook,
    asks: VecOrderBook,
    queue: EventQueue,
}

fn new_venue() -> Venue {
    Venue {
        market: init_market(BASE_MINT, QUOTE_MINT, 1_000_000, 1_000).unwrap(),
        bids: VecOrderBook::new(Side::Bid),
        asks: VecOrderBook::new(Side::Ask),
        queue: EventQueue::new(),
    }
}

fn place(
    v: &mut Venue,
    bal: &mut UserBalance,
    side: Side,
    price: u64,
    qty: u64,
    tif: TimeInForce,
) -> Result<PlaceOrderResult, ErrorCode> {
    place_limit_order(
        &mut v.market,
        &mut v.bids,
        &mut v.asks,
        &mut v.queue,
        bal,
        MARKET_ID,
        side,
        price,
        qty,
        tif,
        0,
    )
}

/// Every fill settles at the maker's resting price, not the taker's limit.
#[test]
fn fills_settle_at_maker_price() {
    let mut v = new_venue();
    let mut alice = UserBalance::new(ALICE);
    let mut bob = UserBalance::new(BOB);
    alice.deposit(&v.market, BASE_MINT, 100_000_000).unwrap();
    bob.deposit(&v.market, QUOTE_MINT, 100_000_000).unwrap();

    place(&mut v, &mut alice, Side::Ask, 2000, 5, TimeInForce::GTC).unwrap();
    // Bob is willing to pay 2500 but the maker rests at 2000.
    let out = place(&mut v, &mut bob, Side::Bid, 2500, 5, TimeInForce::GTC).unwrap();
    assert_eq!(out.fills.len(), 1);
    assert_eq!(out.fills[0].price, 2000, "fill price is the maker's resting price");
    // Bob paid 2000 * 5 * 1_000 / 1_000_000 = 10, not 12.
    assert_eq!(bob.quote_balance, 99_999_990);
}

/// Resting orders fill strictly by best price, then earliest arrival.
#[test]
fn fills_follow_price_time_priority() {
    let mut v = new_venue();
    let mut alice = UserBalance::new(ALICE);
    let mut bob = UserBalance::new(BOB);
    alice.deposit(&v.market, BASE_MINT, 100_000_000).unwrap();
    bob.deposit(&v.market, QUOTE_MINT, 100_000_000).unwrap();

    // Order id 1 rests at the worse price; id 2 and id 3 share the better
    // price, with id 2 arriving first.
    place(&mut v, &mut alice, Side::Ask, 2100, 1, TimeInForce::GTC).unwrap();
    place(&mut v, &mut alice, Side::Ask, 2000, 1, TimeInForce::GTC).unwrap();
    place(&mut v, &mut alice, Side::Ask, 2000, 1, TimeInForce::GTC).unwrap();

    let out = place(&mut v, &mut bob, Side::Bid, 2100, 3, TimeInForce::GTC).unwrap();
    let maker_ids: Vec<u64> = out.fills.iter().map(|f| f.maker_order_id).collect();
    assert_eq!(maker_ids, vec![2, 3, 1], "best price first, then earliest timestamp");
}

/// Each accepted placement gets a strictly greater order id than any before
/// it, and a refused placement burns no id.
#[test]
fn order_ids_are_strictly_increasing() {
    let mut v = new_venue();
    let mut alice = UserBalance::new(ALICE);
    alice.deposit(&v.market, BASE_MINT, 100_000_000).unwrap();

    let first = place(&mut v, &mut alice, Side::Ask, 2000, 1, TimeInForce::GTC).unwrap();
    assert_eq!(first.order_id, 1);
    let rejected = place(&mut v, &mut alice, Side::Ask, 0, 1, TimeInForce::GTC);
    assert!(rejected.is_err());
    let second = place(&mut v, &mut alice, Side::Ask, 2100, 1, TimeInForce::GTC).unwrap();
    assert_eq!(second.order_id, 2);
    assert!(second.order_id > first.order_id);
}

/// Fill events come out of the queue in exactly the order the fills
/// happened.
#[test]
fn queue_delivers_events_in_fifo_order() {
    let mut v = new_venue();
    let mut alice = UserBalance::new(ALICE);
    let mut bob = UserBalance::new(BOB);
    alice.deposit(&v.market, BASE_MINT, 100_000_000).unwrap();
    bob.deposit(&v.market, QUOTE_MINT, 100_000_000).unwrap();

    place(&mut v, &mut alice, Side::Ask, 2000, 1, TimeInForce::GTC).unwrap();
    place(&mut v, &mut alice, Side::Ask, 2000, 1, TimeInForce::GTC).unwrap();
    place(&mut v, &mut alice, Side::Ask, 2000, 1, TimeInForce::GTC).unwrap();
    place(&mut v, &mut bob, Side::Bid, 2000, 3, TimeInForce::GTC).unwrap();

    assert_eq!(v.queue.len(), 3);
    let first = v.queue.pop_event().unwrap();
    let second = v.queue.pop_event().unwrap();
    let third = v.queue.pop_event().unwrap();
    assert_eq!(
        (first.maker_order_id, second.maker_order_id, third.maker_order_id),
        (1, 2, 3),
        "events drain in enqueue order"
    );
}

/// Conservation of value: free balances plus open reservations plus queued
/// maker credits always add up to what was deposited.
#[test]
fn value_is_conserved_across_operations() {
    let mut v = new_venue();
    let mut alice = UserBalance::new(ALICE);
    let mut bob = UserBalance::new(BOB);
    alice.deposit(&v.market, BASE_MINT, 100_000_000).unwrap();
    bob.deposit(&v.market, QUOTE_MINT, 100_000_000).unwrap();

    place(&mut v, &mut alice, Side::Ask, 2000, 5, TimeInForce::GTC).unwrap();
    // Ask rests: Alice's 5 lots are reserved on the book.
    let reserved_base = 5 * 1_000_000;
    assert_eq!(alice.base_balance + reserved_base, 100_000_000);

    place(&mut v, &mut bob, Side::Bid, 2000, 2, TimeInForce::GTC).unwrap();
    // Two lots traded: Bob holds them, three stay reserved; the 4 quote Bob
    // paid sit in the queue as Alice's pending credit.
    let book_base: u64 = 3 * 1_000_000;
    let pending_quote: u64 = 2000 * 2 * 1_000 / 1_000_000;
    assert_eq!(
        alice.base_balance + bob.base_balance + book_base,
        100_000_000,
        "base conservation"
    );
    assert_eq!(
        alice.quote_balance + bob.quote_balance + pending_quote,
        100_000_000,
        "quote conservation"
    );

    // Settling the maker moves the pending quote into Alice's balance.
    let mut makers = vec![alice];
    let consumed = consume_events(&v.market, &mut v.queue, &mut makers, 10).unwrap();
    assert_eq!(consumed, 1);
    let alice = makers[0];
    assert_eq!(
        alice.quote_balance + bob.quote_balance,
        100_000_000,
        "quote conservation after settlement"
    );
}

/// Placing and then cancelling an unmatched order returns the balance to
/// exactly its prior value.
#[test]
fn cancel_returns_reservation_exactly() {
    let mut v = new_venue();
    let mut bob = UserBalance::new(BOB);
    bob.deposit(&v.market, QUOTE_MINT, 100_000_000).unwrap();

    let before = bob.quote_balance;
    let out = place(&mut v, &mut bob, Side::Bid, 2000, 3, TimeInForce::GTC).unwrap();
    // Reservation: 2000 * 3 * 1_000 / 1_000_000 = 6.
    assert_eq!(bob.quote_balance, before - 6);
    cancel_order(&v.market, &mut v.bids, &mut v.asks, &mut bob, out.order_id, Side::Bid).unwrap();
    assert_eq!(bob.quote_balance, before, "cancel refunds the reservation exactly");
    assert!(v.bids.is_empty());
}

/// A rejected fill-or-kill order leaves book, queue and balances exactly as
/// they were.
#[test]
fn failed_fok_commits_nothing() {
    let mut v = new_venue();
    let mut alice = UserBalance::new(ALICE);
    let mut bob = UserBalance::new(BOB);
    alice.deposit(&v.market, BASE_MINT, 100_000_000).unwrap();
    bob.deposit(&v.market, QUOTE_MINT, 100_000_000).unwrap();

    place(&mut v, &mut alice, Side::Ask, 2000, 20, TimeInForce::GTC).unwrap();
    let alice_before = alice;
    let bob_before = bob;
    let r = place(&mut v, &mut bob, Side::Bid, 2000, 50, TimeInForce::FOK);
    assert_eq!(r.err(), Some(ErrorCode::FillOrKillNotFilled));
    assert_eq!(alice, alice_before);
    assert_eq!(bob, bob_before);
    assert_eq!(v.asks.get_order(1).unwrap().remaining_quantity, 20);
    assert_eq!(v.bids.len(), 0);
    assert_eq!(v.queue.len(), 0);
}

/// Debits that a balance cannot cover fail the whole operation instead of
/// driving the balance below zero.
#[test]
fn no_operation_underflows_a_balance() {
    let mut v = new_venue();
    let mut alice = UserBalance::new(ALICE);
    alice.deposit(&v.market, BASE_MINT, 1_000_000).unwrap();
    // One lot is covered; two are not.
    let r = place(&mut v, &mut alice, Side::Ask, 2000, 2, TimeInForce::GTC);
    assert_eq!(r.err(), Some(ErrorCode::InsufficientBalance));
    assert_eq!(alice.base_balance, 1_000_000);
}

/// The quote cost `price * qty * tick / lot` rounds down, and the engine
/// does not reject non-exact divisions: with these sizes a bid of 30 lots at
/// 10 ticks costs 300_000 / 1_000_000, which floors to zero. Choosing sizes
/// so that every legal division is exact is the host's responsibility.
#[test]
fn quote_cost_rounds_down() {
    let mut v = new_venue();
    let mut bob = UserBalance::new(BOB);
    // Bob has no quote at all, yet the floored reservation of zero lets the
    // order rest.
    let out = place(&mut v, &mut bob, Side::Bid, 10, 30, TimeInForce::GTC).unwrap();
    assert_eq!(bob.quote_balance, 0);
    assert!(v.bids.get_order(out.order_id).is_some());
    // A price high enough to survive the division reserves the floor: at
    // price 2500 and quantity 3, the cost is 2500 * 3 * 1_000 / 1_000_000,
    // which floors from 7.5 to 7.
    let mut charlie = UserBalance::new(CHARLIE);
    charlie.deposit(&v.market, QUOTE_MINT, 100).unwrap();
    place(&mut v, &mut charlie, Side::Bid, 2500, 3, TimeInForce::GTC).unwrap();
    assert_eq!(charlie.quote_balance, 93);
}

/// A maker missing from the supplied records stops the drain right there:
/// nothing is popped past it, nothing is lost, and supplying the maker later
/// resumes exactly where it stopped.
#[test]
fn consume_stops_at_missing_maker_without_losing_events() {
    let mut v = new_venue();
    let mut alice = UserBalance::new(ALICE);
    let mut charlie = UserBalance::new(CHARLIE);
    let mut bob = UserBalance::new(BOB);
    alice.deposit(&v.market, BASE_MINT, 100_000_000).unwrap();
    charlie.deposit(&v.market, BASE_MINT, 100_000_000).unwrap();
    bob.deposit(&v.market, QUOTE_MINT, 100_000_000).unwrap();

    // Alice's ask fills first, Charlie's second.
    place(&mut v, &mut alice, Side::Ask, 2000, 1, TimeInForce::GTC).unwrap();
    place(&mut v, &mut charlie, Side::Ask, 2000, 1, TimeInForce::GTC).unwrap();
    place(&mut v, &mut bob, Side::Bid, 2000, 2, TimeInForce::GTC).unwrap();
    assert_eq!(v.queue.len(), 2);

    // Only Charlie is supplied, but Alice's event is first: nothing drains.
    let mut makers = vec![charlie];
    let consumed = consume_events(&v.market, &mut v.queue, &mut makers, 10).unwrap();
    assert_eq!(consumed, 0, "the drain stops at the missing maker");
    assert_eq!(v.queue.len(), 2, "no event is skipped or lost");

    // With Alice supplied too, the drain resumes in order.
    let mut makers = vec![makers[0], alice];
    let consumed = consume_events(&v.market, &mut v.queue, &mut makers, 10).unwrap();
    assert_eq!(consumed, 2);
    assert_eq!(v.queue.len(), 0);
    assert_eq!(makers[1].quote_balance, 2, "Alice received her quote proceeds");
    assert_eq!(makers[0].quote_balance, 2, "Charlie received his quote proceeds");
}

/// `limit` caps the drain: events past the cap stay queued for a later call.
#[test]
fn consume_respects_the_limit() {
    let mut v = new_venue();
    let mut alice = UserBalance::new(ALICE);
    let mut bob = UserBalance::new(BOB);
    alice.deposit(&v.market, BASE_MINT, 100_000_000).unwrap();
    bob.deposit(&v.market, QUOTE_MINT, 100_000_000).unwrap();

    place(&mut v, &mut alice, Side::Ask, 2000, 1, TimeInForce::GTC).unwrap();
    place(&mut v, &mut alice, Side::Ask, 2000, 1, TimeInForce::GTC).unwrap();
    place(&mut v, &mut alice, Side::Ask, 2000, 1, TimeInForce::GTC).unwrap();
    place(&mut v, &mut bob, Side::Bid, 2000, 3, TimeInForce::GTC).unwrap();
    assert_eq!(v.queue.len(), 3);

    let mut makers = vec![alice];
    assert_eq!(consume_events(&v.market, &mut v.queue, &mut makers, 1).unwrap(), 1);
    assert_eq!(v.queue.len(), 2);
    assert_eq!(consume_events(&v.market, &mut v.queue, &mut makers, 2).unwrap(), 2);
    assert_eq!(v.queue.len(), 0);
    assert_eq!(makers[0].quote_balance, 6, "all three fills settled, two quote each");
}
