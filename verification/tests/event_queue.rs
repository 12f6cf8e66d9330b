use clob::errors::ErrorCode;
use clob::event_queue::{EventQueue, FillEvent, MAX_EVENTS};

fn event(n: u64) -> FillEvent {
    FillEvent {
        maker_order_id: n,
        taker_order_id: n + 1,
        price: 2000,
        quantity: 1,
        timestamp: n as i64,
        maker_owner: 11,
        taker_owner: 22,
        market: 7,
        maker_side: 1,
        padding: [0; 7],
    }
}

#[test]
fn queue_starts_empty() {
    let q = EventQueue::new();
    assert!(q.is_empty());
    assert!(!q.is_full());
    assert_eq!(q.len(), 0);
    assert_eq!(q.capacity, MAX_EVENTS as u64);
}

#[test]
fn queue_pop_rejects_empty() {
    let mut q = EventQueue::new();
    assert_eq!(q.pop_event().err(), Some(ErrorCode::EventQueueEmpty));
    assert_eq!(q.peek_event().err(), Some(ErrorCode::EventQueueEmpty));
}

#[test]
fn queue_holds_one_slot_less_than_capacity() {
    let mut q = EventQueue::new();
    for n in 0..(MAX_EVENTS as u64 - 1) {
        q.push_event(event(n)).unwrap();
    }
    assert!(q.is_full());
    assert_eq!(q.len(), MAX_EVENTS as u64 - 1);
    assert_eq!(q.push_event(event(999)).err(), Some(ErrorCode::EventQueueFull));
    assert_eq!(q.len(), MAX_EVENTS as u64 - 1);
}

#[test]
fn queue_is_fifo_and_peek_matches_pop() {
    let mut q = EventQueue::new();
    for n in 0..5 {
        q.push_event(event(n)).unwrap();
    }
    for n in 0..5 {
        let peeked = q.peek_event().unwrap();
        let popped = q.pop_event().unwrap();
        assert_eq!(peeked, popped);
        assert_eq!(popped.maker_order_id, n);
    }
    assert!(q.is_empty());
}

#[test]
fn queue_indices_wrap_around() {
    let mut q = EventQueue::new();
    // Drive head and tail several times around the ring.
    for n in 0..(3 * MAX_EVENTS as u64) {
        q.push_event(event(n)).unwrap();
        q.push_event(event(n + 1000)).unwrap();
        assert_eq!(q.pop_event().unwrap().maker_order_id, n);
        assert_eq!(q.pop_event().unwrap().maker_order_id, n + 1000);
        assert!(q.is_empty());
    }
}
