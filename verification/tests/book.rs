use clob::book::VecOrderBook;
use clob::errors::ErrorCode;
use clob::order::{Order, Side, MAX_ORDERS};

fn order(id: u64, owner: u64, price: u64, qty: u64, ts: i64) -> Order {
    Order {
        order_id: id,
        owner,
        price,
        quantity: qty,
        remaining_quantity: qty,
        timestamp: ts,
    }
}

#[test]
fn bids_keep_highest_price_in_front() {
    let mut book = VecOrderBook::new(Side::Bid);
    book.insert_order(order(1, 11, 50, 1, 1)).unwrap();
    book.insert_order(order(2, 11, 70, 1, 2)).unwrap();
    book.insert_order(order(3, 11, 60, 1, 3)).unwrap();
    assert_eq!(book.get_best_price(), Some(70));
    assert_eq!(book.orders[0].order_id, 2);
    assert_eq!(book.orders[1].order_id, 3);
    assert_eq!(book.orders[2].order_id, 1);
}

#[test]
fn asks_keep_lowest_price_in_front() {
    let mut book = VecOrderBook::new(Side::Ask);
    book.insert_order(order(1, 11, 50, 1, 1)).unwrap();
    book.insert_order(order(2, 11, 70, 1, 2)).unwrap();
    book.insert_order(order(3, 11, 60, 1, 3)).unwrap();
    assert_eq!(book.get_best_price(), Some(50));
    assert_eq!(book.orders[0].order_id, 1);
    assert_eq!(book.orders[1].order_id, 3);
    assert_eq!(book.orders[2].order_id, 2);
}

#[test]
fn equal_prices_tie_break_by_earlier_timestamp() {
    let mut book = VecOrderBook::new(Side::Ask);
    book.insert_order(order(1, 11, 60, 1, 5)).unwrap();
    book.insert_order(order(2, 11, 60, 1, 3)).unwrap();
    book.insert_order(order(3, 11, 60, 1, 4)).unwrap();
    let ids: Vec<u64> = book.orders.iter().map(|o| o.order_id).collect();
    assert_eq!(ids, vec![2, 3, 1]);
}

#[test]
fn remove_order_hands_back_the_removed_order() {
    let mut book = VecOrderBook::new(Side::Bid);
    book.insert_order(order(1, 11, 50, 4, 1)).unwrap();
    book.insert_order(order(2, 22, 70, 5, 2)).unwrap();
    let removed = book.remove_order(1).unwrap();
    assert_eq!(removed.order_id, 1);
    assert_eq!(removed.remaining_quantity, 4);
    assert!(book.get_order(1).is_none());
    assert!(book.get_order(2).is_some());
    assert_eq!(book.len(), 1);
    assert!(book.remove_order(1).is_none());
}

#[test]
fn insert_rejects_a_full_side() {
    let mut book = VecOrderBook::new(Side::Ask);
    for n in 0..MAX_ORDERS as u64 {
        book.insert_order(order(n + 1, 11, 60, 1, n as i64)).unwrap();
    }
    let r = book.insert_order(order(9999, 11, 60, 1, 9999));
    assert_eq!(r, Err(ErrorCode::OrderbookFull));
    assert_eq!(book.len(), MAX_ORDERS);
}
