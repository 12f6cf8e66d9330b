use vstd::prelude::*;

use crate::book::{spec_fillable, spec_find_pos, spec_insert_pos, spec_match, VecOrderBook};
use crate::errors::ErrorCode;
use crate::event_queue::{EventQueue, FillEvent, MAX_EVENTS};
use crate::market::Market;
use crate::math::{
    base_amount, quote_amount, required_amount, spec_base_amount, spec_quote_amount,
    spec_required_amount,
};
use crate::order::{Fill, Order, Side, TimeInForce, MAX_ORDERS};
use crate::user_balance::UserBalance;

verus! {

/// Orders on the books always predate the market's counters: every resting
/// id was allocated before `next_order_id` and every resting timestamp is at
/// most `last_timestamp`. This is what makes a freshly stamped order's id
/// and timestamp unique.
pub open spec fn books_fresh(market: Market, bids: VecOrderBook, asks: VecOrderBook) -> bool {
    &&& forall|i: int|
        0 <= i < bids.orders@.len() ==> (#[trigger] bids.orders@[i]).order_id
            < market.next_order_id && bids.orders@[i].timestamp <= market.last_timestamp
    &&& forall|i: int|
        0 <= i < asks.orders@.len() ==> (#[trigger] asks.orders@[i]).order_id
            < market.next_order_id && asks.orders@[i].timestamp <= market.last_timestamp
}

/// What cancelling an order does to the named book side and the caller's
/// balance.
pub struct CancelSpec {
    pub result: Result<Order, ErrorCode>,
    pub book: Seq<Order>,
    pub balance: UserBalance,
}

/// Cancelling order `order_id` on the book side `side`: remove it, check it
/// belongs to the caller, and hand the reservation debited at place time
/// back to the caller's balance (quote for a bid, base for an ask). Any
/// failure leaves book and balance untouched.
pub open spec fn spec_cancel(
    market: Market,
    book: Seq<Order>,
    bal: UserBalance,
    order_id: u64,
    side: Side,
) -> CancelSpec {
    let pos = spec_find_pos(book, order_id);
    if pos == book.len() {
        CancelSpec { result: Err(ErrorCode::OrderNotFound), book, balance: bal }
    } else {
        let o = book[pos];
        if o.owner != bal.owner {
            CancelSpec { result: Err(ErrorCode::Unauthorized), book, balance: bal }
        } else {
            match spec_required_amount(
                side,
                o.price,
                o.remaining_quantity,
                market.quote_tick_size,
                market.base_lot_size,
            ) {
                None => CancelSpec { result: Err(ErrorCode::MathOverflow), book, balance: bal },
                Some(refund) => {
                    if side == Side::Bid {
                        if bal.quote_balance + refund > u64::MAX {
                            CancelSpec {
                                result: Err(ErrorCode::MathOverflow),
                                book,
                                balance: bal,
                            }
                        } else {
                            CancelSpec {
                                result: Ok(o),
                                book: book.remove(pos),
                                balance: UserBalance {
                                    quote_balance: (bal.quote_balance + refund) as u64,
                                    ..bal
                                },
                            }
                        }
                    } else {
                        if bal.base_balance + refund > u64::MAX {
                            CancelSpec {
                                result: Err(ErrorCode::MathOverflow),
                                book,
                                balance: bal,
                            }
                        } else {
                            CancelSpec {
                                result: Ok(o),
                                book: book.remove(pos),
                                balance: UserBalance {
                                    base_balance: (bal.base_balance + refund) as u64,
                                    ..bal
                                },
                            }
                        }
                    }
                },
            }
        }
    }
}

/// Cancel a resting order. The caller is the owner of `user_balance`; only
/// the order's owner may cancel it. On success the removed order is handed
/// back and its reservation is returned to the balance; on any error both
/// books and the balance are exactly as before.
pub fn cancel_order(
    market: &Market,
    bids: &mut VecOrderBook,
    asks: &mut VecOrderBook,
    user_balance: &mut UserBalance,
    order_id: u64,
    side: Side,
) -> (r: Result<Order, ErrorCode>)
    requires
        market.wf(),
        old(bids).wf(),
        old(bids).side == Side::Bid,
        old(asks).wf(),
        old(asks).side == Side::Ask,
    ensures
        final(bids).wf(),
        final(bids).side == Side::Bid,
        final(asks).wf(),
        final(asks).side == Side::Ask,
        ({
            let book0 = if side == Side::Bid {
                old(bids).orders@
            } else {
                old(asks).orders@
            };
            let cs = spec_cancel(*market, book0, *old(user_balance), order_id, side);
            &&& r == cs.result
            &&& *final(user_balance) == cs.balance
            &&& (if side == Side::Bid {
                final(bids).orders@ == cs.book && final(asks).orders@ == old(asks).orders@
            } else {
                final(asks).orders@ == cs.book && final(bids).orders@ == old(bids).orders@
            })
        }),
{
    match side {
        Side::Bid => cancel_on_book(market, bids, user_balance, order_id, side),
        Side::Ask => cancel_on_book(market, asks, user_balance, order_id, side),
    }
}

fn cancel_on_book(
    market: &Market,
    book: &mut VecOrderBook,
    user_balance: &mut UserBalance,
    order_id: u64,
    side: Side,
) -> (r: Result<Order, ErrorCode>)
    requires
        market.wf(),
        old(book).wf(),
        old(book).side == side,
    ensures
        final(book).wf(),
        final(book).side == side,
        ({
            let cs = spec_cancel(*market, old(book).orders@, *old(user_balance), order_id, side);
            &&& r == cs.result
            &&& *final(user_balance) == cs.balance
            &&& final(book).orders@ == cs.book
        }),
{
    let found = book.get_order(order_id);
    proof {
        crate::book::lemma_find_pos_props(book.orders@, order_id);
    }
    let order = match found {
        None => {
            return Err(ErrorCode::OrderNotFound);
        },
        Some(o) => o,
    };
    if order.owner != user_balance.owner {
        return Err(ErrorCode::Unauthorized);
    }
    let refund = match required_amount(
        side,
        order.price,
        order.remaining_quantity,
        market.quote_tick_size,
        market.base_lot_size,
    ) {
        None => {
            return Err(ErrorCode::MathOverflow);
        },
        Some(x) => x,
    };
    match side {
        Side::Bid => {
            match user_balance.quote_balance.checked_add(refund) {
                None => Err(ErrorCode::MathOverflow),
                Some(new_quote) => {
                    let _removed = book.remove_order(order_id);
                    user_balance.quote_balance = new_quote;
                    Ok(order)
                },
            }
        },
        Side::Ask => {
            match user_balance.base_balance.checked_add(refund) {
                None => Err(ErrorCode::MathOverflow),
                Some(new_base) => {
                    let _removed = book.remove_order(order_id);
                    user_balance.base_balance = new_base;
                    Ok(order)
                },
            }
        },
    }
}

} // verus!

verus! {

/// The settlement record for one fill, as it enters the event queue.
pub open spec fn spec_fill_event(f: Fill, taker_owner: u64, market_id: u64, ts: i64) -> FillEvent {
    FillEvent {
        maker_order_id: f.maker_order_id,
        taker_order_id: f.taker_order_id,
        price: f.price,
        quantity: f.quantity,
        timestamp: ts,
        maker_owner: f.maker_owner,
        taker_owner,
        market: market_id,
        maker_side: match f.maker_side {
            Side::Bid => 0,
            Side::Ask => 1,
        },
        padding: [0, 0, 0, 0, 0, 0, 0],
    }
}

/// Settling the taker's side of a run of fills, in emission order: for each
/// fill the taker's balance moves by the fill's base and quote amounts (a
/// bid taker gains base and pays quote out of its reservation, an ask taker
/// the reverse), and the fill's event joins the queue for the deferred
/// maker-side credit. The first failure (overflow, a debit the reservation
/// check should have covered, or a full queue) aborts the whole run.
pub open spec fn spec_settle_fills(
    taker_side: Side,
    fills: Seq<Fill>,
    bal: UserBalance,
    queue: Seq<FillEvent>,
    lot: u64,
    tick: u64,
    market_id: u64,
    ts: i64,
) -> Result<(UserBalance, Seq<FillEvent>), ErrorCode>
    decreases fills.len(),
{
    if fills.len() == 0 {
        Ok((bal, queue))
    } else {
        let f = fills[0];
        match spec_base_amount(f.quantity, lot) {
            None => Err(ErrorCode::MathOverflow),
            Some(ba) => match spec_quote_amount(f.price, f.quantity, tick, lot) {
                None => Err(ErrorCode::MathOverflow),
                Some(qa) => {
                    let step: Result<UserBalance, ErrorCode> = match taker_side {
                        Side::Bid => if bal.base_balance + ba > u64::MAX {
                            Err(ErrorCode::MathOverflow)
                        } else if bal.quote_balance < qa {
                            Err(ErrorCode::InsufficientBalance)
                        } else {
                            Ok(
                                UserBalance {
                                    base_balance: (bal.base_balance + ba) as u64,
                                    quote_balance: (bal.quote_balance - qa) as u64,
                                    ..bal
                                },
                            )
                        },
                        Side::Ask => if bal.base_balance < ba {
                            Err(ErrorCode::InsufficientBalance)
                        } else if bal.quote_balance + qa > u64::MAX {
                            Err(ErrorCode::MathOverflow)
                        } else {
                            Ok(
                                UserBalance {
                                    base_balance: (bal.base_balance - ba) as u64,
                                    quote_balance: (bal.quote_balance + qa) as u64,
                                    ..bal
                                },
                            )
                        },
                    };
                    match step {
                        Err(e) => Err(e),
                        Ok(bal2) => if queue.len() >= MAX_EVENTS - 1 {
                            Err(ErrorCode::EventQueueFull)
                        } else {
                            spec_settle_fills(
                                taker_side,
                                fills.drop_first(),
                                bal2,
                                queue.push(spec_fill_event(f, bal.owner, market_id, ts)),
                                lot,
                                tick,
                                market_id,
                                ts,
                            )
                        },
                    }
                },
            },
        }
    }
}

/// What a successful limit-order placement reports back.
pub struct PlaceOk {
    pub order_id: u64,
    pub fills: Seq<Fill>,
    pub remaining_quantity: u64,
    pub timestamp: i64,
}

/// The complete outcome of placing a limit order: the report (or error) and
/// the state every component is left in. `own` is the book of the order's
/// own side, `opp` the book it matched against.
pub struct PlaceBooksSpec {
    pub result: Result<PlaceOk, ErrorCode>,
    pub market: Market,
    pub own: Seq<Order>,
    pub opp: Seq<Order>,
    pub queue: Seq<FillEvent>,
    pub balance: UserBalance,
}

/// A failed placement: the named error, everything else exactly as it was.
pub open spec fn spec_place_failed(
    market: Market,
    own: Seq<Order>,
    opp: Seq<Order>,
    queue: Seq<FillEvent>,
    bal: UserBalance,
    e: ErrorCode,
) -> PlaceBooksSpec {
    PlaceBooksSpec { result: Err(e), market, own, opp, queue, balance: bal }
}

/// Placing a limit order, in full: validate, price the full reservation and
/// check the caller can cover it, run the fill-or-kill pre-check, allocate
/// the order id and a fresh timestamp, match against the opposite book,
/// settle the taker and enqueue one event per fill, and finally reserve and
/// rest any remainder (good-till-cancelled only; immediate-or-cancel
/// discards it). Any failure anywhere leaves every component untouched.
pub open spec fn spec_place_books(
    market: Market,
    own: Seq<Order>,
    opp: Seq<Order>,
    queue: Seq<FillEvent>,
    bal: UserBalance,
    market_id: u64,
    side: Side,
    price: u64,
    quantity: u64,
    tif: TimeInForce,
    now: i64,
) -> PlaceBooksSpec {
    if price == 0 {
        spec_place_failed(market, own, opp, queue, bal, ErrorCode::InvalidPrice)
    } else if quantity == 0 {
        spec_place_failed(market, own, opp, queue, bal, ErrorCode::InvalidOrderSize)
    } else {
        match spec_required_amount(
            side,
            price,
            quantity,
            market.quote_tick_size,
            market.base_lot_size,
        ) {
            None => spec_place_failed(market, own, opp, queue, bal, ErrorCode::MathOverflow),
            Some(required) => {
                let avail = if side == Side::Bid {
                    bal.quote_balance
                } else {
                    bal.base_balance
                };
                if avail < required {
                    spec_place_failed(
                        market,
                        own,
                        opp,
                        queue,
                        bal,
                        ErrorCode::InsufficientBalance,
                    )
                } else if tif == TimeInForce::FOK && spec_fillable(side.opposite(), opp, price)
                    < quantity {
                    spec_place_failed(
                        market,
                        own,
                        opp,
                        queue,
                        bal,
                        ErrorCode::FillOrKillNotFilled,
                    )
                } else if market.next_order_id == u64::MAX {
                    spec_place_failed(market, own, opp, queue, bal, ErrorCode::MathOverflow)
                } else if now <= market.last_timestamp && market.last_timestamp == i64::MAX {
                    spec_place_failed(market, own, opp, queue, bal, ErrorCode::MathOverflow)
                } else {
                    let ts = if now > market.last_timestamp {
                        now
                    } else {
                        (market.last_timestamp + 1) as i64
                    };
                    let taker = Order {
                        order_id: market.next_order_id,
                        owner: bal.owner,
                        price,
                        quantity,
                        remaining_quantity: quantity,
                        timestamp: ts,
                    };
                    let mo = spec_match(side.opposite(), opp, taker);
                    match spec_settle_fills(
                        side,
                        mo.fills,
                        bal,
                        queue,
                        market.base_lot_size,
                        market.quote_tick_size,
                        market_id,
                        ts,
                    ) {
                        Err(e) => spec_place_failed(market, own, opp, queue, bal, e),
                        Ok((bal2, queue2)) => {
                            let market2 = Market {
                                next_order_id: (market.next_order_id + 1) as u64,
                                last_timestamp: ts,
                                ..market
                            };
                            let rem = mo.taker.remaining_quantity;
                            let report = PlaceOk {
                                order_id: taker.order_id,
                                fills: mo.fills,
                                remaining_quantity: rem,
                                timestamp: ts,
                            };
                            if rem > 0 && tif == TimeInForce::GTC {
                                match spec_required_amount(
                                    side,
                                    price,
                                    rem,
                                    market.quote_tick_size,
                                    market.base_lot_size,
                                ) {
                                    None => spec_place_failed(
                                        market,
                                        own,
                                        opp,
                                        queue,
                                        bal,
                                        ErrorCode::MathOverflow,
                                    ),
                                    Some(residual_cost) => {
                                        let avail2 = if side == Side::Bid {
                                            bal2.quote_balance
                                        } else {
                                            bal2.base_balance
                                        };
                                        if avail2 < residual_cost {
                                            spec_place_failed(
                                                market,
                                                own,
                                                opp,
                                                queue,
                                                bal,
                                                ErrorCode::InsufficientBalance,
                                            )
                                        } else if own.len() >= MAX_ORDERS {
                                            spec_place_failed(
                                                market,
                                                own,
                                                opp,
                                                queue,
                                                bal,
                                                ErrorCode::OrderbookFull,
                                            )
                                        } else {
                                            let bal3 = if side == Side::Bid {
                                                UserBalance {
                                                    quote_balance: (bal2.quote_balance
                                                        - residual_cost) as u64,
                                                    ..bal2
                                                }
                                            } else {
                                                UserBalance {
                                                    base_balance: (bal2.base_balance
                                                        - residual_cost) as u64,
                                                    ..bal2
                                                }
                                            };
                                            PlaceBooksSpec {
                                                result: Ok(report),
                                                market: market2,
                                                own: own.insert(
                                                    spec_insert_pos(side, own, mo.taker),
                                                    mo.taker,
                                                ),
                                                opp: mo.book,
                                                queue: queue2,
                                                balance: bal3,
                                            }
                                        }
                                    },
                                }
                            } else {
                                PlaceBooksSpec {
                                    result: Ok(report),
                                    market: market2,
                                    own,
                                    opp: mo.book,
                                    queue: queue2,
                                    balance: bal2,
                                }
                            }
                        },
                    }
                }
            },
        }
    }
}

} // verus!

verus! {

/// What a successful placement hands back to the caller: the new order's
/// id, every fill it produced in emission order, and how much of it rested
/// on the book (zero unless good-till-cancelled).
#[derive(Debug)]
pub struct PlaceOrderResult {
    pub order_id: u64,
    pub fills: Vec<Fill>,
    pub remaining_quantity: u64,
    pub timestamp: i64,
}

fn copy_orders(v: &Vec<Order>) -> (r: Vec<Order>)
    ensures
        r@ == v@,
{
    let mut r: Vec<Order> = Vec::new();
    let mut i: usize = 0;
    while i < v.len()
        invariant
            0 <= i <= v@.len(),
            r@ == v@.subrange(0, i as int),
        decreases v@.len() - i,
    {
        r.push(v[i]);
        proof {
            assert(r@ =~= v@.subrange(0, i + 1));
        }
        i = i + 1;
    }
    proof {
        assert(v@.subrange(0, v@.len() as int) =~= v@);
    }
    r
}

fn copy_events(v: &Vec<FillEvent>) -> (r: Vec<FillEvent>)
    ensures
        r@ == v@,
{
    let mut r: Vec<FillEvent> = Vec::new();
    let mut i: usize = 0;
    while i < v.len()
        invariant
            0 <= i <= v@.len(),
            r@ == v@.subrange(0, i as int),
        decreases v@.len() - i,
    {
        r.push(v[i]);
        proof {
            assert(r@ =~= v@.subrange(0, i + 1));
        }
        i = i + 1;
    }
    proof {
        assert(v@.subrange(0, v@.len() as int) =~= v@);
    }
    r
}

/// Put the opposite book, the event queue and the taker's balance back to
/// the snapshots taken before matching began, so that a failed placement
/// commits nothing.
fn rollback(
    opp: &mut VecOrderBook,
    event_queue: &mut EventQueue,
    user_balance: &mut UserBalance,
    opp_orders: Vec<Order>,
    head: u64,
    tail: u64,
    events: Vec<FillEvent>,
    balance: UserBalance,
)
    ensures
        final(opp).orders@ == opp_orders@,
        final(opp).side == old(opp).side,
        final(event_queue).head == head,
        final(event_queue).tail == tail,
        final(event_queue).events@ == events@,
        final(event_queue).capacity == old(event_queue).capacity,
        *final(user_balance) == balance,
{
    opp.orders = opp_orders;
    event_queue.head = head;
    event_queue.tail = tail;
    event_queue.events = events;
    *user_balance = balance;
}

/// One book side only ever holds orders older than the market's counters.
pub open spec fn book_fresh(market: Market, book: VecOrderBook) -> bool {
    forall|i: int|
        0 <= i < book.orders@.len() ==> (#[trigger] book.orders@[i]).order_id
            < market.next_order_id && book.orders@[i].timestamp <= market.last_timestamp
}

/// Place a limit order whose own side's book is `own` and whose opposite
/// book is `opp`. Behaves exactly as `spec_place_books` says; on error every
/// component is left untouched.
pub fn place_on_books(
    market: &mut Market,
    own: &mut VecOrderBook,
    opp: &mut VecOrderBook,
    event_queue: &mut EventQueue,
    user_balance: &mut UserBalance,
    market_id: u64,
    side: Side,
    price: u64,
    quantity: u64,
    tif: TimeInForce,
    now: i64,
) -> (r: Result<PlaceOrderResult, ErrorCode>)
    requires
        old(market).wf(),
        old(own).wf(),
        old(own).side == side,
        old(opp).wf(),
        old(opp).side == side.opposite(),
        old(event_queue).wf(),
        book_fresh(*old(market), *old(own)),
        book_fresh(*old(market), *old(opp)),
    ensures
        final(market).wf(),
        final(own).wf(),
        final(own).side == side,
        final(opp).wf(),
        final(opp).side == side.opposite(),
        final(event_queue).wf(),
        book_fresh(*final(market), *final(own)),
        book_fresh(*final(market), *final(opp)),
        ({
            let ps = spec_place_books(
                *old(market),
                old(own).orders@,
                old(opp).orders@,
                old(event_queue).contents(),
                *old(user_balance),
                market_id,
                side,
                price,
                quantity,
                tif,
                now,
            );
            &&& *final(market) == ps.market
            &&& final(own).orders@ == ps.own
            &&& final(opp).orders@ == ps.opp
            &&& final(event_queue).contents() == ps.queue
            &&& *final(user_balance) == ps.balance
            &&& (match (r, ps.result) {
                (Ok(out), Ok(ok)) => out.order_id == ok.order_id && out.fills@ == ok.fills
                    && out.remaining_quantity == ok.remaining_quantity && out.timestamp
                    == ok.timestamp,
                (Err(e1), Err(e2)) => e1 == e2,
                _ => false,
            })
        }),
{
    if price == 0 {
        return Err(ErrorCode::InvalidPrice);
    }
    if quantity == 0 {
        return Err(ErrorCode::InvalidOrderSize);
    }
    let lot = market.base_lot_size;
    let tick = market.quote_tick_size;
    let required = match required_amount(side, price, quantity, tick, lot) {
        None => {
            return Err(ErrorCode::MathOverflow);
        },
        Some(x) => x,
    };
    let avail = match side {
        Side::Bid => user_balance.quote_balance,
        Side::Ask => user_balance.base_balance,
    };
    if avail < required {
        return Err(ErrorCode::InsufficientBalance);
    }
    if tif == TimeInForce::FOK {
        if !opp.can_fill_completely(price, quantity) {
            return Err(ErrorCode::FillOrKillNotFilled);
        }
    }
    let next_id = match market.next_order_id.checked_add(1) {
        None => {
            return Err(ErrorCode::MathOverflow);
        },
        Some(x) => x,
    };
    let ts: i64 = if now > market.last_timestamp {
        now
    } else {
        match market.last_timestamp.checked_add(1) {
            None => {
                return Err(ErrorCode::MathOverflow);
            },
            Some(t) => t,
        }
    };
    let owner = user_balance.owner;
    let mut taker = Order {
        order_id: market.next_order_id,
        owner,
        price,
        quantity,
        remaining_quantity: quantity,
        timestamp: ts,
    };
    let ghost taker0 = taker;

    // Snapshots: a failure during settlement or residual handling must
    // leave no trace of the matching already done.
    let backup_opp = copy_orders(&opp.orders);
    let backup_bal = *user_balance;
    let backup_head = event_queue.head;
    let backup_tail = event_queue.tail;
    let backup_events = copy_events(&event_queue.events);

    let fills = opp.match_orders(&mut taker);
    proof {
        crate::book::lemma_match_taker(side.opposite(), backup_opp@, taker0);
        crate::book::lemma_match_book_elements(side.opposite(), backup_opp@, taker0);
    }

    let ghost b0 = backup_bal;
    let ghost q0 = event_queue.contents();
    let mut idx: usize = 0;
    let mut err: Option<ErrorCode> = None;
    proof {
        assert(fills@.skip(0) =~= fills@);
    }
    loop
        invariant_except_break
            err is None,
        invariant
            event_queue.wf(),
            0 <= idx <= fills@.len(),
            user_balance.owner == owner,
            ({
                let total = spec_settle_fills(side, fills@, b0, q0, lot, tick, market_id, ts);
                match err {
                    None => spec_settle_fills(
                        side,
                        fills@.skip(idx as int),
                        *user_balance,
                        event_queue.contents(),
                        lot,
                        tick,
                        market_id,
                        ts,
                    ) == total,
                    Some(e) => total == Err::<(UserBalance, Seq<FillEvent>), ErrorCode>(e),
                }
            }),
        ensures
            event_queue.wf(),
            0 <= idx <= fills@.len(),
            user_balance.owner == owner,
            ({
                let total = spec_settle_fills(side, fills@, b0, q0, lot, tick, market_id, ts);
                match err {
                    None => idx == fills@.len() && spec_settle_fills(
                        side,
                        fills@.skip(idx as int),
                        *user_balance,
                        event_queue.contents(),
                        lot,
                        tick,
                        market_id,
                        ts,
                    ) == total,
                    Some(e) => total == Err::<(UserBalance, Seq<FillEvent>), ErrorCode>(e),
                }
            }),
        decreases fills@.len() - idx,
    {
        if idx >= fills.len() {
            break ;
        }
        let f = fills[idx];
        let ghost pre_bal = *user_balance;
        let ghost pre_q = event_queue.contents();
        proof {
            assert(fills@.skip(idx as int)[0] == fills@[idx as int]);
            assert(fills@.skip(idx as int).drop_first() =~= fills@.skip(idx as int + 1));
        }
        let fill_base = match base_amount(f.quantity, lot) {
            None => {
                proof {
                    assert(spec_settle_fills(
                        side,
                        fills@.skip(idx as int),
                        *user_balance,
                        event_queue.contents(),
                        lot,
                        tick,
                        market_id,
                        ts,
                    ) == Err::<(UserBalance, Seq<FillEvent>), ErrorCode>(ErrorCode::MathOverflow));
                }
                err = Some(ErrorCode::MathOverflow);
                break ;
            },
            Some(x) => x,
        };
        let fill_quote = match quote_amount(f.price, f.quantity, tick, lot) {
            None => {
                proof {
                    assert(spec_settle_fills(
                        side,
                        fills@.skip(idx as int),
                        *user_balance,
                        event_queue.contents(),
                        lot,
                        tick,
                        market_id,
                        ts,
                    ) == Err::<(UserBalance, Seq<FillEvent>), ErrorCode>(ErrorCode::MathOverflow));
                }
                err = Some(ErrorCode::MathOverflow);
                break ;
            },
            Some(x) => x,
        };
        match side {
            Side::Bid => {
                let new_base = match user_balance.base_balance.checked_add(fill_base) {
                    None => {
                        proof {
                            assert(spec_settle_fills(
                                side,
                                fills@.skip(idx as int),
                                *user_balance,
                                event_queue.contents(),
                                lot,
                                tick,
                                market_id,
                                ts,
                            ) == Err::<(UserBalance, Seq<FillEvent>), ErrorCode>(
                                ErrorCode::MathOverflow,
                            ));
                        }
                        err = Some(ErrorCode::MathOverflow);
                        break ;
                    },
                    Some(x) => x,
                };
                let new_quote = match user_balance.quote_balance.checked_sub(fill_quote) {
                    None => {
                        proof {
                            assert(spec_settle_fills(
                                side,
                                fills@.skip(idx as int),
                                *user_balance,
                                event_queue.contents(),
                                lot,
                                tick,
                                market_id,
                                ts,
                            ) == Err::<(UserBalance, Seq<FillEvent>), ErrorCode>(
                                ErrorCode::InsufficientBalance,
                            ));
                        }
                        err = Some(ErrorCode::InsufficientBalance);
                        break ;
                    },
                    Some(x) => x,
                };
                user_balance.base_balance = new_base;
                user_balance.quote_balance = new_quote;
            },
            Side::Ask => {
                let new_base = match user_balance.base_balance.checked_sub(fill_base) {
                    None => {
                        proof {
                            assert(spec_settle_fills(
                                side,
                                fills@.skip(idx as int),
                                *user_balance,
                                event_queue.contents(),
                                lot,
                                tick,
                                market_id,
                                ts,
                            ) == Err::<(UserBalance, Seq<FillEvent>), ErrorCode>(
                                ErrorCode::InsufficientBalance,
                            ));
                        }
                        err = Some(ErrorCode::InsufficientBalance);
                        break ;
                    },
                    Some(x) => x,
                };
                let new_quote = match user_balance.quote_balance.checked_add(fill_quote) {
                    None => {
                        proof {
                            assert(spec_settle_fills(
                                side,
                                fills@.skip(idx as int),
                                *user_balance,
                                event_queue.contents(),
                                lot,
                                tick,
                                market_id,
                                ts,
                            ) == Err::<(UserBalance, Seq<FillEvent>), ErrorCode>(
                                ErrorCode::MathOverflow,
                            ));
                        }
                        err = Some(ErrorCode::MathOverflow);
                        break ;
                    },
                    Some(x) => x,
                };
                user_balance.base_balance = new_base;
                user_balance.quote_balance = new_quote;
            },
        }
        let event = FillEvent {
            maker_order_id: f.maker_order_id,
            taker_order_id: f.taker_order_id,
            price: f.price,
            quantity: f.quantity,
            timestamp: ts,
            maker_owner: f.maker_owner,
            taker_owner: owner,
            market: market_id,
            maker_side: match f.maker_side {
                Side::Bid => 0,
                Side::Ask => 1,
            },
            padding: [0, 0, 0, 0, 0, 0, 0],
        };
        proof {
            assert(event == spec_fill_event(f, pre_bal.owner, market_id, ts));
        }
        match event_queue.push_event(event) {
            Err(e) => {
                proof {
                    event_queue.lemma_len();
                    assert(spec_settle_fills(
                        side,
                        fills@.skip(idx as int),
                        pre_bal,
                        pre_q,
                        lot,
                        tick,
                        market_id,
                        ts,
                    ) == Err::<(UserBalance, Seq<FillEvent>), ErrorCode>(
                        ErrorCode::EventQueueFull,
                    ));
                }
                err = Some(e);
                break ;
            },
            Ok(_) => {},
        }
        proof {
            event_queue.lemma_len();
        }
        idx = idx + 1;
    }

    if let Some(e) = err {
        rollback(
            opp,
            event_queue,
            user_balance,
            backup_opp,
            backup_head,
            backup_tail,
            backup_events,
            backup_bal,
        );
        return Err(e);
    }

    // The taker's side of every fill is settled and every event queued;
    // what is left of the order either rests (GTC) or is discarded.
    let rem = taker.remaining_quantity;
    if rem > 0 && tif == TimeInForce::GTC {
        let residual_cost = match required_amount(side, price, rem, tick, lot) {
            None => {
                rollback(
                    opp,
                    event_queue,
                    user_balance,
                    backup_opp,
                    backup_head,
                    backup_tail,
                    backup_events,
                    backup_bal,
                );
                return Err(ErrorCode::MathOverflow);
            },
            Some(x) => x,
        };
        let avail2 = match side {
            Side::Bid => user_balance.quote_balance,
            Side::Ask => user_balance.base_balance,
        };
        if avail2 < residual_cost {
            rollback(
                opp,
                event_queue,
                user_balance,
                backup_opp,
                backup_head,
                backup_tail,
                backup_events,
                backup_bal,
            );
            return Err(ErrorCode::InsufficientBalance);
        }
        match own.insert_order(taker) {
            Err(e) => {
                rollback(
                    opp,
                    event_queue,
                    user_balance,
                    backup_opp,
                    backup_head,
                    backup_tail,
                    backup_events,
                    backup_bal,
                );
                return Err(e);
            },
            Ok(_) => {},
        }
        match side {
            Side::Bid => {
                user_balance.quote_balance = user_balance.quote_balance - residual_cost;
            },
            Side::Ask => {
                user_balance.base_balance = user_balance.base_balance - residual_cost;
            },
        }
    }
    market.next_order_id = next_id;
    market.last_timestamp = ts;
    proof {
        let ghost m2 = *market;
        assert forall|i: int| 0 <= i < opp.orders@.len() implies (
        #[trigger] opp.orders@[i]).order_id < m2.next_order_id && opp.orders@[i].timestamp
            <= m2.last_timestamp by {
            let mo = spec_match(side.opposite(), backup_opp@, taker0);
            let j = choose|j: int|
                0 <= j < backup_opp@.len() && #[trigger] crate::book::same_except_remaining(
                    mo.book[i],
                    backup_opp@[j],
                ) && mo.book[i].remaining_quantity <= backup_opp@[j].remaining_quantity;
            assert(backup_opp@[j].order_id < next_id && backup_opp@[j].timestamp <= ts);
        }
        if rem > 0 && tif == TimeInForce::GTC {
            let own0 = old(own).orders@;
            let pos = spec_insert_pos(side, own0, taker);
            crate::book::lemma_insert_pos_props(side, own0, taker);
            crate::book::lemma_insert_elements(own0, taker, pos);
            assert forall|i: int| 0 <= i < own.orders@.len() implies (
            #[trigger] own.orders@[i]).order_id < m2.next_order_id && own.orders@[i].timestamp
                <= m2.last_timestamp by {
                if own.orders@[i] == taker {
                } else {
                    let j = choose|j: int| 0 <= j < own0.len() && own.orders@[i] == #[trigger] own0[j];
                    assert(own0[j].order_id < next_id && own0[j].timestamp <= ts);
                }
            }
        }
    }
    Ok(PlaceOrderResult { order_id: taker.order_id, fills, remaining_quantity: rem, timestamp: ts })
}

} // verus!

verus! {

/// Place a limit order: validate it, reserve the caller's funds, match it
/// against the opposite book under price-time priority, settle the caller
/// (taker) side of every fill at the maker's price, enqueue one fill event
/// per fill for the deferred maker credit, and rest any remainder on the
/// order's own book (GTC) or discard it (IOC). FOK refuses the whole order
/// up front unless the opposite book can fill it completely. The caller is
/// the owner of `user_balance`; `now` is the host's clock reading, nudged
/// forward if needed so no two orders ever share a timestamp. On any error
/// nothing changes anywhere.
pub fn place_limit_order(
    market: &mut Market,
    bids: &mut VecOrderBook,
    asks: &mut VecOrderBook,
    event_queue: &mut EventQueue,
    user_balance: &mut UserBalance,
    market_id: u64,
    side: Side,
    price: u64,
    quantity: u64,
    tif: TimeInForce,
    now: i64,
) -> (r: Result<PlaceOrderResult, ErrorCode>)
    requires
        old(market).wf(),
        old(bids).wf(),
        old(bids).side == Side::Bid,
        old(asks).wf(),
        old(asks).side == Side::Ask,
        old(event_queue).wf(),
        book_fresh(*old(market), *old(bids)),
        book_fresh(*old(market), *old(asks)),
    ensures
        final(market).wf(),
        final(bids).wf(),
        final(bids).side == Side::Bid,
        final(asks).wf(),
        final(asks).side == Side::Ask,
        final(event_queue).wf(),
        book_fresh(*final(market), *final(bids)),
        book_fresh(*final(market), *final(asks)),
        ({
            let own0 = if side == Side::Bid {
                old(bids).orders@
            } else {
                old(asks).orders@
            };
            let opp0 = if side == Side::Bid {
                old(asks).orders@
            } else {
                old(bids).orders@
            };
            let ps = spec_place_books(
                *old(market),
                own0,
                opp0,
                old(event_queue).contents(),
                *old(user_balance),
                market_id,
                side,
                price,
                quantity,
                tif,
                now,
            );
            &&& *final(market) == ps.market
            &&& final(event_queue).contents() == ps.queue
            &&& *final(user_balance) == ps.balance
            &&& (if side == Side::Bid {
                final(bids).orders@ == ps.own && final(asks).orders@ == ps.opp
            } else {
                final(asks).orders@ == ps.own && final(bids).orders@ == ps.opp
            })
            &&& (match (r, ps.result) {
                (Ok(out), Ok(ok)) => out.order_id == ok.order_id && out.fills@ == ok.fills
                    && out.remaining_quantity == ok.remaining_quantity && out.timestamp
                    == ok.timestamp,
                (Err(e1), Err(e2)) => e1 == e2,
                _ => false,
            })
        }),
{
    match side {
        Side::Bid => place_on_books(
            market,
            bids,
            asks,
            event_queue,
            user_balance,
            market_id,
            side,
            price,
            quantity,
            tif,
            now,
        ),
        Side::Ask => place_on_books(
            market,
            asks,
            bids,
            event_queue,
            user_balance,
            market_id,
            side,
            price,
            quantity,
            tif,
            now,
        ),
    }
}

} // verus!

verus! {

/// The index of the first supplied balance record belonging to `owner`, or
/// the length of the sequence when none does.
pub open spec fn spec_find_balance(bals: Seq<UserBalance>, owner: u64) -> int
    decreases bals.len(),
{
    if bals.len() == 0 {
        0
    } else if bals[0].owner == owner {
        0
    } else {
        1 + spec_find_balance(bals.drop_first(), owner)
    }
}

pub proof fn lemma_find_balance_props(bals: Seq<UserBalance>, owner: u64)
    ensures
        0 <= spec_find_balance(bals, owner) <= bals.len(),
        forall|j: int|
            0 <= j < spec_find_balance(bals, owner) ==> (#[trigger] bals[j]).owner != owner,
        spec_find_balance(bals, owner) < bals.len() ==> bals[spec_find_balance(bals, owner)].owner
            == owner,
    decreases bals.len(),
{
    if bals.len() == 0 {
    } else if bals[0].owner == owner {
    } else {
        lemma_find_balance_props(bals.drop_first(), owner);
        assert(forall|j: int| 1 <= j < bals.len() ==> #[trigger] bals[j] == bals.drop_first()[j - 1]);
    }
}

fn find_balance(balances: &Vec<UserBalance>, owner: u64) -> (r: Option<usize>)
    ensures
        match r {
            None => spec_find_balance(balances@, owner) == balances@.len(),
            Some(p) => p == spec_find_balance(balances@, owner) && p < balances@.len(),
        },
{
    let ghost s = balances@;
    let mut i: usize = 0;
    while i < balances.len() && balances[i].owner != owner
        invariant
            balances@ == s,
            0 <= i <= s.len(),
            forall|j: int| 0 <= j < i ==> (#[trigger] s[j]).owner != owner,
        decreases s.len() - i,
    {
        i = i + 1;
    }
    proof {
        lemma_find_balance_props(s, owner);
        let pos = spec_find_balance(s, owner);
        if pos < i {
            assert(s[pos].owner != owner);
        }
        if i < pos {
            assert(s[i as int].owner != owner);
        }
        assert(i == pos);
    }
    if i < balances.len() {
        Some(i)
    } else {
        None
    }
}

/// The deferred maker-side settlement one fill event stands for. The maker's
/// own reservation was debited when its order was placed, so only the credit
/// side is applied here: a bid maker receives the base it bought, an ask
/// maker the quote it earned. An unknown side tag is a malformed event.
pub open spec fn spec_credit_maker(bal: UserBalance, e: FillEvent, lot: u64, tick: u64) -> Result<
    UserBalance,
    ErrorCode,
> {
    match spec_base_amount(e.quantity, lot) {
        None => Err(ErrorCode::MathOverflow),
        Some(ba) => match spec_quote_amount(e.price, e.quantity, tick, lot) {
            None => Err(ErrorCode::MathOverflow),
            Some(qa) => {
                if e.maker_side == 0 {
                    if bal.base_balance + ba > u64::MAX {
                        Err(ErrorCode::MathOverflow)
                    } else {
                        Ok(UserBalance { base_balance: (bal.base_balance + ba) as u64, ..bal })
                    }
                } else if e.maker_side == 1 {
                    if bal.quote_balance + qa > u64::MAX {
                        Err(ErrorCode::MathOverflow)
                    } else {
                        Ok(UserBalance { quote_balance: (bal.quote_balance + qa) as u64, ..bal })
                    }
                } else {
                    Err(ErrorCode::InvalidParameter)
                }
            },
        },
    }
}

/// Draining up to `limit` events in FIFO order: each event's maker is looked
/// up among the supplied balance records and credited. A maker missing from
/// the records stops the drain right there, leaving that event and all later
/// ones queued; a malformed event or an overflowing credit aborts the whole
/// call. The result carries the balances as left and how many events were
/// consumed.
pub open spec fn spec_consume(
    queue: Seq<FillEvent>,
    bals: Seq<UserBalance>,
    lot: u64,
    tick: u64,
    limit: int,
) -> Result<(Seq<UserBalance>, int), ErrorCode>
    decreases limit,
{
    if limit <= 0 || queue.len() == 0 {
        Ok((bals, 0))
    } else {
        let e = queue[0];
        let pos = spec_find_balance(bals, e.maker_owner);
        if pos == bals.len() {
            Ok((bals, 0))
        } else {
            match spec_credit_maker(bals[pos], e, lot, tick) {
                Err(er) => Err(er),
                Ok(b2) => match spec_consume(
                    queue.drop_first(),
                    bals.update(pos, b2),
                    lot,
                    tick,
                    limit - 1,
                ) {
                    Err(er) => Err(er),
                    Ok((bs, n)) => Ok((bs, n + 1)),
                },
            }
        }
    }
}

/// Unfolds one failing step of `spec_consume`: when the first event's maker
/// is present but the credit fails, the whole drain fails with that error.
proof fn lemma_consume_step_err(
    queue: Seq<FillEvent>,
    bals: Seq<UserBalance>,
    lot: u64,
    tick: u64,
    limit: int,
    e: ErrorCode,
)
    requires
        limit > 0,
        queue.len() > 0,
        spec_find_balance(bals, queue[0].maker_owner) < bals.len(),
        spec_credit_maker(bals[spec_find_balance(bals, queue[0].maker_owner)], queue[0], lot, tick)
            == Err::<UserBalance, ErrorCode>(e),
    ensures
        spec_consume(queue, bals, lot, tick, limit) == Err::<(Seq<UserBalance>, int), ErrorCode>(e),
{
}

fn copy_balances(v: &Vec<UserBalance>) -> (r: Vec<UserBalance>)
    ensures
        r@ == v@,
{
    let mut r: Vec<UserBalance> = Vec::new();
    let mut i: usize = 0;
    while i < v.len()
        invariant
            0 <= i <= v@.len(),
            r@ == v@.subrange(0, i as int),
        decreases v@.len() - i,
    {
        r.push(v[i]);
        proof {
            assert(r@ =~= v@.subrange(0, i + 1));
        }
        i = i + 1;
    }
    proof {
        assert(v@.subrange(0, v@.len() as int) =~= v@);
    }
    r
}

/// Put the queue and the supplied balances back to their snapshots, so that
/// a failed drain commits nothing.
fn rollback_consume(
    event_queue: &mut EventQueue,
    maker_balances: &mut Vec<UserBalance>,
    head: u64,
    tail: u64,
    events: Vec<FillEvent>,
    balances: Vec<UserBalance>,
)
    ensures
        final(event_queue).head == head,
        final(event_queue).tail == tail,
        final(event_queue).events@ == events@,
        final(event_queue).capacity == old(event_queue).capacity,
        final(maker_balances)@ == balances@,
{
    event_queue.head = head;
    event_queue.tail = tail;
    event_queue.events = events;
    *maker_balances = balances;
}

/// Pop up to `limit` fill events in FIFO order and apply each maker-side
/// credit to the matching record in `maker_balances`. A maker with no record
/// supplied stops the drain without consuming its event; errors restore
/// queue and balances exactly. Returns how many events were consumed.
#[verifier::rlimit(60)]
pub fn consume_events(
    market: &Market,
    event_queue: &mut EventQueue,
    maker_balances: &mut Vec<UserBalance>,
    limit: u8,
) -> (r: Result<u8, ErrorCode>)
    requires
        market.wf(),
        old(event_queue).wf(),
    ensures
        final(event_queue).wf(),
        ({
            let q0 = old(event_queue).contents();
            let bals0 = old(maker_balances)@;
            let lot = market.base_lot_size;
            let tick = market.quote_tick_size;
            if limit > 0 && q0.len() == 0 {
                &&& r == Err::<u8, ErrorCode>(ErrorCode::EventQueueEmpty)
                &&& final(event_queue).contents() == q0
                &&& final(maker_balances)@ == bals0
            } else {
                match spec_consume(q0, bals0, lot, tick, limit as int) {
                    Err(e) => {
                        &&& r == Err::<u8, ErrorCode>(e)
                        &&& final(event_queue).contents() == q0
                        &&& final(maker_balances)@ == bals0
                    },
                    Ok((bs, n)) => {
                        &&& 0 <= n <= limit
                        &&& r == Ok::<u8, ErrorCode>(n as u8)
                        &&& final(maker_balances)@ == bs
                        &&& final(event_queue).contents() == q0.skip(n)
                    },
                }
            }
        }),
{
    let lot = market.base_lot_size;
    let tick = market.quote_tick_size;
    if limit > 0 && event_queue.is_empty() {
        return Err(ErrorCode::EventQueueEmpty);
    }
    let ghost q0 = event_queue.contents();
    let ghost bals0 = maker_balances@;
    let backup_head = event_queue.head;
    let backup_tail = event_queue.tail;
    let backup_events = copy_events(&event_queue.events);
    let backup_bals = copy_balances(maker_balances);
    let mut processed: u8 = 0;
    let mut err: Option<ErrorCode> = None;
    proof {
        assert(q0.skip(0) =~= q0);
    }
    loop
        invariant_except_break
            err is None,
        invariant
            event_queue.wf(),
            0 <= processed <= limit,
            ({
                let total = spec_consume(q0, bals0, lot, tick, limit as int);
                match err {
                    None => {
                        &&& processed as int <= q0.len()
                        &&& event_queue.contents() == q0.skip(processed as int)
                        &&& (match (
                            total,
                            spec_consume(
                                event_queue.contents(),
                                maker_balances@,
                                lot,
                                tick,
                                limit - processed,
                            ),
                        ) {
                            (Ok((bs, n)), Ok((bs2, n2))) => bs2 == bs && n == processed + n2,
                            (Err(e1), Err(e2)) => e1 == e2,
                            _ => false,
                        })
                    },
                    Some(e) => total == Err::<(Seq<UserBalance>, int), ErrorCode>(e),
                }
            }),
        ensures
            event_queue.wf(),
            0 <= processed <= limit,
            ({
                let total = spec_consume(q0, bals0, lot, tick, limit as int);
                match err {
                    None => {
                        &&& processed as int <= q0.len()
                        &&& event_queue.contents() == q0.skip(processed as int)
                        &&& spec_consume(
                            event_queue.contents(),
                            maker_balances@,
                            lot,
                            tick,
                            limit - processed,
                        ) == Ok::<(Seq<UserBalance>, int), ErrorCode>((maker_balances@, 0))
                        &&& (match total {
                            Ok((bs, n)) => bs == maker_balances@ && n == processed,
                            Err(_) => false,
                        })
                    },
                    Some(e) => total == Err::<(Seq<UserBalance>, int), ErrorCode>(e),
                }
            }),
        decreases limit - processed,
    {
        if processed >= limit {
            break ;
        }
        if event_queue.is_empty() {
            break ;
        }
        let ev = match event_queue.peek_event() {
            Ok(x) => x,
            Err(e0) => {
                return Err(e0);
            },
        };
        let pos = match find_balance(maker_balances, ev.maker_owner) {
            None => {
                proof {
                    lemma_find_balance_props(maker_balances@, ev.maker_owner);
                }
                break ;
            },
            Some(p) => p,
        };
        proof {
            lemma_find_balance_props(maker_balances@, ev.maker_owner);
            assert(q0.skip(processed as int).drop_first() =~= q0.skip(processed as int + 1));
        }
        let fill_base = match base_amount(ev.quantity, lot) {
            None => {
                proof {
                    assert(spec_consume(
                        event_queue.contents(),
                        maker_balances@,
                        lot,
                        tick,
                        limit - processed,
                    ) == Err::<(Seq<UserBalance>, int), ErrorCode>(ErrorCode::MathOverflow));
                }
                err = Some(ErrorCode::MathOverflow);
                break ;
            },
            Some(x) => x,
        };
        let fill_quote = match quote_amount(ev.price, ev.quantity, tick, lot) {
            None => {
                proof {
                    assert(spec_consume(
                        event_queue.contents(),
                        maker_balances@,
                        lot,
                        tick,
                        limit - processed,
                    ) == Err::<(Seq<UserBalance>, int), ErrorCode>(ErrorCode::MathOverflow));
                }
                err = Some(ErrorCode::MathOverflow);
                break ;
            },
            Some(x) => x,
        };
        let old_bal = maker_balances[pos];
        let new_bal = if ev.maker_side == 0 {
            match old_bal.base_balance.checked_add(fill_base) {
                None => {
                    proof {
                        assert(spec_find_balance(maker_balances@, ev.maker_owner) == pos as int);
                        assert(maker_balances@[pos as int] == old_bal);
                        assert(spec_credit_maker(old_bal, ev, lot, tick) == Err::<
                            UserBalance,
                            ErrorCode,
                        >(ErrorCode::MathOverflow));
                        lemma_consume_step_err(
                            event_queue.contents(),
                            maker_balances@,
                            lot,
                            tick,
                            limit - processed,
                            ErrorCode::MathOverflow,
                        );
                    }
                    err = Some(ErrorCode::MathOverflow);
                    break ;
                },
                Some(x) => UserBalance { base_balance: x, ..old_bal },
            }
        } else if ev.maker_side == 1 {
            match old_bal.quote_balance.checked_add(fill_quote) {
                None => {
                    proof {
                        assert(spec_find_balance(maker_balances@, ev.maker_owner) == pos as int);
                        assert(maker_balances@[pos as int] == old_bal);
                        assert(spec_credit_maker(old_bal, ev, lot, tick) == Err::<
                            UserBalance,
                            ErrorCode,
                        >(ErrorCode::MathOverflow));
                        lemma_consume_step_err(
                            event_queue.contents(),
                            maker_balances@,
                            lot,
                            tick,
                            limit - processed,
                            ErrorCode::MathOverflow,
                        );
                    }
                    err = Some(ErrorCode::MathOverflow);
                    break ;
                },
                Some(x) => UserBalance { quote_balance: x, ..old_bal },
            }
        } else {
            proof {
                assert(spec_consume(
                    event_queue.contents(),
                    maker_balances@,
                    lot,
                    tick,
                    limit - processed,
                ) == Err::<(Seq<UserBalance>, int), ErrorCode>(ErrorCode::InvalidParameter));
            }
            err = Some(ErrorCode::InvalidParameter);
            break ;
        };
        maker_balances.set(pos, new_bal);
        let popped = event_queue.pop_event();
        proof {
            assert(popped is Ok);
        }
        processed = processed + 1;
    }
    if let Some(e) = err {
        rollback_consume(
            event_queue,
            maker_balances,
            backup_head,
            backup_tail,
            backup_events,
            backup_bals,
        );
        return Err(e);
    }
    Ok(processed)
}

} // verus!
