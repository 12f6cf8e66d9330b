use vstd::prelude::*;

use crate::book::{spec_fillable, spec_match};
use crate::engine::{spec_consume, spec_credit_maker, spec_find_balance, spec_place_books};
use crate::errors::ErrorCode;
use crate::event_queue::FillEvent;
use crate::market::Market;
use crate::math::spec_required_amount;
use crate::order::{comes_before, crosses, Fill, Order, Side, TimeInForce};
use crate::user_balance::UserBalance;

verus! {

/// Matching walks the book strictly from the front: the `i`-th fill consumes
/// the `i`-th resting order, at that order's own resting price, tagged with
/// its id, owner and side, and never for more than it had left.
pub proof fn lemma_fills_are_book_prefix(book_side: Side, s: Seq<Order>, taker: Order)
    ensures
        ({
            let mo = spec_match(book_side, s, taker);
            &&& mo.fills.len() <= s.len()
            &&& forall|i: int|
                0 <= i < mo.fills.len() ==> (#[trigger] mo.fills[i]).maker_order_id
                    == s[i].order_id && mo.fills[i].price == s[i].price && mo.fills[i].maker_owner
                    == s[i].owner && mo.fills[i].maker_side == book_side
                    && mo.fills[i].taker_order_id == taker.order_id && mo.fills[i].quantity
                    <= s[i].remaining_quantity
        }),
    decreases s.len(),
{
    let mo = spec_match(book_side, s, taker);
    if taker.remaining_quantity == 0 || s.len() == 0 {
    } else {
        let m = s[0];
        if !crosses(book_side, m.price, taker.price) {
        } else if m.remaining_quantity > taker.remaining_quantity {
        } else {
            let t2 = Order {
                remaining_quantity: (taker.remaining_quantity - m.remaining_quantity) as u64,
                ..taker
            };
            lemma_fills_are_book_prefix(book_side, s.drop_first(), t2);
            let rest = spec_match(book_side, s.drop_first(), t2);
            assert forall|i: int| 0 <= i < mo.fills.len() implies (
            #[trigger] mo.fills[i]).maker_order_id == s[i].order_id && mo.fills[i].price
                == s[i].price && mo.fills[i].maker_owner == s[i].owner && mo.fills[i].maker_side
                == book_side && mo.fills[i].taker_order_id == taker.order_id
                && mo.fills[i].quantity <= s[i].remaining_quantity by {
                if i > 0 {
                    assert(mo.fills[i] == rest.fills[i - 1]);
                    assert(s.drop_first()[i - 1] == s[i]);
                }
            }
        }
    }
}

/// Maker-price fills: every fill settles at the resting price of the maker
/// it consumed, never at the taker's limit price.
pub proof fn lemma_maker_price_fills(book_side: Side, s: Seq<Order>, taker: Order)
    ensures
        ({
            let mo = spec_match(book_side, s, taker);
            forall|i: int|
                #![trigger mo.fills[i]]
                0 <= i < mo.fills.len() ==> exists|j: int|
                    0 <= j < s.len() && (#[trigger] s[j]).order_id == mo.fills[i].maker_order_id
                        && mo.fills[i].price == s[j].price
        }),
{
    lemma_fills_are_book_prefix(book_side, s, taker);
    let mo = spec_match(book_side, s, taker);
    assert forall|i: int| #![trigger mo.fills[i]] 0 <= i < mo.fills.len() implies exists|j: int|
        0 <= j < s.len() && (#[trigger] s[j]).order_id == mo.fills[i].maker_order_id
            && mo.fills[i].price == s[j].price by {
        assert(0 <= i < s.len() && (s[i]).order_id == mo.fills[i].maker_order_id && mo.fills[i].price
            == s[i].price);
    }
}

/// Price-time priority: on a well-sorted book side, whenever the `j`-th
/// resting order receives a fill, every resting order of strictly better
/// priority was filled before it (at an earlier position in the fill
/// sequence), and each earlier-filled order really does have the better
/// price, or the same price and the earlier timestamp.
pub proof fn lemma_price_time_priority(book_side: Side, s: Seq<Order>, taker: Order)
    requires
        forall|i: int, j: int|
            0 <= i < j < s.len() ==> comes_before(book_side, #[trigger] s[i], #[trigger] s[j]),
    ensures
        ({
            let mo = spec_match(book_side, s, taker);
            forall|i: int, j: int|
                0 <= i < j < mo.fills.len() ==> (#[trigger] mo.fills[i]).maker_order_id
                    == s[i].order_id && (#[trigger] mo.fills[j]).maker_order_id == s[j].order_id
                    && comes_before(book_side, s[i], s[j])
        }),
{
    lemma_fills_are_book_prefix(book_side, s, taker);
}

/// Fill-or-kill atomicity, the refusing half: an FOK order that passes
/// validation and the balance check but cannot be filled completely is
/// refused with `FillOrKillNotFilled`, and the books, the queue and the
/// balance are exactly what they were.
pub proof fn lemma_fok_atomicity(
    market: Market,
    own: Seq<Order>,
    opp: Seq<Order>,
    queue: Seq<FillEvent>,
    bal: UserBalance,
    market_id: u64,
    side: Side,
    price: u64,
    quantity: u64,
    now: i64,
)
    requires
        price > 0,
        quantity > 0,
        spec_fillable(side.opposite(), opp, price) < quantity,
    ensures
        ({
            let ps = spec_place_books(
                market,
                own,
                opp,
                queue,
                bal,
                market_id,
                side,
                price,
                quantity,
                TimeInForce::FOK,
                now,
            );
            ps.result is Err ==> {
                &&& ps.own == own
                &&& ps.opp == opp
                &&& ps.queue == queue
                &&& ps.balance == bal
                &&& ps.market == market
            }
        }),
        ({
            let required = spec_required_amount(
                side,
                price,
                quantity,
                market.quote_tick_size,
                market.base_lot_size,
            );
            let avail = if side == Side::Bid {
                bal.quote_balance
            } else {
                bal.base_balance
            };
            (required is Some && avail >= required.unwrap()) ==> spec_place_books(
                market,
                own,
                opp,
                queue,
                bal,
                market_id,
                side,
                price,
                quantity,
                TimeInForce::FOK,
                now,
            ).result == Err::<crate::engine::PlaceOk, ErrorCode>(ErrorCode::FillOrKillNotFilled)
        }),
{
}

/// Fill-or-kill atomicity, the accepting half: an FOK order that is accepted
/// was filled completely, leaving nothing to rest.
pub proof fn lemma_fok_fills_completely(
    market: Market,
    own: Seq<Order>,
    opp: Seq<Order>,
    queue: Seq<FillEvent>,
    bal: UserBalance,
    market_id: u64,
    side: Side,
    price: u64,
    quantity: u64,
    now: i64,
)
    ensures
        ({
            let ps = spec_place_books(
                market,
                own,
                opp,
                queue,
                bal,
                market_id,
                side,
                price,
                quantity,
                TimeInForce::FOK,
                now,
            );
            match ps.result {
                Ok(ok) => ok.remaining_quantity == 0,
                Err(_) => true,
            }
        }),
{
    let ps = spec_place_books(
        market,
        own,
        opp,
        queue,
        bal,
        market_id,
        side,
        price,
        quantity,
        TimeInForce::FOK,
        now,
    );
    if ps.result is Ok {
        let ts = if now > market.last_timestamp {
            now
        } else {
            (market.last_timestamp + 1) as i64
        };
        let taker = Order {
            order_id: market.next_order_id,
            owner: bal.owner,
            price,
            quantity,
            remaining_quantity: quantity,
            timestamp: ts,
        };
        crate::book::lemma_match_consumes_fillable(side.opposite(), opp, taker);
    }
}

/// When a placement is accepted, its order id is the market's counter and
/// the counter advances by one; a refused placement leaves the market alone.
pub proof fn lemma_place_allocates_next_id(
    market: Market,
    own: Seq<Order>,
    opp: Seq<Order>,
    queue: Seq<FillEvent>,
    bal: UserBalance,
    market_id: u64,
    side: Side,
    price: u64,
    quantity: u64,
    tif: TimeInForce,
    now: i64,
)
    ensures
        ({
            let ps = spec_place_books(
                market,
                own,
                opp,
                queue,
                bal,
                market_id,
                side,
                price,
                quantity,
                tif,
                now,
            );
            match ps.result {
                Ok(ok) => ok.order_id == market.next_order_id && ps.market.next_order_id
                    == market.next_order_id + 1,
                Err(_) => ps.market == market,
            }
        }),
{
}

/// Order-id monotonicity: of two placements accepted one after the other,
/// the second gets the strictly greater order id, whatever happened to the
/// books, the queue or the balances in between.
pub proof fn lemma_order_id_monotonic(
    market: Market,
    own1: Seq<Order>,
    opp1: Seq<Order>,
    queue1: Seq<FillEvent>,
    bal1: UserBalance,
    market_id: u64,
    side1: Side,
    price1: u64,
    quantity1: u64,
    tif1: TimeInForce,
    now1: i64,
    own2: Seq<Order>,
    opp2: Seq<Order>,
    queue2: Seq<FillEvent>,
    bal2: UserBalance,
    side2: Side,
    price2: u64,
    quantity2: u64,
    tif2: TimeInForce,
    now2: i64,
)
    ensures
        ({
            let ps1 = spec_place_books(
                market,
                own1,
                opp1,
                queue1,
                bal1,
                market_id,
                side1,
                price1,
                quantity1,
                tif1,
                now1,
            );
            let ps2 = spec_place_books(
                ps1.market,
                own2,
                opp2,
                queue2,
                bal2,
                market_id,
                side2,
                price2,
                quantity2,
                tif2,
                now2,
            );
            match (ps1.result, ps2.result) {
                (Ok(ok1), Ok(ok2)) => ok2.order_id > ok1.order_id,
                _ => true,
            }
        }),
{
    lemma_place_allocates_next_id(
        market,
        own1,
        opp1,
        queue1,
        bal1,
        market_id,
        side1,
        price1,
        quantity1,
        tif1,
        now1,
    );
    let ps1 = spec_place_books(
        market,
        own1,
        opp1,
        queue1,
        bal1,
        market_id,
        side1,
        price1,
        quantity1,
        tif1,
        now1,
    );
    lemma_place_allocates_next_id(
        ps1.market,
        own2,
        opp2,
        queue2,
        bal2,
        market_id,
        side2,
        price2,
        quantity2,
        tif2,
        now2,
    );
}

/// Balances are unsigned machine integers: no reachable state, initial or
/// intermediate, holds a negative balance. A debit that would underflow
/// fails its operation (with the prior state restored) instead of wrapping.
pub proof fn lemma_no_negative_balance(bal: UserBalance)
    ensures
        bal.base_balance >= 0,
        bal.quote_balance >= 0,
{
}

} // verus!

verus! {

/// Queue FIFO: whatever `consume` delivers is exactly an initial run of the
/// queue, in enqueue order — folding just the first `n` events produces the
/// same balances and the same count as the whole call.
pub proof fn lemma_consume_fifo(
    queue: Seq<FillEvent>,
    bals: Seq<UserBalance>,
    lot: u64,
    tick: u64,
    limit: int,
)
    ensures
        ({
            match spec_consume(queue, bals, lot, tick, limit) {
                Ok((bs, n)) => {
                    &&& 0 <= n <= queue.len()
                    &&& n <= (if limit > 0 {
                        limit
                    } else {
                        0
                    })
                    &&& spec_consume(queue.take(n), bals, lot, tick, limit) == Ok::<
                        (Seq<UserBalance>, int),
                        ErrorCode,
                    >((bs, n))
                },
                Err(_) => true,
            }
        }),
    decreases limit,
{
    if limit <= 0 || queue.len() == 0 {
        assert(queue.take(0) =~= Seq::<FillEvent>::empty());
    } else {
        let e = queue[0];
        let pos = spec_find_balance(bals, e.maker_owner);
        if pos == bals.len() {
            assert(queue.take(0) =~= Seq::<FillEvent>::empty());
        } else {
            match spec_credit_maker(bals[pos], e, lot, tick) {
                Err(_) => {},
                Ok(b2) => {
                    lemma_consume_fifo(queue.drop_first(), bals.update(pos, b2), lot, tick, limit - 1);
                    match spec_consume(queue.drop_first(), bals.update(pos, b2), lot, tick, limit - 1) {
                        Err(_) => {},
                        Ok((bs, n)) => {
                            assert(queue.take(n + 1)[0] == e);
                            assert(queue.take(n + 1).drop_first() =~= queue.drop_first().take(n));
                            assert(spec_consume(queue.take(n + 1), bals, lot, tick, limit) == Ok::<
                                (Seq<UserBalance>, int),
                                ErrorCode,
                            >((bs, n + 1)));
                        },
                    }
                },
            }
        }
    }
}

/// Cancel round-trip: a good-till-cancelled order that rested without
/// matching anything, when cancelled by its owner, hands the reservation
/// back exactly — balance and book both return to their pre-place state.
pub proof fn lemma_cancel_roundtrip(
    market: Market,
    own: Seq<Order>,
    opp: Seq<Order>,
    queue: Seq<FillEvent>,
    bal: UserBalance,
    market_id: u64,
    side: Side,
    price: u64,
    quantity: u64,
    now: i64,
)
    requires
        forall|i: int| 0 <= i < own.len() ==> (#[trigger] own[i]).order_id < market.next_order_id,
    ensures
        ({
            let ps = spec_place_books(
                market,
                own,
                opp,
                queue,
                bal,
                market_id,
                side,
                price,
                quantity,
                TimeInForce::GTC,
                now,
            );
            match ps.result {
                Ok(ok) => ok.fills.len() == 0 ==> {
                    let cs = crate::engine::spec_cancel(
                        ps.market,
                        ps.own,
                        ps.balance,
                        ok.order_id,
                        side,
                    );
                    &&& cs.result is Ok
                    &&& cs.balance == bal
                    &&& cs.book == own
                },
                Err(_) => true,
            }
        }),
{
    let ps = spec_place_books(
        market,
        own,
        opp,
        queue,
        bal,
        market_id,
        side,
        price,
        quantity,
        TimeInForce::GTC,
        now,
    );
    if ps.result is Ok && ps.result.unwrap().fills.len() == 0 {
        let ok = ps.result.unwrap();
        let ts = if now > market.last_timestamp {
            now
        } else {
            (market.last_timestamp + 1) as i64
        };
        let taker = Order {
            order_id: market.next_order_id,
            owner: bal.owner,
            price,
            quantity,
            remaining_quantity: quantity,
            timestamp: ts,
        };
        let mo = spec_match(side.opposite(), opp, taker);
        // No fills means the match loop stopped immediately, so the taker is
        // untouched and rests whole.
        assert(mo.taker == taker);
        let pos = crate::book::spec_insert_pos(side, own, taker);
        crate::book::lemma_insert_pos_props(side, own, taker);
        let own2 = own.insert(pos, taker);
        assert(ps.own == own2);
        let fpos = crate::book::spec_find_pos(own2, taker.order_id);
        crate::book::lemma_find_pos_props(own2, taker.order_id);
        if fpos < pos {
            assert(own2[fpos] == own[fpos]);
            assert(own[fpos].order_id < market.next_order_id);
            assert(own2[fpos].order_id == taker.order_id);
            assert(false);
        }
        if fpos > pos {
            assert(own2[pos].order_id == taker.order_id);
            assert(false);
        }
        assert(own2[pos] == taker);
        assert(own2.remove(pos) =~= own);
    }
}

} // verus!

verus! {

/// Base units reserved by one book side: asks debit `remaining * lot` from
/// their owners at place time.
pub open spec fn book_base_reserved(s: Seq<Order>, lot: u64) -> int
    decreases s.len(),
{
    if s.len() == 0 {
        0
    } else {
        s[0].remaining_quantity * lot + book_base_reserved(s.drop_first(), lot)
    }
}

/// The quote units a resting bid still has reserved: the floored cost of its
/// remaining quantity at its own price.
pub open spec fn order_quote_value(o: Order, tick: u64, lot: u64) -> int {
    (o.price * o.remaining_quantity * tick) / (lot as int)
}

/// Quote units reserved by one book side: bids debit their floored cost from
/// their owners at place time.
pub open spec fn book_quote_reserved(s: Seq<Order>, tick: u64, lot: u64) -> int
    decreases s.len(),
{
    if s.len() == 0 {
        0
    } else {
        order_quote_value(s[0], tick, lot) + book_quote_reserved(s.drop_first(), tick, lot)
    }
}

/// Base units a queued event still owes its maker: a bid maker (tag 0) is
/// owed the base it bought.
pub open spec fn event_base_value(e: FillEvent, lot: u64) -> int {
    if e.maker_side == 0 {
        e.quantity * lot
    } else {
        0
    }
}

/// Quote units a queued event still owes its maker: an ask maker (tag 1) is
/// owed the floored quote proceeds.
pub open spec fn event_quote_value(e: FillEvent, tick: u64, lot: u64) -> int {
    if e.maker_side == 1 {
        (e.price * e.quantity * tick) / (lot as int)
    } else {
        0
    }
}

/// Base units in flight in the queue, owed to bid makers.
pub open spec fn queue_base_pending(q: Seq<FillEvent>, lot: u64) -> int
    decreases q.len(),
{
    if q.len() == 0 {
        0
    } else {
        event_base_value(q[0], lot) + queue_base_pending(q.drop_first(), lot)
    }
}

/// Quote units in flight in the queue, owed to ask makers.
pub open spec fn queue_quote_pending(q: Seq<FillEvent>, tick: u64, lot: u64) -> int
    decreases q.len(),
{
    if q.len() == 0 {
        0
    } else {
        event_quote_value(q[0], tick, lot) + queue_quote_pending(q.drop_first(), tick, lot)
    }
}

pub proof fn lemma_pending_push(q: Seq<FillEvent>, e: FillEvent, tick: u64, lot: u64)
    ensures
        queue_base_pending(q.push(e), lot) == queue_base_pending(q, lot) + event_base_value(e, lot),
        queue_quote_pending(q.push(e), tick, lot) == queue_quote_pending(q, tick, lot)
            + event_quote_value(e, tick, lot),
    decreases q.len(),
{
    if q.len() == 0 {
        assert(q.push(e)[0] == e);
        assert(q.push(e).drop_first() =~= Seq::<FillEvent>::empty());
        assert(queue_base_pending(q.push(e), lot) == event_base_value(e, lot)
            + queue_base_pending(q.push(e).drop_first(), lot));
        assert(queue_quote_pending(q.push(e), tick, lot) == event_quote_value(e, tick, lot)
            + queue_quote_pending(q.push(e).drop_first(), tick, lot));
    } else {
        assert(q.push(e)[0] == q[0]);
        assert(q.push(e).drop_first() =~= q.drop_first().push(e));
        lemma_pending_push(q.drop_first(), e, tick, lot);
        assert(queue_base_pending(q.push(e), lot) == event_base_value(q[0], lot)
            + queue_base_pending(q.drop_first().push(e), lot));
        assert(queue_quote_pending(q.push(e), tick, lot) == event_quote_value(q[0], tick, lot)
            + queue_quote_pending(q.drop_first().push(e), tick, lot));
    }
}

pub proof fn lemma_reserved_insert(s: Seq<Order>, o: Order, pos: int, tick: u64, lot: u64)
    requires
        0 <= pos <= s.len(),
    ensures
        book_base_reserved(s.insert(pos, o), lot) == book_base_reserved(s, lot)
            + o.remaining_quantity * lot,
        book_quote_reserved(s.insert(pos, o), tick, lot) == book_quote_reserved(s, tick, lot)
            + order_quote_value(o, tick, lot),
    decreases pos,
{
    if pos == 0 {
        assert(s.insert(0, o)[0] == o);
        assert(s.insert(0, o).drop_first() =~= s);
    } else {
        assert(s.insert(pos, o)[0] == s[0]);
        assert(s.insert(pos, o).drop_first() =~= s.drop_first().insert(pos - 1, o));
        lemma_reserved_insert(s.drop_first(), o, pos - 1, tick, lot);
    }
}

pub proof fn lemma_reserved_remove(s: Seq<Order>, pos: int, tick: u64, lot: u64)
    requires
        0 <= pos < s.len(),
    ensures
        book_base_reserved(s.remove(pos), lot) == book_base_reserved(s, lot)
            - s[pos].remaining_quantity * lot,
        book_quote_reserved(s.remove(pos), tick, lot) == book_quote_reserved(s, tick, lot)
            - order_quote_value(s[pos], tick, lot),
    decreases pos,
{
    if pos == 0 {
        assert(s.remove(0) =~= s.drop_first());
    } else {
        assert(s.remove(pos)[0] == s[0]);
        assert(s.remove(pos).drop_first() =~= s.drop_first().remove(pos - 1));
        assert(s.drop_first()[pos - 1] == s[pos]);
        lemma_reserved_remove(s.drop_first(), pos - 1, tick, lot);
    }
}

} // verus!

verus! {

/// With exact pricing — the lot size divides `price * tick` — the floored
/// quote cost is linear in the quantity, so splitting a quantity in two
/// splits its cost exactly.
pub proof fn lemma_exact_quote_linear(price: u64, whole: int, part: int, tick: u64, lot: u64)
    requires
        lot > 0,
        (price * tick) % (lot as int) == 0,
        0 <= part <= whole,
    ensures
        (price * whole * tick) / (lot as int) == (price * (whole - part) * tick) / (lot as int) + (
        price * part * tick) / (lot as int),
{
    let l = lot as int;
    let k = (price * tick) / l;
    vstd::arithmetic::div_mod::lemma_fundamental_div_mod(price * tick, l);
    assert(price * tick == l * k);
    assert(price * whole * tick == l * (k * whole)) by (nonlinear_arith)
        requires
            price * tick == l * k,
    ;
    assert(price * (whole - part) * tick == l * (k * (whole - part))) by (nonlinear_arith)
        requires
            price * tick == l * k,
    ;
    assert(price * part * tick == l * (k * part)) by (nonlinear_arith)
        requires
            price * tick == l * k,
    ;
    vstd::arithmetic::div_mod::lemma_div_multiples_vanish(k * whole, l);
    vstd::arithmetic::div_mod::lemma_div_multiples_vanish(k * (whole - part), l);
    vstd::arithmetic::div_mod::lemma_div_multiples_vanish(k * part, l);
    assert(k * whole == k * (whole - part) + k * part) by (nonlinear_arith);
}

/// Conservation through matching and taker settlement, bid-taker case: the
/// taker's base gain is exactly the base the consumed asks had reserved, and
/// the quote it pays goes one-for-one into the queue as the ask makers'
/// pending proceeds. (Base reservations are linear in the quantity, so no
/// exactness hypothesis is needed on this side.)
pub proof fn lemma_bid_taker_conserves(
    s: Seq<Order>,
    taker: Order,
    bal: UserBalance,
    queue: Seq<FillEvent>,
    lot: u64,
    tick: u64,
    market_id: u64,
    ts: i64,
)
    ensures
        ({
            let mo = spec_match(Side::Ask, s, taker);
            match crate::engine::spec_settle_fills(
                Side::Bid,
                mo.fills,
                bal,
                queue,
                lot,
                tick,
                market_id,
                ts,
            ) {
                Ok(pair) => {
                    &&& pair.0.base_balance + book_base_reserved(mo.book, lot)
                        + queue_base_pending(pair.1, lot) == bal.base_balance + book_base_reserved(
                        s,
                        lot,
                    ) + queue_base_pending(queue, lot)
                    &&& pair.0.quote_balance + queue_quote_pending(pair.1, tick, lot)
                        == bal.quote_balance + queue_quote_pending(queue, tick, lot)
                },
                Err(_) => true,
            }
        }),
    decreases s.len(),
{
    let mo = spec_match(Side::Ask, s, taker);
    if taker.remaining_quantity == 0 || s.len() == 0 {
        assert(crate::engine::spec_settle_fills(
            Side::Bid,
            mo.fills,
            bal,
            queue,
            lot,
            tick,
            market_id,
            ts,
        ) == Ok::<(UserBalance, Seq<FillEvent>), ErrorCode>((bal, queue)));
    } else {
        let m = s[0];
        if !crosses(Side::Ask, m.price, taker.price) {
            assert(crate::engine::spec_settle_fills(
                Side::Bid,
                mo.fills,
                bal,
                queue,
                lot,
                tick,
                market_id,
                ts,
            ) == Ok::<(UserBalance, Seq<FillEvent>), ErrorCode>((bal, queue)));
        } else if m.remaining_quantity > taker.remaining_quantity {
            let q = taker.remaining_quantity;
            let f = Fill {
                maker_order_id: m.order_id,
                taker_order_id: taker.order_id,
                maker_owner: m.owner,
                maker_side: Side::Ask,
                price: m.price,
                quantity: q,
            };
            assert(mo.fills == seq![f]);
            match crate::engine::spec_settle_fills(
                Side::Bid,
                mo.fills,
                bal,
                queue,
                lot,
                tick,
                market_id,
                ts,
            ) {
                Err(_) => {},
                Ok(pair) => {
                    let ev = crate::engine::spec_fill_event(f, bal.owner, market_id, ts);
                    vstd::arithmetic::div_mod::lemma_div_pos_is_pos(
                        m.price * f.quantity * tick,
                        lot as int,
                    );
                    vstd::arithmetic::div_mod::lemma_div_nonincreasing(
                        m.price * f.quantity * tick,
                        lot as int,
                    );
                    assert(seq![f][0] == f);
                    assert(seq![f].drop_first() =~= Seq::<Fill>::empty());
                    lemma_pending_push(queue, ev, tick, lot);
                    let qa = (m.price * q * tick) / (lot as int);
                    let bal2 = UserBalance {
                        base_balance: (bal.base_balance + q * lot) as u64,
                        quote_balance: (bal.quote_balance - qa) as u64,
                        ..bal
                    };
                    reveal_with_fuel(crate::engine::spec_settle_fills, 3);
                    assert(crate::engine::spec_settle_fills(
                        Side::Bid,
                        mo.fills,
                        bal,
                        queue,
                        lot,
                        tick,
                        market_id,
                        ts,
                    ) == Ok::<(UserBalance, Seq<FillEvent>), ErrorCode>((bal2, queue.push(ev))));
                    let m2 = Order {
                        remaining_quantity: (m.remaining_quantity - q) as u64,
                        ..m
                    };
                    assert(mo.book[0] == m2);
                    assert(mo.book.drop_first() =~= s.drop_first());
                    assert(book_base_reserved(mo.book, lot) == m2.remaining_quantity * lot
                        + book_base_reserved(s.drop_first(), lot));
                    assert(m2.remaining_quantity * lot + q * lot == m.remaining_quantity * lot)
                        by (nonlinear_arith)
                        requires
                            m2.remaining_quantity == m.remaining_quantity - q,
                    ;
                    assert(pair.0.base_balance + book_base_reserved(mo.book, lot)
                        + queue_base_pending(pair.1, lot) == bal.base_balance + book_base_reserved(
                        s,
                        lot,
                    ) + queue_base_pending(queue, lot));
                    assert(pair.0.quote_balance + queue_quote_pending(pair.1, tick, lot)
                        == bal.quote_balance + queue_quote_pending(queue, tick, lot));
                },
            }
        } else {
            let q = m.remaining_quantity;
            let f = Fill {
                maker_order_id: m.order_id,
                taker_order_id: taker.order_id,
                maker_owner: m.owner,
                maker_side: Side::Ask,
                price: m.price,
                quantity: q,
            };
            let t2 = Order {
                remaining_quantity: (taker.remaining_quantity - m.remaining_quantity) as u64,
                ..taker
            };
            let rest = spec_match(Side::Ask, s.drop_first(), t2);
            assert(mo.fills == seq![f] + rest.fills);
            assert((seq![f] + rest.fills)[0] == f);
            assert((seq![f] + rest.fills).drop_first() =~= rest.fills);
            match crate::engine::spec_settle_fills(
                Side::Bid,
                mo.fills,
                bal,
                queue,
                lot,
                tick,
                market_id,
                ts,
            ) {
                Err(_) => {},
                Ok(pair) => {
                    let ev = crate::engine::spec_fill_event(f, bal.owner, market_id, ts);
                    vstd::arithmetic::div_mod::lemma_div_pos_is_pos(
                        m.price * q * tick,
                        lot as int,
                    );
                    vstd::arithmetic::div_mod::lemma_div_nonincreasing(
                        m.price * q * tick,
                        lot as int,
                    );
                    let qa = (m.price * q * tick) / (lot as int);
                    let bal_a = UserBalance {
                        base_balance: (bal.base_balance + q * lot) as u64,
                        quote_balance: (bal.quote_balance - qa) as u64,
                        ..bal
                    };
                    lemma_pending_push(queue, ev, tick, lot);
                    assert(crate::engine::spec_settle_fills(
                        Side::Bid,
                        mo.fills,
                        bal,
                        queue,
                        lot,
                        tick,
                        market_id,
                        ts,
                    ) == crate::engine::spec_settle_fills(
                        Side::Bid,
                        rest.fills,
                        bal_a,
                        queue.push(ev),
                        lot,
                        tick,
                        market_id,
                        ts,
                    ));
                    lemma_bid_taker_conserves(
                        s.drop_first(),
                        t2,
                        bal_a,
                        queue.push(ev),
                        lot,
                        tick,
                        market_id,
                        ts,
                    );
                    assert(pair.0.base_balance + book_base_reserved(rest.book, lot)
                        + queue_base_pending(pair.1, lot) == bal_a.base_balance
                        + book_base_reserved(s.drop_first(), lot) + queue_base_pending(
                        queue.push(ev),
                        lot,
                    ));
                    assert(book_base_reserved(s, lot) == m.remaining_quantity * lot
                        + book_base_reserved(s.drop_first(), lot));
                    assert(pair.0.base_balance + book_base_reserved(mo.book, lot)
                        + queue_base_pending(pair.1, lot) == bal.base_balance + book_base_reserved(
                        s,
                        lot,
                    ) + queue_base_pending(queue, lot));
                    assert(pair.0.quote_balance + queue_quote_pending(pair.1, tick, lot)
                        == bal.quote_balance + queue_quote_pending(queue, tick, lot));
                },
            }
        }
    }
}

/// Conservation through matching and taker settlement, ask-taker case: the
/// base the taker sells goes one-for-one into the queue as the bid makers'
/// pending base, and — when every resting bid's `price * tick` is an exact
/// multiple of the lot size — the quote the taker receives is exactly what
/// the consumed bids release from their reservations. Without that
/// exactness the flooring of the reservation release under-credits the
/// taker, which is the host's sizing responsibility.
pub proof fn lemma_ask_taker_conserves(
    s: Seq<Order>,
    taker: Order,
    bal: UserBalance,
    queue: Seq<FillEvent>,
    lot: u64,
    tick: u64,
    market_id: u64,
    ts: i64,
)
    requires
        lot > 0,
        forall|i: int| 0 <= i < s.len() ==> ((#[trigger] s[i]).price * tick) % (lot as int) == 0,
    ensures
        ({
            let mo = spec_match(Side::Bid, s, taker);
            match crate::engine::spec_settle_fills(
                Side::Ask,
                mo.fills,
                bal,
                queue,
                lot,
                tick,
                market_id,
                ts,
            ) {
                Ok(pair) => {
                    &&& pair.0.quote_balance + book_quote_reserved(mo.book, tick, lot)
                        + queue_quote_pending(pair.1, tick, lot) == bal.quote_balance
                        + book_quote_reserved(s, tick, lot) + queue_quote_pending(queue, tick, lot)
                    &&& pair.0.base_balance + queue_base_pending(pair.1, lot) == bal.base_balance
                        + queue_base_pending(queue, lot)
                },
                Err(_) => true,
            }
        }),
    decreases s.len(),
{
    let mo = spec_match(Side::Bid, s, taker);
    if taker.remaining_quantity == 0 || s.len() == 0 {
    } else {
        let m = s[0];
        if !crosses(Side::Bid, m.price, taker.price) {
        } else if m.remaining_quantity > taker.remaining_quantity {
            let q = taker.remaining_quantity;
            let f = Fill {
                maker_order_id: m.order_id,
                taker_order_id: taker.order_id,
                maker_owner: m.owner,
                maker_side: Side::Bid,
                price: m.price,
                quantity: q,
            };
            assert(mo.fills == seq![f]);
            match crate::engine::spec_settle_fills(
                Side::Ask,
                mo.fills,
                bal,
                queue,
                lot,
                tick,
                market_id,
                ts,
            ) {
                Err(_) => {},
                Ok(pair) => {
                    let ev = crate::engine::spec_fill_event(f, bal.owner, market_id, ts);
                    vstd::arithmetic::div_mod::lemma_div_pos_is_pos(
                        m.price * f.quantity * tick,
                        lot as int,
                    );
                    vstd::arithmetic::div_mod::lemma_div_nonincreasing(
                        m.price * f.quantity * tick,
                        lot as int,
                    );
                    assert(seq![f][0] == f);
                    assert(seq![f].drop_first() =~= Seq::<Fill>::empty());
                    lemma_pending_push(queue, ev, tick, lot);
                    let qa = (m.price * q * tick) / (lot as int);
                    let bal2 = UserBalance {
                        base_balance: (bal.base_balance - q * lot) as u64,
                        quote_balance: (bal.quote_balance + qa) as u64,
                        ..bal
                    };
                    reveal_with_fuel(crate::engine::spec_settle_fills, 3);
                    assert(crate::engine::spec_settle_fills(
                        Side::Ask,
                        mo.fills,
                        bal,
                        queue,
                        lot,
                        tick,
                        market_id,
                        ts,
                    ) == Ok::<(UserBalance, Seq<FillEvent>), ErrorCode>((bal2, queue.push(ev))));
                    let m2 = Order {
                        remaining_quantity: (m.remaining_quantity - q) as u64,
                        ..m
                    };
                    assert(mo.book[0] == m2);
                    assert(mo.book.drop_first() =~= s.drop_first());
                    assert(book_quote_reserved(mo.book, tick, lot) == order_quote_value(
                        m2,
                        tick,
                        lot,
                    ) + book_quote_reserved(s.drop_first(), tick, lot));
                    lemma_exact_quote_linear(
                        m.price,
                        m.remaining_quantity as int,
                        q as int,
                        tick,
                        lot,
                    );
                },
            }
        } else {
            let q = m.remaining_quantity;
            let f = Fill {
                maker_order_id: m.order_id,
                taker_order_id: taker.order_id,
                maker_owner: m.owner,
                maker_side: Side::Bid,
                price: m.price,
                quantity: q,
            };
            let t2 = Order {
                remaining_quantity: (taker.remaining_quantity - m.remaining_quantity) as u64,
                ..taker
            };
            let rest = spec_match(Side::Bid, s.drop_first(), t2);
            assert(mo.fills == seq![f] + rest.fills);
            assert((seq![f] + rest.fills)[0] == f);
            assert((seq![f] + rest.fills).drop_first() =~= rest.fills);
            match crate::engine::spec_settle_fills(
                Side::Ask,
                mo.fills,
                bal,
                queue,
                lot,
                tick,
                market_id,
                ts,
            ) {
                Err(_) => {},
                Ok(pair) => {
                    let ev = crate::engine::spec_fill_event(f, bal.owner, market_id, ts);
                    vstd::arithmetic::div_mod::lemma_div_pos_is_pos(
                        m.price * q * tick,
                        lot as int,
                    );
                    vstd::arithmetic::div_mod::lemma_div_nonincreasing(
                        m.price * q * tick,
                        lot as int,
                    );
                    let qa = (m.price * q * tick) / (lot as int);
                    let bal_a = UserBalance {
                        base_balance: (bal.base_balance - q * lot) as u64,
                        quote_balance: (bal.quote_balance + qa) as u64,
                        ..bal
                    };
                    lemma_pending_push(queue, ev, tick, lot);
                    assert(forall|i: int|
                        0 <= i < s.drop_first().len() ==> ((#[trigger] s.drop_first()[i]).price
                            * tick) % (lot as int) == 0);
                    lemma_ask_taker_conserves(
                        s.drop_first(),
                        t2,
                        bal_a,
                        queue.push(ev),
                        lot,
                        tick,
                        market_id,
                        ts,
                    );
                    assert(order_quote_value(m, tick, lot) == qa);
                },
            }
        }
    }
}

} // verus!

verus! {

/// Conservation of value through a whole placement: the caller's balance
/// plus what the books hold in reservations plus what the queue still owes
/// makers is unchanged, whether the order was refused, filled, rested or
/// both. Base conservation is unconditional; quote conservation asks that
/// every resting bid's `price * tick` be an exact multiple of the lot size
/// (the host's sizing responsibility), because flooring a non-exact
/// reservation release would leak value.
pub proof fn lemma_place_conserves(
    market: Market,
    own: Seq<Order>,
    opp: Seq<Order>,
    queue: Seq<FillEvent>,
    bal: UserBalance,
    market_id: u64,
    side: Side,
    price: u64,
    quantity: u64,
    tif: TimeInForce,
    now: i64,
)
    requires
        market.wf(),
        side == Side::Ask ==> forall|i: int|
            0 <= i < opp.len() ==> ((#[trigger] opp[i]).price * market.quote_tick_size) % (
            market.base_lot_size as int) == 0,
    ensures
        ({
            let lot = market.base_lot_size;
            let tick = market.quote_tick_size;
            let ps = spec_place_books(
                market,
                own,
                opp,
                queue,
                bal,
                market_id,
                side,
                price,
                quantity,
                tif,
                now,
            );
            let bids0 = if side == Side::Bid {
                own
            } else {
                opp
            };
            let asks0 = if side == Side::Bid {
                opp
            } else {
                own
            };
            let bids1 = if side == Side::Bid {
                ps.own
            } else {
                ps.opp
            };
            let asks1 = if side == Side::Bid {
                ps.opp
            } else {
                ps.own
            };
            &&& ps.balance.base_balance + book_base_reserved(asks1, lot) + queue_base_pending(
                ps.queue,
                lot,
            ) == bal.base_balance + book_base_reserved(asks0, lot) + queue_base_pending(queue, lot)
            &&& ps.balance.quote_balance + book_quote_reserved(bids1, tick, lot)
                + queue_quote_pending(ps.queue, tick, lot) == bal.quote_balance
                + book_quote_reserved(bids0, tick, lot) + queue_quote_pending(queue, tick, lot)
        }),
{
    let lot = market.base_lot_size;
    let tick = market.quote_tick_size;
    let ps = spec_place_books(
        market,
        own,
        opp,
        queue,
        bal,
        market_id,
        side,
        price,
        quantity,
        tif,
        now,
    );
    if ps.result is Ok {
        let ts = if now > market.last_timestamp {
            now
        } else {
            (market.last_timestamp + 1) as i64
        };
        let taker = Order {
            order_id: market.next_order_id,
            owner: bal.owner,
            price,
            quantity,
            remaining_quantity: quantity,
            timestamp: ts,
        };
        let mo = spec_match(side.opposite(), opp, taker);
        crate::book::lemma_match_taker(side.opposite(), opp, taker);
        if side == Side::Bid {
            lemma_bid_taker_conserves(opp, taker, bal, queue, lot, tick, market_id, ts);
        } else {
            lemma_ask_taker_conserves(opp, taker, bal, queue, lot, tick, market_id, ts);
        }
        let rem = mo.taker.remaining_quantity;
        if rem > 0 && tif == TimeInForce::GTC {
            let pos = crate::book::spec_insert_pos(side, own, mo.taker);
            crate::book::lemma_insert_pos_props(side, own, mo.taker);
            lemma_reserved_insert(own, mo.taker, pos, tick, lot);
            if side == Side::Bid {
                vstd::arithmetic::div_mod::lemma_div_pos_is_pos(
                    price * rem * tick,
                    lot as int,
                );
                vstd::arithmetic::div_mod::lemma_div_nonincreasing(
                    price * rem * tick,
                    lot as int,
                );
                assert(order_quote_value(mo.taker, tick, lot) == (price * rem * tick) / (
                lot as int));
            }
        }
    }
}

/// Conservation of value through a cancel: whatever the removed order still
/// had reserved moves back into its owner's balance, exactly; the other
/// asset is untouched. A refused cancel moves nothing.
pub proof fn lemma_cancel_conserves(
    market: Market,
    book: Seq<Order>,
    bal: UserBalance,
    order_id: u64,
    side: Side,
)
    requires
        market.wf(),
    ensures
        ({
            let lot = market.base_lot_size;
            let tick = market.quote_tick_size;
            let cs = crate::engine::spec_cancel(market, book, bal, order_id, side);
            if side == Side::Bid {
                &&& cs.balance.quote_balance + book_quote_reserved(cs.book, tick, lot)
                    == bal.quote_balance + book_quote_reserved(book, tick, lot)
                &&& cs.balance.base_balance == bal.base_balance
            } else {
                &&& cs.balance.base_balance + book_base_reserved(cs.book, lot) == bal.base_balance
                    + book_base_reserved(book, lot)
                &&& cs.balance.quote_balance == bal.quote_balance
            }
        }),
{
    let lot = market.base_lot_size;
    let tick = market.quote_tick_size;
    let cs = crate::engine::spec_cancel(market, book, bal, order_id, side);
    let pos = crate::book::spec_find_pos(book, order_id);
    crate::book::lemma_find_pos_props(book, order_id);
    if cs.result is Ok {
        let o = book[pos];
        lemma_reserved_remove(book, pos, tick, lot);
        if side == Side::Bid {
            vstd::arithmetic::div_mod::lemma_div_pos_is_pos(
                o.price * o.remaining_quantity * tick,
                lot as int,
            );
            vstd::arithmetic::div_mod::lemma_div_nonincreasing(
                o.price * o.remaining_quantity * tick,
                lot as int,
            );
        }
    }
}

/// Total free base units across a set of balance records.
pub open spec fn balances_base_sum(bs: Seq<UserBalance>) -> int
    decreases bs.len(),
{
    if bs.len() == 0 {
        0
    } else {
        bs[0].base_balance + balances_base_sum(bs.drop_first())
    }
}

/// Total free quote units across a set of balance records.
pub open spec fn balances_quote_sum(bs: Seq<UserBalance>) -> int
    decreases bs.len(),
{
    if bs.len() == 0 {
        0
    } else {
        bs[0].quote_balance + balances_quote_sum(bs.drop_first())
    }
}

pub proof fn lemma_balances_sum_update(bs: Seq<UserBalance>, i: int, b: UserBalance)
    requires
        0 <= i < bs.len(),
    ensures
        balances_base_sum(bs.update(i, b)) == balances_base_sum(bs) - bs[i].base_balance
            + b.base_balance,
        balances_quote_sum(bs.update(i, b)) == balances_quote_sum(bs) - bs[i].quote_balance
            + b.quote_balance,
    decreases i,
{
    if i == 0 {
        assert(bs.update(0, b)[0] == b);
        assert(bs.update(0, b).drop_first() =~= bs.drop_first());
    } else {
        assert(bs.update(i, b)[0] == bs[0]);
        assert(bs.update(i, b).drop_first() =~= bs.drop_first().update(i - 1, b));
        assert(bs.drop_first()[i - 1] == bs[i]);
        lemma_balances_sum_update(bs.drop_first(), i - 1, b);
    }
}

/// Conservation of value through an event drain: every credit a maker
/// receives comes out of the queue's pending totals, one for one, so the
/// sum of the supplied balances plus what the queue still owes is
/// unchanged. A failed drain moves nothing.
pub proof fn lemma_consume_conserves(
    queue: Seq<FillEvent>,
    bals: Seq<UserBalance>,
    lot: u64,
    tick: u64,
    limit: int,
)
    ensures
        ({
            match spec_consume(queue, bals, lot, tick, limit) {
                Ok((bs, n)) => {
                    &&& 0 <= n <= queue.len()
                    &&& balances_base_sum(bs) + queue_base_pending(queue.skip(n), lot)
                        == balances_base_sum(bals) + queue_base_pending(queue, lot)
                    &&& balances_quote_sum(bs) + queue_quote_pending(queue.skip(n), tick, lot)
                        == balances_quote_sum(bals) + queue_quote_pending(queue, tick, lot)
                },
                Err(_) => true,
            }
        }),
    decreases limit,
{
    if limit <= 0 || queue.len() == 0 {
        assert(queue.skip(0) =~= queue);
    } else {
        let e = queue[0];
        let pos = spec_find_balance(bals, e.maker_owner);
        crate::engine::lemma_find_balance_props(bals, e.maker_owner);
        if pos == bals.len() {
            assert(queue.skip(0) =~= queue);
        } else {
            match spec_credit_maker(bals[pos], e, lot, tick) {
                Err(_) => {},
                Ok(b2) => {
                    lemma_balances_sum_update(bals, pos, b2);
                    lemma_consume_conserves(
                        queue.drop_first(),
                        bals.update(pos, b2),
                        lot,
                        tick,
                        limit - 1,
                    );
                    match spec_consume(queue.drop_first(), bals.update(pos, b2), lot, tick, limit - 1) {
                        Err(_) => {},
                        Ok((bs, n)) => {
                            assert(queue.skip(n + 1) =~= queue.drop_first().skip(n));
                        },
                    }
                },
            }
        }
    }
}

} // verus!

verus! {

/// A valid top of book: every resting bid is priced strictly below every
/// resting ask, so no two resting orders cross.
pub open spec fn books_do_not_cross(bids: Seq<Order>, asks: Seq<Order>) -> bool {
    forall|i: int, j: int|
        0 <= i < bids.len() && 0 <= j < asks.len() ==> (#[trigger] bids[i]).price < (
        #[trigger] asks[j]).price
}

/// When matching leaves the incoming order unfilled in part, nothing left on
/// the opposite side crosses it any more: matching stops only at the end of
/// the book or at the first non-crossing price, and the book is sorted.
pub proof fn lemma_match_residual_uncrossed(book_side: Side, s: Seq<Order>, taker: Order)
    requires
        forall|i: int, j: int|
            0 <= i < j < s.len() ==> comes_before(book_side, #[trigger] s[i], #[trigger] s[j]),
    ensures
        ({
            let mo = spec_match(book_side, s, taker);
            mo.taker.remaining_quantity > 0 ==> forall|i: int|
                0 <= i < mo.book.len() ==> !crosses(
                    book_side,
                    (#[trigger] mo.book[i]).price,
                    taker.price,
                )
        }),
    decreases s.len(),
{
    let mo = spec_match(book_side, s, taker);
    if taker.remaining_quantity == 0 || s.len() == 0 {
    } else {
        let m = s[0];
        if !crosses(book_side, m.price, taker.price) {
            assert forall|i: int| 0 <= i < mo.book.len() implies !crosses(
                book_side,
                (#[trigger] mo.book[i]).price,
                taker.price,
            ) by {
                if i > 0 {
                    assert(comes_before(book_side, s[0], s[i]));
                }
            }
        } else if m.remaining_quantity > taker.remaining_quantity {
        } else {
            let t2 = Order {
                remaining_quantity: (taker.remaining_quantity - m.remaining_quantity) as u64,
                ..taker
            };
            assert(forall|i: int, j: int|
                0 <= i < j < s.drop_first().len() ==> comes_before(
                    book_side,
                    #[trigger] s.drop_first()[i],
                    #[trigger] s.drop_first()[j],
                ));
            lemma_match_residual_uncrossed(book_side, s.drop_first(), t2);
        }
    }
}

/// The book stays a valid top of book: if no resting bid crossed any resting
/// ask before a placement, none does after it. Whatever crossed the incoming
/// order was consumed, and its remainder rests only when the best opposite
/// price no longer reaches it.
pub proof fn lemma_place_preserves_no_cross(
    market: Market,
    own: Seq<Order>,
    opp: Seq<Order>,
    queue: Seq<FillEvent>,
    bal: UserBalance,
    market_id: u64,
    side: Side,
    price: u64,
    quantity: u64,
    tif: TimeInForce,
    now: i64,
)
    requires
        forall|i: int, j: int|
            0 <= i < j < opp.len() ==> comes_before(
                side.opposite(),
                #[trigger] opp[i],
                #[trigger] opp[j],
            ),
        ({
            let bids0 = if side == Side::Bid {
                own
            } else {
                opp
            };
            let asks0 = if side == Side::Bid {
                opp
            } else {
                own
            };
            books_do_not_cross(bids0, asks0)
        }),
    ensures
        ({
            let ps = spec_place_books(
                market,
                own,
                opp,
                queue,
                bal,
                market_id,
                side,
                price,
                quantity,
                tif,
                now,
            );
            let bids1 = if side == Side::Bid {
                ps.own
            } else {
                ps.opp
            };
            let asks1 = if side == Side::Bid {
                ps.opp
            } else {
                ps.own
            };
            books_do_not_cross(bids1, asks1)
        }),
{
    let ps = spec_place_books(
        market,
        own,
        opp,
        queue,
        bal,
        market_id,
        side,
        price,
        quantity,
        tif,
        now,
    );
    if ps.result is Ok {
        let ts = if now > market.last_timestamp {
            now
        } else {
            (market.last_timestamp + 1) as i64
        };
        let taker = Order {
            order_id: market.next_order_id,
            owner: bal.owner,
            price,
            quantity,
            remaining_quantity: quantity,
            timestamp: ts,
        };
        let mo = spec_match(side.opposite(), opp, taker);
        crate::book::lemma_match_book_elements(side.opposite(), opp, taker);
        lemma_match_residual_uncrossed(side.opposite(), opp, taker);
        crate::book::lemma_match_taker(side.opposite(), opp, taker);
        let rem = mo.taker.remaining_quantity;
        let rests = rem > 0 && tif == TimeInForce::GTC;
        let own1 = if rests {
            own.insert(crate::book::spec_insert_pos(side, own, mo.taker), mo.taker)
        } else {
            own
        };
        if rests {
            crate::book::lemma_insert_pos_props(side, own, mo.taker);
            crate::book::lemma_insert_elements(
                own,
                mo.taker,
                crate::book::spec_insert_pos(side, own, mo.taker),
            );
        }
        let bids1 = if side == Side::Bid {
            own1
        } else {
            mo.book
        };
        let asks1 = if side == Side::Bid {
            mo.book
        } else {
            own1
        };
        assert forall|i: int, j: int|
            0 <= i < bids1.len() && 0 <= j < asks1.len() implies (#[trigger] bids1[i]).price < (
        #[trigger] asks1[j]).price by {
            if side == Side::Bid {
                // The new ask side is what matching left of the old one.
                let ja = choose|ja: int|
                    0 <= ja < opp.len() && #[trigger] crate::book::same_except_remaining(
                        asks1[j],
                        opp[ja],
                    ) && asks1[j].remaining_quantity <= opp[ja].remaining_quantity;
                if rests && bids1[i] == mo.taker {
                    // The resting remainder no longer crosses the best ask.
                    assert(!crosses(Side::Ask, asks1[j].price, taker.price));
                } else {
                    let ib = choose|ib: int| 0 <= ib < own.len() && bids1[i] == #[trigger] own[ib];
                    assert(own[ib].price < opp[ja].price);
                }
            } else {
                // The new bid side is what matching left of the old one.
                let jb = choose|jb: int|
                    0 <= jb < opp.len() && #[trigger] crate::book::same_except_remaining(
                        bids1[i],
                        opp[jb],
                    ) && bids1[i].remaining_quantity <= opp[jb].remaining_quantity;
                if rests && asks1[j] == mo.taker {
                    assert(!crosses(Side::Bid, bids1[i].price, taker.price));
                } else {
                    let ia = choose|ia: int| 0 <= ia < own.len() && asks1[j] == #[trigger] own[ia];
                    assert(opp[jb].price < own[ia].price);
                }
            }
        }
    }
}

} // verus!
