use vstd::prelude::*;

use crate::errors::ErrorCode;
use crate::order::{comes_before, crosses, Fill, Order, Side, MAX_ORDERS};

verus! {

/// One side of the order book: the resting orders kept sorted by price-time
/// priority, best first. A sorted array rather than a heap: the behavioural
/// contract (best-first, stable tie-break by timestamp) is the same, and the
/// order of the backing vector is the priority order itself.
pub struct VecOrderBook {
    pub orders: Vec<Order>,
    pub side: Side,
}

impl VecOrderBook {
    /// Well-formed book side: within capacity, every resting order valid with
    /// something left to fill, strictly sorted by price-time priority, and no
    /// two orders sharing an id or a timestamp.
    pub open spec fn wf(self) -> bool {
        &&& self.orders@.len() <= MAX_ORDERS
        &&& forall|i: int|
            0 <= i < self.orders@.len() ==> (#[trigger] self.orders@[i]).wf()
                && self.orders@[i].remaining_quantity > 0
        &&& forall|i: int, j: int|
            0 <= i < j < self.orders@.len() ==> comes_before(
                self.side,
                #[trigger] self.orders@[i],
                #[trigger] self.orders@[j],
            )
        &&& forall|i: int, j: int|
            0 <= i < j < self.orders@.len() ==> (#[trigger] self.orders@[i]).order_id != (
            #[trigger] self.orders@[j]).order_id
        &&& forall|i: int, j: int|
            0 <= i < j < self.orders@.len() ==> (#[trigger] self.orders@[i]).timestamp != (
            #[trigger] self.orders@[j]).timestamp
    }

    pub fn new(side: Side) -> (book: Self)
        ensures
            book.side == side,
            book.orders@ == Seq::<Order>::empty(),
            book.wf(),
    {
        VecOrderBook { orders: Vec::new(), side }
    }

    pub fn len(&self) -> (n: usize)
        ensures
            n == self.orders@.len(),
    {
        self.orders.len()
    }

    pub fn is_empty(&self) -> (b: bool)
        ensures
            b == (self.orders@.len() == 0),
    {
        self.orders.len() == 0
    }

    /// The best resting order, if any: highest bid or lowest ask, which
    /// sortedness puts in front.
    pub fn peek(&self) -> (r: Option<Order>)
        ensures
            self.orders@.len() == 0 ==> r is None,
            self.orders@.len() > 0 ==> r == Some(self.orders@[0]),
    {
        if self.orders.len() == 0 {
            None
        } else {
            Some(self.orders[0])
        }
    }

    /// The price of the best resting order, if any: highest bid or lowest ask,
    /// which sortedness puts in front.
    pub fn get_best_price(&self) -> (r: Option<u64>)
        ensures
            self.orders@.len() == 0 ==> r is None,
            self.orders@.len() > 0 ==> r == Some(self.orders@[0].price),
    {
        if self.orders.len() == 0 {
            None
        } else {
            Some(self.orders[0].price)
        }
    }
}

/// The priority order on one book side, as executable code.
pub fn order_before(side: Side, a: &Order, b: &Order) -> (r: bool)
    ensures
        r == comes_before(side, *a, *b),
{
    match side {
        Side::Bid => a.price > b.price || (a.price == b.price && a.timestamp < b.timestamp),
        Side::Ask => a.price < b.price || (a.price == b.price && a.timestamp < b.timestamp),
    }
}

/// Where a new order belongs on a book side kept best-first: the index of the
/// first resting order the new one strictly precedes, so that among equal
/// priorities the earlier arrival keeps its place.
pub open spec fn spec_insert_pos(side: Side, s: Seq<Order>, o: Order) -> int
    decreases s.len(),
{
    if s.len() == 0 {
        0
    } else if comes_before(side, o, s[0]) {
        0
    } else {
        1 + spec_insert_pos(side, s.drop_first(), o)
    }
}

pub proof fn lemma_insert_pos_props(side: Side, s: Seq<Order>, o: Order)
    ensures
        0 <= spec_insert_pos(side, s, o) <= s.len(),
        forall|j: int|
            0 <= j < spec_insert_pos(side, s, o) ==> !comes_before(side, o, #[trigger] s[j]),
        spec_insert_pos(side, s, o) < s.len() ==> comes_before(
            side,
            o,
            s[spec_insert_pos(side, s, o)],
        ),
    decreases s.len(),
{
    if s.len() == 0 {
    } else if comes_before(side, o, s[0]) {
    } else {
        lemma_insert_pos_props(side, s.drop_first(), o);
        assert(forall|j: int| 1 <= j < s.len() ==> #[trigger] s[j] == s.drop_first()[j - 1]);
    }
}

impl VecOrderBook {
    /// Rest a new order on this side, keeping the book sorted by price-time
    /// priority. Fails only when the side is at capacity, and then changes
    /// nothing.
    pub fn insert_order(&mut self, o: Order) -> (r: Result<(), ErrorCode>)
        requires
            old(self).wf(),
            o.wf(),
            o.remaining_quantity > 0,
            forall|i: int|
                0 <= i < old(self).orders@.len() ==> o.timestamp != (
                #[trigger] old(self).orders@[i]).timestamp,
            forall|i: int|
                0 <= i < old(self).orders@.len() ==> o.order_id != (
                #[trigger] old(self).orders@[i]).order_id,
        ensures
            final(self).side == old(self).side,
            final(self).wf(),
            old(self).orders@.len() >= MAX_ORDERS ==> r == Err::<(), ErrorCode>(
                ErrorCode::OrderbookFull,
            ) && final(self).orders@ == old(self).orders@,
            old(self).orders@.len() < MAX_ORDERS ==> r == Ok::<(), ErrorCode>(())
                && final(self).orders@ == old(self).orders@.insert(
                spec_insert_pos(old(self).side, old(self).orders@, o),
                o,
            ),
    {
        if self.orders.len() >= MAX_ORDERS {
            return Err(ErrorCode::OrderbookFull);
        }
        let ghost s = self.orders@;
        let mut i: usize = 0;
        while i < self.orders.len() && !order_before(self.side, &o, &self.orders[i])
            invariant
                self.orders@ == s,
                0 <= i <= s.len(),
                forall|j: int| 0 <= j < i ==> !comes_before(self.side, o, #[trigger] s[j]),
            decreases s.len() - i,
        {
            i = i + 1;
        }
        proof {
            lemma_insert_pos_props(self.side, s, o);
            let pos = spec_insert_pos(self.side, s, o);
            if i < pos {
                assert(comes_before(self.side, o, s[i as int]));
                assert(false);
            }
            if pos < i {
                assert(comes_before(self.side, o, s[pos]));
                assert(false);
            }
        }
        self.orders.insert(i, o);
        proof {
            let t = self.orders@;
            let pos = i as int;
            assert forall|a: int, b: int| 0 <= a < b < t.len() implies comes_before(
                self.side,
                #[trigger] t[a],
                #[trigger] t[b],
            ) && t[a].order_id != t[b].order_id && t[a].timestamp != t[b].timestamp by {
                // Each element of the new sequence is either the inserted order
                // or one of the old ones, shifted past the insertion point.
                if a < pos && b < pos {
                    assert(t[a] == s[a] && t[b] == s[b]);
                } else if a < pos && b == pos {
                    assert(t[a] == s[a] && t[b] == o);
                    // o does not precede s[a]; priorities are total because
                    // timestamps are distinct.
                    assert(!comes_before(self.side, o, s[a]));
                } else if a < pos && b > pos {
                    assert(t[a] == s[a] && t[b] == s[b - 1]);
                } else if a == pos && b > pos {
                    assert(t[a] == o && t[b] == s[b - 1]);
                    if pos < s.len() {
                        assert(comes_before(self.side, o, s[pos]));
                    }
                } else {
                    assert(t[a] == s[a - 1] && t[b] == s[b - 1]);
                }
            }
        }
        Ok(())
    }
}

/// The index of the resting order with the given id, or the length of the
/// sequence when no such order rests here.
pub open spec fn spec_find_pos(s: Seq<Order>, order_id: u64) -> int
    decreases s.len(),
{
    if s.len() == 0 {
        0
    } else if s[0].order_id == order_id {
        0
    } else {
        1 + spec_find_pos(s.drop_first(), order_id)
    }
}

pub proof fn lemma_find_pos_props(s: Seq<Order>, order_id: u64)
    ensures
        0 <= spec_find_pos(s, order_id) <= s.len(),
        forall|j: int|
            0 <= j < spec_find_pos(s, order_id) ==> (#[trigger] s[j]).order_id != order_id,
        spec_find_pos(s, order_id) < s.len() ==> s[spec_find_pos(s, order_id)].order_id
            == order_id,
    decreases s.len(),
{
    if s.len() == 0 {
    } else if s[0].order_id == order_id {
    } else {
        lemma_find_pos_props(s.drop_first(), order_id);
        assert(forall|j: int| 1 <= j < s.len() ==> #[trigger] s[j] == s.drop_first()[j - 1]);
    }
}

impl VecOrderBook {
    /// Read-only lookup of a resting order by id.
    pub fn get_order(&self, order_id: u64) -> (r: Option<Order>)
        ensures
            spec_find_pos(self.orders@, order_id) == self.orders@.len() ==> r is None,
            spec_find_pos(self.orders@, order_id) < self.orders@.len() ==> r == Some(
                self.orders@[spec_find_pos(self.orders@, order_id)],
            ),
    {
        let ghost s = self.orders@;
        let mut i: usize = 0;
        while i < self.orders.len() && self.orders[i].order_id != order_id
            invariant
                self.orders@ == s,
                0 <= i <= s.len(),
                forall|j: int| 0 <= j < i ==> (#[trigger] s[j]).order_id != order_id,
            decreases s.len() - i,
        {
            i = i + 1;
        }
        proof {
            lemma_find_pos_props(s, order_id);
            let pos = spec_find_pos(s, order_id);
            if pos < i {
                assert(s[pos].order_id != order_id);
            }
            if i < pos {
                assert(s[i as int].order_id != order_id);
            }
        }
        if i < self.orders.len() {
            Some(self.orders[i])
        } else {
            None
        }
    }

    /// Remove the resting order with the given id, handing it back; `None`
    /// (and no change) when no such order rests on this side.
    pub fn remove_order(&mut self, order_id: u64) -> (r: Option<Order>)
        requires
            old(self).wf(),
        ensures
            final(self).side == old(self).side,
            final(self).wf(),
            spec_find_pos(old(self).orders@, order_id) == old(self).orders@.len() ==> r is None
                && final(self).orders@ == old(self).orders@,
            spec_find_pos(old(self).orders@, order_id) < old(self).orders@.len() ==> r == Some(
                old(self).orders@[spec_find_pos(old(self).orders@, order_id)],
            ) && final(self).orders@ == old(self).orders@.remove(
                spec_find_pos(old(self).orders@, order_id),
            ),
    {
        let ghost s = self.orders@;
        let mut i: usize = 0;
        while i < self.orders.len() && self.orders[i].order_id != order_id
            invariant
                self.orders@ == s,
                0 <= i <= s.len(),
                forall|j: int| 0 <= j < i ==> (#[trigger] s[j]).order_id != order_id,
            decreases s.len() - i,
        {
            i = i + 1;
        }
        proof {
            lemma_find_pos_props(s, order_id);
            let pos = spec_find_pos(s, order_id);
            if pos < i {
                assert(s[pos].order_id != order_id);
            }
            if i < pos {
                assert(s[i as int].order_id != order_id);
            }
        }
        if i == self.orders.len() {
            return None;
        }
        let removed = self.orders.remove(i);
        proof {
            let t = self.orders@;
            assert forall|a: int|
                0 <= a < t.len() implies #[trigger] t[a] == (if a < i as int {
                s[a]
            } else {
                s[a + 1]
            }) by {
                assert(t == s.remove(i as int));
            }
        }
        Some(removed)
    }
}

} // verus!

verus! {

/// What matching an incoming order against one book side produces: the fills
/// in emission order, the book side as matching left it, and the incoming
/// order with its remaining quantity reduced by the filled total.
#[verifier::ext_equal]
pub struct MatchOutcome {
    pub fills: Seq<Fill>,
    pub book: Seq<Order>,
    pub taker: Order,
}

/// Price-time matching of `taker` against the book side `s` (sorted best
/// first): consume crossing resting orders from the front until the taker is
/// exhausted or the best resting order no longer crosses. Each fill settles
/// at the maker's resting price; a maker consumed only in part stays in
/// front with its priority unchanged.
pub open spec fn spec_match(book_side: Side, s: Seq<Order>, taker: Order) -> MatchOutcome
    decreases s.len(),
{
    if taker.remaining_quantity == 0 || s.len() == 0 {
        MatchOutcome { fills: Seq::empty(), book: s, taker }
    } else {
        let m = s[0];
        if !crosses(book_side, m.price, taker.price) {
            MatchOutcome { fills: Seq::empty(), book: s, taker }
        } else if m.remaining_quantity > taker.remaining_quantity {
            let f = Fill {
                maker_order_id: m.order_id,
                taker_order_id: taker.order_id,
                maker_owner: m.owner,
                maker_side: book_side,
                price: m.price,
                quantity: taker.remaining_quantity,
            };
            let m2 = Order {
                remaining_quantity: (m.remaining_quantity - taker.remaining_quantity) as u64,
                ..m
            };
            let t2 = Order { remaining_quantity: 0, ..taker };
            MatchOutcome { fills: seq![f], book: s.update(0, m2), taker: t2 }
        } else {
            let f = Fill {
                maker_order_id: m.order_id,
                taker_order_id: taker.order_id,
                maker_owner: m.owner,
                maker_side: book_side,
                price: m.price,
                quantity: m.remaining_quantity,
            };
            let t2 = Order {
                remaining_quantity: (taker.remaining_quantity - m.remaining_quantity) as u64,
                ..taker
            };
            let rest = spec_match(book_side, s.drop_first(), t2);
            MatchOutcome { fills: seq![f] + rest.fills, book: rest.book, taker: rest.taker }
        }
    }
}

/// Whether a resting order priced `maker_price` crosses an incoming order of
/// the opposite side priced `taker_price`, as executable code.
pub fn is_crossing(book_side: Side, maker_price: u64, taker_price: u64) -> (r: bool)
    ensures
        r == crosses(book_side, maker_price, taker_price),
{
    match book_side {
        Side::Bid => maker_price >= taker_price,
        Side::Ask => maker_price <= taker_price,
    }
}

impl VecOrderBook {
    /// Match an incoming order against this (opposite) book side, producing
    /// the fills in priority order. Exactly `spec_match` on the book's
    /// contents; the book keeps its well-formedness, and the incoming order
    /// keeps everything but its remaining quantity.
    pub fn match_orders(&mut self, taker: &mut Order) -> (fills: Vec<Fill>)
        requires
            old(self).wf(),
        ensures
            final(self).side == old(self).side,
            final(self).wf(),
            ({
                let mo = spec_match(old(self).side, old(self).orders@, *old(taker));
                &&& fills@ == mo.fills
                &&& final(self).orders@ == mo.book
                &&& *final(taker) == mo.taker
            }),
    {
        let ghost side0 = self.side;
        let ghost s0 = self.orders@;
        let ghost t0 = *taker;
        let mut fills: Vec<Fill> = Vec::new();
        loop
            invariant
                self.side == side0,
                self.wf(),
                taker.order_id == t0.order_id,
                taker.owner == t0.owner,
                taker.price == t0.price,
                taker.quantity == t0.quantity,
                taker.timestamp == t0.timestamp,
                ({
                    let mo0 = spec_match(side0, s0, t0);
                    let moc = spec_match(side0, self.orders@, *taker);
                    &&& mo0.fills == fills@ + moc.fills
                    &&& mo0.book == moc.book
                    &&& mo0.taker == moc.taker
                }),
            ensures
                self.side == side0,
                self.wf(),
                taker.order_id == t0.order_id,
                taker.owner == t0.owner,
                taker.price == t0.price,
                taker.quantity == t0.quantity,
                taker.timestamp == t0.timestamp,
                ({
                    let mo0 = spec_match(side0, s0, t0);
                    &&& mo0.fills == fills@
                    &&& mo0.book == self.orders@
                    &&& mo0.taker == *taker
                }),
            decreases self.orders@.len() + taker.remaining_quantity,
        {
            proof {
                let moc = spec_match(side0, self.orders@, *taker);
                if taker.remaining_quantity == 0 || self.orders@.len() == 0 || !crosses(
                    side0,
                    self.orders@[0].price,
                    taker.price,
                ) {
                    assert(moc.fills == Seq::<Fill>::empty());
                    assert(fills@ + moc.fills =~= fills@);
                }
            }
            if taker.remaining_quantity == 0 {
                break;
            }
            if self.orders.len() == 0 {
                break;
            }
            let m = self.orders[0];
            if !is_crossing(self.side, m.price, taker.price) {
                break;
            }
            let ghost pre_book = self.orders@;
            let ghost pre_taker = *taker;
            if m.remaining_quantity > taker.remaining_quantity {
                let f = Fill {
                    maker_order_id: m.order_id,
                    taker_order_id: taker.order_id,
                    maker_owner: m.owner,
                    maker_side: self.side,
                    price: m.price,
                    quantity: taker.remaining_quantity,
                };
                fills.push(f);
                let m2 = Order {
                    remaining_quantity: m.remaining_quantity - taker.remaining_quantity,
                    ..m
                };
                self.orders.set(0, m2);
                taker.remaining_quantity = 0;
                proof {
                    let mo0 = spec_match(side0, s0, t0);
                    let moc = spec_match(side0, pre_book, pre_taker);
                    let moc2 = spec_match(side0, self.orders@, *taker);
                    assert(moc.fills =~= seq![f]);
                    assert(moc2.fills == Seq::<Fill>::empty());
                    assert(mo0.fills =~= fills@ + moc2.fills);
                    // The book keeps its shape: only the front order's
                    // remaining quantity changed.
                    assert forall|a: int, b: int|
                        0 <= a < b < self.orders@.len() implies comes_before(
                        side0,
                        #[trigger] self.orders@[a],
                        #[trigger] self.orders@[b],
                    ) && self.orders@[a].order_id != self.orders@[b].order_id
                        && self.orders@[a].timestamp != self.orders@[b].timestamp by {
                        assert(pre_book[a].wf());
                        if a > 0 {
                            assert(self.orders@[a] == pre_book[a]);
                        }
                        assert(self.orders@[b] == pre_book[b]);
                    }
                }
            } else {
                let f = Fill {
                    maker_order_id: m.order_id,
                    taker_order_id: taker.order_id,
                    maker_owner: m.owner,
                    maker_side: self.side,
                    price: m.price,
                    quantity: m.remaining_quantity,
                };
                fills.push(f);
                taker.remaining_quantity = taker.remaining_quantity - m.remaining_quantity;
                self.orders.remove(0);
                proof {
                    let mo0 = spec_match(side0, s0, t0);
                    let moc = spec_match(side0, pre_book, pre_taker);
                    let moc2 = spec_match(side0, self.orders@, *taker);
                    assert(self.orders@ =~= pre_book.drop_first());
                    assert(moc.fills =~= seq![f] + moc2.fills);
                    assert(mo0.fills =~= fills@ + moc2.fills);
                    assert forall|a: int, b: int|
                        0 <= a < b < self.orders@.len() implies comes_before(
                        side0,
                        #[trigger] self.orders@[a],
                        #[trigger] self.orders@[b],
                    ) && self.orders@[a].order_id != self.orders@[b].order_id
                        && self.orders@[a].timestamp != self.orders@[b].timestamp by {
                        assert(self.orders@[a] == pre_book[a + 1]);
                        assert(self.orders@[b] == pre_book[b + 1]);
                    }
                }
            }
        }
        fills
    }
}

} // verus!

verus! {

/// Total quantity the crossing prefix of a book side offers against an
/// incoming order priced `taker_price`: the sum of `remaining_quantity` over
/// resting orders from the front until the first that no longer crosses.
/// Matching can fill an incoming order completely iff this reaches its
/// quantity.
pub open spec fn spec_fillable(book_side: Side, s: Seq<Order>, taker_price: u64) -> int
    decreases s.len(),
{
    if s.len() == 0 {
        0
    } else if !crosses(book_side, s[0].price, taker_price) {
        0
    } else {
        s[0].remaining_quantity + spec_fillable(book_side, s.drop_first(), taker_price)
    }
}

pub proof fn lemma_fillable_nonneg(book_side: Side, s: Seq<Order>, taker_price: u64)
    ensures
        spec_fillable(book_side, s, taker_price) >= 0,
    decreases s.len(),
{
    if s.len() == 0 {
    } else if !crosses(book_side, s[0].price, taker_price) {
    } else {
        lemma_fillable_nonneg(book_side, s.drop_first(), taker_price);
    }
}

/// Matching consumes exactly the crossing quantity, capped by the incoming
/// order's own remainder.
pub proof fn lemma_match_consumes_fillable(book_side: Side, s: Seq<Order>, taker: Order)
    ensures
        ({
            let mo = spec_match(book_side, s, taker);
            let fillable = spec_fillable(book_side, s, taker.price);
            mo.taker.remaining_quantity == if taker.remaining_quantity <= fillable {
                0
            } else {
                taker.remaining_quantity - fillable
            }
        }),
    decreases s.len(),
{
    lemma_fillable_nonneg(book_side, s, taker.price);
    if taker.remaining_quantity == 0 || s.len() == 0 {
    } else {
        let m = s[0];
        if !crosses(book_side, m.price, taker.price) {
        } else if m.remaining_quantity > taker.remaining_quantity {
            lemma_fillable_nonneg(book_side, s.drop_first(), taker.price);
        } else {
            let t2 = Order {
                remaining_quantity: (taker.remaining_quantity - m.remaining_quantity) as u64,
                ..taker
            };
            lemma_match_consumes_fillable(book_side, s.drop_first(), t2);
        }
    }
}

/// Matching changes nothing about the incoming order but its remainder,
/// which never grows.
pub proof fn lemma_match_taker(book_side: Side, s: Seq<Order>, taker: Order)
    ensures
        ({
            let mo = spec_match(book_side, s, taker);
            &&& mo.taker.order_id == taker.order_id
            &&& mo.taker.owner == taker.owner
            &&& mo.taker.price == taker.price
            &&& mo.taker.quantity == taker.quantity
            &&& mo.taker.timestamp == taker.timestamp
            &&& mo.taker.remaining_quantity <= taker.remaining_quantity
        }),
    decreases s.len(),
{
    if taker.remaining_quantity == 0 || s.len() == 0 {
    } else {
        let m = s[0];
        if !crosses(book_side, m.price, taker.price) {
        } else if m.remaining_quantity > taker.remaining_quantity {
        } else {
            let t2 = Order {
                remaining_quantity: (taker.remaining_quantity - m.remaining_quantity) as u64,
                ..taker
            };
            lemma_match_taker(book_side, s.drop_first(), t2);
        }
    }
}

/// Two orders that differ at most in how much of them is still unfilled.
pub open spec fn same_except_remaining(a: Order, b: Order) -> bool {
    &&& a.order_id == b.order_id
    &&& a.owner == b.owner
    &&& a.price == b.price
    &&& a.quantity == b.quantity
    &&& a.timestamp == b.timestamp
}

/// Every order still on the book after matching is one of the orders that
/// was there before, at most with its remainder reduced (never to zero).
pub proof fn lemma_match_book_elements(book_side: Side, s: Seq<Order>, taker: Order)
    ensures
        ({
            let mo = spec_match(book_side, s, taker);
            forall|i: int|
                0 <= i < mo.book.len() ==> exists|j: int|
                    0 <= j < s.len() && #[trigger] same_except_remaining(
                        #[trigger] mo.book[i],
                        s[j],
                    ) && mo.book[i].remaining_quantity <= s[j].remaining_quantity
        }),
    decreases s.len(),
{
    let mo = spec_match(book_side, s, taker);
    if taker.remaining_quantity == 0 || s.len() == 0 {
        assert forall|i: int| 0 <= i < mo.book.len() implies exists|j: int|
            0 <= j < s.len() && #[trigger] same_except_remaining(#[trigger] mo.book[i], s[j])
                && mo.book[i].remaining_quantity <= s[j].remaining_quantity by {
            assert(same_except_remaining(mo.book[i], s[i]));
        }
    } else {
        let m = s[0];
        if !crosses(book_side, m.price, taker.price) {
            assert forall|i: int| 0 <= i < mo.book.len() implies exists|j: int|
                0 <= j < s.len() && #[trigger] same_except_remaining(#[trigger] mo.book[i], s[j])
                    && mo.book[i].remaining_quantity <= s[j].remaining_quantity by {
                assert(same_except_remaining(mo.book[i], s[i]));
            }
        } else if m.remaining_quantity > taker.remaining_quantity {
            assert forall|i: int| 0 <= i < mo.book.len() implies exists|j: int|
                0 <= j < s.len() && #[trigger] same_except_remaining(#[trigger] mo.book[i], s[j])
                    && mo.book[i].remaining_quantity <= s[j].remaining_quantity by {
                assert(same_except_remaining(mo.book[i], s[i]));
            }
        } else {
            let t2 = Order {
                remaining_quantity: (taker.remaining_quantity - m.remaining_quantity) as u64,
                ..taker
            };
            lemma_match_book_elements(book_side, s.drop_first(), t2);
            let rest = spec_match(book_side, s.drop_first(), t2);
            assert forall|i: int| 0 <= i < mo.book.len() implies exists|j: int|
                0 <= j < s.len() && #[trigger] same_except_remaining(#[trigger] mo.book[i], s[j])
                    && mo.book[i].remaining_quantity <= s[j].remaining_quantity by {
                assert(mo.book[i] == rest.book[i]);
                let j0 = choose|j0: int|
                    0 <= j0 < s.drop_first().len() && #[trigger] same_except_remaining(
                        rest.book[i],
                        s.drop_first()[j0],
                    ) && rest.book[i].remaining_quantity <= s.drop_first()[j0].remaining_quantity;
                assert(s.drop_first()[j0] == s[j0 + 1]);
                assert(same_except_remaining(mo.book[i], s[j0 + 1]));
            }
        }
    }
}

impl VecOrderBook {
    /// Whether the crossing prefix of this side can fill an incoming order
    /// of `qty` lots priced `taker_price` completely: the fill-or-kill
    /// pre-check. Walks best-first, summing remainders until the sum reaches
    /// `qty` or the next order no longer crosses.
    pub fn can_fill_completely(&self, taker_price: u64, qty: u64) -> (r: bool)
        requires
            self.wf(),
        ensures
            r == (spec_fillable(self.side, self.orders@, taker_price) >= qty),
    {
        let ghost s = self.orders@;
        proof {
            assert(s.skip(0) =~= s);
        }
        let mut acc: u64 = 0;
        let mut i: usize = 0;
        loop
            invariant
                self.wf(),
                self.orders@ == s,
                0 <= i <= s.len(),
                acc <= qty,
                forall|j: int| 0 <= j < i ==> crosses(self.side, (#[trigger] s[j]).price, taker_price),
                (spec_fillable(self.side, s, taker_price) >= qty) == (acc + spec_fillable(
                    self.side,
                    s.skip(i as int),
                    taker_price,
                ) >= qty),
            ensures
                self.orders@ == s,
                (spec_fillable(self.side, s, taker_price) >= qty) == (acc + spec_fillable(
                    self.side,
                    s.skip(i as int),
                    taker_price,
                ) >= qty),
                acc <= qty,
                acc == qty || i == s.len() || !crosses(
                    self.side,
                    s[i as int].price,
                    taker_price,
                ),
            decreases s.len() - i,
        {
            if acc == qty {
                break ;
            }
            if i == self.orders.len() {
                break ;
            }
            let m = self.orders[i];
            if !is_crossing(self.side, m.price, taker_price) {
                break ;
            }
            proof {
                assert(s.skip(i as int)[0] == s[i as int]);
                assert(s.skip(i as int).drop_first() =~= s.skip(i as int + 1));
                lemma_fillable_nonneg(self.side, s.skip(i as int + 1), taker_price);
            }
            if m.remaining_quantity >= qty - acc {
                acc = qty;
            } else {
                acc = acc + m.remaining_quantity;
            }
            i = i + 1;
        }
        proof {
            if acc == qty {
                lemma_fillable_nonneg(self.side, s.skip(i as int), taker_price);
            } else if i == s.len() {
                assert(s.skip(i as int) =~= Seq::<Order>::empty());
            }
        }
        acc >= qty
    }
}

} // verus!

verus! {

/// Inserting into a sequence adds the new element and keeps every old one.
pub proof fn lemma_insert_elements(s: Seq<Order>, o: Order, pos: int)
    requires
        0 <= pos <= s.len(),
    ensures
        forall|i: int|
            0 <= i < s.insert(pos, o).len() ==> (#[trigger] s.insert(pos, o)[i]) == o || exists|
                j: int,
            |
                0 <= j < s.len() && s.insert(pos, o)[i] == #[trigger] s[j],
{
    assert forall|i: int| 0 <= i < s.insert(pos, o).len() implies (#[trigger] s.insert(pos, o)[i])
        == o || exists|j: int| 0 <= j < s.len() && s.insert(pos, o)[i] == #[trigger] s[j] by {
        if i < pos {
            assert(s.insert(pos, o)[i] == s[i]);
        } else if i == pos {
            assert(s.insert(pos, o)[i] == o);
        } else {
            assert(s.insert(pos, o)[i] == s[i - 1]);
        }
    }
}

} // verus!
