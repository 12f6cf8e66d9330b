use vstd::prelude::*;

verus! {

/// Hard capacity of one book side; inserting beyond it fails with
/// `OrderbookFull`.
pub const MAX_ORDERS: usize = 1024;

/// The side of an order: a bid buys base paying quote, an ask sells base
/// receiving quote.
#[derive(Clone, Copy, Debug, PartialEq, Eq, Structural)]
pub enum Side {
    Bid,
    Ask,
}

/// What happens to the part of a limit order that does not match on arrival:
/// GTC rests it on the book, IOC discards it, FOK refuses the whole order
/// unless it can be filled completely at once.
#[derive(Clone, Copy, Debug, PartialEq, Eq, Structural)]
pub enum TimeInForce {
    GTC,
    IOC,
    FOK,
}

impl Default for TimeInForce {
    fn default() -> (r: Self)
        ensures
            r == TimeInForce::GTC,
    {
        TimeInForce::GTC
    }
}

/// A limit order. Immutable after creation except for `remaining_quantity`.
/// Prices are integers in ticks (`quote_tick_size` units), quantities are
/// integers in lots (`base_lot_size` units). The owner is the host's opaque
/// identity for the account that placed the order.
#[derive(Clone, Copy, Debug, PartialEq, Eq, Structural)]
pub struct Order {
    pub order_id: u64,
    pub owner: u64,
    pub price: u64,
    pub quantity: u64,
    pub remaining_quantity: u64,
    pub timestamp: i64,
}

/// One trade: the incoming (taker) order consumed `quantity` lots of the
/// resting (maker) order at the maker's resting `price`.
#[derive(Clone, Copy, Debug, PartialEq, Eq, Structural)]
pub struct Fill {
    pub maker_order_id: u64,
    pub taker_order_id: u64,
    pub maker_owner: u64,
    pub maker_side: Side,
    pub price: u64,
    pub quantity: u64,
}

impl Side {
    /// The side of the book an incoming order of this side matches against.
    pub open spec fn opposite(self) -> Side {
        match self {
            Side::Bid => Side::Ask,
            Side::Ask => Side::Bid,
        }
    }
}

impl Order {
    /// A well-formed order: positive price and quantity, and the unfilled
    /// part never exceeds the original quantity.
    pub open spec fn wf(self) -> bool {
        &&& self.price > 0
        &&& self.quantity > 0
        &&& self.remaining_quantity <= self.quantity
    }
}

/// Price-time priority on one book side: `a` is served strictly before `b`
/// when `a` has the better price (higher for bids, lower for asks), or the
/// same price and the earlier timestamp.
pub open spec fn comes_before(side: Side, a: Order, b: Order) -> bool {
    match side {
        Side::Bid => a.price > b.price || (a.price == b.price && a.timestamp < b.timestamp),
        Side::Ask => a.price < b.price || (a.price == b.price && a.timestamp < b.timestamp),
    }
}

/// Whether a resting order priced `maker_price` on the book side `book_side`
/// crosses an incoming order of the opposite side priced `taker_price`.
pub open spec fn crosses(book_side: Side, maker_price: u64, taker_price: u64) -> bool {
    match book_side {
        // A bid book is matched by an incoming ask: bids at or above its price cross.
        Side::Bid => maker_price >= taker_price,
        // An ask book is matched by an incoming bid: asks at or below its price cross.
        Side::Ask => maker_price <= taker_price,
    }
}

} // verus!
