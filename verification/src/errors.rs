use vstd::prelude::*;

verus! {

/// Every way an operation can fail. All errors are fatal to the current
/// operation and leave the state exactly as it was before the call.
#[derive(Clone, Copy, Debug, PartialEq, Eq, Structural)]
pub enum ErrorCode {
    /// A checked arithmetic operation overflowed.
    MathOverflow,
    /// A balance does not cover a debit, or a balance being closed is not zero.
    InsufficientBalance,
    /// A mint is neither the market's base mint nor its quote mint.
    InvalidTokenMint,
    /// The caller does not own the order it tries to cancel.
    Unauthorized,
    /// A market's base and quote mint must differ.
    SameMintAddresses,
    /// A deposit or withdrawal of zero.
    InvalidAmount,
    /// A malformed parameter (zero lot or tick size, or a bad side tag).
    InvalidParameter,
    /// No order with the given id rests on the named book side.
    OrderNotFound,
    /// The book side already holds `MAX_ORDERS` orders.
    OrderbookFull,
    /// A price of zero.
    InvalidPrice,
    /// A quantity of zero.
    InvalidOrderSize,
    /// The fill-event queue has no free slot.
    EventQueueFull,
    /// The fill-event queue holds no event.
    EventQueueEmpty,
    /// A fill-or-kill order that the opposite book cannot fill completely.
    FillOrKillNotFilled,
}

} // verus!
