use vstd::prelude::*;

use crate::order::Side;

verus! {

/// The quote amount a quantity of lots costs (or earns) at a price:
/// `price * qty * quote_tick_size / base_lot_size`, evaluated left to right
/// with checked multiplies and a floored divide. `None` means an overflow
/// (or a zero lot size, which a well-formed market rules out).
///
/// The divide is exact only when `base_lot_size` divides
/// `price * qty * quote_tick_size`; otherwise the result rounds down, which
/// under-credits one side. Choosing lot and tick sizes so that every legal
/// division is exact is the host's responsibility; the engine does not
/// reject non-exact divisions.
pub open spec fn spec_quote_amount(price: u64, qty: u64, tick: u64, lot: u64) -> Option<u64> {
    if price * qty > u64::MAX {
        None
    } else if price * qty * tick > u64::MAX {
        None
    } else if lot == 0 {
        None
    } else {
        Some(((price * qty * tick) / (lot as int)) as u64)
    }
}

/// The base amount a quantity of lots stands for: `qty * base_lot_size`,
/// checked.
pub open spec fn spec_base_amount(qty: u64, lot: u64) -> Option<u64> {
    if qty * lot > u64::MAX {
        None
    } else {
        Some((qty * lot) as u64)
    }
}

/// The full reservation cost of an order: quote for a bid, base for an ask.
pub open spec fn spec_required_amount(side: Side, price: u64, qty: u64, tick: u64, lot: u64) -> Option<
    u64,
> {
    match side {
        Side::Bid => spec_quote_amount(price, qty, tick, lot),
        Side::Ask => spec_base_amount(qty, lot),
    }
}

pub fn quote_amount(price: u64, qty: u64, tick: u64, lot: u64) -> (r: Option<u64>)
    ensures
        r == spec_quote_amount(price, qty, tick, lot),
{
    match price.checked_mul(qty) {
        None => None,
        Some(pq) => match pq.checked_mul(tick) {
            None => None,
            Some(pqt) => pqt.checked_div(lot),
        },
    }
}

pub fn base_amount(qty: u64, lot: u64) -> (r: Option<u64>)
    ensures
        r == spec_base_amount(qty, lot),
{
    qty.checked_mul(lot)
}

pub fn required_amount(side: Side, price: u64, qty: u64, tick: u64, lot: u64) -> (r: Option<u64>)
    ensures
        r == spec_required_amount(side, price, qty, tick, lot),
{
    match side {
        Side::Bid => quote_amount(price, qty, tick, lot),
        Side::Ask => base_amount(qty, lot),
    }
}

} // verus!
