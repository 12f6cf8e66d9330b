use vstd::prelude::*;

use crate::errors::ErrorCode;

verus! {

/// The per-pair market: sizing parameters fixed at creation, the monotonic
/// order-id counter, and the timestamp high-water mark that keeps order
/// timestamps strictly increasing. Mints are the host's opaque identities
/// for the two assets of the pair.
#[derive(Clone, Copy, Debug, PartialEq, Eq, Structural)]
pub struct Market {
    pub base_mint: u64,
    pub quote_mint: u64,
    /// Quantities are integers in multiples of this base unit.
    pub base_lot_size: u64,
    /// Prices are integers in multiples of this quote unit.
    pub quote_tick_size: u64,
    /// The id the next resting order will take; starts at 1, never reused,
    /// never decremented.
    pub next_order_id: u64,
    /// The timestamp of the latest order placed; later orders always get a
    /// strictly greater one.
    pub last_timestamp: i64,
}

impl Market {
    pub open spec fn wf(self) -> bool {
        &&& self.base_lot_size > 0
        &&& self.quote_tick_size > 0
        &&& self.base_mint != self.quote_mint
        &&& self.next_order_id >= 1
    }
}

/// Create the market for one trading pair. The two mints must differ and
/// both sizing parameters must be positive; order ids start at 1.
pub fn init_market(base_mint: u64, quote_mint: u64, base_lot_size: u64, quote_tick_size: u64) -> (r:
    Result<Market, ErrorCode>)
    ensures
        base_mint == quote_mint ==> r == Err::<Market, ErrorCode>(ErrorCode::SameMintAddresses),
        base_mint != quote_mint && (base_lot_size == 0 || quote_tick_size == 0) ==> r == Err::<
            Market,
            ErrorCode,
        >(ErrorCode::InvalidParameter),
        base_mint != quote_mint && base_lot_size > 0 && quote_tick_size > 0 ==> r == Ok::<
            Market,
            ErrorCode,
        >(
            Market {
                base_mint,
                quote_mint,
                base_lot_size,
                quote_tick_size,
                next_order_id: 1,
                last_timestamp: 0,
            },
        ),
        r is Ok ==> r.unwrap().wf(),
{
    if base_mint == quote_mint {
        return Err(ErrorCode::SameMintAddresses);
    }
    if base_lot_size == 0 {
        return Err(ErrorCode::InvalidParameter);
    }
    if quote_tick_size == 0 {
        return Err(ErrorCode::InvalidParameter);
    }
    Ok(
        Market {
            base_mint,
            quote_mint,
            base_lot_size,
            quote_tick_size,
            next_order_id: 1,
            last_timestamp: 0,
        },
    )
}

} // verus!
