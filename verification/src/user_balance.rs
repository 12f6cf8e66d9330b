use vstd::prelude::*;

use crate::errors::ErrorCode;
use crate::market::Market;

verus! {

/// One user's free funds in one market, in the smallest asset units. A
/// balance never goes negative: every debit is checked first. Funds reserved
/// for open orders are already debited from these fields and come back on
/// cancel or on fill settlement.
#[derive(Clone, Copy, Debug, PartialEq, Eq, Structural)]
pub struct UserBalance {
    pub owner: u64,
    pub base_balance: u64,
    pub quote_balance: u64,
}

impl UserBalance {
    /// A fresh, empty balance record for a user, as the host creates it on
    /// first deposit.
    pub fn new(owner: u64) -> (b: UserBalance)
        ensures
            b == (UserBalance { owner, base_balance: 0, quote_balance: 0 }),
    {
        UserBalance { owner, base_balance: 0, quote_balance: 0 }
    }

    /// Credit a deposit of `amount` units of `mint` (the vault transfer has
    /// already happened on the host's side). Zero deposits, unknown mints
    /// and overflowing credits are rejected with nothing changed; success
    /// hands back the new balance of the deposited asset.
    pub fn deposit(&mut self, market: &Market, mint: u64, amount: u64) -> (r: Result<
        u64,
        ErrorCode,
    >)
        ensures
            final(self).owner == old(self).owner,
            amount == 0 ==> r == Err::<u64, ErrorCode>(ErrorCode::InvalidAmount) && *final(self)
                == *old(self),
            amount > 0 && mint != market.base_mint && mint != market.quote_mint ==> r == Err::<
                u64,
                ErrorCode,
            >(ErrorCode::InvalidTokenMint) && *final(self) == *old(self),
            amount > 0 && mint == market.base_mint ==> if old(self).base_balance + amount
                > u64::MAX {
                r == Err::<u64, ErrorCode>(ErrorCode::MathOverflow) && *final(self) == *old(self)
            } else {
                r == Ok::<u64, ErrorCode>((old(self).base_balance + amount) as u64) && *final(self)
                    == (UserBalance {
                    base_balance: (old(self).base_balance + amount) as u64,
                    ..*old(self)
                })
            },
            amount > 0 && mint != market.base_mint && mint == market.quote_mint ==> if old(
                self,
            ).quote_balance + amount > u64::MAX {
                r == Err::<u64, ErrorCode>(ErrorCode::MathOverflow) && *final(self) == *old(self)
            } else {
                r == Ok::<u64, ErrorCode>((old(self).quote_balance + amount) as u64) && *final(self)
                    == (UserBalance {
                    quote_balance: (old(self).quote_balance + amount) as u64,
                    ..*old(self)
                })
            },
    {
        if amount == 0 {
            return Err(ErrorCode::InvalidAmount);
        }
        if mint == market.base_mint {
            match self.base_balance.checked_add(amount) {
                None => Err(ErrorCode::MathOverflow),
                Some(new_balance) => {
                    self.base_balance = new_balance;
                    Ok(new_balance)
                },
            }
        } else if mint == market.quote_mint {
            match self.quote_balance.checked_add(amount) {
                None => Err(ErrorCode::MathOverflow),
                Some(new_balance) => {
                    self.quote_balance = new_balance;
                    Ok(new_balance)
                },
            }
        } else {
            Err(ErrorCode::InvalidTokenMint)
        }
    }

    /// Debit a withdrawal of `amount` units of `mint`; the host transfers
    /// the tokens out of the vault afterwards. Only free (unreserved) funds
    /// are withdrawable, because reservations are already debited. Success
    /// hands back the new balance of the withdrawn asset.
    pub fn withdraw(&mut self, market: &Market, mint: u64, amount: u64) -> (r: Result<
        u64,
        ErrorCode,
    >)
        ensures
            final(self).owner == old(self).owner,
            amount == 0 ==> r == Err::<u64, ErrorCode>(ErrorCode::InvalidAmount) && *final(self)
                == *old(self),
            amount > 0 && mint != market.base_mint && mint != market.quote_mint ==> r == Err::<
                u64,
                ErrorCode,
            >(ErrorCode::InvalidTokenMint) && *final(self) == *old(self),
            amount > 0 && mint == market.base_mint ==> if old(self).base_balance < amount {
                r == Err::<u64, ErrorCode>(ErrorCode::InsufficientBalance) && *final(self) == *old(
                    self,
                )
            } else {
                r == Ok::<u64, ErrorCode>((old(self).base_balance - amount) as u64) && *final(self)
                    == (UserBalance {
                    base_balance: (old(self).base_balance - amount) as u64,
                    ..*old(self)
                })
            },
            amount > 0 && mint != market.base_mint && mint == market.quote_mint ==> if old(
                self,
            ).quote_balance < amount {
                r == Err::<u64, ErrorCode>(ErrorCode::InsufficientBalance) && *final(self) == *old(
                    self,
                )
            } else {
                r == Ok::<u64, ErrorCode>((old(self).quote_balance - amount) as u64) && *final(self)
                    == (UserBalance {
                    quote_balance: (old(self).quote_balance - amount) as u64,
                    ..*old(self)
                })
            },
    {
        if amount == 0 {
            return Err(ErrorCode::InvalidAmount);
        }
        if mint == market.base_mint {
            if self.base_balance < amount {
                return Err(ErrorCode::InsufficientBalance);
            }
            self.base_balance = self.base_balance - amount;
            Ok(self.base_balance)
        } else if mint == market.quote_mint {
            if self.quote_balance < amount {
                return Err(ErrorCode::InsufficientBalance);
            }
            self.quote_balance = self.quote_balance - amount;
            Ok(self.quote_balance)
        } else {
            Err(ErrorCode::InvalidTokenMint)
        }
    }

    /// Whether the record may be destroyed: only when nothing is left in it.
    pub fn close(&self) -> (r: Result<(), ErrorCode>)
        ensures
            self.base_balance == 0 && self.quote_balance == 0 ==> r == Ok::<(), ErrorCode>(()),
            self.base_balance != 0 || self.quote_balance != 0 ==> r == Err::<(), ErrorCode>(
                ErrorCode::InsufficientBalance,
            ),
    {
        if self.base_balance == 0 && self.quote_balance == 0 {
            Ok(())
        } else {
            Err(ErrorCode::InsufficientBalance)
        }
    }
}

} // verus!
