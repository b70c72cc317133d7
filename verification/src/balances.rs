//! Account balance bookkeeping shared with the currency collaborator: the
//! per-account balance breakdown and the reasons a withdrawal may be
//! restricted.

use vstd::prelude::*;

verus! {

/// A 32-byte note that can accompany a transfer.
#[derive(Clone, PartialEq, Eq, Debug)]
pub struct Memo(pub [u8; 32]);

impl Default for Memo {
    fn default() -> (r: Self)
        ensures
            r.0@ =~= Seq::<u8>::new(32, |i: int| 0u8),
    {
        Memo([0u8; 32])
    }
}

/// Simplified reasons for withdrawing balance.
#[derive(Clone, Copy, PartialEq, Eq, Debug, Structural)]
pub enum Reasons {
    /// Paying system transaction fees.
    Fee,
    /// Any reason other than paying system transaction fees.
    Misc,
    /// Any reason at all.
    All,
}

impl Reasons {
    /// The reason covering both this one and `other`: equal reasons stay as
    /// they are, different ones widen to `All`.
    pub fn combine(self, other: Reasons) -> (r: Reasons)
        ensures
            self == other ==> r == self,
            self != other ==> r == Reasons::All,
    {
        if self == other {
            self
        } else {
            Reasons::All
        }
    }
}

/// All balance information for an account.
#[derive(Clone, PartialEq, Eq, Debug, Structural)]
pub struct AccountData {
    /// Non-reserved part of the balance: the pool that may in principle be
    /// transferred, reserved and used for tipping.
    pub free: u128,
    /// Balance which is reserved and may not be used at all; it can still be
    /// slashed, but last of all.
    pub reserved: u128,
    /// The amount that `free` may not drop below when withdrawing for
    /// anything except transaction fee payment.
    pub misc_frozen: u128,
    /// The amount that `free` may not drop below when withdrawing
    /// specifically for transaction fee payment.
    pub fee_frozen: u128,
}

impl AccountData {
    /// How much this account's balance can be reduced for the given
    /// `reasons`: the free balance less the matching frozen floor,
    /// saturating at zero.
    pub fn usable(&self, reasons: Reasons) -> (r: u128)
        ensures
            r == if self.free >= self.frozen_spec(reasons) {
                self.free - self.frozen_spec(reasons)
            } else {
                0int
            },
    {
        let frozen = self.frozen(reasons);
        if self.free >= frozen {
            self.free - frozen
        } else {
            0
        }
    }

    /// The floor below which `free` may not be reduced for `reasons`.
    pub open spec fn frozen_spec(&self, reasons: Reasons) -> u128 {
        match reasons {
            Reasons::All => if self.misc_frozen >= self.fee_frozen {
                self.misc_frozen
            } else {
                self.fee_frozen
            },
            Reasons::Misc => self.misc_frozen,
            Reasons::Fee => self.fee_frozen,
        }
    }

    /// The amount that this account's free balance may not be reduced beyond
    /// for the given `reasons`.
    pub fn frozen(&self, reasons: Reasons) -> (r: u128)
        ensures
            r == self.frozen_spec(reasons),
    {
        match reasons {
            Reasons::All => if self.misc_frozen >= self.fee_frozen {
                self.misc_frozen
            } else {
                self.fee_frozen
            },
            Reasons::Misc => self.misc_frozen,
            Reasons::Fee => self.fee_frozen,
        }
    }

    /// The total balance in this account, including any that is reserved and
    /// ignoring any frozen, saturating at the numeric maximum.
    pub fn total(&self) -> (r: u128)
        ensures
            r == if self.free + self.reserved <= u128::MAX {
                self.free + self.reserved
            } else {
                u128::MAX as int
            },
    {
        if self.free <= u128::MAX - self.reserved {
            self.free + self.reserved
        } else {
            u128::MAX
        }
    }
}

} // verus!
