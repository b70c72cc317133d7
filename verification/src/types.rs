//! The data model of the staking engine: accounts, eras, exposures, reward
//! points, nomination records and the error taxonomy of the dispatchable
//! operations.

use crate::ratio::Ratio;
use vstd::prelude::*;

verus! {

/// An account, named by its numeric identity.
pub type AccountId = u64;

/// An amount of the staked currency.
pub type Balance = u128;

/// The index of an accounting epoch.
pub type EraIndex = u32;

/// The index of a session; several sessions compose one era.
pub type SessionIndex = u32;

/// The stake of one backer behind a validator.
#[derive(Clone, Copy, PartialEq, Eq, Debug, Structural)]
pub struct IndividualExposure {
    /// The backing account.
    pub who: AccountId,
    /// The amount of its stake assigned to the validator.
    pub value: Balance,
}

/// The stake backing one validator for one era.
#[derive(Clone, PartialEq, Eq, Debug)]
pub struct Exposure {
    /// The total backing stake: own plus all of `others`, saturating.
    pub total: Balance,
    /// The validator's self-stake.
    pub own: Balance,
    /// The backers' stakes, largest first.
    pub others: Vec<IndividualExposure>,
}

/// Backer stakes are ordered by descending value.
pub open spec fn others_sorted_desc(s: Seq<IndividualExposure>) -> bool {
    forall|i: int, j: int| 0 <= i < j < s.len() ==> s[i].value >= s[j].value
}

impl Exposure {
    /// A recorded exposure covers its own stake, lists its backers largest
    /// first with nothing staked at zero, and holds at most `max_backers`
    /// entries.
    pub open spec fn wf(self, max_backers: int) -> bool {
        &&& self.total >= self.own
        &&& others_sorted_desc(self.others@)
        &&& self.others@.len() <= max_backers
        &&& forall|i: int| 0 <= i < self.others@.len() ==> self.others@[i].value > 0
    }
}

/// Where a reward payment is deposited.
#[derive(Clone, Copy, PartialEq, Eq, Debug, Structural)]
pub enum RewardDestination {
    /// Into the stash account, compounding into the active stake.
    Staked,
    /// Into the stash account, without bonding it.
    Stash,
    /// Into the controller account.
    Controller,
    /// Into a chosen account.
    Account(AccountId),
}

impl Default for RewardDestination {
    fn default() -> (r: Self)
        ensures
            r == RewardDestination::Staked,
    {
        RewardDestination::Staked
    }
}

/// A validator's standing offer to the electorate.
#[derive(Clone, Copy, PartialEq, Eq, Debug)]
pub struct ValidatorPrefs {
    /// The cut of the reward taken off the top before the stake-proportional
    /// split.
    pub commission: Ratio,
}

impl Default for ValidatorPrefs {
    fn default() -> (r: Self)
        ensures
            r.commission.parts_spec() == 0,
    {
        ValidatorPrefs { commission: Ratio::zero() }
    }
}

/// A nominator's standing vote.
#[derive(Clone, PartialEq, Eq, Debug)]
pub struct Nominations {
    /// The validators voted for.
    pub targets: Vec<AccountId>,
    /// The era in which the vote was submitted.
    pub submitted_in: EraIndex,
}

/// Whether the next era transition is forced irrespective of the session
/// schedule.
#[derive(Clone, Copy, PartialEq, Eq, Debug, Structural)]
pub enum Forcing {
    /// The era rotates on the ordinary session count.
    NotForcing,
    /// The next session ends the era, once; then back to not forcing.
    ForceNew,
    /// No era rotates until the flag changes.
    ForceNone,
    /// Every session ends an era.
    ForceAlways,
}

/// The compliance standing of a permissioned validator candidate.
#[derive(Clone, Copy, PartialEq, Eq, Debug, Structural)]
pub enum Compliance {
    /// Added to the permissioned set, compliance not yet confirmed.
    Pending,
    /// Compliance confirmed.
    Active,
}

/// An entry in the permissioned validator whitelist.
#[derive(Clone, Copy, PartialEq, Eq, Debug, Structural)]
pub struct PermissionedValidator {
    pub compliance: Compliance,
}

/// A slash computed from an offence report, awaiting its deferred
/// application (or applied at once when no deferral is configured).
#[derive(Clone, PartialEq, Eq, Debug)]
pub struct UnappliedSlash {
    /// The offending validator's stash.
    pub validator: AccountId,
    /// The incremental amount to withdraw from the validator.
    pub own: Balance,
    /// The amounts attributed to the backers; recorded for accounting but
    /// never withdrawn, since backers are not slashed here.
    pub others: Vec<(AccountId, Balance)>,
    /// Who reported the offence.
    pub reporters: Vec<AccountId>,
    /// The reward set aside for the reporters, split evenly among them.
    pub payout: Balance,
}

/// Why a dispatchable operation was refused.  No state changes when one of
/// these is returned.
#[derive(Clone, Copy, PartialEq, Eq, Debug, Structural)]
pub enum Error {
    /// The caller is not the controller of a bonded stash.
    NotController,
    /// The caller is not a bonded stash.
    NotStash,
    /// The stash is already bonded.
    AlreadyBonded,
    /// The controller already controls another stash.
    AlreadyPaired,
    /// A payout was claimed for a future, pruned or already-claimed era.
    InvalidEraToReward,
    /// All unbonding chunk slots are taken; withdraw one first.
    NoMoreChunks,
    /// A rebond was requested with nothing unbonding.
    NoUnlockChunk,
    /// A list of targets or indices was empty.
    EmptyTargets,
    /// The given indices were not sorted strictly ascending.
    NotSortedAndUnique,
    /// An index named no pending entry.
    InvalidSlashIndex,
    /// The stash still holds funds and cannot be reaped.
    FundedTarget,
    /// An addition overflowed the balance range.
    Overflow,
}

} // verus!
