//! A proof-of-stake validator election and reward/slashing accounting engine.
//!
//! The crate keeps, per era, the stake exposure backing each elected
//! validator, accumulates reward points, computes proportional reward
//! payouts, and applies span-based slashing that never punishes the same
//! offence window twice.  External collaborators (the currency ledger, the
//! committee elector, the identity service) are represented by plain values
//! handed in and out of the verified operations.

pub mod balances;
pub mod eras;
pub mod laws;
pub mod ledger;
pub mod offence;
pub mod payout;
pub mod ratio;
pub mod roles;
pub mod slashing;
pub mod staking;
pub mod store;
pub mod teardown;
pub mod types;

pub use balances::AccountData;
pub use balances::Memo;
pub use balances::Reasons;
