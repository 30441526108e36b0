//! Collator selection: membership, performance accounting, eviction and
//! block rewards for a rotating committee of block producers.
//!
//! The crate models the whole lifecycle as explicit state. [`pallet::Pallet`]
//! holds the candidate registry, the invulnerable set, the per-period
//! performance tracker and the balance ledger; every operation on it carries a
//! contract that pins down the successor state, the returned value and the
//! error, and Verus checks the proofs.

use vstd::prelude::*;

pub mod eviction;
pub mod identity;
pub mod ledger;
pub mod pallet;
pub mod tracker;

verus! {

/// Account identifier. The chain's opaque account type is modelled as a
/// machine integer so that contracts can speak of concrete accounts.
pub type AccountId = u64;

/// Balance amounts held, reserved and transferred by the ledger.
pub type Balance = u128;

/// Number of blocks a producer authored within one period.
pub type BlockCount = u32;

/// Index of a period (session) in the period lifecycle.
pub type SessionIndex = u32;

/// Height of a block in the chain.
pub type BlockNumber = u64;

} // verus!
