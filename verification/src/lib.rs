//! A token-staking ledger.
//!
//! Accounts deposit token amounts at clock ticks; each deposit unlocks over
//! time along a fixed piecewise-linear curve, and claims are reconciled
//! against the oldest stakes first, consuming partially unlocked entries and
//! removing fully exhausted ones.
//!
//! The ledger itself never moves tokens and never reads a clock: callers pass
//! the current tick and the caller's token balance in, and perform the token
//! transfer that a successful operation calls for.

pub mod curve;
pub mod laws;
pub mod ledger;
