//! Replays a stream of deposits, withdrawals, disputes, resolves and
//! chargebacks against per-client accounts.
//!
//! Amounts are fixed-point integers in ten-thousandths of a unit.
//!
//! Disputes follow the lifecycle `deposit -> dispute -> resolve | chargeback`:
//! a resolve or a chargeback applies only while its deposit is under dispute,
//! and closes that dispute. A dispute is refused only where its deposit, or
//! the account, is not there: a deposit already under dispute, or charged back
//! before, is held again. A chargeback locks the account, and the lock
//! refuses nothing: later deposits, withdrawals and disputes still apply.

pub mod engine;
pub mod models;
pub mod processor;
pub mod storage;
