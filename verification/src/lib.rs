//! Verified core of a DAO project-management system made of two cooperating
//! contracts: a worker availability calendar and a project lifecycle tracker.
//!
//! The library holds the state of each contract in memory and states, for
//! every message, exactly how that state changes, which error is returned and
//! which event is recorded. Whoever hosts the contracts supplies the caller of
//! each message and the answers of cross-contract queries, and emits the
//! recorded events.
pub mod account;
pub mod account_map;
pub mod calendar;
pub mod projects;
pub mod scope;
pub mod team;

pub use account::{AccountId, Balance, DocumentHash};
