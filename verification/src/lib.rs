//! An in-memory voting ledger: polls with index-addressed items, the voting
//! history of every caller, and the rules that keep the two consistent.

pub mod audit;
pub mod hash;
pub mod identity;
pub mod keyed;
pub mod laws;
pub mod ledger;
pub mod order;
pub mod store;
pub mod user;
pub mod vote;
