//! Verified core of the AutoShare payment-splitting contract: basis-point share
//! arithmetic, member-list validation and the group registry that the contract
//! keeps in its ledger.

pub mod base;
pub mod contract;
pub mod ledger;

pub use contract::AutoShareContract;
