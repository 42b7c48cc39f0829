//! Reconciliation of a client's state with a node.
pub mod account_update;
pub mod accounts;
pub mod blockchain;
pub mod error;
pub mod execution;
pub mod screening;
pub mod state_sync;
pub mod tag;
pub mod transaction;
pub mod validation;
