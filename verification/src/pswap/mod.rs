//! Chain tracking of partial-swap (PSWAP) orders: follows an order across its fills, so that its
//! creator always knows the live tip and can reclaim the unfilled balance.
pub mod cancel;
pub mod discovery;
pub mod errors;
pub mod lineage;
pub mod note;
pub mod observer;
pub mod store;
pub mod types;
