//! Verified core of a Miden client's chain tracking: the lineages of partial-swap (PSWAP)
//! orders, the note tags a client follows, and the reconciliation of a client's state with a
//! node.
pub mod account;
pub mod asset;
pub mod block;
pub mod encoding;
pub mod mmr;
pub mod note;
pub mod primitives;
pub mod pswap;
pub mod rpc;
pub mod sorted_map;
pub mod sync;
