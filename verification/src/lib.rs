//! Flat storage resharding and partial state-witness distribution.
//!
//! Two cores of a sharded blockchain node:
//! - splitting one parent shard's flat storage into two children, online,
//!   batched, cancellable and resumable (`resharder`);
//! - fanning a Reed-Solomon-encoded state witness out to chunk validators
//!   and reassembling it on the receiving side (`witness`).

#![verifier::loop_isolation(false)]

pub mod account;
pub mod hash;
pub mod shard;
pub mod trie_key;
pub mod state;
pub mod status;
pub mod store;
pub mod stream;
pub mod semantics;
pub mod resharder;
pub mod encoding;
pub mod witness;
pub mod laws;
