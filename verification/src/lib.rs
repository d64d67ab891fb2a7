//! A background trie-prefetching engine for a blockchain state database.
//!
//! While a block's transactions execute, the engine speculatively warms a
//! Merkle-trie cache with the account and storage nodes that the later state
//! root computation will need. Incoming state deltas are deduplicated against
//! a per-task cache, turned into prefix sets that prune the trie walk, and
//! driven through a storage-root prefetch and an account-trie walk.

pub mod dedup;
pub mod delta;
pub mod errors;
pub mod noop;
pub mod prefix;
pub mod replay;
pub mod scheduler;
pub mod trace_helper;
pub mod walk;
