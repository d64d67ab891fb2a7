//! The engine's error taxonomy: per-account storage-root failures and
//! pass-wide provider failures, with the partial conversion between them.

use vstd::prelude::*;

verus! {

/// Failure while computing the storage root of one account: a database
/// cursor failure (with its code) or a malformed trie node. Scope: that
/// account only; its result degrades to absent.
#[derive(Clone, Copy, PartialEq, Eq, Structural, Debug)]
pub enum StorageRootError {
    Database(u32),
    MalformedNode,
}

/// Failure reaching the persistent storage backend. Scope: the whole pass;
/// the scheduler logs it and continues with the next delta.
#[derive(Clone, Copy, PartialEq, Eq, Structural, Debug)]
pub enum ProviderError {
    Database(u32),
}

/// Error during one prefetch pass.
#[derive(Clone, Copy, PartialEq, Eq, Structural, Debug)]
pub enum TriePrefetchError {
    StorageRoot(StorageRootError),
    Provider(ProviderError),
}

impl TriePrefetchError {
    /// Unifies a storage-root error whose root cause is the storage backend
    /// with a provider error. The conversion is partial: a malformed-node
    /// failure has no provider image and must not be forced into one.
    pub fn to_provider_error(self) -> (r: Option<ProviderError>)
        ensures
            r == match self {
                TriePrefetchError::Provider(e) => Some(e),
                TriePrefetchError::StorageRoot(StorageRootError::Database(c)) => Some(
                    ProviderError::Database(c),
                ),
                TriePrefetchError::StorageRoot(StorageRootError::MalformedNode) => None::<
                    ProviderError,
                >,
            },
    {
        match self {
            TriePrefetchError::Provider(e) => Some(e),
            TriePrefetchError::StorageRoot(StorageRootError::Database(c)) => Some(
                ProviderError::Database(c),
            ),
            TriePrefetchError::StorageRoot(StorageRootError::MalformedNode) => None,
        }
    }
}

} // verus!
