//! A block executor that does nothing: every execution request is refused.
//! It stands in wherever an executor is required but block execution is not
//! meant to happen.

use vstd::prelude::*;

verus! {

/// The error every execution request of the no-op executor returns.
#[derive(Clone, Copy, PartialEq, Eq, Structural, Debug)]
pub enum BlockExecutionError {
    UnavailableForNoop,
}

/// A block executor provider implementation that does nothing.
#[derive(Clone, Copy, Debug)]
#[non_exhaustive]
pub struct NoopBlockExecutorProvider;

impl NoopBlockExecutorProvider {
    /// Hands out the no-op executor itself.
    pub fn executor(&self) -> (r: Self)
        ensures
            r == NoopBlockExecutorProvider,
    {
        NoopBlockExecutorProvider
    }

    /// Hands out the no-op batch executor itself.
    pub fn batch_executor(&self) -> (r: Self)
        ensures
            r == NoopBlockExecutorProvider,
    {
        NoopBlockExecutorProvider
    }

    /// Refuses to execute a block.
    pub fn execute(self) -> (r: Result<(), BlockExecutionError>)
        ensures
            r == Err::<(), BlockExecutionError>(BlockExecutionError::UnavailableForNoop),
    {
        Err(BlockExecutionError::UnavailableForNoop)
    }

    /// Refuses to execute and verify a block within a batch.
    pub fn execute_and_verify_one(&mut self) -> (r: Result<(), BlockExecutionError>)
        ensures
            r == Err::<(), BlockExecutionError>(BlockExecutionError::UnavailableForNoop),
            *final(self) == *old(self),
    {
        Err(BlockExecutionError::UnavailableForNoop)
    }

    /// Accepts and ignores a new tip.
    pub fn set_tip(&mut self, _tip: u64)
        ensures
            *final(self) == *old(self),
    {
    }

    /// Accepts and ignores new prune modes.
    pub fn set_prune_modes(&mut self, _prune_modes: u64)
        ensures
            *final(self) == *old(self),
    {
    }

    /// Gives no size hint.
    pub fn size_hint(&self) -> (r: Option<usize>)
        ensures
            r is None,
    {
        None
    }
}

impl Default for NoopBlockExecutorProvider {
    /// The provider has a single value.
    fn default() -> (r: Self)
        ensures
            r == NoopBlockExecutorProvider,
    {
        NoopBlockExecutorProvider
    }
}

} // verus!
