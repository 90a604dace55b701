use vstd::prelude::*;

verus! {

/// Error taxonomy of the engine.
///
/// Only `Conflict` is ever recovered locally (by the bounded retry loop of
/// the transactional command context); every other error propagates to the
/// caller unchanged in kind.
#[derive(Clone, Copy, Debug, PartialEq, Eq, Structural)]
pub enum EngineError {
    /// A session accessor was called before `connect` succeeded.
    NotConnected,
    /// Startup connection establishment failed; fatal to startup.
    Connect,
    /// The backend reported an optimistic-concurrency write conflict.
    Conflict,
    /// Any other backend failure, timeouts included; never retried.
    Backend,
    /// The command family needs transactional atomicity that the raw
    /// (non-transactional) path cannot give.
    Unsupported,
}

impl EngineError {
    /// Whether the transactional command context may retry after this error.
    pub fn is_retryable(&self) -> (r: bool)
        ensures
            r == (*self == EngineError::Conflict),
    {
        match self {
            EngineError::Conflict => true,
            _ => false,
        }
    }
}

} // verus!
