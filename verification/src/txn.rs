use vstd::prelude::*;

verus! {

/// The bounded-retry policy every transactional command shares: how many
/// optimistic attempts one logical command may make, and the backoff
/// between them.
#[derive(Clone, Copy, Debug, PartialEq, Eq, Structural)]
pub struct RetryPolicy {
    pub max_attempts: u32,
    pub backoff_ms: u32,
}

/// What the backend reported for one optimistic attempt of a command.
#[derive(Clone, Copy, Debug, PartialEq, Eq, Structural)]
pub enum AttemptOutcome {
    /// The attempt committed; the command is done.
    Committed,
    /// The backend detected a write conflict at commit; nothing of the
    /// attempt was applied.
    Conflicted,
    /// Any other backend failure, timeout included; the attempt was
    /// aborted.
    Failed,
}

/// What the command context does after an attempt: it recovers only
/// conflicts, and only while attempts remain.
#[derive(Clone, Copy, Debug, PartialEq, Eq, Structural)]
pub enum RetryDecision {
    /// Committed: surface the result.
    Done,
    /// Conflicted with attempts left: rerun the whole read-modify-write
    /// sequence from the beginning after the wait, so no stale read is
    /// reused.
    RetryAfter { wait_ms: u32 },
    /// Conflicted with retries exhausted: surface a transient failure.
    GiveUpConflict,
    /// Any other failure: abort and surface it without retrying.
    GiveUpError,
}

/// The single retry rule of the transactional command context.
pub fn next_retry_decision(policy: &RetryPolicy, attempts_used: u32, outcome: AttemptOutcome) -> (r:
    RetryDecision)
    ensures
        outcome == AttemptOutcome::Committed ==> r == RetryDecision::Done,
        outcome == AttemptOutcome::Failed ==> r == RetryDecision::GiveUpError,
        outcome == AttemptOutcome::Conflicted && attempts_used + 1 < policy.max_attempts ==> r == (
        RetryDecision::RetryAfter { wait_ms: policy.backoff_ms }),
        outcome == AttemptOutcome::Conflicted && attempts_used + 1 >= policy.max_attempts ==> r
            == RetryDecision::GiveUpConflict,
{
    match outcome {
        AttemptOutcome::Committed => RetryDecision::Done,
        AttemptOutcome::Failed => RetryDecision::GiveUpError,
        AttemptOutcome::Conflicted => {
            if attempts_used < u32::MAX && attempts_used + 1 < policy.max_attempts {
                RetryDecision::RetryAfter { wait_ms: policy.backoff_ms }
            } else {
                RetryDecision::GiveUpConflict
            }
        },
    }
}

/// A transactional command context for list commands: the unit that
/// executes one structure-level command as one atomic transaction. A caller
/// that wants to batch several commands into one larger transaction hands
/// in the id of that externally managed transaction; otherwise the context
/// begins and commits its own.
#[derive(Clone, Copy, Debug, PartialEq, Eq, Structural)]
pub struct ListCommandCtx {
    pub txn: Option<u64>,
}

impl ListCommandCtx {
    pub fn new(txn: Option<u64>) -> (r: ListCommandCtx)
        ensures
            r.txn == txn,
    {
        ListCommandCtx { txn }
    }

    /// Whether this context owns its transaction's lifecycle: it does
    /// exactly when no external transaction was supplied.
    pub fn owns_txn(&self) -> (r: bool)
        ensures
            r == (self.txn is None),
    {
        match self.txn {
            None => true,
            Some(_) => false,
        }
    }
}

} // verus!
