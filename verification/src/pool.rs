use vstd::prelude::*;
use vstd::arithmetic::div_mod::{lemma_mod_bound, lemma_small_mod};
use crate::errors::EngineError;
use crate::selector::{wrap64, Selector};

verus! {

/// A borrowed transactional session: the pool's promise that the session at
/// this index is held by exactly one in-flight command until it is given
/// back.
#[derive(Clone, Copy, Debug, PartialEq, Eq, Structural)]
pub struct SessionHandle {
    pub index: usize,
}

/// The singleton raw (non-transactional) session.
#[derive(Clone, Copy, Debug, PartialEq, Eq, Structural)]
pub struct RawSessionHandle {
}

/// What the startup connection attempt came to: either every transactional
/// session and the raw session were established, or the attempt failed
/// somewhere and nothing of it is kept.
#[derive(Clone, Copy, Debug, PartialEq, Eq, Structural)]
pub enum ConnectAttempt {
    Established,
    Failed,
}

/// The first free index at or after offset j in the rotation that starts at
/// start: the round-robin candidate scan with busy sessions excluded.
pub open spec fn spec_first_free_from(open: Seq<bool>, start: int, j: nat) -> Option<int>
    decreases open.len() - j,
{
    if j >= open.len() {
        None
    } else if !open[(start + j) % (open.len() as int)] {
        Some((start + j) % (open.len() as int))
    } else {
        spec_first_free_from(open, start, (j + 1) as nat)
    }
}

/// The session pool: owns backend connectivity, a fixed set of
/// transactional sessions plus one raw session, and hands sessions out
/// round-robin. Until `connect` succeeds every accessor reports
/// `NotConnected`; a session with an open transaction is excluded from the
/// candidate set until it is given back.
pub struct SessionPool {
    connected: bool,
    selector: Selector,
    open_txn: Vec<bool>,
}

/// One acquisition step observed from outside: the handed-out session was
/// free before and is held afterwards, and no other session changed hands.
pub open spec fn spec_acquired(pre: SessionPool, post: SessionPool, h: SessionHandle) -> bool {
    &&& pre.spec_connected()
    &&& 0 <= h.index < pre.spec_session_count()
    &&& !pre.spec_txn_open(h.index as int)
    &&& post.spec_txn_open(h.index as int)
    &&& post.spec_session_count() == pre.spec_session_count()
    &&& forall|j: int|
        0 <= j < pre.spec_session_count() && j != h.index ==> pre.spec_txn_open(j)
            == post.spec_txn_open(j)
}

impl SessionPool {
    pub closed spec fn spec_connected(&self) -> bool {
        self.connected
    }

    /// The per-session open-transaction marks.
    pub closed spec fn spec_open_seq(&self) -> Seq<bool> {
        self.open_txn@
    }

    /// How many transactional sessions the pool owns.
    pub open spec fn spec_session_count(&self) -> int {
        self.spec_open_seq().len() as int
    }

    /// Whether a transaction is open on the session at index i.
    pub open spec fn spec_txn_open(&self, i: int) -> bool {
        0 <= i < self.spec_open_seq().len() && self.spec_open_seq()[i]
    }

    /// The shared round-robin counter of the selector.
    pub closed spec fn spec_counter(&self) -> int {
        self.selector.spec_counter()
    }

    pub closed spec fn wf(&self) -> bool {
        self.connected ==> {
            &&& self.selector.wf()
            &&& self.selector.spec_period() == self.open_txn@.len()
            &&& self.open_txn@.len() >= 1
        }
    }

    /// A fresh pool: not connected; every accessor refuses until `connect`
    /// succeeds.
    pub fn new() -> (r: SessionPool)
        ensures
            r.wf(),
            !r.spec_connected(),
            r.spec_session_count() == 0,
    {
        SessionPool { connected: false, selector: Selector::new(1), open_txn: Vec::new() }
    }

    /// Records the outcome of the startup connection sequence, which must
    /// establish `concurrency` transactional sessions plus the raw session.
    /// All or nothing: a failed attempt leaves the pool not connected, so
    /// raw and transactional access keep refusing until a retry succeeds.
    pub fn connect(&mut self, concurrency: usize, outcome: ConnectAttempt) -> (r: Result<
        (),
        EngineError,
    >)
        requires
            concurrency >= 1,
        ensures
            final(self).wf(),
            outcome == ConnectAttempt::Established ==> {
                &&& r == Ok::<(), EngineError>(())
                &&& final(self).spec_connected()
                &&& final(self).spec_session_count() == concurrency
                &&& final(self).spec_counter() == 0
                &&& forall|j: int|
                    0 <= j < concurrency ==> !final(self).spec_txn_open(j)
            },
            outcome == ConnectAttempt::Failed ==> {
                &&& r == Err::<(), EngineError>(EngineError::Connect)
                &&& !final(self).spec_connected()
            },
    {
        match outcome {
            ConnectAttempt::Established => {
                let mut open: Vec<bool> = Vec::new();
                let mut i: usize = 0;
                while i < concurrency
                    invariant
                        i <= concurrency,
                        open@.len() == i,
                        forall|j: int| 0 <= j < i ==> !open@[j],
                    decreases concurrency - i,
                {
                    open.push(false);
                    i = i + 1;
                }
                self.connected = true;
                self.selector = Selector::new(concurrency);
                self.open_txn = open;
                Ok(())
            },
            ConnectAttempt::Failed => {
                self.connected = false;
                Err(EngineError::Connect)
            },
        }
    }

    /// The raw-session accessor: the one raw session, or `NotConnected`
    /// before a successful `connect`. Never panics, never blocks.
    pub fn get_client(&self) -> (r: Result<RawSessionHandle, EngineError>)
        ensures
            !self.spec_connected() ==> r == Err::<RawSessionHandle, EngineError>(
                EngineError::NotConnected,
            ),
            self.spec_connected() ==> r == Ok::<RawSessionHandle, EngineError>(
                (RawSessionHandle {  }),
            ),
    {
        if !self.connected {
            return Err(EngineError::NotConnected);
        }
        Ok(RawSessionHandle {})
    }

    /// The transactional-session accessor: round-robin selection over the
    /// fixed session set, skipping sessions that still hold an open
    /// transaction. `NotConnected` before a successful `connect`; a
    /// backend-unavailable error when every session is busy. Selection never
    /// blocks on in-flight transactions.
    pub fn get_txn_client(&mut self) -> (r: Result<SessionHandle, EngineError>)
        requires
            old(self).wf(),
        ensures
            final(self).wf(),
            final(self).spec_connected() == old(self).spec_connected(),
            final(self).spec_session_count() == old(self).spec_session_count(),
            !old(self).spec_connected() ==> {
                &&& r == Err::<SessionHandle, EngineError>(EngineError::NotConnected)
                &&& final(self).spec_open_seq() == old(self).spec_open_seq()
                &&& final(self).spec_counter() == old(self).spec_counter()
            },
            old(self).spec_connected() ==> {
                &&& final(self).spec_counter() == wrap64(old(self).spec_counter() + 1)
                &&& match spec_first_free_from(
                    old(self).spec_open_seq(),
                    old(self).spec_counter() % old(self).spec_session_count(),
                    0,
                ) {
                    Some(i) => {
                        &&& r == Ok::<SessionHandle, EngineError>(
                            (SessionHandle { index: i as usize }),
                        )
                        &&& spec_acquired(
                            *old(self),
                            *final(self),
                            (SessionHandle { index: i as usize }),
                        )
                    },
                    None => {
                        &&& r == Err::<SessionHandle, EngineError>(EngineError::Backend)
                        &&& final(self).spec_open_seq() == old(self).spec_open_seq()
                    },
                }
            },
    {
        if !self.connected {
            return Err(EngineError::NotConnected);
        }
        let ghost open = self.open_txn@;
        let len = self.open_txn.len();
        let start = self.selector.next_index();
        proof {
            lemma_mod_bound(old(self).spec_counter(), len as int);
        }
        let ghost sel_snap = self.selector;
        let mut j: usize = 0;
        let mut idx: usize = start;
        proof {
            lemma_small_mod(start as nat, len as nat);
        }
        while j < len
            invariant
                self.open_txn@ == open,
                self.connected,
                self.selector == sel_snap,
                old(self).spec_connected(),
                open == old(self).spec_open_seq(),
                old(self).spec_session_count() == len as int,
                sel_snap.wf(),
                sel_snap.spec_period() == len as int,
                sel_snap.spec_counter() == wrap64(old(self).spec_counter() + 1),
                start == old(self).spec_counter() % (len as int),
                open.len() == len,
                len >= 1,
                j <= len,
                start < len,
                idx == (start + j) % (len as int),
                spec_first_free_from(open, start as int, 0) == spec_first_free_from(
                    open,
                    start as int,
                    j as nat,
                ),
            decreases len - j,
        {
            if !self.open_txn[idx] {
                self.open_txn[idx] = true;
                proof {
                    assert(self.open_txn@ == open.update(idx as int, true));
                }
                return Ok(SessionHandle { index: idx });
            }
            j = j + 1;
            let prev = idx;
            idx = if idx + 1 == len {
                0
            } else {
                idx + 1
            };
            proof {
                let n = len as int;
                let a = start + j - 1;
                vstd::arithmetic::div_mod::lemma_fundamental_div_mod(a, n);
                let qa = a / n;
                lemma_mod_bound(a, n);
                if prev + 1 == len {
                    assert(a + 1 == n * (qa + 1) + 0) by (nonlinear_arith)
                        requires
                            a == n * qa + (a % n),
                            (a % n) + 1 == n,
                    ;
                    vstd::arithmetic::div_mod::lemma_fundamental_div_mod_converse_mod(
                        a + 1,
                        n,
                        qa + 1,
                        0,
                    );
                } else {
                    vstd::arithmetic::div_mod::lemma_fundamental_div_mod_converse_mod(
                        a + 1,
                        n,
                        qa,
                        (a % n) + 1,
                    );
                }
                assert(idx == (start + j) % n);
            }
        }
        Err(EngineError::Backend)
    }

    /// Gives a session back to the pool after commit or abort: the open
    /// transaction mark on it is cleared. Giving back a handle the pool
    /// never handed out changes nothing.
    pub fn finish_txn(&mut self, h: SessionHandle)
        requires
            old(self).wf(),
        ensures
            final(self).wf(),
            final(self).spec_connected() == old(self).spec_connected(),
            final(self).spec_session_count() == old(self).spec_session_count(),
            final(self).spec_counter() == old(self).spec_counter(),
            h.index < old(self).spec_session_count() ==> final(self).spec_open_seq() == old(
                self,
            ).spec_open_seq().update(h.index as int, false),
            h.index >= old(self).spec_session_count() ==> final(self).spec_open_seq() == old(
                self,
            ).spec_open_seq(),
    {
        if h.index < self.open_txn.len() {
            self.open_txn[h.index] = false;
        }
    }
}

/// Exclusivity of session assignment: an acquisition marks its session held
/// before any later acquisition runs, so two commands whose acquisitions
/// both succeed, one after the other with no release in between, are never
/// assigned the same underlying session — no transaction interleaving on
/// one session.
pub proof fn lemma_session_exclusivity(
    p0: SessionPool,
    p1: SessionPool,
    p2: SessionPool,
    h1: SessionHandle,
    h2: SessionHandle,
)
    requires
        spec_acquired(p0, p1, h1),
        spec_acquired(p1, p2, h2),
    ensures
        h1 != h2,
{
    assert(p1.spec_txn_open(h1.index as int));
    assert(!p1.spec_txn_open(h2.index as int));
}

} // verus!
