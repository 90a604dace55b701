use vstd::prelude::*;
use vstd::arithmetic::div_mod::{
    lemma_fundamental_div_mod, lemma_mod_bound, lemma_mod_multiples_vanish, lemma_small_mod,
};

verus! {

/// Wraparound of the shared counter at the width of the machine word.
pub open spec fn wrap64(x: int) -> u64 {
    (x % 0x1_0000_0000_0000_0000) as u64
}

/// The selection policy shared by the meta-slot assigner and the session
/// pool: a counter, bumped on every call, reduced modulo a period that is
/// fixed at construction. In the running server the counter is process-wide;
/// here it is owned state handed by reference to every caller, so the update
/// is race-free by construction.
pub struct Selector {
    counter: u64,
    period: usize,
}

impl Selector {
    /// The number of choices the selector rotates over.
    pub closed spec fn spec_period(&self) -> int {
        self.period as int
    }

    /// The value of the shared counter: the number of selections made so
    /// far (modulo the machine word).
    pub closed spec fn spec_counter(&self) -> int {
        self.counter as int
    }

    pub open spec fn wf(&self) -> bool {
        self.spec_period() > 0
    }

    pub fn new(period: usize) -> (r: Selector)
        requires
            period >= 1,
        ensures
            r.wf(),
            r.spec_period() == period,
            r.spec_counter() == 0,
    {
        Selector { counter: 0, period }
    }

    pub fn period(&self) -> (r: usize)
        ensures
            r == self.spec_period(),
    {
        self.period
    }

    /// One selection: returns the counter reduced modulo the period and
    /// advances the counter. Consecutive calls therefore rotate over
    /// 0, 1, ..., period - 1 and start over.
    pub fn next_index(&mut self) -> (r: usize)
        requires
            old(self).wf(),
        ensures
            final(self).wf(),
            final(self).spec_period() == old(self).spec_period(),
            r == old(self).spec_counter() % old(self).spec_period(),
            final(self).spec_counter() == wrap64(old(self).spec_counter() + 1),
    {
        let r = (self.counter % (self.period as u64)) as usize;
        self.counter = if self.counter == u64::MAX {
            0
        } else {
            self.counter + 1
        };
        proof {
            lemma_mod_bound(old(self).spec_counter(), old(self).spec_period());
            if old(self).counter == u64::MAX {
                lemma_mod_multiples_vanish(1, 0, 0x1_0000_0000_0000_0000);
            } else {
                lemma_small_mod((old(self).counter + 1) as nat, 0x1_0000_0000_0000_0000nat);
            }
        }
        r
    }
}

/// The meta-slot assigner: one selection from the shared counter, reduced
/// modulo the configured meta key number. Repeated operations on one logical
/// key may land on different slots over time; a true-size read must
/// aggregate over all slots of the collection.
pub fn gen_next_meta_index(sel: &mut Selector) -> (r: u16)
    requires
        old(sel).wf(),
        old(sel).spec_period() <= u16::MAX as int,
    ensures
        final(sel).wf(),
        final(sel).spec_period() == old(sel).spec_period(),
        r == old(sel).spec_counter() % old(sel).spec_period(),
        final(sel).spec_counter() == wrap64(old(sel).spec_counter() + 1),
{
    let idx = sel.next_index();
    idx as u16
}

/// How many of the first m selections starting from counter value c0 pick
/// index i, when the period is n: the number of k < m with (c0 + k) % n == i.
pub open spec fn rr_count(c0: int, m: nat, n: int, i: int) -> nat
    decreases m,
{
    if m == 0 {
        0
    } else {
        rr_count(c0, (m - 1) as nat, n, i) + if (c0 + m - 1) % n == i {
            1nat
        } else {
            0nat
        }
    }
}

/// Selections split at any point: the first m1 from c0, then m2 more from
/// c0 + m1.
proof fn lemma_rr_split(c0: int, m1: nat, m2: nat, n: int, i: int)
    ensures
        rr_count(c0, m1 + m2, n, i) == rr_count(c0, m1, n, i) + rr_count(c0 + m1, m2, n, i),
    decreases m2,
{
    if m2 > 0 {
        lemma_rr_split(c0, m1, (m2 - 1) as nat, n, i);
    }
}

/// Within one window of n consecutive counter values, index i is hit at
/// position d = (i - c0) % n and nowhere else.
proof fn lemma_rr_hit(c0: int, k: int, n: int, i: int)
    requires
        0 < n,
        0 <= k < n,
        0 <= i < n,
    ensures
        ((c0 + k) % n == i) <==> (k == (i - c0) % n),
{
    let d = (i - c0) % n;
    lemma_mod_bound(i - c0, n);
    lemma_fundamental_div_mod(i - c0, n);
    let q = (i - c0) / n;
    if k == d {
        // c0 + d == i - n * q, and dropping the multiple of n leaves i
        assert(n * (-q) == -(n * q)) by (nonlinear_arith);
        assert(n * (-q) + i == c0 + d);
        lemma_mod_multiples_vanish(-q, i, n);
        lemma_small_mod(i as nat, n as nat);
        assert((c0 + k) % n == i);
    }
    if (c0 + k) % n == i {
        lemma_fundamental_div_mod(c0 + k, n);
        let p = (c0 + k) / n;
        // k == (i - c0) + n * p, so k and i - c0 agree modulo n
        assert(n * p + (i - c0) == k);
        lemma_mod_multiples_vanish(p, i - c0, n);
        lemma_small_mod(k as nat, n as nat);
        assert(k == d);
    }
}

/// One full rotation hits every index exactly once.
proof fn lemma_rr_window_partial(c0: int, m: nat, n: int, i: int)
    requires
        0 < n,
        m <= n,
        0 <= i < n,
    ensures
        rr_count(c0, m, n, i) == if (i - c0) % n < m {
            1nat
        } else {
            0nat
        },
    decreases m,
{
    lemma_mod_bound(i - c0, n);
    if m > 0 {
        lemma_rr_window_partial(c0, (m - 1) as nat, n, i);
        lemma_rr_hit(c0, m - 1, n, i);
    }
}

/// Round-robin fairness: over any stretch of M consecutive selections with
/// M a multiple of the period n, every index in [0, n) is selected exactly
/// M / n times — here stated multiplicatively as n * count == M.
pub proof fn lemma_round_robin_fairness(c0: int, m: nat, n: int, i: int)
    requires
        0 < n,
        0 <= i < n,
        (m as int) % n == 0,
    ensures
        n * rr_count(c0, m, n, i) == m,
    decreases m,
{
    if m == 0 {
        assert(rr_count(c0, m, n, i) == 0);
        assert(n * rr_count(c0, m, n, i) == m);
    } else if m < n {
        lemma_small_mod(m, n as nat);
        assert(false);
    } else {
        let m1 = (m - n) as nat;
        lemma_rr_split(c0, m1, n as nat, n, i);
        lemma_rr_window_partial(c0 + m1, n as nat, n, i);
        lemma_mod_bound(i - (c0 + m1), n);
        // m - n is still a multiple of n
        assert(n * (-1) + m == m1 as int);
        lemma_mod_multiples_vanish(-1, m as int, n);
        lemma_round_robin_fairness(c0, m1, n, i);
        let c1 = rr_count(c0, m1, n, i) as int;
        assert(rr_count(c0, m, n, i) == c1 + 1);
        assert(n * (c1 + 1) == n * c1 + n) by (nonlinear_arith);
        assert(n * c1 == m1);
        assert(n * rr_count(c0, m, n, i) == m);
    }
}

} // verus!
