use vstd::prelude::*;
use crate::encoding::{
    be_bytes, idx_word, push_be_bytes, spec_idx_word, spec_list_elem_key, KeyEncoder,
};
use crate::errors::EngineError;

verus! {

broadcast use vstd::seq::group_seq_axioms;

/// Lowest list element position the engine stores. Keeping positions well
/// inside the signed range keeps every length and offset computation free
/// of overflow, and keeps the number of member keys of one list within the
/// address space.
pub const LIST_POS_MIN: i64 = -0x4000_0000;

/// Highest list element position the engine stores.
pub const LIST_POS_MAX: i64 = 0x4000_0000;

/// The client-visible start bound, normalized: negative counts from the
/// end, then clamped below at zero.
pub open spec fn spec_norm_start(start: int, len: int) -> int {
    let s = if start < 0 {
        start + len
    } else {
        start
    };
    if s < 0 {
        0
    } else {
        s
    }
}

/// The client-visible end bound, normalized: negative counts from the end,
/// then clamped above at the last element.
pub open spec fn spec_norm_end(end: int, len: int) -> int {
    let e = if end < 0 {
        end + len
    } else {
        end
    };
    if e > len - 1 {
        len - 1
    } else {
        e
    }
}

/// The half-open range of logical offsets a trim to [start, end] retains.
pub open spec fn spec_trim_bounds(len: int, start: int, end: int) -> (int, int) {
    let s = spec_norm_start(start, len);
    let e = spec_norm_end(end, len);
    if s > e {
        (0, 0)
    } else {
        (s, e + 1)
    }
}

/// What one successful trim leaves of a list.
pub open spec fn spec_ltrim<T>(s: Seq<T>, start: int, end: int) -> Seq<T> {
    let (lo, hi) = spec_trim_bounds(s.len() as int, start, end);
    s.subrange(lo, hi)
}

/// The new bounds a trim gives a list stored at positions [head, tail).
pub struct TrimPlan {
    pub new_head: i64,
    pub new_tail: i64,
}

/// Computes the retained position range of a trim: pure, total, and
/// deterministic, so a conflict-retry that reruns it over freshly read
/// bounds plans the same mutation a single run would have planned.
pub fn compute_trim(head: i64, tail: i64, start: i64, end: i64) -> (r: TrimPlan)
    requires
        LIST_POS_MIN <= head <= tail <= LIST_POS_MAX,
    ensures
        r.new_head == head + spec_trim_bounds(tail - head, start as int, end as int).0,
        r.new_tail == head + spec_trim_bounds(tail - head, start as int, end as int).1,
        head <= r.new_head <= r.new_tail <= tail,
{
    let len: i64 = tail - head;
    let mut s: i64 = start;
    if s < 0 {
        s = s + len;
    }
    if s < 0 {
        s = 0;
    }
    let mut e: i64 = end;
    if e < 0 {
        e = e + len;
    }
    if e > len - 1 {
        e = len - 1;
    }
    if s > e {
        TrimPlan { new_head: head, new_tail: head }
    } else {
        TrimPlan { new_head: head + s, new_tail: head + e + 1 }
    }
}

/// The member keys a trim deletes: the positions in front of the retained
/// range, then the positions behind it, in scan order.
pub open spec fn spec_trim_delete_keys(
    id: u64,
    key: Seq<u8>,
    head: int,
    tail: int,
    new_head: int,
    new_tail: int,
) -> Seq<Seq<u8>> {
    Seq::new(((new_head - head) + (tail - new_tail)) as nat, |k: int|
        if k < new_head - head {
            spec_list_elem_key(id, key, (head + k) as i64)
        } else {
            spec_list_elem_key(id, key, (new_tail + (k - (new_head - head))) as i64)
        })
}

/// Encodes the member keys outside the retained range, front range first.
pub fn trim_delete_keys(enc: &KeyEncoder, key: &[u8], head: i64, tail: i64, plan: &TrimPlan) -> (r:
    Vec<Vec<u8>>)
    requires
        key@.len() < 0x1_0000_0000,
        LIST_POS_MIN <= head <= plan.new_head <= plan.new_tail <= tail <= LIST_POS_MAX,
        (plan.new_head - head) + (tail - plan.new_tail) <= usize::MAX,
    ensures
        r.deep_view() == spec_trim_delete_keys(
            enc.instance_id,
            key@,
            head as int,
            tail as int,
            plan.new_head as int,
            plan.new_tail as int,
        ),
{
    let ghost goal = spec_trim_delete_keys(
        enc.instance_id,
        key@,
        head as int,
        tail as int,
        plan.new_head as int,
        plan.new_tail as int,
    );
    let mut r: Vec<Vec<u8>> = Vec::new();
    let mut i: i64 = head;
    while i < plan.new_head
        invariant
            head <= i <= plan.new_head,
            r@.len() == i - head,
            forall|k: int| 0 <= k < r@.len() ==> #[trigger] r.deep_view()[k] == goal[k],
            goal == spec_trim_delete_keys(
                enc.instance_id,
                key@,
                head as int,
                tail as int,
                plan.new_head as int,
                plan.new_tail as int,
            ),
            LIST_POS_MIN <= head <= plan.new_head <= plan.new_tail <= tail <= LIST_POS_MAX,
            key@.len() < 0x1_0000_0000,
        decreases plan.new_head - i,
    {
        let ghost prev = r.deep_view();
        let elem = enc.encode_list_elem_key(key, i);
        proof {
            assert(elem.deep_view() =~= elem@);
        }
        r.push(elem);
        proof {
            assert forall|k: int| 0 <= k < r@.len() implies r.deep_view()[k] == goal[k] by {
                if k < prev.len() {
                    assert(r.deep_view()[k] == prev[k]);
                } else {
                    assert(r@[k] == elem);
                }
            }
        }
        i = i + 1;
    }
    let mut j: i64 = plan.new_tail;
    while j < tail
        invariant
            plan.new_tail <= j <= tail,
            r@.len() == (plan.new_head - head) + (j - plan.new_tail),
            forall|k: int| 0 <= k < r@.len() ==> #[trigger] r.deep_view()[k] == goal[k],
            goal == spec_trim_delete_keys(
                enc.instance_id,
                key@,
                head as int,
                tail as int,
                plan.new_head as int,
                plan.new_tail as int,
            ),
            LIST_POS_MIN <= head <= plan.new_head <= plan.new_tail <= tail <= LIST_POS_MAX,
            key@.len() < 0x1_0000_0000,
        decreases tail - j,
    {
        let ghost prev = r.deep_view();
        let elem = enc.encode_list_elem_key(key, j);
        proof {
            assert(elem.deep_view() =~= elem@);
        }
        r.push(elem);
        proof {
            assert forall|k: int| 0 <= k < r@.len() implies r.deep_view()[k] == goal[k] by {
                if k < prev.len() {
                    assert(r.deep_view()[k] == prev[k]);
                } else {
                    assert(r@[k] == elem);
                }
            }
        }
        j = j + 1;
    }
    proof {
        assert(r.deep_view() =~= goal);
    }
    r
}

/// The stored form of a list's bounds: the two positions, order-preserving
/// and fixed-width.
pub open spec fn spec_list_meta_value(head: i64, tail: i64) -> Seq<u8> {
    be_bytes(spec_idx_word(head) as int, 8) + be_bytes(spec_idx_word(tail) as int, 8)
}

/// Encodes a list's bounds for its metadata key.
pub fn encode_list_meta(head: i64, tail: i64) -> (r: Vec<u8>)
    ensures
        r@ == spec_list_meta_value(head, tail),
{
    let mut v: Vec<u8> = Vec::new();
    push_be_bytes(&mut v, idx_word(head), 8);
    push_be_bytes(&mut v, idx_word(tail), 8);
    proof {
        assert(v@ =~= spec_list_meta_value(head, tail));
    }
    v
}

/// The numeric value a big-endian byte string stands for.
pub open spec fn spec_be_val(s: Seq<u8>) -> int
    decreases s.len(),
{
    if s.len() == 0 {
        0
    } else {
        spec_be_val(s.drop_last()) * 256 + s.last()
    }
}

/// Reading back an encoding gives the encoded number.
pub proof fn lemma_be_val_of_be_bytes(x: int, n: nat)
    requires
        0 <= x < crate::encoding::pow256(n),
    ensures
        spec_be_val(be_bytes(x, n)) == x,
    decreases n,
{
    if n == 0 {
    } else {
        let m = (n - 1) as nat;
        crate::encoding::lemma_be_bytes_len(x / 256, m);
        assert(be_bytes(x, n).drop_last() =~= be_bytes(x / 256, m));
        crate::encoding::lemma_div256_bound(x, n);
        lemma_be_val_of_be_bytes(x / 256, m);
        vstd::arithmetic::div_mod::lemma_fundamental_div_mod(x, 256);
    }
}

/// Reads an 8-byte big-endian number.
pub fn read_be_u64(s: &[u8], at: usize) -> (r: u64)
    requires
        at + 8 <= s@.len(),
    ensures
        r as int == spec_be_val(s@.subrange(at as int, at as int + 8)),
{
    let n = s.len();
    let mut acc: u64 = 0;
    let mut i: usize = 0;
    while i < 8
        invariant
            i <= 8,
            at + 8 <= n,
            n == s@.len(),
            acc as int == spec_be_val(s@.subrange(at as int, at as int + i)),
            acc < crate::encoding::pow256(i as nat),
        decreases 8 - i,
    {
        proof {
            lemma_pow256_step((i + 1) as nat);
            lemma_pow256_le((i + 1) as nat, 8nat);
            assert(s@.subrange(at as int, at as int + i + 1).drop_last() =~= s@.subrange(
                at as int,
                at as int + i,
            ));
        }
        acc = acc * 256 + (s[at + i] as u64);
        i = i + 1;
    }
    proof {
        assert(s@.subrange(at as int, at as int + 8) =~= s@.subrange(at as int, at as int + 8));
    }
    acc
}

proof fn lemma_pow256_step(n: nat)
    requires
        n >= 1,
    ensures
        crate::encoding::pow256(n) == 256 * crate::encoding::pow256((n - 1) as nat),
        crate::encoding::pow256((n - 1) as nat) <= crate::encoding::pow256(n),
        crate::encoding::pow256(8) == 0x1_0000_0000_0000_0000,
{
    lemma_pow256_pos((n - 1) as nat);
    assert(crate::encoding::pow256(8) == 0x1_0000_0000_0000_0000) by {
        reveal_with_fuel(crate::encoding::pow256, 9);
    }
}

proof fn lemma_pow256_pos(n: nat)
    ensures
        crate::encoding::pow256(n) >= 1,
    decreases n,
{
    if n > 0 {
        lemma_pow256_pos((n - 1) as nat);
    }
}

proof fn lemma_pow256_le(a: nat, b: nat)
    requires
        a <= b,
    ensures
        crate::encoding::pow256(a) <= crate::encoding::pow256(b),
    decreases b,
{
    if a < b {
        lemma_pow256_le(a, (b - 1) as nat);
        lemma_pow256_pos((b - 1) as nat);
    }
}

/// The position a stored word stands for: the inverse of the
/// order-preserving move into unsigned range.
pub fn word_idx(w: u64) -> (r: i64)
    ensures
        spec_idx_word(r) == w,
{
    if w >= 0x8000_0000_0000_0000u64 {
        (w - 0x8000_0000_0000_0000u64) as i64
    } else {
        ((w as i64) - 0x7fff_ffff_ffff_ffffi64) - 1
    }
}

/// Decodes a stored list bounds value. Every 16-byte value decodes; any
/// other length is malformed.
pub fn decode_list_meta(bytes: &[u8]) -> (r: Option<(i64, i64)>)
    ensures
        r is Some <==> bytes@.len() == 16,
        r matches Some((h, t)) ==> bytes@ == spec_list_meta_value(h, t),
{
    if bytes.len() != 16 {
        return None;
    }
    let hw = read_be_u64(bytes, 0);
    let tw = read_be_u64(bytes, 8);
    let h = word_idx(hw);
    let t = word_idx(tw);
    proof {
        lemma_pow256_step(8nat);
        lemma_be_val_injective_8(bytes@.subrange(0, 8), hw);
        lemma_be_val_injective_8(bytes@.subrange(8, 16), tw);
        assert(bytes@ =~= bytes@.subrange(0, 8) + bytes@.subrange(8, 16));
    }
    Some((h, t))
}

/// An 8-byte string whose value is x is the encoding of x.
proof fn lemma_be_val_injective_8(s: Seq<u8>, x: u64)
    requires
        s.len() == 8,
        x as int == spec_be_val(s),
    ensures
        s == be_bytes(x as int, 8),
    decreases s.len(),
{
    lemma_be_val_bytes_roundtrip(s);
}

/// Every byte string is the encoding of its value.
proof fn lemma_be_val_bytes_roundtrip(s: Seq<u8>)
    ensures
        0 <= spec_be_val(s) < crate::encoding::pow256(s.len()),
        be_bytes(spec_be_val(s), s.len()) == s,
    decreases s.len(),
{
    if s.len() == 0 {
        assert(be_bytes(0, 0) =~= s);
    } else {
        let p = s.drop_last();
        lemma_be_val_bytes_roundtrip(p);
        let v = spec_be_val(s);
        let pv = spec_be_val(p);
        assert(v == pv * 256 + s.last());
        vstd::arithmetic::div_mod::lemma_fundamental_div_mod_converse_mod(v, 256, pv, s.last() as int);
        vstd::arithmetic::div_mod::lemma_fundamental_div_mod_converse_div(v, 256, pv, s.last() as int);
        lemma_pow256_step(s.len());
        assert(v < crate::encoding::pow256(s.len())) by (nonlinear_arith)
            requires
                v == pv * 256 + s.last(),
                s.last() < 256,
                pv < crate::encoding::pow256((s.len() - 1) as nat),
                crate::encoding::pow256(s.len()) == 256 * crate::encoding::pow256(
                    (s.len() - 1) as nat,
                ),
        ;
        assert(v >= 0) by (nonlinear_arith)
            requires
                v == pv * 256 + s.last(),
                pv >= 0,
                s.last() >= 0,
        ;
        assert(be_bytes(v, s.len()) =~= s);
    }
}

/// Whether stored bounds are ones the engine could have written.
pub open spec fn spec_meta_bounds_ok(h: i64, t: i64) -> bool {
    LIST_POS_MIN <= h <= t <= LIST_POS_MAX
}

/// What a trim writes once its reads are done: nothing (absent list), or
/// the member deletions together with the bounds update.
pub enum LtrimStep {
    /// The list does not exist; the trim is complete without writes.
    Nothing,
    /// Delete these member keys, then either store the new bounds or, when
    /// nothing remains, delete the bounds key as well.
    Apply { delete_keys: Vec<Vec<u8>>, new_meta: Vec<u8>, delete_meta: bool },
}

/// Plans one trim attempt from the bounds value read inside the
/// transaction. Pure in its inputs: rerunning it over freshly read bounds
/// after a conflict plans exactly what a single run would have planned, so
/// a retried trim is observably one trim.
pub fn plan_ltrim(
    enc: &KeyEncoder,
    key: &[u8],
    meta: Option<&Vec<u8>>,
    start: i64,
    end: i64,
) -> (r: Result<LtrimStep, EngineError>)
    requires
        key@.len() < 0x1_0000_0000,
    ensures
        meta is None ==> r == Ok::<LtrimStep, EngineError>(LtrimStep::Nothing),
        match meta {
            Some(b) => {
                if exists|h: i64, t: i64|
                    b@ == spec_list_meta_value(h, t) && spec_meta_bounds_ok(h, t) {
                    {
                        let (h, t) = choose|h: i64, t: i64|
                            b@ == spec_list_meta_value(h, t) && spec_meta_bounds_ok(h, t);
                        let (lo, hi) = spec_trim_bounds(t - h, start as int, end as int);
                        match r {
                            Ok(step) => match step {
                                LtrimStep::Apply { delete_keys, new_meta, delete_meta } => {
                                    &&& delete_keys.deep_view() == spec_trim_delete_keys(
                                        enc.instance_id,
                                        key@,
                                        h as int,
                                        t as int,
                                        h + lo,
                                        h + hi,
                                    )
                                    &&& new_meta@ == spec_list_meta_value(
                                        (h + lo) as i64,
                                        (h + hi) as i64,
                                    )
                                    &&& delete_meta == (lo == hi)
                                },
                                _ => false,
                            },
                            Err(_) => false,
                        }
                    }
                } else {
                    r == Err::<LtrimStep, EngineError>(EngineError::Backend)
                }
            },
            None => true,
        },
{
    match meta {
        None => Ok(LtrimStep::Nothing),
        Some(b) => {
            match decode_list_meta(b.as_slice()) {
                None => {
                    proof {
                        assert forall|h: i64, t: i64| b@ != spec_list_meta_value(h, t) by {
                            lemma_meta_value_len(h, t);
                        }
                    }
                    Err(EngineError::Backend)
                },
                Some((h, t)) => {
                    if !(LIST_POS_MIN <= h && h <= t && t <= LIST_POS_MAX) {
                        proof {
                            lemma_meta_value_unique(b@, h, t);
                        }
                        return Err(EngineError::Backend);
                    }
                    proof {
                        lemma_meta_value_unique(b@, h, t);
                    }
                    let plan = compute_trim(h, t, start, end);
                    let delete_keys = trim_delete_keys(enc, key, h, t, &plan);
                    let new_meta = encode_list_meta(plan.new_head, plan.new_tail);
                    let delete_meta = plan.new_head == plan.new_tail;
                    Ok(LtrimStep::Apply { delete_keys, new_meta, delete_meta })
                },
            }
        },
    }
}

proof fn lemma_meta_value_len(h: i64, t: i64)
    ensures
        spec_list_meta_value(h, t).len() == 16,
{
    crate::encoding::lemma_be_bytes_len(spec_idx_word(h) as int, 8);
    crate::encoding::lemma_be_bytes_len(spec_idx_word(t) as int, 8);
}

/// Stored bounds values are unambiguous: one byte string decodes to one
/// bounds pair.
proof fn lemma_meta_value_unique(b: Seq<u8>, h: i64, t: i64)
    requires
        b == spec_list_meta_value(h, t),
    ensures
        forall|h2: i64, t2: i64|
            b == spec_list_meta_value(h2, t2) ==> h2 == h && t2 == t,
{
    assert forall|h2: i64, t2: i64| b == spec_list_meta_value(h2, t2) implies h2 == h && t2 == t by {
        crate::encoding::lemma_be_bytes_len(spec_idx_word(h) as int, 8);
        crate::encoding::lemma_be_bytes_len(spec_idx_word(h2) as int, 8);
        crate::encoding::lemma_concat_parts(
            be_bytes(spec_idx_word(h) as int, 8),
            be_bytes(spec_idx_word(t) as int, 8),
            be_bytes(spec_idx_word(h2) as int, 8),
            be_bytes(spec_idx_word(t2) as int, 8),
        );
        lemma_pow256_step(8nat);
        crate::encoding::lemma_be_bytes_injective(
            spec_idx_word(h) as int,
            spec_idx_word(h2) as int,
            8,
        );
        crate::encoding::lemma_be_bytes_injective(
            spec_idx_word(t) as int,
            spec_idx_word(t2) as int,
            8,
        );
    }
}

/// The outcome of one optimistic attempt as the backend reports it: only a
/// conflict leaves room for a retry.
pub open spec fn spec_run_trim<T>(s: Seq<T>, start: int, end: int, conflicts: Seq<bool>) -> (
    Seq<T>,
    bool,
)
    decreases conflicts.len(),
{
    if conflicts.len() == 0 {
        (s, false)
    } else if conflicts[0] {
        spec_run_trim(s, start, end, conflicts.drop_first())
    } else {
        (spec_ltrim(s, start, end), true)
    }
}

/// Atomicity of a retried trim: however many conflict-aborted attempts come
/// first, a run that ends in a commit leaves exactly the state of one
/// successful trim, and a run that gives up leaves the list untouched — no
/// double deletion, no missing deletion, no partial application.
pub proof fn lemma_trim_atomicity<T>(s: Seq<T>, start: int, end: int, conflicts: Seq<bool>)
    ensures
        spec_run_trim(s, start, end, conflicts).1 ==> spec_run_trim(s, start, end, conflicts).0
            == spec_ltrim(s, start, end),
        !spec_run_trim(s, start, end, conflicts).1 ==> spec_run_trim(s, start, end, conflicts).0
            == s,
    decreases conflicts.len(),
{
    if conflicts.len() > 0 && conflicts[0] {
        lemma_trim_atomicity(s, start, end, conflicts.drop_first());
    }
}

} // verus!
