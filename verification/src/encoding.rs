use vstd::prelude::*;
use vstd::arithmetic::div_mod::{
    lemma_div_is_ordered, lemma_fundamental_div_mod, lemma_mod_bound,
};

verus! {

broadcast use vstd::seq::group_seq_axioms;

/// Collection kinds of the structure server. The tag byte keeps the backend
/// key ranges of the kinds disjoint, so no two commands may alias one logical
/// key across kinds.
#[derive(Clone, Copy, Debug, PartialEq, Eq, Structural)]
pub enum CollectionType {
    StringType,
    ListType,
    HashType,
    SetType,
    ZsetType,
}

pub open spec fn spec_tag(t: CollectionType) -> u8 {
    match t {
        CollectionType::StringType => 0,
        CollectionType::ListType => 1,
        CollectionType::HashType => 2,
        CollectionType::SetType => 3,
        CollectionType::ZsetType => 4,
    }
}

pub fn tag_byte(t: CollectionType) -> (r: u8)
    ensures
        r == spec_tag(t),
{
    match t {
        CollectionType::StringType => 0,
        CollectionType::ListType => 1,
        CollectionType::HashType => 2,
        CollectionType::SetType => 3,
        CollectionType::ZsetType => 4,
    }
}

pub proof fn lemma_tag_injective(t1: CollectionType, t2: CollectionType)
    requires
        spec_tag(t1) == spec_tag(t2),
    ensures
        t1 == t2,
{
}

/// 256 to the power n: the number of byte strings of length n.
pub open spec fn pow256(n: nat) -> int
    decreases n,
{
    if n == 0 {
        1
    } else {
        256 * pow256((n - 1) as nat)
    }
}

/// Fixed-width big-endian bytes of a non-negative integer: the most
/// significant byte first, so that byte-wise comparison of equal-width
/// encodings follows numeric order.
pub open spec fn be_bytes(x: int, n: nat) -> Seq<u8>
    decreases n,
{
    if n == 0 {
        Seq::empty()
    } else {
        be_bytes(x / 256, (n - 1) as nat).push((x % 256) as u8)
    }
}

pub proof fn lemma_be_bytes_len(x: int, n: nat)
    ensures
        be_bytes(x, n).len() == n,
    decreases n,
{
    if n > 0 {
        lemma_be_bytes_len(x / 256, (n - 1) as nat);
    }
}

/// Equality on a prefix: the first i bytes of a and b agree.
pub open spec fn bytes_eq_upto(a: Seq<u8>, b: Seq<u8>, i: int) -> bool {
    forall|k: int| 0 <= k < i ==> a[k] == b[k]
}

/// a is below b at position i: they agree before i and either a ends there
/// while b goes on, or the bytes at i order them.
pub open spec fn lex_lt_at(a: Seq<u8>, b: Seq<u8>, i: int) -> bool {
    &&& 0 <= i <= a.len()
    &&& i <= b.len()
    &&& bytes_eq_upto(a, b, i)
    &&& if i == a.len() {
        i < b.len()
    } else {
        i < b.len() && a[i] < b[i]
    }
}

/// Strict byte-wise order on byte strings, as the backend compares keys when
/// it serves range scans.
pub open spec fn lex_lt(a: Seq<u8>, b: Seq<u8>) -> bool {
    exists|i: int| lex_lt_at(a, b, i)
}

pub open spec fn lex_le(a: Seq<u8>, b: Seq<u8>) -> bool {
    lex_lt(a, b) || a == b
}

/// y lies within the closed byte-range [lo, hi] that a scan visits.
pub open spec fn lex_between(lo: Seq<u8>, y: Seq<u8>, hi: Seq<u8>) -> bool {
    lex_le(lo, y) && lex_le(y, hi)
}

/// Byte-wise order is strict: it never holds both ways, and never on equal
/// strings.
pub proof fn lemma_lex_lt_asym(a: Seq<u8>, b: Seq<u8>)
    requires
        lex_lt(a, b),
    ensures
        !lex_lt(b, a),
        a != b,
{
    let i = choose|i: int| lex_lt_at(a, b, i);
    if a == b {
        assert(!(if i == a.len() {
            i < b.len()
        } else {
            i < b.len() && a[i] < b[i]
        }));
    }
    if lex_lt(b, a) {
        let j = choose|j: int| lex_lt_at(b, a, j);
        if i < j {
            assert(b[i] == a[i]);
            assert(i < a.len() && i < b.len());
            assert(a[i] < b[i]);
        } else if j < i {
            assert(a[j] == b[j]);
            assert(j < a.len() && j < b.len());
            assert(b[j] < a[j]);
        } else {
            if i == a.len() {
                assert(j <= a.len());
                assert(i < b.len());
                assert(!(j == b.len()));
                assert(b[j] < a[j]);
                assert(j < a.len());
            } else {
                assert(a[i] < b[i] && b[i] < a[i]);
            }
        }
    }
}

/// Either the first n bytes agree, or some position below n carries the
/// first disagreement.
proof fn lemma_prefix_or_first_diff(y: Seq<u8>, p: Seq<u8>, n: int)
    requires
        0 <= n <= y.len(),
        n <= p.len(),
    ensures
        bytes_eq_upto(y, p, n) || exists|k: int|
            0 <= k < n && #[trigger] bytes_eq_upto(y, p, k) && y[k] != p[k],
    decreases n,
{
    if n > 0 {
        lemma_prefix_or_first_diff(y, p, n - 1);
        if bytes_eq_upto(y, p, n - 1) && y[n - 1] != p[n - 1] {
            assert(bytes_eq_upto(y, p, n - 1) && y[n - 1] != p[n - 1]);
        }
    }
}

/// A byte string that does not start with the shared prefix p lies outside
/// every scan range [p + a, p + b]: whatever its first divergence from p,
/// it sorts below the lower bound or above the upper one.
pub proof fn lemma_outside_shared_prefix(p: Seq<u8>, a: Seq<u8>, b: Seq<u8>, y: Seq<u8>)
    requires
        !(y.len() >= p.len() && bytes_eq_upto(y, p, p.len() as int)),
    ensures
        !lex_between(p + a, y, p + b),
{
    let lo = p + a;
    let hi = p + b;
    let m = if y.len() < p.len() {
        y.len() as int
    } else {
        p.len() as int
    };
    lemma_prefix_or_first_diff(y, p, m);
    if exists|k: int| 0 <= k < m && #[trigger] bytes_eq_upto(y, p, k) && y[k] != p[k] {
        let k = choose|k: int| 0 <= k < m && #[trigger] bytes_eq_upto(y, p, k) && y[k] != p[k];
        assert forall|j: int| 0 <= j < k implies y[j] == lo[j] && y[j] == hi[j] by {
            assert(lo[j] == p[j] && hi[j] == p[j]);
        }
        if y[k] < p[k] {
            assert(lo[k] == p[k]);
            assert(lex_lt_at(y, lo, k));
            lemma_lex_lt_asym(y, lo);
        } else {
            assert(hi[k] == p[k]);
            assert(lex_lt_at(hi, y, k));
            lemma_lex_lt_asym(hi, y);
        }
    } else {
        // y agrees with p as far as it reaches, so it is a proper prefix
        assert(y.len() < p.len());
        assert forall|j: int| 0 <= j < y.len() implies y[j] == lo[j] by {
            assert(lo[j] == p[j]);
        }
        assert(lex_lt_at(y, lo, y.len() as int));
        lemma_lex_lt_asym(y, lo);
    }
}

pub proof fn lemma_div256_bound(x: int, n: nat)
    requires
        n > 0,
        0 <= x < pow256(n),
    ensures
        0 <= x / 256 < pow256((n - 1) as nat),
{
    lemma_fundamental_div_mod(x, 256);
    lemma_mod_bound(x, 256);
    lemma_div_is_ordered(0, x, 256);
    if x / 256 >= pow256((n - 1) as nat) {
        assert(256 * (x / 256) >= 256 * pow256((n - 1) as nat));
        assert(false);
    }
}

/// Distinct numbers of the same width have distinct big-endian encodings.
pub proof fn lemma_be_bytes_injective(x: int, y: int, n: nat)
    requires
        0 <= x < pow256(n),
        0 <= y < pow256(n),
        be_bytes(x, n) == be_bytes(y, n),
    ensures
        x == y,
    decreases n,
{
    if n == 0 {
        assert(x == 0 && y == 0);
    } else {
        let m = (n - 1) as nat;
        let a = be_bytes(x / 256, m);
        let b = be_bytes(y / 256, m);
        lemma_be_bytes_len(x / 256, m);
        lemma_be_bytes_len(y / 256, m);
        lemma_mod_bound(x, 256);
        lemma_mod_bound(y, 256);
        assert(be_bytes(x, n).last() == (x % 256) as u8);
        assert(be_bytes(y, n).last() == (y % 256) as u8);
        assert(x % 256 == y % 256);
        assert forall|k: int| 0 <= k < m implies a[k] == b[k] by {
            assert(a[k] == be_bytes(x, n)[k]);
            assert(b[k] == be_bytes(y, n)[k]);
        }
        assert(a =~= b);
        lemma_div256_bound(x, n);
        lemma_div256_bound(y, n);
        lemma_be_bytes_injective(x / 256, y / 256, m);
        lemma_fundamental_div_mod(x, 256);
        lemma_fundamental_div_mod(y, 256);
    }
}

/// Numeric order becomes byte-wise order under equal-width big-endian
/// encoding.
pub proof fn lemma_be_bytes_order(x: int, y: int, n: nat)
    requires
        0 <= x < y < pow256(n),
    ensures
        lex_lt(be_bytes(x, n), be_bytes(y, n)),
    decreases n,
{
    let m = (n - 1) as nat;
    let a = be_bytes(x / 256, m);
    let b = be_bytes(y / 256, m);
    let s = be_bytes(x, n);
    let t = be_bytes(y, n);
    lemma_be_bytes_len(x / 256, m);
    lemma_be_bytes_len(y / 256, m);
    lemma_be_bytes_len(x, n);
    lemma_be_bytes_len(y, n);
    lemma_div_is_ordered(x, y, 256);
    lemma_fundamental_div_mod(x, 256);
    lemma_fundamental_div_mod(y, 256);
    lemma_mod_bound(x, 256);
    lemma_mod_bound(y, 256);
    if x / 256 == y / 256 {
        assert(x % 256 < y % 256);
        assert(s[m as int] == (x % 256) as u8);
        assert(t[m as int] == (y % 256) as u8);
        assert forall|k: int| 0 <= k < m implies s[k] == t[k] by {
            assert(s[k] == a[k]);
            assert(t[k] == b[k]);
        }
        assert(bytes_eq_upto(s, t, m as int));
        assert(lex_lt_at(s, t, m as int));
    } else {
        lemma_div256_bound(x, n);
        lemma_div256_bound(y, n);
        lemma_be_bytes_order(x / 256, y / 256, m);
        let i = choose|i: int| lex_lt_at(a, b, i);
        assert(i < m);
        assert forall|k: int| 0 <= k < i implies s[k] == t[k] by {
            assert(s[k] == a[k]);
            assert(t[k] == b[k]);
        }
        assert(bytes_eq_upto(s, t, i));
        assert(s[i] == a[i] && t[i] == b[i]);
        assert(lex_lt_at(s, t, i));
    }
}

/// Byte-wise order is kept under a shared prefix.
pub proof fn lemma_lex_lt_append(p: Seq<u8>, a: Seq<u8>, b: Seq<u8>)
    requires
        lex_lt(a, b),
    ensures
        lex_lt(p + a, p + b),
{
    let i = choose|i: int| lex_lt_at(a, b, i);
    let j = p.len() + i;
    assert(bytes_eq_upto(p + a, p + b, j)) by {
        assert forall|k: int| 0 <= k < j implies (p + a)[k] == (p + b)[k] by {
            if k < p.len() {
                assert((p + a)[k] == p[k] && (p + b)[k] == p[k]);
            } else {
                assert((p + a)[k] == a[k - p.len()] && (p + b)[k] == b[k - p.len()]);
            }
        }
    }
    assert(lex_lt_at(p + a, p + b, j));
}

/// Splitting a concatenation whose heads have one length recovers the parts.
pub proof fn lemma_concat_parts(h1: Seq<u8>, t1: Seq<u8>, h2: Seq<u8>, t2: Seq<u8>)
    requires
        h1.len() == h2.len(),
        h1 + t1 == h2 + t2,
    ensures
        h1 == h2,
        t1 == t2,
{
    assert((h1 + t1).len() == (h2 + t2).len());
    assert((h1 + t1).len() == h1.len() + t1.len());
    assert((h2 + t2).len() == h2.len() + t2.len());
    assert(t1.len() == t2.len());
    assert forall|k: int| 0 <= k < h1.len() implies h1[k] == h2[k] by {
        assert(h1[k] == (h1 + t1)[k]);
        assert(h2[k] == (h2 + t2)[k]);
    }
    assert(h1 =~= h2);
    assert forall|k: int| 0 <= k < t1.len() implies t1[k] == t2[k] by {
        assert(t1[k] == (h1 + t1)[h1.len() + k]);
        assert(t2[k] == (h2 + t2)[h2.len() + k]);
    }
    assert(t1 =~= t2);
}

/// The byte that separates a collection's metadata keys from its member keys.
pub open spec fn spec_meta_mark() -> u8 {
    0
}

pub open spec fn spec_member_mark() -> u8 {
    1
}

/// Shared head of every backend key of one logical collection: instance id,
/// kind tag, then the logical key with its width, so that no logical key is a
/// framing prefix of another.
pub open spec fn spec_key_prefix(instance_id: u64, t: CollectionType, key: Seq<u8>) -> Seq<u8> {
    be_bytes(instance_id as int, 8) + seq![spec_tag(t)] + be_bytes(key.len() as int, 4) + key
}

/// Backend key of one of the collection's metadata slots.
pub open spec fn spec_meta_key(instance_id: u64, t: CollectionType, key: Seq<u8>, slot: u16) -> Seq<
    u8,
> {
    spec_key_prefix(instance_id, t, key) + seq![spec_meta_mark()] + be_bytes(slot as int, 2)
}

/// Backend key of one member (hash field, set member, list node) of the
/// collection.
pub open spec fn spec_data_key(
    instance_id: u64,
    t: CollectionType,
    key: Seq<u8>,
    member: Seq<u8>,
) -> Seq<u8> {
    spec_key_prefix(instance_id, t, key) + seq![spec_member_mark()] + member
}

/// A signed list index moved into unsigned range: order-preserving, so that
/// the big-endian member encoding keeps list order under byte-wise
/// comparison.
pub open spec fn spec_idx_word(idx: i64) -> u64 {
    (idx + 0x8000_0000_0000_0000) as u64
}

/// Backend key of the list element at signed position idx.
pub open spec fn spec_list_elem_key(instance_id: u64, key: Seq<u8>, idx: i64) -> Seq<u8> {
    spec_data_key(instance_id, CollectionType::ListType, key, be_bytes(spec_idx_word(idx) as int, 8))
}

/// The key encoder: a pure, deterministic map from logical collection keys to
/// canonical backend byte-keys. It holds no hidden state; the instance id is
/// fixed at construction and scopes every encoded key. Logical keys must fit
/// the four-byte width field of the framing, so that distinct triples never
/// collide.
pub struct KeyEncoder {
    pub instance_id: u64,
}

impl KeyEncoder {
    pub fn new() -> (r: KeyEncoder)
        ensures
            r.instance_id == 0,
    {
        KeyEncoder { instance_id: 0 }
    }

    pub fn set_instance_id(&mut self, id: u64)
        ensures
            final(self).instance_id == id,
    {
        self.instance_id = id;
    }

    pub fn get_instance_id(&self) -> (r: u64)
        ensures
            r == self.instance_id,
    {
        self.instance_id
    }

    pub fn encode_meta_key(&self, t: CollectionType, key: &[u8], slot: u16) -> (r: Vec<u8>)
        requires
            key@.len() < 0x1_0000_0000,
        ensures
            r@ == spec_meta_key(self.instance_id, t, key@, slot),
    {
        let mut v: Vec<u8> = Vec::new();
        push_be_bytes(&mut v, self.instance_id, 8);
        v.push(tag_byte(t));
        push_be_bytes(&mut v, key.len() as u64, 4);
        push_bytes(&mut v, key);
        v.push(0);
        push_be_bytes(&mut v, slot as u64, 2);
        proof {
            assert(v@ =~= spec_meta_key(self.instance_id, t, key@, slot));
        }
        v
    }

    pub fn encode_data_key(&self, t: CollectionType, key: &[u8], member: &[u8]) -> (r: Vec<u8>)
        requires
            key@.len() < 0x1_0000_0000,
        ensures
            r@ == spec_data_key(self.instance_id, t, key@, member@),
    {
        let mut v: Vec<u8> = Vec::new();
        push_be_bytes(&mut v, self.instance_id, 8);
        v.push(tag_byte(t));
        push_be_bytes(&mut v, key.len() as u64, 4);
        push_bytes(&mut v, key);
        v.push(1);
        push_bytes(&mut v, member);
        proof {
            assert(v@ =~= spec_data_key(self.instance_id, t, key@, member@));
        }
        v
    }

    pub fn encode_list_elem_key(&self, key: &[u8], idx: i64) -> (r: Vec<u8>)
        requires
            key@.len() < 0x1_0000_0000,
        ensures
            r@ == spec_list_elem_key(self.instance_id, key@, idx),
    {
        let word = idx_word(idx);
        let mut v: Vec<u8> = Vec::new();
        push_be_bytes(&mut v, self.instance_id, 8);
        v.push(tag_byte(CollectionType::ListType));
        push_be_bytes(&mut v, key.len() as u64, 4);
        push_bytes(&mut v, key);
        v.push(1);
        push_be_bytes(&mut v, word, 8);
        proof {
            assert(v@ =~= spec_list_elem_key(self.instance_id, key@, idx));
        }
        v
    }
}

/// The order-preserving move of a signed index into unsigned range.
pub fn idx_word(idx: i64) -> (r: u64)
    ensures
        r == spec_idx_word(idx),
{
    if idx >= 0 {
        (idx as u64) + 0x8000_0000_0000_0000u64
    } else {
        ((idx + 0x7fff_ffff_ffff_ffffi64) + 1) as u64
    }
}

/// Appends the n-byte big-endian encoding of x.
pub fn push_be_bytes(v: &mut Vec<u8>, x: u64, n: usize)
    ensures
        final(v)@ == old(v)@ + be_bytes(x as int, n as nat),
    decreases n,
{
    if n == 0 {
        proof {
            assert(v@ =~= old(v)@ + be_bytes(x as int, 0));
        }
    } else {
        push_be_bytes(v, x / 256, n - 1);
        v.push((x % 256) as u8);
        proof {
            assert(v@ =~= old(v)@ + be_bytes(x as int, n as nat));
        }
    }
}

/// Appends a byte slice.
pub fn push_bytes(v: &mut Vec<u8>, s: &[u8])
    ensures
        final(v)@ == old(v)@ + s@,
{
    let mut i: usize = 0;
    while i < s.len()
        invariant
            i <= s.len(),
            v@ == old(v)@ + s@.subrange(0, i as int),
        decreases s.len() - i,
    {
        let b = s[i];
        v.push(b);
        i = i + 1;
        proof {
            assert(v@ =~= old(v)@ + s@.subrange(0, i as int));
        }
    }
    proof {
        assert(s@.subrange(0, s@.len() as int) =~= s@);
    }
}

/// Injectivity of the key encoding: distinct (kind, key, member) triples
/// never collide, provided both logical keys fit the four-byte width field.
pub proof fn lemma_data_key_injective(
    instance_id: u64,
    t1: CollectionType,
    k1: Seq<u8>,
    m1: Seq<u8>,
    t2: CollectionType,
    k2: Seq<u8>,
    m2: Seq<u8>,
)
    requires
        k1.len() < pow256(4),
        k2.len() < pow256(4),
        !(t1 == t2 && k1 == k2 && m1 == m2),
    ensures
        spec_data_key(instance_id, t1, k1, m1) != spec_data_key(instance_id, t2, k2, m2),
{
    if spec_data_key(instance_id, t1, k1, m1) == spec_data_key(instance_id, t2, k2, m2) {
        let id8 = be_bytes(instance_id as int, 8);
        let h1 = id8 + seq![spec_tag(t1)] + be_bytes(k1.len() as int, 4);
        let h2 = id8 + seq![spec_tag(t2)] + be_bytes(k2.len() as int, 4);
        let r1 = k1 + seq![spec_member_mark()] + m1;
        let r2 = k2 + seq![spec_member_mark()] + m2;
        lemma_be_bytes_len(instance_id as int, 8);
        lemma_be_bytes_len(k1.len() as int, 4);
        lemma_be_bytes_len(k2.len() as int, 4);
        assert(spec_data_key(instance_id, t1, k1, m1) =~= h1 + r1);
        assert(spec_data_key(instance_id, t2, k2, m2) =~= h2 + r2);
        lemma_concat_parts(h1, r1, h2, r2);
        // heads equal: recover tag and key length
        lemma_concat_parts(id8 + seq![spec_tag(t1)], be_bytes(k1.len() as int, 4),
            id8 + seq![spec_tag(t2)], be_bytes(k2.len() as int, 4));
        assert(spec_tag(t1) == spec_tag(t2)) by {
            assert((id8 + seq![spec_tag(t1)]).last() == spec_tag(t1));
            assert((id8 + seq![spec_tag(t2)]).last() == spec_tag(t2));
        }
        lemma_tag_injective(t1, t2);
        lemma_be_bytes_injective(k1.len() as int, k2.len() as int, 4);
        // tails equal with equal key widths: recover key and member
        assert(k1 + (seq![spec_member_mark()] + m1) =~= r1);
        assert(k2 + (seq![spec_member_mark()] + m2) =~= r2);
        lemma_concat_parts(k1, seq![spec_member_mark()] + m1, k2, seq![spec_member_mark()] + m2);
        lemma_concat_parts(seq![spec_member_mark()], m1, seq![spec_member_mark()], m2);
        assert(false);
    }
}

/// Order preservation for lists: members at signed indices i < j encode to
/// backend keys in the same byte-wise order, so range scans see list order.
pub proof fn lemma_list_key_order(instance_id: u64, key: Seq<u8>, i: i64, j: i64)
    requires
        i < j,
    ensures
        lex_lt(spec_list_elem_key(instance_id, key, i), spec_list_elem_key(instance_id, key, j)),
{
    let p = spec_key_prefix(instance_id, CollectionType::ListType, key) + seq![spec_member_mark()];
    let wi = spec_idx_word(i) as int;
    let wj = spec_idx_word(j) as int;
    assert(wi < wj);
    assert(pow256(8) == 0x1_0000_0000_0000_0000) by {
        reveal_with_fuel(pow256, 9);
    }
    lemma_be_bytes_order(wi, wj, 8);
    lemma_lex_lt_append(p, be_bytes(wi, 8), be_bytes(wj, 8));
    assert(spec_list_elem_key(instance_id, key, i) =~= p + be_bytes(wi, 8));
    assert(spec_list_elem_key(instance_id, key, j) =~= p + be_bytes(wj, 8));
}

/// A collection's metadata keys and member keys never collide: the marker
/// byte after the framed logical key separates them.
pub proof fn lemma_meta_data_disjoint(
    instance_id: u64,
    t1: CollectionType,
    k1: Seq<u8>,
    slot: u16,
    t2: CollectionType,
    k2: Seq<u8>,
    m2: Seq<u8>,
)
    requires
        k1.len() < pow256(4),
        k2.len() < pow256(4),
    ensures
        spec_meta_key(instance_id, t1, k1, slot) != spec_data_key(instance_id, t2, k2, m2),
{
    if spec_meta_key(instance_id, t1, k1, slot) == spec_data_key(instance_id, t2, k2, m2) {
        let id8 = be_bytes(instance_id as int, 8);
        let h1 = id8 + seq![spec_tag(t1)] + be_bytes(k1.len() as int, 4);
        let h2 = id8 + seq![spec_tag(t2)] + be_bytes(k2.len() as int, 4);
        let r1 = k1 + seq![spec_meta_mark()] + be_bytes(slot as int, 2);
        let r2 = k2 + seq![spec_member_mark()] + m2;
        lemma_be_bytes_len(instance_id as int, 8);
        lemma_be_bytes_len(k1.len() as int, 4);
        lemma_be_bytes_len(k2.len() as int, 4);
        assert(spec_meta_key(instance_id, t1, k1, slot) =~= h1 + r1);
        assert(spec_data_key(instance_id, t2, k2, m2) =~= h2 + r2);
        lemma_concat_parts(h1, r1, h2, r2);
        lemma_concat_parts(id8 + seq![spec_tag(t1)], be_bytes(k1.len() as int, 4),
            id8 + seq![spec_tag(t2)], be_bytes(k2.len() as int, 4));
        lemma_be_bytes_injective(k1.len() as int, k2.len() as int, 4);
        assert(k1 + (seq![spec_meta_mark()] + be_bytes(slot as int, 2)) =~= r1);
        assert(k2 + (seq![spec_member_mark()] + m2) =~= r2);
        lemma_concat_parts(k1, seq![spec_meta_mark()] + be_bytes(slot as int, 2), k2,
            seq![spec_member_mark()] + m2);
        assert((seq![spec_meta_mark()] + be_bytes(slot as int, 2))[0] == spec_meta_mark());
        assert((seq![spec_member_mark()] + m2)[0] == spec_member_mark());
        assert(false);
    }
}

/// The bytes of a framed key, position by position: the kind tag at offset
/// eight, the four width bytes, the logical key, then the marker.
proof fn lemma_key_layout(id: u64, t: CollectionType, k: Seq<u8>, mark: u8, rest: Seq<u8>)
    ensures
        ({
            let w = spec_key_prefix(id, t, k) + seq![mark] + rest;
            &&& w.len() == 14 + k.len() + rest.len()
            &&& w[8] == spec_tag(t)
            &&& forall|j: int| 0 <= j < 4 ==> w[9 + j] == be_bytes(k.len() as int, 4)[j]
            &&& forall|j: int| 0 <= j < k.len() ==> w[13 + j] == k[j]
            &&& w[13 + k.len() as int] == mark
        }),
{
    let p8 = be_bytes(id as int, 8);
    let l4 = be_bytes(k.len() as int, 4);
    lemma_be_bytes_len(id as int, 8);
    lemma_be_bytes_len(k.len() as int, 4);
    let w = spec_key_prefix(id, t, k) + seq![mark] + rest;
    assert(w =~= p8 + seq![spec_tag(t)] + l4 + k + seq![mark] + rest);
    assert(w[8] == spec_tag(t));
    assert forall|j: int| 0 <= j < 4 implies w[9 + j] == l4[j] by {
        assert((p8 + seq![spec_tag(t)] + l4)[9 + j] == l4[j]);
    }
    assert forall|j: int| 0 <= j < k.len() implies w[13 + j] == k[j] by {
        assert((p8 + seq![spec_tag(t)] + l4 + k)[13 + j] == k[j]);
    }
    assert(w[13 + k.len() as int] == mark);
}

/// Every member key of a list lies within the scan range bounded by its
/// lowest and highest possible member key.
pub proof fn lemma_list_scan_bounds(id: u64, key: Seq<u8>, idx: i64)
    ensures
        lex_between(
            spec_list_elem_key(id, key, i64::MIN),
            spec_list_elem_key(id, key, idx),
            spec_list_elem_key(id, key, i64::MAX),
        ),
{
    if idx != i64::MIN {
        lemma_list_key_order(id, key, i64::MIN, idx);
    }
    if idx != i64::MAX {
        lemma_list_key_order(id, key, idx, i64::MAX);
    }
}

/// That same scan range contains no member key of any other collection:
/// with the bounds and order laws, a range scan sees exactly the list's
/// members among member keys.
pub proof fn lemma_list_scan_excludes_foreign(
    id: u64,
    k: Seq<u8>,
    t2: CollectionType,
    k2: Seq<u8>,
    m2: Seq<u8>,
)
    requires
        k.len() < pow256(4),
        k2.len() < pow256(4),
        !(t2 == CollectionType::ListType && k2 == k),
    ensures
        !lex_between(
            spec_list_elem_key(id, k, i64::MIN),
            spec_data_key(id, t2, k2, m2),
            spec_list_elem_key(id, k, i64::MAX),
        ),
{
    let p = spec_key_prefix(id, CollectionType::ListType, k) + seq![spec_member_mark()];
    let y = spec_data_key(id, t2, k2, m2);
    let wlo = be_bytes(spec_idx_word(i64::MIN) as int, 8);
    let whi = be_bytes(spec_idx_word(i64::MAX) as int, 8);
    assert(spec_list_elem_key(id, k, i64::MIN) =~= p + wlo);
    assert(spec_list_elem_key(id, k, i64::MAX) =~= p + whi);
    lemma_key_layout(id, CollectionType::ListType, k, spec_member_mark(), Seq::empty());
    assert(p =~= spec_key_prefix(id, CollectionType::ListType, k) + seq![spec_member_mark()]
        + Seq::<u8>::empty());
    lemma_key_layout(id, t2, k2, spec_member_mark(), m2);
    if y.len() >= p.len() && bytes_eq_upto(y, p, p.len() as int) {
        assert(y[8] == spec_tag(t2) && p[8] == spec_tag(CollectionType::ListType));
        lemma_tag_injective(t2, CollectionType::ListType);
        assert(be_bytes(k2.len() as int, 4) =~= be_bytes(k.len() as int, 4)) by {
            assert(forall|j: int|
                0 <= j < 4 ==> #[trigger] be_bytes(k2.len() as int, 4)[j] == y[9 + j] && be_bytes(
                    k.len() as int,
                    4,
                )[j] == p[9 + j]);
            lemma_be_bytes_len(k2.len() as int, 4);
            lemma_be_bytes_len(k.len() as int, 4);
        }
        lemma_be_bytes_injective(k2.len() as int, k.len() as int, 4);
        assert(k2 =~= k) by {
            assert(forall|j: int|
                0 <= j < k.len() ==> #[trigger] k2[j] == y[13 + j] && k[j] == p[13 + j]);
        }
        assert(false);
    }
    lemma_outside_shared_prefix(p, wlo, whi, y);
}

/// Nor does it contain any metadata key: the marker byte after the framed
/// logical key keeps every metadata slot outside the member range.
pub proof fn lemma_list_scan_excludes_meta(
    id: u64,
    k: Seq<u8>,
    t2: CollectionType,
    k2: Seq<u8>,
    slot: u16,
)
    requires
        k.len() < pow256(4),
        k2.len() < pow256(4),
    ensures
        !lex_between(
            spec_list_elem_key(id, k, i64::MIN),
            spec_meta_key(id, t2, k2, slot),
            spec_list_elem_key(id, k, i64::MAX),
        ),
{
    let p = spec_key_prefix(id, CollectionType::ListType, k) + seq![spec_member_mark()];
    let y = spec_meta_key(id, t2, k2, slot);
    let wlo = be_bytes(spec_idx_word(i64::MIN) as int, 8);
    let whi = be_bytes(spec_idx_word(i64::MAX) as int, 8);
    assert(spec_list_elem_key(id, k, i64::MIN) =~= p + wlo);
    assert(spec_list_elem_key(id, k, i64::MAX) =~= p + whi);
    lemma_key_layout(id, CollectionType::ListType, k, spec_member_mark(), Seq::empty());
    assert(p =~= spec_key_prefix(id, CollectionType::ListType, k) + seq![spec_member_mark()]
        + Seq::<u8>::empty());
    lemma_key_layout(id, t2, k2, spec_meta_mark(), be_bytes(slot as int, 2));
    if y.len() >= p.len() && bytes_eq_upto(y, p, p.len() as int) {
        assert(be_bytes(k2.len() as int, 4) =~= be_bytes(k.len() as int, 4)) by {
            assert(forall|j: int|
                0 <= j < 4 ==> #[trigger] be_bytes(k2.len() as int, 4)[j] == y[9 + j] && be_bytes(
                    k.len() as int,
                    4,
                )[j] == p[9 + j]);
            lemma_be_bytes_len(k2.len() as int, 4);
            lemma_be_bytes_len(k.len() as int, 4);
        }
        lemma_be_bytes_injective(k2.len() as int, k.len() as int, 4);
        assert(y[13 + k2.len() as int] == spec_meta_mark());
        assert(p[13 + k.len() as int] == spec_member_mark());
        assert(false);
    }
    lemma_outside_shared_prefix(p, wlo, whi, y);
}

} // verus!
