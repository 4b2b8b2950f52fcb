//! Byte-string keys and their lexicographic order.
use vstd::prelude::*;
use vstd::string::StringSliceAdditionalSpecFns;
use crate::endian::{be_less_from, lemma_be_order, u64_be_bytes, u64_to_be};

verus! {

/// `i` is a position at which `a` is decided to come before `b`: the two
/// agree before `i`, and there `a` has ended or holds the smaller byte.
pub open spec fn key_lt_at(a: Seq<u8>, b: Seq<u8>, i: int) -> bool {
    &&& 0 <= i <= a.len()
    &&& i < b.len()
    &&& forall|j: int| 0 <= j < i ==> a[j] == b[j]
    &&& (i < a.len() ==> a[i] < b[i])
}

/// Lexicographic order on byte strings: `a` comes strictly before `b`.
pub open spec fn key_lt(a: Seq<u8>, b: Seq<u8>) -> bool {
    exists|i: int| key_lt_at(a, b, i)
}

/// `p` is a prefix of `k`.
pub open spec fn is_prefix(p: Seq<u8>, k: Seq<u8>) -> bool {
    &&& p.len() <= k.len()
    &&& forall|j: int| 0 <= j < p.len() ==> k[j] == p[j]
}

/// No key comes before itself.
pub proof fn lemma_key_lt_irreflexive(a: Seq<u8>)
    ensures
        !key_lt(a, a),
{
}

/// The order is transitive.
pub proof fn lemma_key_lt_transitive(a: Seq<u8>, b: Seq<u8>, c: Seq<u8>)
    requires
        key_lt(a, b),
        key_lt(b, c),
    ensures
        key_lt(a, c),
{
    let i = choose|i: int| key_lt_at(a, b, i);
    let j = choose|j: int| key_lt_at(b, c, j);
    if i <= j {
        assert(key_lt_at(a, c, i));
    } else {
        assert(key_lt_at(a, c, j));
    }
}

/// Of two keys at most one comes before the other.
pub proof fn lemma_key_lt_asymmetric(a: Seq<u8>, b: Seq<u8>)
    requires
        key_lt(a, b),
    ensures
        !key_lt(b, a),
        a != b,
{
    if key_lt(b, a) {
        lemma_key_lt_transitive(a, b, a);
    }
    lemma_key_lt_irreflexive(a);
}

/// Two keys that agree before position `i` are equal, or one comes
/// before the other.
proof fn lemma_key_lt_total_from(a: Seq<u8>, b: Seq<u8>, i: int)
    requires
        0 <= i <= a.len(),
        i <= b.len(),
        forall|j: int| 0 <= j < i ==> a[j] == b[j],
    ensures
        a == b || key_lt(a, b) || key_lt(b, a),
    decreases a.len() - i,
{
    if i == a.len() {
        if i == b.len() {
            assert(a =~= b);
        } else {
            assert(key_lt_at(a, b, i));
        }
    } else if i == b.len() {
        assert(key_lt_at(b, a, i));
    } else if a[i] < b[i] {
        assert(key_lt_at(a, b, i));
    } else if b[i] < a[i] {
        assert(key_lt_at(b, a, i));
    } else {
        lemma_key_lt_total_from(a, b, i + 1);
    }
}

/// The order is total: two keys are equal, or one comes before the other.
pub proof fn lemma_key_lt_total(a: Seq<u8>, b: Seq<u8>)
    ensures
        a == b || key_lt(a, b) || key_lt(b, a),
{
    lemma_key_lt_total_from(a, b, 0);
}

/// The empty key comes before every other key.
pub proof fn lemma_key_lt_empty(k: Seq<u8>)
    requires
        k.len() > 0,
    ensures
        key_lt(Seq::<u8>::empty(), k),
{
    assert(key_lt_at(Seq::<u8>::empty(), k, 0));
}

/// A common prefix does not change the order of two keys.
pub proof fn lemma_key_lt_prefixed(p: Seq<u8>, a: Seq<u8>, b: Seq<u8>)
    ensures
        key_lt(p + a, p + b) <==> key_lt(a, b),
{
    let n = p.len() as int;
    if key_lt(a, b) {
        let i = choose|i: int| key_lt_at(a, b, i);
        assert(key_lt_at(p + a, p + b, n + i)) by {
            assert forall|j: int| 0 <= j < n + i implies (p + a)[j] == (p + b)[j] by {
                if j >= n {
                    assert(a[j - n] == b[j - n]);
                }
            }
        }
    }
    if key_lt(p + a, p + b) {
        let i = choose|i: int| key_lt_at(p + a, p + b, i);
        if i < n {
            assert((p + a)[i] == (p + b)[i]);
        }
        assert(key_lt_at(a, b, i - n)) by {
            assert forall|j: int| 0 <= j < i - n implies a[j] == b[j] by {
                assert((p + a)[j + n] == (p + b)[j + n]);
            }
            if i - n < a.len() {
                assert((p + a)[i] == a[i - n]);
                assert((p + b)[i] == b[i - n]);
            }
        }
    }
}

/// Concatenation determines the suffix: equal results under one prefix have
/// equal suffixes.
pub proof fn lemma_concat_injective(p: Seq<u8>, a: Seq<u8>, b: Seq<u8>)
    requires
        p + a == p + b,
    ensures
        a == b,
{
    assert((p + a).skip(p.len() as int) =~= a);
    assert((p + b).skip(p.len() as int) =~= b);
}

/// A key with the prefix `p` is `p` followed by the rest of the key.
pub proof fn lemma_prefix_split(p: Seq<u8>, k: Seq<u8>)
    requires
        is_prefix(p, k),
    ensures
        k == p + k.skip(p.len() as int),
{
    assert(k =~= p + k.skip(p.len() as int));
}

/// A key above some key of a namespace that is itself outside the namespace
/// lies above every key of the namespace.
pub proof fn lemma_beyond_prefix(p: Seq<u8>, s: Seq<u8>, k: Seq<u8>, inside: Seq<u8>)
    requires
        key_lt(p + s, k),
        !is_prefix(p, k),
        is_prefix(p, inside),
    ensures
        key_lt(inside, k),
{
    let i = choose|i: int| key_lt_at(p + s, k, i);
    if i >= p.len() {
        assert forall|j: int| 0 <= j < p.len() implies k[j] == p[j] by {
            assert((p + s)[j] == k[j]);
        }
        assert(is_prefix(p, k));
    }
    assert((p + s)[i] == p[i]);
    assert(key_lt_at(inside, k, i)) by {
        assert forall|j: int| 0 <= j < i implies inside[j] == k[j] by {
            assert((p + s)[j] == k[j]);
        }
    }
}

/// The outcome of comparing two keys.
#[derive(Clone, Copy, Debug, PartialEq, Eq)]
pub enum KeyOrder {
    Less,
    Equal,
    Greater,
}

/// Compares two byte strings lexicographically.
pub fn compare_bytes(a: &[u8], b: &[u8]) -> (o: KeyOrder)
    ensures
        o is Less <==> key_lt(a@, b@),
        o is Equal <==> a@ == b@,
        o is Greater <==> key_lt(b@, a@),
{
    let mut i: usize = 0;
    while i < a.len() && i < b.len()
        invariant
            i <= a.len(),
            i <= b.len(),
            forall|j: int| 0 <= j < i ==> a@[j] == b@[j],
        decreases a.len() - i,
    {
        if a[i] < b[i] {
            proof {
                assert(key_lt_at(a@, b@, i as int));
                lemma_key_lt_asymmetric(a@, b@);
            }
            return KeyOrder::Less;
        }
        if a[i] > b[i] {
            proof {
                assert(key_lt_at(b@, a@, i as int));
                lemma_key_lt_asymmetric(b@, a@);
            }
            return KeyOrder::Greater;
        }
        i += 1;
    }
    if i < b.len() {
        proof {
            assert(key_lt_at(a@, b@, i as int));
            lemma_key_lt_asymmetric(a@, b@);
        }
        KeyOrder::Less
    } else if i < a.len() {
        proof {
            assert(key_lt_at(b@, a@, i as int));
            lemma_key_lt_asymmetric(b@, a@);
        }
        KeyOrder::Greater
    } else {
        proof {
            assert(a@ =~= b@);
            lemma_key_lt_irreflexive(a@);
        }
        KeyOrder::Equal
    }
}

/// Tells whether `k` starts with `p`.
pub fn starts_with(k: &[u8], p: &[u8]) -> (r: bool)
    ensures
        r == is_prefix(p@, k@),
{
    if p.len() > k.len() {
        return false;
    }
    let mut i: usize = 0;
    while i < p.len()
        invariant
            i <= p.len(),
            p.len() <= k.len(),
            forall|j: int| 0 <= j < i ==> k@[j] == p@[j],
        decreases p.len() - i,
    {
        if k[i] != p[i] {
            return false;
        }
        i += 1;
    }
    true
}


/// Byte by byte from the front is how keys are ordered, so the big-endian
/// encodings of two numbers are ordered as the numbers are.
pub proof fn lemma_key_lt_be(a: u64, b: u64)
    ensures
        key_lt(u64_be_bytes(a), u64_be_bytes(b)) <==> a < b,
        u64_be_bytes(a) == u64_be_bytes(b) <==> a == b,
{
    let x = u64_be_bytes(a);
    let y = u64_be_bytes(b);
    lemma_be_order(a, b);
    reveal_with_fuel(be_less_from, 9);
    if key_lt(x, y) {
        let i = choose|i: int| key_lt_at(x, y, i);
        assert(0 <= i < 8);
        assert(be_less_from(x, y, 0));
    }
    if be_less_from(x, y, 0) {
        if x[0] < y[0] {
            assert(key_lt_at(x, y, 0));
        } else if x[1] < y[1] {
            assert(key_lt_at(x, y, 1));
        } else if x[2] < y[2] {
            assert(key_lt_at(x, y, 2));
        } else if x[3] < y[3] {
            assert(key_lt_at(x, y, 3));
        } else if x[4] < y[4] {
            assert(key_lt_at(x, y, 4));
        } else if x[5] < y[5] {
            assert(key_lt_at(x, y, 5));
        } else if x[6] < y[6] {
            assert(key_lt_at(x, y, 6));
        } else {
            assert(key_lt_at(x, y, 7));
        }
    }
}

/// A key of the ordered store: a byte string.
#[derive(Debug, PartialEq, Eq, PartialOrd, Ord)]
pub struct BaseDbKey(Vec<u8>);

impl View for BaseDbKey {
    type V = Seq<u8>;

    closed spec fn view(&self) -> Seq<u8> {
        self.0@
    }
}

impl Clone for BaseDbKey {
    fn clone(&self) -> (r: Self)
        ensures
            r@ == self@,
    {
        BaseDbKey(self.0.clone())
    }
}

impl BaseDbKey {
    /// A key made of the given bytes.
    pub fn new(key: Vec<u8>) -> (r: BaseDbKey)
        ensures
            r@ == key@,
    {
        BaseDbKey(key)
    }

    /// The bytes of the key.
    pub fn as_bytes(&self) -> (r: &[u8])
        ensures
            r@ == self@,
    {
        self.0.as_slice()
    }

    /// This key followed by `key`.
    pub fn concat(&self, key: &BaseDbKey) -> (r: BaseDbKey)
        ensures
            r@ == self@ + key@,
    {
        let mut bytes = self.0.clone();
        bytes.extend_from_slice(key.0.as_slice());
        BaseDbKey(bytes)
    }

    /// Compares this key with `other` in the order of the store.
    pub fn compare(&self, other: &BaseDbKey) -> (o: KeyOrder)
        ensures
            o is Less <==> key_lt(self@, other@),
            o is Equal <==> self@ == other@,
            o is Greater <==> key_lt(other@, self@),
    {
        compare_bytes(self.0.as_slice(), other.0.as_slice())
    }

    /// Tells whether this key lies in the namespace of `prefix`.
    pub fn has_prefix(&self, prefix: &BaseDbKey) -> (r: bool)
        ensures
            r == is_prefix(prefix@, self@),
    {
        starts_with(self.0.as_slice(), prefix.0.as_slice())
    }
}

// A key is known by its view, so each conversion states the view of its
// result in the `ensures` of `from`, and leaves `from_spec` open.
impl vstd::std_specs::convert::FromSpecImpl<u64> for BaseDbKey {
    open spec fn obeys_from_spec() -> bool {
        false
    }

    open spec fn from_spec(v: u64) -> Self {
        arbitrary()
    }
}

impl From<u64> for BaseDbKey {
    /// The key of a number: its eight bytes, most significant first, so
    /// that keys are ordered as the numbers are.
    fn from(v: u64) -> (r: BaseDbKey)
        ensures
            r@ == u64_be_bytes(v),
    {
        BaseDbKey(u64_to_be(v))
    }
}

impl<'a> vstd::std_specs::convert::FromSpecImpl<&'a [u8]> for BaseDbKey {
    open spec fn obeys_from_spec() -> bool {
        false
    }

    open spec fn from_spec(v: &'a [u8]) -> Self {
        arbitrary()
    }
}

impl<'a> From<&'a [u8]> for BaseDbKey {
    /// The key of the given bytes.
    fn from(v: &'a [u8]) -> (r: BaseDbKey)
        ensures
            r@ == v@,
    {
        BaseDbKey(vstd::slice::slice_to_vec(v))
    }
}

impl<'a> vstd::std_specs::convert::FromSpecImpl<&'a str> for BaseDbKey {
    open spec fn obeys_from_spec() -> bool {
        false
    }

    open spec fn from_spec(v: &'a str) -> Self {
        arbitrary()
    }
}

impl<'a> From<&'a str> for BaseDbKey {
    /// The key of the bytes of a string.
    fn from(v: &'a str) -> (r: BaseDbKey)
        ensures
            r@ == v.spec_bytes(),
    {
        BaseDbKey(vstd::slice::slice_to_vec(v.as_bytes()))
    }
}

} // verus!
