//! The ordered key-value store: its entries, its batches, and the contract
//! that every backend meets.
use vstd::prelude::*;
use crate::error::{Error, ErrorKind};
pub use crate::bucket::Bucket;
pub use crate::key::BaseDbKey;
use crate::key::{
    is_prefix, key_lt, lemma_key_lt_asymmetric, lemma_key_lt_irreflexive, lemma_key_lt_total,
    lemma_key_lt_transitive,
};

verus! {

/// What a store holds: a value for each key that is present.
pub type Contents = Map<Seq<u8>, Seq<u8>>;

/// An entry of a store, as a scan returns it.
#[derive(Debug, PartialEq, Eq)]
pub struct KeyValue {
    key: BaseDbKey,
    value: Vec<u8>,
}

impl View for KeyValue {
    type V = (Seq<u8>, Seq<u8>);

    closed spec fn view(&self) -> (Seq<u8>, Seq<u8>) {
        (self.key@, self.value@)
    }
}

impl KeyValue {
    /// The entry of `key` with `value`.
    pub fn new(key: BaseDbKey, value: Vec<u8>) -> (kv: KeyValue)
        ensures
            kv@ == (key@, value@),
    {
        KeyValue { key, value }
    }

    /// The key of the entry.
    pub fn get_key(&self) -> (k: &BaseDbKey)
        ensures
            k@ == self@.0,
    {
        &self.key
    }

    /// The value of the entry.
    pub fn get_value(&self) -> (v: &Vec<u8>)
        ensures
            v@ == self@.1,
    {
        &self.value
    }
}

impl Clone for KeyValue {
    fn clone(&self) -> (r: Self)
        ensures
            r@ == self@,
    {
        KeyValue { key: self.key.clone(), value: self.value.clone() }
    }
}

/// The entries of a scan result as pairs of byte strings.
pub open spec fn entry_views(entries: Seq<KeyValue>) -> Seq<(Seq<u8>, Seq<u8>)> {
    Seq::new(entries.len(), |i: int| entries[i]@)
}

/// One operation of a batch.
#[derive(Debug, PartialEq, Eq)]
pub enum Batch {
    BatchPut { key: BaseDbKey, value: Vec<u8> },
    BatchDel { key: BaseDbKey },
}

/// One operation of a batch, on byte strings.
pub enum BatchOp {
    Put(Seq<u8>, Seq<u8>),
    Del(Seq<u8>),
}

impl View for Batch {
    type V = BatchOp;

    open spec fn view(&self) -> BatchOp {
        match self {
            Batch::BatchPut { key, value } => BatchOp::Put(key@, value@),
            Batch::BatchDel { key } => BatchOp::Del(key@),
        }
    }
}

impl Clone for Batch {
    fn clone(&self) -> (r: Self)
        ensures
            r@ == self@,
    {
        match self {
            Batch::BatchPut { key, value } => Batch::BatchPut { key: key.clone(), value: value.clone() },
            Batch::BatchDel { key } => Batch::BatchDel { key: key.clone() },
        }
    }
}

/// The operations of a batch on byte strings, in their order.
pub open spec fn batch_views(operations: Seq<Batch>) -> Seq<BatchOp> {
    Seq::new(operations.len(), |i: int| operations[i]@)
}

/// The contents after one operation.
pub open spec fn apply_op(m: Contents, op: BatchOp) -> Contents {
    match op {
        BatchOp::Put(k, v) => m.insert(k, v),
        BatchOp::Del(k) => m.remove(k),
    }
}

/// The contents after the operations of a batch, applied in their order.
pub open spec fn apply_batch(m: Contents, ops: Seq<BatchOp>) -> Contents
    decreases ops.len(),
{
    if ops.len() == 0 {
        m
    } else {
        apply_op(apply_batch(m, ops.drop_last()), ops.last())
    }
}

/// A batch with one more operation at its end applies the batch, then the operation.
pub proof fn lemma_apply_batch_push(m: Contents, ops: Seq<BatchOp>, op: BatchOp)
    ensures
        apply_batch(m, ops.push(op)) == apply_op(apply_batch(m, ops), op),
{
    assert(ops.push(op).drop_last() =~= ops);
}

/// The entries `r` are entries of `m` with keys strictly above `lo`, in
/// strictly ascending order of their keys.
pub open spec fn scan_listed(m: Contents, lo: Seq<u8>, r: Seq<(Seq<u8>, Seq<u8>)>) -> bool {
    &&& forall|i: int|
        0 <= i < r.len() ==> m.contains_key(#[trigger] r[i].0) && m[r[i].0] == r[i].1 && key_lt(lo, r[i].0)
    &&& forall|i: int, j: int| 0 <= i < j < r.len() ==> key_lt(#[trigger] r[i].0, #[trigger] r[j].0)
}

/// The key `k` is among the entries `r`.
pub open spec fn scan_holds(r: Seq<(Seq<u8>, Seq<u8>)>, k: Seq<u8>) -> bool {
    exists|i: int| 0 <= i < r.len() && #[trigger] r[i].0 == k
}

/// The scan `r` went through all of `m` above `lo`: it misses no key.
pub open spec fn scan_exhausted(m: Contents, lo: Seq<u8>, r: Seq<(Seq<u8>, Seq<u8>)>) -> bool {
    forall|k: Seq<u8>| #[trigger] m.contains_key(k) && key_lt(lo, k) ==> scan_holds(r, k)
}

/// The scan `r` stopped at the key `x` of `m`: every entry of `r` lies
/// below `x`, and `r` misses no key of `m` between `lo` and `x`.
pub open spec fn scan_stopped_at(m: Contents, lo: Seq<u8>, r: Seq<(Seq<u8>, Seq<u8>)>, x: Seq<u8>) -> bool {
    &&& m.contains_key(x)
    &&& key_lt(lo, x)
    &&& forall|i: int| 0 <= i < r.len() ==> key_lt(#[trigger] r[i].0, x)
    &&& forall|k: Seq<u8>| #[trigger] m.contains_key(k) && key_lt(lo, k) && key_lt(k, x) ==> scan_holds(r, k)
}

/// The visitor `f`, shown an entry with key `k` and value `v`, may answer `b`.
pub open spec fn visit_gives<F: Fn(&BaseDbKey, &Vec<u8>) -> bool>(f: F, k: Seq<u8>, v: Seq<u8>, b: bool) -> bool {
    exists|key: BaseDbKey, value: Vec<u8>|
        key@ == k && value@ == v && #[trigger] call_ensures(f, (&key, &value), b)
}

/// The visitor `f` accepts any entry as its argument.
pub open spec fn visit_total<F: Fn(&BaseDbKey, &Vec<u8>) -> bool>(f: F) -> bool {
    forall|key: BaseDbKey, value: Vec<u8>| #[trigger] call_requires(f, (&key, &value))
}

/// What a scan of `m` above `lo` within the namespace `prefix` returns
/// when `accept` says what the visitor may answer for an entry: the
/// entries in ascending order up to, and without, the first one that
/// leaves the namespace or that the visitor rejects.
pub open spec fn scan_result_by(
    m: Contents,
    prefix: Seq<u8>,
    lo: Seq<u8>,
    accept: spec_fn(Seq<u8>, Seq<u8>, bool) -> bool,
    r: Seq<(Seq<u8>, Seq<u8>)>,
) -> bool {
    &&& scan_listed(m, lo, r)
    &&& forall|i: int| 0 <= i < r.len() ==> is_prefix(prefix, #[trigger] r[i].0) && accept(r[i].0, r[i].1, true)
    &&& (scan_exhausted(m, lo, r) || exists|x: Seq<u8>|
        #[trigger] scan_stopped_at(m, lo, r, x) && (!is_prefix(prefix, x) || accept(x, m[x], false)))
}

/// What a scan of `m` above `lo` within the namespace `prefix` returns
/// under the visitor `f`.
pub open spec fn scan_result<F: Fn(&BaseDbKey, &Vec<u8>) -> bool>(
    m: Contents,
    prefix: Seq<u8>,
    lo: Seq<u8>,
    f: F,
    r: Seq<(Seq<u8>, Seq<u8>)>,
) -> bool {
    scan_result_by(m, prefix, lo, |k: Seq<u8>, v: Seq<u8>, b: bool| visit_gives(f, k, v, b), r)
}

/// A scan stops at the first entry that the visitor rejects: if the
/// visitor can only answer `false` for the entry of the key `x`, every
/// entry that the scan returns lies below `x`.
pub proof fn lemma_scan_stops_at_rejection(
    m: Contents,
    prefix: Seq<u8>,
    lo: Seq<u8>,
    accept: spec_fn(Seq<u8>, Seq<u8>, bool) -> bool,
    r: Seq<(Seq<u8>, Seq<u8>)>,
    x: Seq<u8>,
)
    requires
        scan_result_by(m, prefix, lo, accept, r),
        m.contains_key(x),
        key_lt(lo, x),
        !accept(x, m[x], true),
    ensures
        forall|i: int| 0 <= i < r.len() ==> key_lt(#[trigger] r[i].0, x),
        !scan_holds(r, x),
{
    assert forall|i: int| 0 <= i < r.len() implies #[trigger] r[i].0 != x by {
        assert(m[r[i].0] == r[i].1);
    }
    assert forall|i: int| 0 <= i < r.len() implies key_lt(#[trigger] r[i].0, x) by {
        let k = r[i].0;
        lemma_key_lt_total(k, x);
        if key_lt(x, k) {
            if scan_exhausted(m, lo, r) {
                assert(scan_holds(r, x));
            } else {
                let y = choose|y: Seq<u8>| #[trigger]
                    scan_stopped_at(m, lo, r, y) && (!is_prefix(prefix, y) || accept(y, m[y], false));
                lemma_key_lt_transitive(x, k, y);
                assert(scan_holds(r, x));
            }
        }
    }
}

/// What the visitor answers for an entry is one thing: it cannot both
/// accept and reject the entry.
pub open spec fn accept_decided(accept: spec_fn(Seq<u8>, Seq<u8>, bool) -> bool) -> bool {
    forall|k: Seq<u8>, v: Seq<u8>| !(#[trigger] accept(k, v, true) && accept(k, v, false))
}

/// Two scans that agree on the keys they hold hold the same entries at
/// the same places.
proof fn lemma_same_keys_same_entries(
    m: Contents,
    lo: Seq<u8>,
    r1: Seq<(Seq<u8>, Seq<u8>)>,
    r2: Seq<(Seq<u8>, Seq<u8>)>,
)
    requires
        scan_listed(m, lo, r1),
        scan_listed(m, lo, r2),
        forall|k: Seq<u8>| scan_holds(r1, k) <==> scan_holds(r2, k),
    ensures
        r1 == r2,
{
    assert forall|i: int| 0 <= i < r1.len() && i < r2.len() implies #[trigger] r1[i].0 == #[trigger] r2[i].0 by {
        lemma_same_key_at(m, lo, r1, r2, i);
    }
    if r1.len() < r2.len() {
        let k = r2[r1.len() as int].0;
        assert(scan_holds(r2, k));
        let j = choose|j: int| 0 <= j < r1.len() && #[trigger] r1[j].0 == k;
        assert(r1[j].0 == r2[j].0);
        lemma_key_lt_irreflexive(k);
    }
    if r2.len() < r1.len() {
        let k = r1[r2.len() as int].0;
        assert(scan_holds(r1, k));
        let j = choose|j: int| 0 <= j < r2.len() && #[trigger] r2[j].0 == k;
        assert(r1[j].0 == r2[j].0);
        lemma_key_lt_irreflexive(k);
    }
    assert forall|i: int| 0 <= i < r1.len() implies r1[i] == r2[i] by {
        assert(r1[i].0 == r2[i].0);
        assert(m[r1[i].0] == r1[i].1);
        assert(m[r2[i].0] == r2[i].1);
    }
    assert(r1 =~= r2);
}

/// Two scans that agree on the keys they hold have the same key at the place `i`.
proof fn lemma_same_key_at(
    m: Contents,
    lo: Seq<u8>,
    r1: Seq<(Seq<u8>, Seq<u8>)>,
    r2: Seq<(Seq<u8>, Seq<u8>)>,
    i: int,
)
    requires
        scan_listed(m, lo, r1),
        scan_listed(m, lo, r2),
        forall|k: Seq<u8>| scan_holds(r1, k) <==> scan_holds(r2, k),
        0 <= i < r1.len(),
        i < r2.len(),
    ensures
        r1[i].0 == r2[i].0,
    decreases i,
{
    let a = r1[i].0;
    let b = r2[i].0;
    assert(scan_holds(r1, a));
    assert(scan_holds(r2, b));
    let j = choose|j: int| 0 <= j < r2.len() && #[trigger] r2[j].0 == a;
    let h = choose|h: int| 0 <= h < r1.len() && #[trigger] r1[h].0 == b;
    if j < i {
        lemma_same_key_at(m, lo, r1, r2, j);
        assert(key_lt(r1[j].0, r1[i].0));
        lemma_key_lt_irreflexive(a);
    }
    if h < i {
        lemma_same_key_at(m, lo, r1, r2, h);
        assert(key_lt(r2[h].0, r2[i].0));
        lemma_key_lt_irreflexive(b);
    }
    if a != b {
        lemma_key_lt_total(a, b);
        if key_lt(a, b) {
            assert(i < h ==> key_lt(r1[i].0, r1[h].0));
            assert(i < j ==> key_lt(r2[i].0, r2[j].0));
            lemma_key_lt_asymmetric(a, b);
        } else {
            assert(i < h ==> key_lt(r1[i].0, r1[h].0));
            assert(i < j ==> key_lt(r2[i].0, r2[j].0));
            lemma_key_lt_asymmetric(b, a);
        }
    }
}

/// The contract of a scan leaves one result: under a visitor whose
/// answers are decided, two results of the same scan are equal.
pub proof fn lemma_scan_result_unique(
    m: Contents,
    prefix: Seq<u8>,
    lo: Seq<u8>,
    accept: spec_fn(Seq<u8>, Seq<u8>, bool) -> bool,
    r1: Seq<(Seq<u8>, Seq<u8>)>,
    r2: Seq<(Seq<u8>, Seq<u8>)>,
)
    requires
        accept_decided(accept),
        scan_result_by(m, prefix, lo, accept, r1),
        scan_result_by(m, prefix, lo, accept, r2),
    ensures
        r1 == r2,
{
    assert forall|k: Seq<u8>| scan_holds(r1, k) implies scan_holds(r2, k) by {
        lemma_scan_holds_in_other(m, prefix, lo, accept, r1, r2, k);
    }
    assert forall|k: Seq<u8>| scan_holds(r2, k) implies scan_holds(r1, k) by {
        lemma_scan_holds_in_other(m, prefix, lo, accept, r2, r1, k);
    }
    lemma_same_keys_same_entries(m, lo, r1, r2);
}

/// A key that one result of a scan holds, another result of the same
/// scan holds too.
proof fn lemma_scan_holds_in_other(
    m: Contents,
    prefix: Seq<u8>,
    lo: Seq<u8>,
    accept: spec_fn(Seq<u8>, Seq<u8>, bool) -> bool,
    r1: Seq<(Seq<u8>, Seq<u8>)>,
    r2: Seq<(Seq<u8>, Seq<u8>)>,
    k: Seq<u8>,
)
    requires
        accept_decided(accept),
        scan_result_by(m, prefix, lo, accept, r1),
        scan_result_by(m, prefix, lo, accept, r2),
        scan_holds(r1, k),
    ensures
        scan_holds(r2, k),
{
    let i = choose|i: int| 0 <= i < r1.len() && #[trigger] r1[i].0 == k;
    assert(m.contains_key(k) && key_lt(lo, k) && m[k] == r1[i].1);
    assert(is_prefix(prefix, k) && accept(k, m[k], true));
    if !scan_exhausted(m, lo, r2) {
        let x = choose|x: Seq<u8>| #[trigger]
            scan_stopped_at(m, lo, r2, x) && (!is_prefix(prefix, x) || accept(x, m[x], false));
        lemma_key_lt_total(k, x);
        if key_lt(x, k) {
            if scan_exhausted(m, lo, r1) {
                assert(scan_holds(r1, x));
            } else {
                let y = choose|y: Seq<u8>| #[trigger]
                    scan_stopped_at(m, lo, r1, y) && (!is_prefix(prefix, y) || accept(y, m[y], false));
                lemma_key_lt_transitive(x, k, y);
                assert(scan_holds(r1, x));
            }
            let j = choose|j: int| 0 <= j < r1.len() && #[trigger] r1[j].0 == x;
            assert(m[r1[j].0] == r1[j].1);
            assert(is_prefix(prefix, x) && accept(x, m[x], true));
        }
    }
}

/// Acquiring and releasing a backend.
pub trait DatabaseTrait: Sized {
    /// Acquires the backend of the given name.
    fn open(dbname: &str) -> Self;

    /// Releases the backend.
    fn close(&self);
}

/// An ordered mapping from byte-string keys to byte-string values.
///
/// A backend states what it holds (`contents`) and whether its operations
/// can fail (`infallible`).  A failed operation changes nothing.
pub trait KeyValueStore: Sized {
    /// What the store holds.
    spec fn contents(&self) -> Contents;

    /// Whether every operation of this store succeeds.
    spec fn infallible(&self) -> bool;

    /// The value stored under `key`, if any.
    fn get(&self, key: &BaseDbKey) -> (r: Result<Option<Vec<u8>>, Error>)
        ensures
            self.infallible() ==> r is Ok,
            r matches Ok(o) ==> match o {
                Some(v) => self.contents().contains_key(key@) && self.contents()[key@] == v@,
                None => !self.contents().contains_key(key@),
            },
            r matches Err(e) ==> e@ == ErrorKind::Io,
    ;

    /// Stores `value` under `key`, replacing what was there.
    fn put(&mut self, key: &BaseDbKey, value: &[u8]) -> (r: Result<(), Error>)
        ensures
            final(self).infallible() == old(self).infallible(),
            old(self).infallible() ==> r is Ok,
            r is Ok ==> final(self).contents() == old(self).contents().insert(key@, value@),
            r is Err ==> final(self).contents() == old(self).contents(),
            r matches Err(e) ==> e@ == ErrorKind::Io,
    ;

    /// Removes `key` and its value; does nothing if `key` is absent.
    fn del(&mut self, key: &BaseDbKey) -> (r: Result<(), Error>)
        ensures
            final(self).infallible() == old(self).infallible(),
            old(self).infallible() ==> r is Ok,
            r is Ok ==> final(self).contents() == old(self).contents().remove(key@),
            r is Err ==> final(self).contents() == old(self).contents(),
            r matches Err(e) ==> e@ == ErrorKind::Io,
    ;

    /// Tells whether `key` is present.
    fn has(&self, key: &BaseDbKey) -> (r: Result<bool, Error>)
        ensures
            self.infallible() ==> r is Ok,
            r matches Ok(b) ==> b == self.contents().contains_key(key@),
            r matches Err(e) ==> e@ == ErrorKind::Io,
    ;

    /// Applies the operations in their order, all of them or none.
    fn batch(&mut self, operations: &[Batch]) -> (r: Result<(), Error>)
        ensures
            final(self).infallible() == old(self).infallible(),
            old(self).infallible() ==> r is Ok,
            r is Ok ==> final(self).contents() == apply_batch(old(self).contents(), batch_views(operations@)),
            r is Err ==> final(self).contents() == old(self).contents(),
            r matches Err(e) ==> e@ == ErrorKind::Io,
    ;

    /// Scans the keys strictly above `prefix` followed by `start`, in
    /// ascending order, and returns the entries up to the first one that
    /// does not start with `prefix` or for which `f` answers `false`.
    fn iter_all_with_prefix<F: Fn(&BaseDbKey, &Vec<u8>) -> bool>(
        &self,
        prefix: &BaseDbKey,
        start: &BaseDbKey,
        f: F,
    ) -> (r: Vec<KeyValue>)
        requires
            visit_total(f),
        ensures
            scan_result(self.contents(), prefix@, prefix@ + start@, f, entry_views(r@)),
    ;

    /// Scans the keys strictly above `start`, in ascending order, and
    /// returns the entries up to the first one for which `f` answers `false`.
    fn iter_all<F: Fn(&BaseDbKey, &Vec<u8>) -> bool>(&self, start: &BaseDbKey, f: F) -> (r: Vec<KeyValue>)
        requires
            visit_total(f),
        ensures
            scan_result(self.contents(), Seq::<u8>::empty(), start@, f, entry_views(r@)),
    ;
}

} // verus!
