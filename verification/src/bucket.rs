//! Buckets: namespaced views of a store.
use vstd::prelude::*;
use crate::error::{Error, ErrorKind};
use crate::key::{
    BaseDbKey, is_prefix, key_lt, lemma_beyond_prefix, lemma_concat_injective, lemma_key_lt_prefixed,
    lemma_prefix_split,
};
use crate::kvs::{
    Batch, BatchOp, Contents, KeyValue, KeyValueStore, apply_batch, apply_op, batch_views, entry_views,
    scan_exhausted, scan_holds, scan_result, scan_result_by, scan_stopped_at, visit_gives, visit_total,
};

verus! {

/// The entries of `m` in the namespace `p`, their keys without the prefix.
pub open spec fn strip(m: Contents, p: Seq<u8>) -> Contents {
    Map::new(|k: Seq<u8>| m.contains_key(p + k), |k: Seq<u8>| m[p + k])
}

/// The operation `op` with `p` put before its key.
pub open spec fn prefixed_op(op: BatchOp, p: Seq<u8>) -> BatchOp {
    match op {
        BatchOp::Put(k, v) => BatchOp::Put(p + k, v),
        BatchOp::Del(k) => BatchOp::Del(p + k),
    }
}

/// The operations `ops`, each with `p` put before its key.
pub open spec fn prefixed_ops(ops: Seq<BatchOp>, p: Seq<u8>) -> Seq<BatchOp> {
    Seq::new(ops.len(), |i: int| prefixed_op(ops[i], p))
}

/// The entries `r` with the first `n` bytes of each key taken away.
pub open spec fn strip_entries(r: Seq<(Seq<u8>, Seq<u8>)>, n: nat) -> Seq<(Seq<u8>, Seq<u8>)> {
    Seq::new(r.len(), |i: int| (r[i].0.skip(n as int), r[i].1))
}

/// An operation on a prefixed key is, within the namespace, the operation on the key.
pub proof fn lemma_strip_op(m: Contents, p: Seq<u8>, op: BatchOp)
    ensures
        strip(apply_op(m, prefixed_op(op, p)), p) == apply_op(strip(m, p), op),
{
    match op {
        BatchOp::Put(k, v) => {
            assert forall|x: Seq<u8>| #[trigger] (p + x) == p + k implies x == k by {
                lemma_concat_injective(p, x, k);
            }
            assert(strip(m.insert(p + k, v), p) =~= strip(m, p).insert(k, v));
        },
        BatchOp::Del(k) => {
            assert forall|x: Seq<u8>| #[trigger] (p + x) == p + k implies x == k by {
                lemma_concat_injective(p, x, k);
            }
            assert(strip(m.remove(p + k), p) =~= strip(m, p).remove(k));
        },
    }
}

/// A batch on prefixed keys is, within the namespace, the batch on the keys.
pub proof fn lemma_strip_batch(m: Contents, p: Seq<u8>, ops: Seq<BatchOp>)
    ensures
        strip(apply_batch(m, prefixed_ops(ops, p)), p) == apply_batch(strip(m, p), ops),
    decreases ops.len(),
{
    if ops.len() > 0 {
        lemma_strip_batch(m, p, ops.drop_last());
        assert(prefixed_ops(ops, p).drop_last() =~= prefixed_ops(ops.drop_last(), p));
        lemma_strip_op(apply_batch(m, prefixed_ops(ops.drop_last(), p)), p, ops.last());
    }
}

/// An operation within one namespace leaves another untouched, if neither
/// prefix is a prefix of the other.
pub proof fn lemma_namespaces_apart(m: Contents, p: Seq<u8>, q: Seq<u8>, op: BatchOp)
    requires
        !is_prefix(p, q),
        !is_prefix(q, p),
    ensures
        strip(apply_op(m, prefixed_op(op, p)), q) == strip(m, q),
{
    let k = match op {
        BatchOp::Put(k, v) => k,
        BatchOp::Del(k) => k,
    };
    assert forall|x: Seq<u8>| #[trigger] (q + x) != p + k by {
        if q + x == p + k {
            if p.len() <= q.len() {
                assert forall|j: int| 0 <= j < p.len() implies q[j] == p[j] by {
                    assert((q + x)[j] == (p + k)[j]);
                }
            } else {
                assert forall|j: int| 0 <= j < q.len() implies p[j] == q[j] by {
                    assert((q + x)[j] == (p + k)[j]);
                }
            }
        }
    }
    assert(strip(apply_op(m, prefixed_op(op, p)), q) =~= strip(m, q));
}

/// A scan of a store within a namespace is a scan of the namespace's
/// entries, the visitor being shown the keys with their prefix.
pub proof fn lemma_strip_scan(
    m: Contents,
    p: Seq<u8>,
    s: Seq<u8>,
    accept: spec_fn(Seq<u8>, Seq<u8>, bool) -> bool,
    r: Seq<(Seq<u8>, Seq<u8>)>,
)
    requires
        scan_result_by(m, p, p + s, accept, r),
    ensures
        scan_result_by(
            strip(m, p),
            Seq::<u8>::empty(),
            s,
            |k: Seq<u8>, v: Seq<u8>, b: bool| accept(p + k, v, b),
            strip_entries(r, p.len()),
        ),
{
    let c = strip(m, p);
    let rr = strip_entries(r, p.len());
    let acc = |k: Seq<u8>, v: Seq<u8>, b: bool| accept(p + k, v, b);
    assert forall|i: int| 0 <= i < r.len() implies #[trigger] r[i].0 == p + rr[i].0 by {
        lemma_prefix_split(p, r[i].0);
    }
    assert forall|i: int| 0 <= i < rr.len() implies c.contains_key(#[trigger] rr[i].0) && c[rr[i].0] == rr[i].1
        && key_lt(s, rr[i].0) by {
        assert(r[i].0 == p + rr[i].0);
        lemma_key_lt_prefixed(p, s, rr[i].0);
    }
    assert forall|i: int, j: int| 0 <= i < j < rr.len() implies key_lt(#[trigger] rr[i].0, #[trigger] rr[j].0) by {
        assert(r[i].0 == p + rr[i].0);
        assert(r[j].0 == p + rr[j].0);
        lemma_key_lt_prefixed(p, rr[i].0, rr[j].0);
    }
    assert forall|i: int| 0 <= i < rr.len() implies is_prefix(Seq::<u8>::empty(), #[trigger] rr[i].0) && acc(
        rr[i].0,
        rr[i].1,
        true,
    ) by {
        assert(r[i].0 == p + rr[i].0);
    }
    let covered = |k: Seq<u8>| scan_holds(r, p + k) ==> scan_holds(rr, k);
    assert forall|k: Seq<u8>| scan_holds(r, p + k) implies scan_holds(rr, k) by {
        let i = choose|i: int| 0 <= i < r.len() && #[trigger] r[i].0 == p + k;
        assert(r[i].0 == p + rr[i].0);
        lemma_concat_injective(p, k, rr[i].0);
        assert(rr[i].0 == k);
    }
    if scan_exhausted(m, p + s, r) {
        assert forall|k: Seq<u8>| #[trigger] c.contains_key(k) && key_lt(s, k) implies scan_holds(rr, k) by {
            lemma_key_lt_prefixed(p, s, k);
            assert(m.contains_key(p + k));
        }
    } else {
        let x = choose|x: Seq<u8>| #[trigger]
            scan_stopped_at(m, p + s, r, x) && (!is_prefix(p, x) || accept(x, m[x], false));
        if is_prefix(p, x) {
            let xr = x.skip(p.len() as int);
            lemma_prefix_split(p, x);
            lemma_key_lt_prefixed(p, s, xr);
            assert forall|i: int| 0 <= i < rr.len() implies key_lt(#[trigger] rr[i].0, xr) by {
                assert(r[i].0 == p + rr[i].0);
                lemma_key_lt_prefixed(p, rr[i].0, xr);
            }
            assert forall|k: Seq<u8>| #[trigger]
                c.contains_key(k) && key_lt(s, k) && key_lt(k, xr) implies scan_holds(rr, k) by {
                lemma_key_lt_prefixed(p, s, k);
                lemma_key_lt_prefixed(p, k, xr);
                assert(m.contains_key(p + k));
            }
            assert(scan_stopped_at(c, s, rr, xr) && acc(xr, c[xr], false));
        } else {
            assert forall|k: Seq<u8>| #[trigger] c.contains_key(k) && key_lt(s, k) implies scan_holds(rr, k) by {
                lemma_key_lt_prefixed(p, s, k);
                assert(is_prefix(p, p + k));
                lemma_beyond_prefix(p, s, x, p + k);
                assert(m.contains_key(p + k));
            }
        }
    }
}

/// A namespaced view of a store: every key it is given stands for the key
/// with the bucket's prefix before it.  The bucket borrows the store.
pub struct Bucket<'a, S: KeyValueStore> {
    pub prefix: BaseDbKey,
    pub store: &'a mut S,
}

impl<'a, S: KeyValueStore> Bucket<'a, S> {
    /// The bucket of `prefix` over `store`.
    pub fn new(prefix: BaseDbKey, store: &'a mut S) -> (b: Bucket<'a, S>)
        ensures
            b.prefix@ == prefix@,
            *b.store == *old(store),
            *final(store) == *final(b.store),
    {
        Bucket { prefix, store }
    }

    /// What the store behind the bucket holds.
    pub open spec fn backing(&self) -> Contents {
        self.store.contents()
    }

    /// Whether every operation of the store behind the bucket succeeds.
    pub open spec fn infallible(&self) -> bool {
        self.store.infallible()
    }

    /// What the bucket holds: the entries of its namespace, under their
    /// keys without the prefix.
    pub open spec fn contents(&self) -> Contents {
        strip(self.backing(), self.prefix@)
    }

    /// The value stored under `key` in this namespace, if any.
    pub fn get(&self, key: &BaseDbKey) -> (r: Result<Option<Vec<u8>>, Error>)
        ensures
            self.infallible() ==> r is Ok,
            r matches Ok(o) ==> match o {
                Some(v) => self.contents().contains_key(key@) && self.contents()[key@] == v@,
                None => !self.contents().contains_key(key@),
            },
            r matches Err(e) ==> e@ == ErrorKind::Io,
    {
        let full = self.prefix.concat(key);
        self.store.get(&full)
    }

    /// Tells whether `key` is present in this namespace.
    pub fn has(&self, key: &BaseDbKey) -> (r: Result<bool, Error>)
        ensures
            self.infallible() ==> r is Ok,
            r matches Ok(b) ==> b == self.contents().contains_key(key@),
            r matches Err(e) ==> e@ == ErrorKind::Io,
    {
        let full = self.prefix.concat(key);
        self.store.has(&full)
    }

    /// Stores `value` under `key` in this namespace.
    pub fn put(&mut self, key: &BaseDbKey, value: &[u8]) -> (r: Result<(), Error>)
        ensures
            final(self).prefix@ == old(self).prefix@,
            *final(final(self).store) == *final(old(self).store),
            final(self).infallible() == old(self).infallible(),
            old(self).infallible() ==> r is Ok,
            r is Ok ==> final(self).backing() == old(self).backing().insert(
                old(self).prefix@ + key@,
                value@,
            ),
            r is Ok ==> final(self).contents() == old(self).contents().insert(key@, value@),
            r is Err ==> final(self).backing() == old(self).backing(),
            r matches Err(e) ==> e@ == ErrorKind::Io,
    {
        let full = self.prefix.concat(key);
        proof {
            lemma_strip_op(self.store.contents(), self.prefix@, BatchOp::Put(key@, value@));
        }
        self.store.put(&full, value)
    }

    /// Removes `key` from this namespace; does nothing if it is absent.
    pub fn del(&mut self, key: &BaseDbKey) -> (r: Result<(), Error>)
        ensures
            final(self).prefix@ == old(self).prefix@,
            *final(final(self).store) == *final(old(self).store),
            final(self).infallible() == old(self).infallible(),
            old(self).infallible() ==> r is Ok,
            r is Ok ==> final(self).backing() == old(self).backing().remove(old(self).prefix@ + key@),
            r is Ok ==> final(self).contents() == old(self).contents().remove(key@),
            r is Err ==> final(self).backing() == old(self).backing(),
            r matches Err(e) ==> e@ == ErrorKind::Io,
    {
        let full = self.prefix.concat(key);
        proof {
            lemma_strip_op(self.store.contents(), self.prefix@, BatchOp::Del(key@));
        }
        self.store.del(&full)
    }

    /// Applies the operations to this namespace in their order, all of
    /// them or none.
    pub fn batch(&mut self, operations: &[Batch]) -> (r: Result<(), Error>)
        ensures
            final(self).prefix@ == old(self).prefix@,
            *final(final(self).store) == *final(old(self).store),
            final(self).infallible() == old(self).infallible(),
            old(self).infallible() ==> r is Ok,
            r is Ok ==> final(self).backing() == apply_batch(
                old(self).backing(),
                prefixed_ops(batch_views(operations@), old(self).prefix@),
            ),
            r is Ok ==> final(self).contents() == apply_batch(old(self).contents(), batch_views(operations@)),
            r is Err ==> final(self).backing() == old(self).backing(),
            r matches Err(e) ==> e@ == ErrorKind::Io,
    {
        let mut full: Vec<Batch> = Vec::with_capacity(operations.len());
        let mut i: usize = 0;
        while i < operations.len()
            invariant
                i <= operations.len(),
                batch_views(full@) == prefixed_ops(batch_views(operations@), self.prefix@).take(i as int),
            decreases operations.len() - i,
        {
            let ghost before = batch_views(full@);
            let op = match &operations[i] {
                Batch::BatchPut { key, value } => Batch::BatchPut {
                    key: self.prefix.concat(key),
                    value: value.clone(),
                },
                Batch::BatchDel { key } => Batch::BatchDel { key: self.prefix.concat(key) },
            };
            full.push(op);
            proof {
                assert(batch_views(full@) =~= before.push(op@));
                assert(batch_views(full@) =~= prefixed_ops(batch_views(operations@), self.prefix@).take(i + 1));
            }
            i += 1;
        }
        proof {
            let all = prefixed_ops(batch_views(operations@), self.prefix@);
            assert(all.take(i as int) =~= all);
            lemma_strip_batch(self.store.contents(), self.prefix@, batch_views(operations@));
        }
        self.store.batch(full.as_slice())
    }

    /// Scans the keys of this namespace strictly above `start`, in
    /// ascending order, and returns the entries, under their keys with the
    /// prefix, up to the first one for which `f` answers `false`.
    pub fn iter_all<F: Fn(&BaseDbKey, &Vec<u8>) -> bool>(&self, start: &BaseDbKey, f: F) -> (r: Vec<KeyValue>)
        requires
            visit_total(f),
        ensures
            scan_result(self.backing(), self.prefix@, self.prefix@ + start@, f, entry_views(r@)),
            scan_result_by(
                self.contents(),
                Seq::<u8>::empty(),
                start@,
                |k: Seq<u8>, v: Seq<u8>, b: bool| visit_gives(f, self.prefix@ + k, v, b),
                strip_entries(entry_views(r@), self.prefix@.len()),
            ),
    {
        let r = self.store.iter_all_with_prefix(&self.prefix, start, f);
        proof {
            let accept = |k: Seq<u8>, v: Seq<u8>, b: bool| visit_gives(f, k, v, b);
            lemma_strip_scan(self.store.contents(), self.prefix@, start@, accept, entry_views(r@));
            let p = self.prefix@;
            assert((|k: Seq<u8>, v: Seq<u8>, b: bool| accept(p + k, v, b)) =~= (|k: Seq<u8>, v: Seq<u8>, b: bool|
                visit_gives(f, p + k, v, b)));
        }
        r
    }

    /// The bucket of this bucket's prefix followed by `prefix`, over the same store.
    pub fn bucket<'b>(&'b mut self, prefix: &BaseDbKey) -> (b: Bucket<'b, S>)
        ensures
            b.prefix@ == old(self).prefix@ + prefix@,
            *b.store == *old(self).store,
            *final(self).store == *final(b.store),
            *final(final(self).store) == *final(old(self).store),
            final(self).prefix@ == old(self).prefix@,
    {
        let full = self.prefix.concat(prefix);
        Bucket { prefix: full, store: &mut *self.store }
    }
}

} // verus!
