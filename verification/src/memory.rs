//! The in-memory backend: entries kept in ascending order of their keys.
use vstd::prelude::*;
use crate::bucket::Bucket;
use crate::error::Error;
use crate::key::{
    BaseDbKey, KeyOrder, is_prefix, key_lt, lemma_key_lt_asymmetric, lemma_key_lt_irreflexive,
    lemma_key_lt_transitive,
};
use crate::kvs::{
    Batch, Contents, DatabaseTrait, KeyValue, KeyValueStore, apply_batch, batch_views, entry_views,
    lemma_apply_batch_push, scan_exhausted, scan_holds, scan_listed, scan_result, scan_stopped_at,
    visit_gives, visit_total,
};

verus! {

/// The keys of `e` ascend strictly.
spec fn ascending(e: Seq<(Seq<u8>, Seq<u8>)>) -> bool {
    forall|i: int, j: int| 0 <= i < j < e.len() ==> key_lt(#[trigger] e[i].0, #[trigger] e[j].0)
}

/// A position of the key `k` in `e`.
spec fn position_of(e: Seq<(Seq<u8>, Seq<u8>)>, k: Seq<u8>) -> int {
    choose|i: int| 0 <= i < e.len() && #[trigger] e[i].0 == k
}

/// The mapping that the entries `e` stand for.
spec fn map_of(e: Seq<(Seq<u8>, Seq<u8>)>) -> Contents {
    Map::new(|k: Seq<u8>| scan_holds(e, k), |k: Seq<u8>| e[position_of(e, k)].1)
}

/// In ascending entries a key stands at one position only.
proof fn lemma_ascending_distinct(e: Seq<(Seq<u8>, Seq<u8>)>, i: int, j: int)
    requires
        ascending(e),
        0 <= i < e.len(),
        0 <= j < e.len(),
        e[i].0 == e[j].0,
    ensures
        i == j,
{
    if i < j {
        lemma_key_lt_asymmetric(e[i].0, e[j].0);
    }
    if j < i {
        lemma_key_lt_asymmetric(e[j].0, e[i].0);
    }
}

/// The mapping of ascending entries holds each entry.
proof fn lemma_map_of_at(e: Seq<(Seq<u8>, Seq<u8>)>, i: int)
    requires
        ascending(e),
        0 <= i < e.len(),
    ensures
        map_of(e).contains_key(e[i].0),
        map_of(e)[e[i].0] == e[i].1,
{
    assert(scan_holds(e, e[i].0));
    lemma_ascending_distinct(e, i, position_of(e, e[i].0));
}

/// A new key put at its place in ascending entries: the entries still
/// ascend, and their mapping has gained the key.
proof fn lemma_map_of_insert(e: Seq<(Seq<u8>, Seq<u8>)>, at: int, k: Seq<u8>, v: Seq<u8>)
    requires
        ascending(e),
        0 <= at <= e.len(),
        forall|j: int| 0 <= j < at ==> key_lt(#[trigger] e[j].0, k),
        forall|j: int| at <= j < e.len() ==> key_lt(k, #[trigger] e[j].0),
    ensures
        ascending(e.insert(at, (k, v))),
        map_of(e.insert(at, (k, v))) == map_of(e).insert(k, v),
{
    let n = e.insert(at, (k, v));
    assert forall|i: int, j: int| 0 <= i < j < n.len() implies key_lt(#[trigger] n[i].0, #[trigger] n[j].0) by {
        let oi = if i < at { i } else { i - 1 };
        let oj = if j < at { j } else { j - 1 };
        if i != at && j != at {
            assert(n[i] == e[oi] && n[j] == e[oj]);
        } else if i == at {
            assert(n[j] == e[oj]);
        } else {
            assert(n[i] == e[oi]);
        }
    }
    assert forall|x: Seq<u8>| map_of(n).contains_key(x) <==> map_of(e).insert(k, v).contains_key(x) by {
        if scan_holds(n, x) {
            let i = position_of(n, x);
            if i < at {
                assert(e[i].0 == x);
            } else if i > at {
                assert(e[i - 1].0 == x);
            }
        }
        if scan_holds(e, x) {
            let i = position_of(e, x);
            if i < at {
                assert(n[i].0 == x);
            } else {
                assert(n[i + 1].0 == x);
            }
        }
        if x == k {
            assert(n[at].0 == x);
        }
    }
    assert forall|x: Seq<u8>| map_of(n).contains_key(x) implies map_of(n)[x] == map_of(e).insert(k, v)[x] by {
        let i = position_of(n, x);
        lemma_map_of_at(n, i);
        if i < at {
            lemma_map_of_at(e, i);
        } else if i > at {
            lemma_map_of_at(e, i - 1);
            lemma_key_lt_asymmetric(k, e[i - 1].0);
        }
    }
    assert(map_of(n) =~= map_of(e).insert(k, v));
}

/// The value of one entry replaced: the entries still ascend, and their
/// mapping holds the new value under the entry's key.
proof fn lemma_map_of_update(e: Seq<(Seq<u8>, Seq<u8>)>, at: int, v: Seq<u8>)
    requires
        ascending(e),
        0 <= at < e.len(),
    ensures
        ascending(e.update(at, (e[at].0, v))),
        map_of(e.update(at, (e[at].0, v))) == map_of(e).insert(e[at].0, v),
{
    let k = e[at].0;
    let n = e.update(at, (k, v));
    assert forall|i: int, j: int| 0 <= i < j < n.len() implies key_lt(#[trigger] n[i].0, #[trigger] n[j].0) by {
        assert(n[i].0 == e[i].0 && n[j].0 == e[j].0);
    }
    assert forall|x: Seq<u8>| map_of(n).contains_key(x) <==> map_of(e).insert(k, v).contains_key(x) by {
        if scan_holds(n, x) {
            let i = position_of(n, x);
            assert(e[i].0 == x);
        }
        if scan_holds(e, x) {
            let i = position_of(e, x);
            assert(n[i].0 == x);
        }
        if x == k {
            assert(n[at].0 == x);
        }
    }
    assert forall|x: Seq<u8>| map_of(n).contains_key(x) implies map_of(n)[x] == map_of(e).insert(k, v)[x] by {
        let i = position_of(n, x);
        lemma_map_of_at(n, i);
        if i != at {
            lemma_map_of_at(e, i);
            if x == k {
                lemma_ascending_distinct(n, i, at);
            }
        }
    }
    assert(map_of(n) =~= map_of(e).insert(k, v));
}

/// One entry taken out: the entries still ascend, and their mapping has
/// lost the entry's key.
proof fn lemma_map_of_remove(e: Seq<(Seq<u8>, Seq<u8>)>, at: int)
    requires
        ascending(e),
        0 <= at < e.len(),
    ensures
        ascending(e.remove(at)),
        map_of(e.remove(at)) == map_of(e).remove(e[at].0),
{
    let k = e[at].0;
    let n = e.remove(at);
    assert forall|i: int, j: int| 0 <= i < j < n.len() implies key_lt(#[trigger] n[i].0, #[trigger] n[j].0) by {
        let oi = if i < at { i } else { i + 1 };
        let oj = if j < at { j } else { j + 1 };
        assert(n[i] == e[oi] && n[j] == e[oj]);
    }
    assert forall|x: Seq<u8>| map_of(n).contains_key(x) <==> map_of(e).remove(k).contains_key(x) by {
        if scan_holds(n, x) {
            let i = position_of(n, x);
            let oi = if i < at { i } else { i + 1 };
            assert(e[oi].0 == x);
            if x == k {
                lemma_ascending_distinct(e, oi, at);
            }
        }
        if scan_holds(e, x) && x != k {
            let i = position_of(e, x);
            if i < at {
                assert(n[i].0 == x);
            } else {
                assert(n[i - 1].0 == x);
            }
        }
    }
    assert forall|x: Seq<u8>| map_of(n).contains_key(x) implies map_of(n)[x] == map_of(e).remove(k)[x] by {
        let i = position_of(n, x);
        lemma_map_of_at(n, i);
        let oi = if i < at { i } else { i + 1 };
        lemma_map_of_at(e, oi);
    }
    assert(map_of(n) =~= map_of(e).remove(k));
}

/// Finds the place of `key` in ascending entries: the position of its
/// entry and `true`, or the position at which its entry would stand and
/// `false`.
fn locate(db: &Vec<KeyValue>, key: &BaseDbKey) -> (r: (usize, bool))
    requires
        ascending(entry_views(db@)),
    ensures
        r.0 <= db@.len(),
        forall|j: int| 0 <= j < r.0 ==> key_lt(#[trigger] entry_views(db@)[j].0, key@),
        r.1 ==> r.0 < db@.len() && entry_views(db@)[r.0 as int].0 == key@,
        !r.1 ==> forall|j: int| r.0 <= j < db@.len() ==> key_lt(key@, #[trigger] entry_views(db@)[j].0),
{
    let ghost e = entry_views(db@);
    let mut lo: usize = 0;
    let mut hi: usize = db.len();
    while lo < hi
        invariant
            e == entry_views(db@),
            ascending(e),
            lo <= hi <= e.len(),
            forall|j: int| 0 <= j < lo ==> key_lt(#[trigger] e[j].0, key@),
            forall|j: int| hi <= j < e.len() ==> key_lt(key@, #[trigger] e[j].0),
        decreases hi - lo,
    {
        let mid = lo + (hi - lo) / 2;
        match db[mid].get_key().compare(key) {
            KeyOrder::Less => {
                proof {
                    assert forall|j: int| 0 <= j < mid + 1 implies key_lt(#[trigger] e[j].0, key@) by {
                        if j < mid {
                            lemma_key_lt_transitive(e[j].0, e[mid as int].0, key@);
                        }
                    }
                }
                lo = mid + 1;
            },
            KeyOrder::Equal => {
                proof {
                    assert forall|j: int| 0 <= j < mid implies key_lt(#[trigger] e[j].0, key@) by {
                        assert(key_lt(e[j].0, e[mid as int].0));
                    }
                }
                return (mid, true);
            },
            KeyOrder::Greater => {
                proof {
                    assert forall|j: int| mid <= j < e.len() implies key_lt(key@, #[trigger] e[j].0) by {
                        if j > mid {
                            lemma_key_lt_transitive(key@, e[mid as int].0, e[j].0);
                        }
                    }
                }
                hi = mid;
            },
        }
    }
    (lo, false)
}

/// A key that `locate` did not find is not among the entries.
proof fn lemma_absent(e: Seq<(Seq<u8>, Seq<u8>)>, at: int, k: Seq<u8>)
    requires
        0 <= at <= e.len(),
        forall|j: int| 0 <= j < at ==> key_lt(#[trigger] e[j].0, k),
        forall|j: int| at <= j < e.len() ==> key_lt(k, #[trigger] e[j].0),
    ensures
        !map_of(e).contains_key(k),
{
    if scan_holds(e, k) {
        let j = position_of(e, k);
        lemma_key_lt_irreflexive(k);
    }
}

/// Puts an entry at its place in ascending entries.
fn insert_entry(db: &mut Vec<KeyValue>, key: BaseDbKey, value: Vec<u8>)
    requires
        ascending(entry_views(old(db)@)),
    ensures
        ascending(entry_views(final(db)@)),
        map_of(entry_views(final(db)@)) == map_of(entry_views(old(db)@)).insert(key@, value@),
{
    let (at, found) = locate(db, &key);
    let ghost e = entry_views(db@);
    let kv = KeyValue::new(key, value);
    if found {
        proof {
            lemma_map_of_update(e, at as int, value@);
            assert(entry_views(db@.update(at as int, kv)) =~= e.update(at as int, (e[at as int].0, value@)));
        }
        db.set(at, kv);
    } else {
        proof {
            lemma_map_of_insert(e, at as int, key@, value@);
            assert(entry_views(db@.insert(at as int, kv)) =~= e.insert(at as int, (key@, value@)));
        }
        db.insert(at, kv);
    }
}

/// Takes the entry of `key` out of ascending entries, if there is one.
fn remove_entry(db: &mut Vec<KeyValue>, key: &BaseDbKey)
    requires
        ascending(entry_views(old(db)@)),
    ensures
        ascending(entry_views(final(db)@)),
        map_of(entry_views(final(db)@)) == map_of(entry_views(old(db)@)).remove(key@),
{
    let (at, found) = locate(db, key);
    let ghost e = entry_views(db@);
    if found {
        proof {
            lemma_map_of_remove(e, at as int);
            assert(entry_views(db@.remove(at as int)) =~= e.remove(at as int));
        }
        db.remove(at);
    } else {
        proof {
            lemma_absent(e, at as int, key@);
            assert(map_of(e).remove(key@) =~= map_of(e));
        }
    }
}

/// The in-memory store.
pub struct CoreDbMemoryImpl {
    db: Vec<KeyValue>,
}

impl CoreDbMemoryImpl {
    #[verifier::type_invariant]
    spec fn ordered(self) -> bool {
        ascending(entry_views(self.db@))
    }

    /// The entries of the store in their order.
    spec fn entries(&self) -> Seq<(Seq<u8>, Seq<u8>)> {
        entry_views(self.db@)
    }

    /// Scans the entries strictly above `lo` in ascending order, up to the
    /// first one outside the namespace `prefix` or rejected by `f`.
    fn scan<F: Fn(&BaseDbKey, &Vec<u8>) -> bool>(&self, prefix: &BaseDbKey, lo: &BaseDbKey, f: F) -> (r: Vec<
        KeyValue,
    >)
        requires
            visit_total(f),
        ensures
            scan_result(self.contents(), prefix@, lo@, f, entry_views(r@)),
    {
        proof {
            use_type_invariant(self);
        }
        let (at, found) = locate(&self.db, lo);
        assert(found ==> at < self.db.len());
        let first: usize = if found { at + 1 } else { at };
        let ghost e = self.entries();
        let ghost m = self.contents();
        proof {
            assert forall|j: int| first <= j < e.len() implies key_lt(lo@, #[trigger] e[j].0) by {
                if found {
                    assert(key_lt(e[at as int].0, e[j].0));
                }
            }
            assert forall|j: int| 0 <= j < first implies !key_lt(lo@, #[trigger] e[j].0) by {
                if j < at {
                    lemma_key_lt_asymmetric(e[j].0, lo@);
                } else {
                    lemma_key_lt_irreflexive(lo@);
                }
            }
        }
        let mut result: Vec<KeyValue> = Vec::new();
        let mut i: usize = first;
        while i < self.db.len()
            invariant
                e == self.entries(),
                m == self.contents(),
                ascending(e),
                visit_total(f),
                first <= i <= e.len(),
                forall|j: int| first <= j < e.len() ==> key_lt(lo@, #[trigger] e[j].0),
                forall|j: int| 0 <= j < first ==> !key_lt(lo@, #[trigger] e[j].0),
                entry_views(result@) == e.subrange(first as int, i as int),
                forall|j: int|
                    first <= j < i ==> is_prefix(prefix@, #[trigger] e[j].0) && visit_gives(f, e[j].0, e[j].1, true),
            decreases e.len() - i,
        {
            let kv = &self.db[i];
            let inside = kv.get_key().has_prefix(prefix);
            let accepted = if inside {
                f(kv.get_key(), kv.get_value())
            } else {
                false
            };
            if !accepted {
                proof {
                    let r = entry_views(result@);
                    let x = e[i as int].0;
                    lemma_scan_listed(e, lo@, first as int, i as int);
                    lemma_map_of_at(e, i as int);
                    assert(scan_stopped_at(m, lo@, r, x)) by {
                        assert forall|k: Seq<u8>| #[trigger]
                            m.contains_key(k) && key_lt(lo@, k) && key_lt(k, x) implies scan_holds(r, k) by {
                            let j = position_of(e, k);
                            if j >= i {
                                if j > i {
                                    lemma_key_lt_transitive(k, x, e[j].0);
                                }
                                lemma_key_lt_irreflexive(k);
                            }
                            assert(r[j - first].0 == k);
                        }
                    }
                    if inside {
                        assert(visit_gives(f, x, m[x], false));
                    }
                }
                return result;
            }
            let ghost before = entry_views(result@);
            let entry = kv.clone();
            result.push(entry);
            proof {
                assert(entry@ == e[i as int]);
                assert(entry_views(result@) =~= before.push(entry@));
                assert(entry_views(result@) =~= e.subrange(first as int, i + 1));
            }
            i += 1;
        }
        proof {
            let r = entry_views(result@);
            lemma_scan_listed(e, lo@, first as int, i as int);
            assert forall|k: Seq<u8>| #[trigger] m.contains_key(k) && key_lt(lo@, k) implies scan_holds(r, k) by {
                let j = position_of(e, k);
                assert(r[j - first].0 == k);
            }
            assert(scan_exhausted(m, lo@, r));
        }
        result
    }
}

/// The entries of `e` from `first` to `i` are a listing of its mapping
/// above `lo`, if all of them lie above `lo`.
proof fn lemma_scan_listed(e: Seq<(Seq<u8>, Seq<u8>)>, lo: Seq<u8>, first: int, i: int)
    requires
        ascending(e),
        0 <= first <= i <= e.len(),
        forall|j: int| first <= j < e.len() ==> key_lt(lo, #[trigger] e[j].0),
    ensures
        scan_listed(map_of(e), lo, e.subrange(first, i)),
{
    let r = e.subrange(first, i);
    assert forall|t: int| 0 <= t < r.len() implies map_of(e).contains_key(#[trigger] r[t].0) && map_of(e)[r[t].0]
        == r[t].1 && key_lt(lo, r[t].0) by {
        lemma_map_of_at(e, first + t);
    }
    assert forall|s: int, t: int| 0 <= s < t < r.len() implies key_lt(#[trigger] r[s].0, #[trigger] r[t].0) by {
        assert(r[s] == e[first + s] && r[t] == e[first + t]);
    }
}

impl CoreDbMemoryImpl {
    /// A view of this store that keeps to the keys starting with `prefix`.
    pub fn bucket<'a>(&'a mut self, prefix: &BaseDbKey) -> (b: Bucket<'a, CoreDbMemoryImpl>)
        ensures
            b.prefix@ == prefix@,
            *b.store == *old(self),
            *final(self) == *final(b.store),
    {
        Bucket::new(prefix.clone(), self)
    }

    /// The view of the whole store: the bucket of the empty prefix.
    pub fn root<'a>(&'a mut self) -> (b: Bucket<'a, CoreDbMemoryImpl>)
        ensures
            b.prefix@ == Seq::<u8>::empty(),
            *b.store == *old(self),
            *final(self) == *final(b.store),
    {
        Bucket::new(BaseDbKey::new(Vec::new()), self)
    }
}

impl DatabaseTrait for CoreDbMemoryImpl {
    /// An empty store; the name is not used.
    fn open(_dbname: &str) -> (db: Self)
        ensures
            db.contents() == Map::<Seq<u8>, Seq<u8>>::empty(),
            db.infallible(),
    {
        let db = CoreDbMemoryImpl { db: Vec::new() };
        proof {
            assert(db.contents() =~= Map::<Seq<u8>, Seq<u8>>::empty());
        }
        db
    }

    fn close(&self) {
    }
}

impl KeyValueStore for CoreDbMemoryImpl {
    closed spec fn contents(&self) -> Contents {
        map_of(entry_views(self.db@))
    }

    open spec fn infallible(&self) -> bool {
        true
    }

    fn get(&self, key: &BaseDbKey) -> (r: Result<Option<Vec<u8>>, Error>) {
        proof {
            use_type_invariant(self);
        }
        let (at, found) = locate(&self.db, key);
        if found {
            proof {
                lemma_map_of_at(self.entries(), at as int);
            }
            Ok(Some(self.db[at].get_value().clone()))
        } else {
            proof {
                lemma_absent(self.entries(), at as int, key@);
            }
            Ok(None)
        }
    }

    fn put(&mut self, key: &BaseDbKey, value: &[u8]) -> (r: Result<(), Error>) {
        proof {
            use_type_invariant(&*self);
        }
        let mut db: Vec<KeyValue> = Vec::new();
        core::mem::swap(&mut self.db, &mut db);
        insert_entry(&mut db, key.clone(), vstd::slice::slice_to_vec(value));
        core::mem::swap(&mut self.db, &mut db);
        Ok(())
    }

    fn del(&mut self, key: &BaseDbKey) -> (r: Result<(), Error>) {
        proof {
            use_type_invariant(&*self);
        }
        let mut db: Vec<KeyValue> = Vec::new();
        core::mem::swap(&mut self.db, &mut db);
        remove_entry(&mut db, key);
        core::mem::swap(&mut self.db, &mut db);
        Ok(())
    }

    fn has(&self, key: &BaseDbKey) -> (r: Result<bool, Error>) {
        proof {
            use_type_invariant(self);
        }
        let (at, found) = locate(&self.db, key);
        proof {
            if found {
                lemma_map_of_at(self.entries(), at as int);
            } else {
                lemma_absent(self.entries(), at as int, key@);
            }
        }
        Ok(found)
    }

    fn batch(&mut self, operations: &[Batch]) -> (r: Result<(), Error>) {
        proof {
            use_type_invariant(&*self);
        }
        let ghost m0 = self.contents();
        let ghost ops = batch_views(operations@);
        let mut db: Vec<KeyValue> = Vec::new();
        core::mem::swap(&mut self.db, &mut db);
        let mut i: usize = 0;
        while i < operations.len()
            invariant
                i <= operations.len(),
                ops == batch_views(operations@),
                ascending(entry_views(db@)),
                map_of(entry_views(db@)) == apply_batch(m0, ops.take(i as int)),
            decreases operations.len() - i,
        {
            proof {
                lemma_apply_batch_push(m0, ops.take(i as int), ops[i as int]);
                assert(ops.take(i as int).push(ops[i as int]) =~= ops.take(i + 1));
            }
            match &operations[i] {
                Batch::BatchPut { key, value } => {
                    insert_entry(&mut db, key.clone(), value.clone());
                },
                Batch::BatchDel { key } => {
                    remove_entry(&mut db, key);
                },
            }
            i += 1;
        }
        proof {
            assert(ops.take(i as int) =~= ops);
        }
        core::mem::swap(&mut self.db, &mut db);
        Ok(())
    }

    fn iter_all_with_prefix<F: Fn(&BaseDbKey, &Vec<u8>) -> bool>(
        &self,
        prefix: &BaseDbKey,
        start: &BaseDbKey,
        f: F,
    ) -> (r: Vec<KeyValue>) {
        let lo = prefix.concat(start);
        self.scan(prefix, &lo, f)
    }

    fn iter_all<F: Fn(&BaseDbKey, &Vec<u8>) -> bool>(&self, start: &BaseDbKey, f: F) -> (r: Vec<KeyValue>) {
        let prefix = BaseDbKey::new(Vec::new());
        self.scan(&prefix, start, f)
    }
}

} // verus!
