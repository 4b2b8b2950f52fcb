//! A backend whose operations can be made to fail, for exercising the
//! error paths of what is built on a store.
use vstd::prelude::*;
use crate::bucket::Bucket;
use crate::error::{Error, ErrorKind};
use crate::key::BaseDbKey;
use crate::kvs::{Batch, Contents, KeyValue, KeyValueStore};
use crate::memory::CoreDbMemoryImpl;

verus! {

/// An in-memory store with two switches: while `fail_reads` is set, `get`
/// and `has` report a fault; while `fail_writes` is set, `put`, `del` and
/// `batch` report a fault and change nothing.
pub struct FaultyDb {
    inner: CoreDbMemoryImpl,
    fail_reads: bool,
    fail_writes: bool,
}

impl FaultyDb {
    /// Whether reads fail.
    pub closed spec fn reads_fail(&self) -> bool {
        self.fail_reads
    }

    /// Whether writes fail.
    pub closed spec fn writes_fail(&self) -> bool {
        self.fail_writes
    }

    /// A store over `inner` with both switches off.
    pub fn new(inner: CoreDbMemoryImpl) -> (db: FaultyDb)
        ensures
            db.contents() == inner.contents(),
            !db.reads_fail(),
            !db.writes_fail(),
    {
        FaultyDb { inner, fail_reads: false, fail_writes: false }
    }

    /// Sets the two switches.
    pub fn set_failing(&mut self, reads: bool, writes: bool)
        ensures
            final(self).contents() == old(self).contents(),
            final(self).reads_fail() == reads,
            final(self).writes_fail() == writes,
    {
        self.fail_reads = reads;
        self.fail_writes = writes;
    }

    /// A view of this store that keeps to the keys starting with `prefix`.
    pub fn bucket<'a>(&'a mut self, prefix: &BaseDbKey) -> (b: Bucket<'a, FaultyDb>)
        ensures
            b.prefix@ == prefix@,
            *b.store == *old(self),
            *final(self) == *final(b.store),
    {
        Bucket::new(prefix.clone(), self)
    }
}

impl KeyValueStore for FaultyDb {
    closed spec fn contents(&self) -> Contents {
        self.inner.contents()
    }

    open spec fn infallible(&self) -> bool {
        !self.reads_fail() && !self.writes_fail()
    }

    fn get(&self, key: &BaseDbKey) -> (r: Result<Option<Vec<u8>>, Error>)
        ensures
            r is Err <==> self.reads_fail(),
    {
        if self.fail_reads {
            return Err(Error::new(ErrorKind::Io));
        }
        self.inner.get(key)
    }

    fn put(&mut self, key: &BaseDbKey, value: &[u8]) -> (r: Result<(), Error>)
        ensures
            r is Err <==> old(self).writes_fail(),
            final(self).reads_fail() == old(self).reads_fail(),
            final(self).writes_fail() == old(self).writes_fail(),
    {
        if self.fail_writes {
            return Err(Error::new(ErrorKind::Io));
        }
        self.inner.put(key, value)
    }

    fn del(&mut self, key: &BaseDbKey) -> (r: Result<(), Error>)
        ensures
            r is Err <==> old(self).writes_fail(),
            final(self).reads_fail() == old(self).reads_fail(),
            final(self).writes_fail() == old(self).writes_fail(),
    {
        if self.fail_writes {
            return Err(Error::new(ErrorKind::Io));
        }
        self.inner.del(key)
    }

    fn has(&self, key: &BaseDbKey) -> (r: Result<bool, Error>)
        ensures
            r is Err <==> self.reads_fail(),
    {
        if self.fail_reads {
            return Err(Error::new(ErrorKind::Io));
        }
        self.inner.has(key)
    }

    fn batch(&mut self, operations: &[Batch]) -> (r: Result<(), Error>)
        ensures
            r is Err <==> old(self).writes_fail(),
            final(self).reads_fail() == old(self).reads_fail(),
            final(self).writes_fail() == old(self).writes_fail(),
    {
        if self.fail_writes {
            return Err(Error::new(ErrorKind::Io));
        }
        self.inner.batch(operations)
    }

    fn iter_all_with_prefix<F: Fn(&BaseDbKey, &Vec<u8>) -> bool>(
        &self,
        prefix: &BaseDbKey,
        start: &BaseDbKey,
        f: F,
    ) -> (r: Vec<KeyValue>) {
        self.inner.iter_all_with_prefix(prefix, start, f)
    }

    fn iter_all<F: Fn(&BaseDbKey, &Vec<u8>) -> bool>(&self, start: &BaseDbKey, f: F) -> (r: Vec<KeyValue>) {
        self.inner.iter_all(start, f)
    }
}

} // verus!
