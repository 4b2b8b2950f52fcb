use plasma_ledger::error::ErrorKind;
use plasma_ledger::faulty::FaultyDb;
use plasma_ledger::kvs::{Batch, DatabaseTrait, KeyValueStore};
use plasma_ledger::memory::CoreDbMemoryImpl;
use plasma_ledger::range::Range;
use plasma_ledger::rangedb::RangeDbImpl;
use plasma_ledger::rangestore::RangeStore;

fn triples(ranges: &[Range]) -> Vec<(u64, u64, Vec<u8>)> {
    ranges.iter().map(|r| (r.get_start(), r.get_end(), r.get_value().to_vec())).collect()
}

#[test]
fn a_fault_of_the_backend_is_an_io_error() {
    let mut store = FaultyDb::new(CoreDbMemoryImpl::open("test"));
    store.put(&"k".into(), b"v").unwrap();
    store.set_failing(true, true);
    assert_eq!(*store.get(&"k".into()).unwrap_err().kind(), ErrorKind::Io);
    assert_eq!(*store.has(&"k".into()).unwrap_err().kind(), ErrorKind::Io);
    assert_eq!(*store.put(&"k".into(), b"w").unwrap_err().kind(), ErrorKind::Io);
    assert_eq!(*store.del(&"k".into()).unwrap_err().kind(), ErrorKind::Io);
    assert_eq!(
        *store.batch(&[Batch::BatchDel { key: "k".into() }]).unwrap_err().kind(),
        ErrorKind::Io
    );
    {
        let mut bucket = store.bucket(&"".into());
        assert_eq!(*bucket.get(&"k".into()).unwrap_err().kind(), ErrorKind::Io);
        assert_eq!(*bucket.has(&"k".into()).unwrap_err().kind(), ErrorKind::Io);
        assert_eq!(*bucket.put(&"k".into(), b"w").unwrap_err().kind(), ErrorKind::Io);
        assert_eq!(*bucket.del(&"k".into()).unwrap_err().kind(), ErrorKind::Io);
        assert_eq!(*bucket.batch(&[]).unwrap_err().kind(), ErrorKind::Io);
    }
    store.set_failing(false, false);
    assert_eq!(store.get(&"k".into()).unwrap(), Some(b"v".to_vec()));
}

#[test]
fn a_failed_write_leaves_the_ranges_as_they_were() {
    let mut store = FaultyDb::new(CoreDbMemoryImpl::open("test"));
    {
        let mut db = RangeDbImpl::new(store.bucket(&"r".into())).unwrap();
        db.put(0, 100, b"A").unwrap();
    }
    store.set_failing(false, true);
    {
        let mut db = RangeDbImpl::new(store.bucket(&"r".into())).unwrap();
        assert_eq!(*db.put(50, 150, b"B").unwrap_err().kind(), ErrorKind::Io);
        assert_eq!(*db.del(50, 150).unwrap_err().kind(), ErrorKind::Io);
        assert_eq!(*db.update(50, 150, |_r: Range| b"C".to_vec()).unwrap_err().kind(), ErrorKind::Io);
        assert_eq!(*db.put(150, 50, b"B").unwrap_err().kind(), ErrorKind::InvalidRange);
        assert_eq!(triples(&db.get(0, 1000).unwrap()), vec![(0, 100, b"A".to_vec())]);
    }
    store.set_failing(false, false);
    let db = RangeDbImpl::new(store.bucket(&"r".into())).unwrap();
    assert_eq!(triples(&db.get(0, 1000).unwrap()), vec![(0, 100, b"A".to_vec())]);
}

#[test]
fn a_store_that_cannot_be_read_is_not_opened_as_a_range_store() {
    let mut store = FaultyDb::new(CoreDbMemoryImpl::open("test"));
    store.set_failing(true, false);
    assert_eq!(*RangeDbImpl::new(store.bucket(&"r".into())).err().unwrap().kind(), ErrorKind::Io);
}
