use plasma_ledger::error::ErrorKind;
use plasma_ledger::key::BaseDbKey;
use plasma_ledger::kvs::{DatabaseTrait, KeyValueStore};
use plasma_ledger::memory::CoreDbMemoryImpl;
use plasma_ledger::range::{decode_range, encode_value, Range};
use plasma_ledger::rangedb::RangeDbImpl;
use plasma_ledger::rangestore::RangeStore;

fn triples(ranges: &[Range]) -> Vec<(u64, u64, Vec<u8>)> {
    ranges.iter().map(|r| (r.get_start(), r.get_end(), r.get_value().to_vec())).collect()
}

fn apart(ranges: &[Range]) -> bool {
    ranges.iter().all(|r| r.get_start() < r.get_end())
        && ranges.windows(2).all(|w| w[0].get_end() <= w[1].get_start())
}

#[test]
fn put_over_the_end_of_a_range_cuts_it() {
    let mut store = CoreDbMemoryImpl::open("test");
    let mut db = RangeDbImpl::new(store.bucket(&"range".into())).unwrap();
    db.put(0, 100, b"A").unwrap();
    db.put(50, 150, b"B").unwrap();
    let all = db.get(0, 150).unwrap();
    assert_eq!(triples(&all), vec![(0, 50, b"A".to_vec()), (50, 150, b"B".to_vec())]);
    let everything = db.get(0, u64::MAX).unwrap();
    assert_eq!(triples(&everything), vec![(0, 50, b"A".to_vec()), (50, 150, b"B".to_vec())]);
}

#[test]
fn put_inside_a_range_splits_it() {
    let mut store = CoreDbMemoryImpl::open("test");
    let mut db = RangeDbImpl::new(store.bucket(&"range".into())).unwrap();
    db.put(0, 100, b"A").unwrap();
    db.put(40, 60, b"B").unwrap();
    let all = db.get(0, 100).unwrap();
    assert_eq!(
        triples(&all),
        vec![(0, 40, b"A".to_vec()), (40, 60, b"B".to_vec()), (60, 100, b"A".to_vec())]
    );
}

#[test]
fn put_over_several_ranges_removes_the_covered_ones() {
    let mut store = CoreDbMemoryImpl::open("test");
    let mut db = RangeDbImpl::new(store.bucket(&"range".into())).unwrap();
    db.put(0, 10, b"a").unwrap();
    db.put(10, 20, b"b").unwrap();
    db.put(20, 30, b"c").unwrap();
    db.put(40, 50, b"d").unwrap();
    db.put(5, 45, b"X").unwrap();
    let all = db.get(0, 100).unwrap();
    assert_eq!(
        triples(&all),
        vec![(0, 5, b"a".to_vec()), (5, 45, b"X".to_vec()), (45, 50, b"d".to_vec())]
    );
}

#[test]
fn write_then_read_gives_the_written_range() {
    let mut store = CoreDbMemoryImpl::open("test");
    let mut db = RangeDbImpl::new(store.bucket(&"range".into())).unwrap();
    db.put(0, 100, b"A").unwrap();
    db.put(200, 300, b"C").unwrap();
    db.put(50, 250, b"B").unwrap();
    assert_eq!(triples(&db.get(50, 250).unwrap()), vec![(50, 250, b"B".to_vec())]);
}

#[test]
fn delete_then_read_gives_nothing() {
    let mut store = CoreDbMemoryImpl::open("test");
    let mut db = RangeDbImpl::new(store.bucket(&"range".into())).unwrap();
    db.put(0, 100, b"A").unwrap();
    db.put(100, 200, b"B").unwrap();
    let removed = db.del(50, 150).unwrap();
    assert_eq!(triples(&removed), vec![(0, 100, b"A".to_vec()), (100, 200, b"B".to_vec())]);
    assert_eq!(db.get(50, 150).unwrap().len(), 0);
    assert_eq!(
        triples(&db.get(0, 1000).unwrap()),
        vec![(0, 50, b"A".to_vec()), (150, 200, b"B".to_vec())]
    );
}

#[test]
fn del_inside_a_range_leaves_both_ends() {
    let mut store = CoreDbMemoryImpl::open("test");
    let mut db = RangeDbImpl::new(store.bucket(&"range".into())).unwrap();
    db.put(0, 100, b"A").unwrap();
    let removed = db.del(10, 20).unwrap();
    assert_eq!(triples(&removed), vec![(0, 100, b"A".to_vec())]);
    assert_eq!(
        triples(&db.get(0, 100).unwrap()),
        vec![(0, 10, b"A".to_vec()), (20, 100, b"A".to_vec())]
    );
}

#[test]
fn get_meets_only_intersecting_ranges() {
    let mut store = CoreDbMemoryImpl::open("test");
    let mut db = RangeDbImpl::new(store.bucket(&"range".into())).unwrap();
    assert_eq!(db.get(0, 10).unwrap().len(), 0);
    db.put(10, 20, b"a").unwrap();
    db.put(20, 30, b"b").unwrap();
    db.put(30, 40, b"c").unwrap();
    assert_eq!(db.get(0, 10).unwrap().len(), 0);
    assert_eq!(db.get(40, 50).unwrap().len(), 0);
    assert_eq!(triples(&db.get(19, 21).unwrap()), vec![(10, 20, b"a".to_vec()), (20, 30, b"b".to_vec())]);
    assert_eq!(triples(&db.get(20, 30).unwrap()), vec![(20, 30, b"b".to_vec())]);
    assert_eq!(triples(&db.get(29, 30).unwrap()), vec![(20, 30, b"b".to_vec())]);
}

#[test]
fn invalid_bounds_are_rejected_before_any_change() {
    let mut store = CoreDbMemoryImpl::open("test");
    let mut db = RangeDbImpl::new(store.bucket(&"range".into())).unwrap();
    db.put(0, 100, b"A").unwrap();
    assert_eq!(*db.get(5, 5).unwrap_err().kind(), ErrorKind::InvalidRange);
    assert_eq!(*db.get(6, 5).unwrap_err().kind(), ErrorKind::InvalidRange);
    assert_eq!(*db.put(7, 7, b"x").unwrap_err().kind(), ErrorKind::InvalidRange);
    assert_eq!(*db.put(9, 7, b"x").unwrap_err().kind(), ErrorKind::InvalidRange);
    assert_eq!(*db.del(9, 7).unwrap_err().kind(), ErrorKind::InvalidRange);
    assert_eq!(*db.update(9, 9, |_r: Range| b"y".to_vec()).unwrap_err().kind(), ErrorKind::InvalidRange);
    assert_eq!(triples(&db.get(0, 100).unwrap()), vec![(0, 100, b"A".to_vec())]);
}

#[test]
fn update_replaces_the_payload_within_the_interval() {
    let mut store = CoreDbMemoryImpl::open("test");
    let mut db = RangeDbImpl::new(store.bucket(&"range".into())).unwrap();
    db.put(0, 100, b"A").unwrap();
    db.put(100, 200, b"B").unwrap();
    db.put(300, 400, b"C").unwrap();
    db.update(50, 350, |r: Range| {
        let mut v = r.get_value().to_vec();
        v.extend_from_slice(format!("[{},{})", r.get_start(), r.get_end()).as_bytes());
        v
    })
    .unwrap();
    assert_eq!(
        triples(&db.get(0, 1000).unwrap()),
        vec![
            (0, 50, b"A".to_vec()),
            (50, 100, b"A[50,100)".to_vec()),
            (100, 200, b"B[100,200)".to_vec()),
            (300, 350, b"C[300,350)".to_vec()),
            (350, 400, b"C".to_vec()),
        ]
    );
}

#[test]
fn update_inside_one_range_makes_three() {
    let mut store = CoreDbMemoryImpl::open("test");
    let mut db = RangeDbImpl::new(store.bucket(&"range".into())).unwrap();
    db.put(0, 100, b"A").unwrap();
    db.update(10, 20, |_r: Range| b"new".to_vec()).unwrap();
    assert_eq!(
        triples(&db.get(0, 100).unwrap()),
        vec![(0, 10, b"A".to_vec()), (10, 20, b"new".to_vec()), (20, 100, b"A".to_vec())]
    );
}

#[test]
fn ranges_never_overlap_after_a_sequence_of_operations() {
    let mut store = CoreDbMemoryImpl::open("test");
    let mut db = RangeDbImpl::new(store.bucket(&"range".into())).unwrap();
    let mut seed: u64 = 0x2545_f491_4f6c_dd1d;
    for step in 0..300u32 {
        seed ^= seed << 13;
        seed ^= seed >> 7;
        seed ^= seed << 17;
        let a = seed % 64;
        let b = (seed >> 8) % 64;
        let (s, e) = if a < b { (a, b) } else { (b, a + 1) };
        match step % 3 {
            0 => db.put(s, e, &[step as u8]).unwrap(),
            1 => {
                db.del(s, e).unwrap();
            }
            _ => db.update(s, e, |r: Range| vec![r.get_value()[0].wrapping_add(1)]).unwrap(),
        }
        let all = db.get(0, u64::MAX).unwrap();
        assert!(apart(&all));
        if step % 3 == 0 {
            assert_eq!(triples(&db.get(s, e).unwrap()), vec![(s, e, vec![step as u8])]);
        }
        if step % 3 == 1 {
            assert_eq!(db.get(s, e).unwrap().len(), 0);
        }
    }
}

#[test]
fn two_range_stores_in_separate_buckets_do_not_meet() {
    let mut store = CoreDbMemoryImpl::open("test");
    {
        let mut first = RangeDbImpl::new(store.bucket(&"one".into())).unwrap();
        first.put(0, 100, b"A").unwrap();
    }
    {
        let mut second = RangeDbImpl::new(store.bucket(&"two".into())).unwrap();
        assert_eq!(second.get(0, 100).unwrap().len(), 0);
        second.put(50, 60, b"B").unwrap();
    }
    let first = RangeDbImpl::new(store.bucket(&"one".into())).unwrap();
    assert_eq!(triples(&first.get(0, 1000).unwrap()), vec![(0, 100, b"A".to_vec())]);
}

#[test]
fn a_range_is_stored_under_its_end() {
    let mut store = CoreDbMemoryImpl::open("test");
    {
        let mut db = RangeDbImpl::new(store.bucket(&"r".into())).unwrap();
        db.put(5, 0x0102, b"pay").unwrap();
    }
    let stored = store.get(&BaseDbKey::from(&b"r\x00\x00\x00\x00\x00\x00\x01\x02"[..])).unwrap();
    assert_eq!(stored, Some(b"\x00\x00\x00\x00\x00\x00\x00\x05pay".to_vec()));
}

#[test]
fn a_store_with_malformed_entries_is_refused() {
    let mut store = CoreDbMemoryImpl::open("test");
    store.put(&"r-short".into(), b"0123456789").unwrap();
    assert_eq!(*RangeDbImpl::new(store.bucket(&"r-".into())).err().unwrap().kind(), ErrorKind::Malformed);

    let mut store = CoreDbMemoryImpl::open("test");
    store.put(&BaseDbKey::from(&b"r\x00\x00\x00\x00\x00\x00\x00\x09"[..]), b"short").unwrap();
    assert_eq!(*RangeDbImpl::new(store.bucket(&"r".into())).err().unwrap().kind(), ErrorKind::Malformed);

    let mut store = CoreDbMemoryImpl::open("test");
    store.put(&"r".into(), b"0123456789").unwrap();
    assert_eq!(*RangeDbImpl::new(store.bucket(&"r".into())).err().unwrap().kind(), ErrorKind::Malformed);
}

#[test]
fn a_store_with_an_empty_or_overlapping_range_is_refused() {
    let mut store = CoreDbMemoryImpl::open("test");
    store.put(&BaseDbKey::from(9u64), &encode_value(9, b"v")).unwrap();
    assert_eq!(*RangeDbImpl::new(store.root()).err().unwrap().kind(), ErrorKind::Malformed);

    let mut store = CoreDbMemoryImpl::open("test");
    store.put(&BaseDbKey::from(10u64), &encode_value(0, b"a")).unwrap();
    store.put(&BaseDbKey::from(20u64), &encode_value(9, b"b")).unwrap();
    assert_eq!(*RangeDbImpl::new(store.root()).err().unwrap().kind(), ErrorKind::Malformed);

    let mut store = CoreDbMemoryImpl::open("test");
    store.put(&BaseDbKey::from(10u64), &encode_value(0, b"a")).unwrap();
    store.put(&BaseDbKey::from(20u64), &encode_value(10, b"b")).unwrap();
    let db = RangeDbImpl::new(store.root()).unwrap();
    assert_eq!(triples(&db.get(0, 100).unwrap()), vec![(0, 10, b"a".to_vec()), (10, 20, b"b".to_vec())]);
}

#[test]
fn entries_decode_to_ranges() {
    let value = encode_value(0x0a0b, b"xyz");
    assert_eq!(value, b"\x00\x00\x00\x00\x00\x00\x0a\x0bxyz".to_vec());
    let range = decode_range(&[0, 0, 0, 0, 0, 0, 1, 0], &value).unwrap();
    assert_eq!((range.get_start(), range.get_end(), range.get_value()), (0x0a0b, 256, &b"xyz"[..]));
    assert_eq!(range.validate(), false);
    assert_eq!(decode_range(&[0, 0, 0, 0, 0, 0, 1], &value), None);
    assert_eq!(decode_range(&[0, 0, 0, 0, 0, 0, 1, 0], b"1234567"), None);
    assert_eq!(Range::new(1, 2, b"v").validate(), true);
}
