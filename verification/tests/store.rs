use std::cell::Cell;

use plasma_ledger::key::{BaseDbKey, KeyOrder};
use plasma_ledger::kvs::{Batch, Bucket, DatabaseTrait, KeyValueStore};
use plasma_ledger::memory::CoreDbMemoryImpl;

fn key(bytes: &[u8]) -> BaseDbKey {
    BaseDbKey::from(bytes)
}

#[test]
fn test_bucket() {
    let mut core_db = CoreDbMemoryImpl::open("test");
    let mut root: Bucket<CoreDbMemoryImpl> = core_db.root();
    let mut bucket: Bucket<CoreDbMemoryImpl> = root.bucket(&b"a"[..].into());
    assert_eq!(bucket.put(&b"b"[..].into(), &b"value"[..]).is_ok(), true);
    let result = root.get(&b"ab"[..].into());
    assert_eq!(result.is_ok(), true);
    assert_eq!(result.ok().unwrap().unwrap(), b"value".to_vec());
}

#[test]
fn test_iter() {
    let mut core_db = CoreDbMemoryImpl::open("test");
    let mut root: Bucket<CoreDbMemoryImpl> = core_db.root();
    {
        let mut bucket_a: Bucket<CoreDbMemoryImpl> = root.bucket(&"a".into());
        assert_eq!(bucket_a.put(&"0".into(), &b"value"[..]).is_ok(), true);
        assert_eq!(bucket_a.put(&"1".into(), &b"value"[..]).is_ok(), true);
    }
    {
        let mut bucket_b: Bucket<CoreDbMemoryImpl> = root.bucket(&"b".into());
        assert_eq!(bucket_b.put(&"0".into(), &b"value"[..]).is_ok(), true);
    }
    let bucket_a: Bucket<CoreDbMemoryImpl> = root.bucket(&"a".into());
    let result = bucket_a.iter_all(&"".into(), Box::new(move |_k: &BaseDbKey, _v: &Vec<u8>| true));
    assert_eq!(result.len(), 2);
}

#[test]
fn a_closed_store_keeps_what_it_held() {
    let mut db = CoreDbMemoryImpl::open("test");
    db.put(&key(b"k"), b"v").unwrap();
    db.close();
    assert_eq!(db.get(&key(b"k")).unwrap(), Some(b"v".to_vec()));
    let other = CoreDbMemoryImpl::open("test");
    assert_eq!(other.get(&key(b"k")).unwrap(), None);
}

#[test]
fn get_of_an_absent_key_is_none() {
    let db = CoreDbMemoryImpl::open("test");
    assert_eq!(db.get(&key(b"missing")).unwrap(), None);
    assert_eq!(db.has(&key(b"missing")).unwrap(), false);
}

#[test]
fn put_replaces_and_del_removes() {
    let mut db = CoreDbMemoryImpl::open("test");
    db.put(&key(b"k"), b"one").unwrap();
    db.put(&key(b"k"), b"two").unwrap();
    assert_eq!(db.get(&key(b"k")).unwrap(), Some(b"two".to_vec()));
    assert_eq!(db.has(&key(b"k")).unwrap(), true);
    db.del(&key(b"k")).unwrap();
    assert_eq!(db.get(&key(b"k")).unwrap(), None);
    assert_eq!(db.has(&key(b"k")).unwrap(), false);
    db.del(&key(b"k")).unwrap();
    assert_eq!(db.get(&key(b"k")).unwrap(), None);
}

#[test]
fn batch_applies_operations_in_order() {
    let mut db = CoreDbMemoryImpl::open("test");
    db.put(&key(b"a"), b"old").unwrap();
    let ops = vec![
        Batch::BatchPut { key: key(b"b"), value: b"1".to_vec() },
        Batch::BatchDel { key: key(b"a") },
        Batch::BatchPut { key: key(b"c"), value: b"2".to_vec() },
        Batch::BatchDel { key: key(b"c") },
        Batch::BatchPut { key: key(b"a"), value: b"new".to_vec() },
    ];
    db.batch(&ops).unwrap();
    assert_eq!(db.get(&key(b"a")).unwrap(), Some(b"new".to_vec()));
    assert_eq!(db.get(&key(b"b")).unwrap(), Some(b"1".to_vec()));
    assert_eq!(db.get(&key(b"c")).unwrap(), None);
}

#[test]
fn iter_all_is_ascending_and_strictly_above_start() {
    let mut db = CoreDbMemoryImpl::open("test");
    for k in [&b"c"[..], &b"a"[..], &b"b"[..], &b"ab"[..], &b""[..]] {
        db.put(&key(k), k).unwrap();
    }
    let all = db.iter_all(&key(b""), |_k: &BaseDbKey, _v: &Vec<u8>| true);
    let keys: Vec<Vec<u8>> = all.iter().map(|e| e.get_key().as_bytes().to_vec()).collect();
    assert_eq!(keys, vec![b"a".to_vec(), b"ab".to_vec(), b"b".to_vec(), b"c".to_vec()]);
    let above_a = db.iter_all(&key(b"a"), |_k: &BaseDbKey, _v: &Vec<u8>| true);
    let keys: Vec<Vec<u8>> = above_a.iter().map(|e| e.get_key().as_bytes().to_vec()).collect();
    assert_eq!(keys, vec![b"ab".to_vec(), b"b".to_vec(), b"c".to_vec()]);
    assert_eq!(above_a[0].get_value(), &b"ab".to_vec());
}

#[test]
fn scan_stops_at_the_first_rejected_entry() {
    let mut db = CoreDbMemoryImpl::open("test");
    db.put(&key(b"k1"), b"1").unwrap();
    db.put(&key(b"k2"), b"2").unwrap();
    db.put(&key(b"k3"), b"3").unwrap();
    let visits = Cell::new(0u32);
    let saw_k3 = Cell::new(false);
    let result = db.iter_all(&key(b""), |k: &BaseDbKey, _v: &Vec<u8>| {
        visits.set(visits.get() + 1);
        if k.as_bytes() == b"k3" {
            saw_k3.set(true);
        }
        k.as_bytes() != b"k2"
    });
    assert_eq!(result.len(), 1);
    assert_eq!(result[0].get_key().as_bytes(), b"k1");
    assert_eq!(visits.get(), 2);
    assert_eq!(saw_k3.get(), false);
}

#[test]
fn scan_with_prefix_stops_where_the_prefix_ends() {
    let mut db = CoreDbMemoryImpl::open("test");
    for k in [&b"a0"[..], &b"a1"[..], &b"a2"[..], &b"b0"[..], &b"9"[..]] {
        db.put(&key(k), b"v").unwrap();
    }
    let visits = Cell::new(0u32);
    let found = db.iter_all_with_prefix(&key(b"a"), &key(b"0"), |_k: &BaseDbKey, _v: &Vec<u8>| {
        visits.set(visits.get() + 1);
        true
    });
    let keys: Vec<Vec<u8>> = found.iter().map(|e| e.get_key().as_bytes().to_vec()).collect();
    assert_eq!(keys, vec![b"a1".to_vec(), b"a2".to_vec()]);
    assert_eq!(visits.get(), 2);
}

#[test]
fn buckets_with_unrelated_prefixes_are_isolated() {
    let mut db = CoreDbMemoryImpl::open("test");
    {
        let mut b1 = db.bucket(&key(b"x"));
        b1.put(&key(b"k"), b"v").unwrap();
        assert_eq!(b1.get(&key(b"k")).unwrap(), Some(b"v".to_vec()));
        assert_eq!(b1.has(&key(b"k")).unwrap(), true);
    }
    {
        let b2 = db.bucket(&key(b"y"));
        assert_eq!(b2.get(&key(b"k")).unwrap(), None);
        assert_eq!(b2.has(&key(b"k")).unwrap(), false);
        assert_eq!(b2.iter_all(&key(b""), |_k: &BaseDbKey, _v: &Vec<u8>| true).len(), 0);
    }
    assert_eq!(db.get(&key(b"xk")).unwrap(), Some(b"v".to_vec()));
}

#[test]
fn a_prefix_of_a_prefix_sees_the_longer_namespace() {
    let mut db = CoreDbMemoryImpl::open("test");
    {
        let mut ab = db.bucket(&key(b"ab"));
        ab.put(&key(b"k"), b"v").unwrap();
    }
    let a = db.bucket(&key(b"a"));
    assert_eq!(a.get(&key(b"bk")).unwrap(), Some(b"v".to_vec()));
}

#[test]
fn bucket_batch_and_del_keep_to_the_namespace() {
    let mut db = CoreDbMemoryImpl::open("test");
    db.put(&key(b"k"), b"outside").unwrap();
    {
        let mut b = db.bucket(&key(b"n/"));
        let ops = vec![
            Batch::BatchPut { key: key(b"k"), value: b"inside".to_vec() },
            Batch::BatchPut { key: key(b"j"), value: b"other".to_vec() },
        ];
        b.batch(&ops).unwrap();
        b.del(&key(b"j")).unwrap();
        let listed = b.iter_all(&key(b""), |_k: &BaseDbKey, _v: &Vec<u8>| true);
        assert_eq!(listed.len(), 1);
        assert_eq!(listed[0].get_key().as_bytes(), b"n/k");
        assert_eq!(listed[0].get_value(), &b"inside".to_vec());
    }
    assert_eq!(db.get(&key(b"k")).unwrap(), Some(b"outside".to_vec()));
    assert_eq!(db.get(&key(b"n/k")).unwrap(), Some(b"inside".to_vec()));
    assert_eq!(db.get(&key(b"n/j")).unwrap(), None);
}

#[test]
fn keys_compare_lexicographically() {
    assert_eq!(key(b"a").compare(&key(b"b")), KeyOrder::Less);
    assert_eq!(key(b"a").compare(&key(b"ab")), KeyOrder::Less);
    assert_eq!(key(b"ab").compare(&key(b"b")), KeyOrder::Less);
    assert_eq!(key(b"b").compare(&key(b"ab")), KeyOrder::Greater);
    assert_eq!(key(b"ab").compare(&key(b"ab")), KeyOrder::Equal);
    assert_eq!(key(b"").compare(&key(b"")), KeyOrder::Equal);
    assert_eq!(key(b"\xff").compare(&key(b"\x00\x00")), KeyOrder::Greater);
}

#[test]
fn keys_of_numbers_are_big_endian_and_ordered_as_the_numbers() {
    assert_eq!(BaseDbKey::from(1u64).as_bytes(), &[0, 0, 0, 0, 0, 0, 0, 1]);
    assert_eq!(BaseDbKey::from(0x0102030405060708u64).as_bytes(), &[1, 2, 3, 4, 5, 6, 7, 8]);
    assert_eq!(BaseDbKey::from(255u64).compare(&BaseDbKey::from(256u64)), KeyOrder::Less);
    assert_eq!(BaseDbKey::from(u64::MAX).compare(&BaseDbKey::from(0u64)), KeyOrder::Greater);
}

#[test]
fn concat_and_prefix() {
    let k = key(b"ab").concat(&key(b"cd"));
    assert_eq!(k.as_bytes(), b"abcd");
    assert_eq!(k.has_prefix(&key(b"ab")), true);
    assert_eq!(k.has_prefix(&key(b"")), true);
    assert_eq!(k.has_prefix(&key(b"abcde")), false);
    assert_eq!(k.has_prefix(&key(b"b")), false);
    assert_eq!(BaseDbKey::from("abcd"), k);
}
