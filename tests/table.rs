use std::sync::Arc;

use mini_lsm::key::KeyVec;
use mini_lsm::lsm_iterator::{LsmIterator, StorageIterator, UpperBound};
use mini_lsm::table::{SsTable, StorageError};
use mini_lsm::table_builder::{key_hash, SsTableBuilder};
use mini_lsm::table_iterator::SsTableIterator;
use mini_lsm::concat_iterator::SstConcatIterator;

fn key(s: &str) -> KeyVec {
    KeyVec::from_vec_with_ts(s.as_bytes().to_vec(), 0)
}

fn table(entries: &[(&str, &str)], block_size: usize, id: usize) -> SsTable {
    let mut b = SsTableBuilder::new(block_size);
    for (k, v) in entries {
        b.add(&key(k), v.as_bytes());
    }
    b.build(id).unwrap()
}

fn scan(it: &mut SsTableIterator) -> Vec<(String, String)> {
    let mut out = Vec::new();
    while it.is_valid() {
        out.push((
            String::from_utf8(it.key().key_ref().to_vec()).unwrap(),
            String::from_utf8(it.value().to_vec()).unwrap(),
        ));
        it.next().unwrap();
    }
    out
}

const BOUNDARY: [(&str, &str); 3] = [("k1", "vvvvvvvvv"), ("k2", "vvvvvvvvv"), ("k3", "vvvvvvvvv")];

#[test]
fn empty_scan_filters_tombstone() {
    let t = Arc::new(table(&[("a", "1"), ("b", "")], 4096, 1));
    let inner = SsTableIterator::create_and_seek_to_first(t).unwrap();
    let mut it = LsmIterator::new(inner, UpperBound::Unbounded).unwrap();
    let mut got = Vec::new();
    while StorageIterator::is_valid(&it) {
        got.push((StorageIterator::key(&it).to_vec(), StorageIterator::value(&it).to_vec()));
        StorageIterator::next(&mut it).unwrap();
    }
    assert_eq!(got, vec![(b"a".to_vec(), b"1".to_vec())]);
}

#[test]
fn upper_bound_stops_scan() {
    let t = Arc::new(table(&[("a", "1"), ("b", "2"), ("c", "3")], 4096, 1));
    let inner = SsTableIterator::create_and_seek_to_first(t.clone()).unwrap();
    let mut it = LsmIterator::new(inner, UpperBound::Excluded(b"c".to_vec())).unwrap();
    let mut got = Vec::new();
    while StorageIterator::is_valid(&it) {
        got.push(StorageIterator::key(&it).to_vec());
        StorageIterator::next(&mut it).unwrap();
    }
    assert_eq!(got, vec![b"a".to_vec(), b"b".to_vec()]);
    let inner = SsTableIterator::create_and_seek_to_first(t).unwrap();
    let mut it = LsmIterator::new(inner, UpperBound::Included(b"b".to_vec())).unwrap();
    let mut n = 0;
    while StorageIterator::is_valid(&it) {
        n += 1;
        StorageIterator::next(&mut it).unwrap();
    }
    assert_eq!(n, 2);
}

#[test]
fn block_boundary_scenario() {
    let t = table(&BOUNDARY, 32, 1);
    assert!(t.num_of_blocks() == 2 || t.num_of_blocks() == 3);
    let mut it = SsTableIterator::create_and_seek_to_first(Arc::new(t)).unwrap();
    let got = scan(&mut it);
    let want: Vec<(String, String)> = BOUNDARY.iter().map(|(k, v)| (k.to_string(), v.to_string())).collect();
    assert_eq!(got, want);
}

#[test]
fn seek_across_blocks_scenario() {
    let t = Arc::new(table(&BOUNDARY, 32, 1));
    let it = SsTableIterator::create_and_seek_to_key(t.clone(), &key("k2")).unwrap();
    assert_eq!(it.key().key_ref(), b"k2");
    let it = SsTableIterator::create_and_seek_to_key(t.clone(), &key("k0")).unwrap();
    assert_eq!(it.key().key_ref(), b"k1");
    let it = SsTableIterator::create_and_seek_to_key(t, &key("k9")).unwrap();
    assert!(!it.is_valid());
}

#[test]
fn reopen_gives_same_index() {
    let t = table(&[("a", "1"), ("b", "2"), ("c", "3"), ("d", "4")], 40, 7);
    let bytes = t.file_bytes().to_vec();
    let re = SsTable::open(7, bytes).unwrap();
    assert_eq!(re.num_of_blocks(), t.num_of_blocks());
    assert_eq!(re.first_key(), t.first_key());
    assert_eq!(re.last_key(), t.last_key());
    assert_eq!(re.first_key(), &b"a".to_vec());
    assert_eq!(re.last_key(), &b"d".to_vec());
    for (x, y) in re.block_meta().iter().zip(t.block_meta().iter()) {
        assert_eq!(x.offset, y.offset);
        assert_eq!(x.first_key, y.first_key);
        assert_eq!(x.last_key, y.last_key);
    }
    assert_eq!(re.table_size(), t.table_size());
    assert_eq!(re.sst_id(), 7);
}

#[test]
fn open_rejects_truncated_file() {
    let t = table(&[("a", "1")], 4096, 1);
    let bytes = t.file_bytes().to_vec();
    assert_eq!(SsTable::open(1, bytes[..bytes.len() - 1].to_vec()).err(), Some(StorageError::CorruptSst));
    assert!(SsTable::open(1, vec![0, 0]).is_err());
}

#[test]
fn bloom_holds_every_key_fingerprint() {
    let keys = ["apple", "banana", "cherry", "durian"];
    let entries: Vec<(&str, &str)> = keys.iter().map(|k| (*k, "v")).collect();
    let t = table(&entries, 64, 1);
    let bloom = t.bloom().as_ref().unwrap();
    assert_eq!(bloom.k, 6);
    for k in keys {
        assert!(bloom.may_contain(key_hash(k.as_bytes())));
    }
    let misses = (0..200u32)
        .filter(|i| bloom.may_contain(key_hash(format!("absent-{i}").as_bytes())))
        .count();
    assert!(misses < 100);
}

#[test]
fn estimated_size_counts_open_block() {
    let mut b = SsTableBuilder::new(4096);
    b.add(&key("a"), b"1");
    assert_eq!(b.estimated_size(), 16 + 2 + 2);
}

#[test]
fn concat_cursor_chains_tables() {
    let t1 = Arc::new(table(&[("a", "1"), ("b", "2")], 4096, 1));
    let t2 = Arc::new(table(&[("c", "3"), ("d", "4")], 4096, 2));
    let t3 = Arc::new(table(&[("e", "5")], 4096, 3));
    let tables = vec![t1, t2, t3];
    let mut it = SstConcatIterator::create_and_seek_to_first(tables.clone()).unwrap();
    let mut got = Vec::new();
    while it.is_valid() {
        got.push(it.key().key_ref().to_vec());
        it.next().unwrap();
    }
    assert_eq!(got, vec![b"a".to_vec(), b"b".to_vec(), b"c".to_vec(), b"d".to_vec(), b"e".to_vec()]);
    assert_eq!(it.num_active_iterators(), 1);
    let it = SstConcatIterator::create_and_seek_to_key(tables.clone(), &key("c")).unwrap();
    assert_eq!(it.key().key_ref(), b"c");
    let it = SstConcatIterator::create_and_seek_to_key(tables, &key("bb")).unwrap();
    assert_eq!(it.key().key_ref(), b"c");
    let empty = SstConcatIterator::create_and_seek_to_first(Vec::new()).unwrap();
    assert!(!empty.is_valid());
}

#[test]
fn key_hash_is_low_half_of_fingerprint() {
    let k = b"hello world";
    assert_eq!(key_hash(k), (farmhash::fingerprint64(k) & 0xFFFF_FFFF) as u32);
    assert_ne!(key_hash(b"abcde"), key_hash(b"abcdf"));
    // keys of every length class hash without overflow
    for n in 0..40 {
        let key = vec![0xFFu8; n];
        let _ = key_hash(&key);
    }
}

#[test]
fn seek_past_last_key_is_ok_and_invalid() {
    let t = Arc::new(table(&BOUNDARY, 32, 1));
    let mut it = SsTableIterator::create_and_seek_to_first(t).unwrap();
    assert_eq!(it.seek_to_key(&key("k9")), Ok(()));
    assert!(!it.is_valid());
    assert_eq!(it.next(), Ok(()));
    assert!(!it.is_valid());
    assert_eq!(it.seek_to_key(&key("k2")), Ok(()));
    assert_eq!(it.value(), b"vvvvvvvvv");
}
