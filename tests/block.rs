use std::sync::Arc;

use mini_lsm::block::Block;
use mini_lsm::block_builder::BlockBuilder;
use mini_lsm::block_iterator::BlockIterator;
use mini_lsm::key::KeyVec;

fn key(s: &str) -> KeyVec {
    KeyVec::from_vec_with_ts(s.as_bytes().to_vec(), 0)
}

fn count_occurrences(hay: &[u8], needle: &[u8]) -> usize {
    hay.windows(needle.len()).filter(|w| *w == needle).count()
}

fn build(entries: &[(&str, &str)], block_size: usize) -> Block {
    let mut b = BlockBuilder::new(block_size);
    for (k, v) in entries {
        assert!(b.add(&key(k), v.as_bytes()));
    }
    b.build()
}

fn scan(block: Block) -> Vec<(Vec<u8>, Vec<u8>)> {
    let mut it = BlockIterator::create_and_seek_to_first(Arc::new(block));
    let mut out = Vec::new();
    while it.is_valid() {
        out.push((it.key().key_ref().to_vec(), it.value().to_vec()));
        it.next();
    }
    out
}

#[test]
fn prefix_compression_scenario() {
    let block = build(&[("apple", "1"), ("application", "2"), ("apply", "3")], 4096);
    assert_eq!(count_occurrences(&block.data, b"apple"), 1);
    assert_eq!(block.offsets.len(), 3);
    // entry 1: overlap 4 ("appl"), rest "ication"
    let e1 = &block.data[block.offsets[1] as usize..block.offsets[2] as usize];
    assert_eq!(u16::from_le_bytes([e1[0], e1[1]]), 4);
    assert_eq!(u16::from_le_bytes([e1[2], e1[3]]), 7);
    assert_eq!(&e1[4..11], b"ication");
    let e2 = &block.data[block.offsets[2] as usize..];
    assert_eq!(u16::from_le_bytes([e2[0], e2[1]]), 4);
    assert_eq!(&e2[4..5], b"y");
    let got = scan(block);
    let keys: Vec<&[u8]> = got.iter().map(|(k, _)| k.as_slice()).collect();
    assert_eq!(keys, vec![&b"apple"[..], &b"application"[..], &b"apply"[..]]);
    assert_eq!(got[1].1, b"2".to_vec());
}

#[test]
fn entry_layout_exact_bytes() {
    let mut b = BlockBuilder::new(4096);
    assert!(b.add(&KeyVec::from_vec_with_ts(b"ab".to_vec(), 0x0102), b"z"));
    let block = b.build();
    let expected: Vec<u8> = vec![0, 0, 2, 0, b'a', b'b', 0x02, 0x01, 0, 0, 0, 0, 0, 0, 1, 0, b'z'];
    assert_eq!(block.data, expected);
    let mut enc = expected.clone();
    enc.extend_from_slice(&[0, 0, 1, 0]);
    assert_eq!(block.encode(), enc);
}

#[test]
fn block_round_trip() {
    let block = build(&[("a", "1"), ("ab", "22"), ("b", "")], 4096);
    let enc = block.encode();
    let dec = Block::decode(&enc).unwrap();
    assert_eq!(dec.data, block.data);
    assert_eq!(dec.offsets, block.offsets);
}

#[test]
fn decode_rejects_corrupt() {
    assert!(Block::decode(&[]).is_err());
    assert!(Block::decode(&[5, 0]).is_err());
    let block = build(&[("a", "1")], 4096);
    let mut enc = block.encode();
    enc[2] = 200; // rest length beyond the entry
    assert!(Block::decode(&enc).is_err());
}

#[test]
fn size_accounting_rejects_full_block() {
    let mut b = BlockBuilder::new(32);
    assert!(b.is_empty());
    assert!(b.add(&key("k1"), b"vvvvvvvvv"));
    assert_eq!(b.block_size(), 25 + 2 + 2);
    assert!(!b.add(&key("k2"), b"vvvvvvvvv"));
    // the first entry is taken whatever its size
    let mut tiny = BlockBuilder::new(1);
    assert!(tiny.add(&key("long-key"), b"long-value"));
}

#[test]
fn seek_in_block() {
    let block = build(&[("b", "1"), ("d", "2"), ("f", "3")], 4096);
    let shared = Arc::new(block);
    let it = BlockIterator::create_and_seek_to_key(shared.clone(), &key("c"));
    assert_eq!(it.key().key_ref(), b"d");
    let it = BlockIterator::create_and_seek_to_key(shared.clone(), &key("a"));
    assert_eq!(it.key().key_ref(), b"b");
    let it = BlockIterator::create_and_seek_to_key(shared.clone(), &key("d"));
    assert_eq!(it.value(), b"2");
    let it = BlockIterator::create_and_seek_to_key(shared, &key("g"));
    assert!(!it.is_valid());
}

#[test]
fn timestamps_order_newer_first() {
    let mut b = BlockBuilder::new(4096);
    assert!(b.add(&KeyVec::from_vec_with_ts(b"k".to_vec(), 9), b"new"));
    assert!(b.add(&KeyVec::from_vec_with_ts(b"k".to_vec(), 3), b"old"));
    let shared = Arc::new(b.build());
    let it = BlockIterator::create_and_seek_to_key(shared, &KeyVec::from_vec_with_ts(b"k".to_vec(), 5));
    assert_eq!(it.key().ts(), 3);
    assert_eq!(it.value(), b"old");
}

#[test]
fn next_past_end_stays_invalid() {
    let block = build(&[("a", "1")], 4096);
    let mut it = BlockIterator::create_and_seek_to_first(Arc::new(block));
    assert!(it.is_valid());
    it.next();
    assert!(!it.is_valid());
    it.next();
    it.next();
    assert!(!it.is_valid());
}
