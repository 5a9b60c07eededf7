use std::cmp::Ordering;
use std::sync::Arc;

use bytes::Bytes;
use hummock_block::block::{Block, Header};
use hummock_block::block_iterator::{BlockIterator, SeekPos};
use hummock_block::comparator::VersionedComparator;

fn common_prefix(a: &[u8], b: &[u8]) -> usize {
    a.iter().zip(b.iter()).take_while(|(x, y)| x == y).count()
}

fn encode_entries(entries: &[(Vec<u8>, Vec<u8>)]) -> (Vec<u8>, Vec<usize>) {
    let mut data = Vec::new();
    let mut offsets = Vec::new();
    let base = entries.first().map(|e| e.0.clone()).unwrap_or_default();
    for (i, (k, v)) in entries.iter().enumerate() {
        offsets.push(data.len());
        let overlap = if i == 0 { 0 } else { common_prefix(&base, k) };
        let header = Header {
            overlap: overlap as u16,
            diff: (k.len() - overlap) as u16,
        };
        header.encode(&mut data);
        data.extend_from_slice(&k[overlap..]);
        data.extend_from_slice(v);
    }
    (data, offsets)
}

fn build_block(entries: &[(Vec<u8>, Vec<u8>)]) -> Arc<Block> {
    let (data, offsets) = encode_entries(entries);
    Arc::new(Block::new(Bytes::from(data), offsets).expect("well-formed block"))
}

fn test_entries() -> Vec<(Vec<u8>, Vec<u8>)> {
    (0..10)
        .map(|i| {
            (
                format!("key_test_{}", i).into_bytes(),
                format!("val_{}", i).into_bytes(),
            )
        })
        .collect()
}

#[test]
fn basic_test() {
    let block = build_block(&test_entries());
    let mut blk_iter = BlockIterator::new(block);
    let mut idx = 0;
    blk_iter.seek_to_first();
    loop {
        assert_eq!(blk_iter.key().unwrap(), format!("key_test_{}", idx).as_bytes());
        assert_eq!(blk_iter.value().unwrap(), format!("val_{}", idx).as_bytes());
        blk_iter.next();
        if blk_iter.data().is_none() {
            break;
        } else {
            idx += 1;
        }
    }
    assert_eq!(idx, 9);

    blk_iter.seek_to_first();
    assert_eq!(blk_iter.key().unwrap(), b"key_test_0");

    blk_iter.seek_to_last();
    assert_eq!(blk_iter.key().unwrap(), b"key_test_9");

    idx = 9;
    loop {
        assert_eq!(blk_iter.key().unwrap(), format!("key_test_{}", idx).as_bytes());
        assert_eq!(blk_iter.value().unwrap(), format!("val_{}", idx).as_bytes());
        blk_iter.prev();
        if blk_iter.data().is_none() {
            break;
        } else {
            idx -= 1;
        }
    }
    assert_eq!(idx, 0);

    blk_iter.seek(b"key_test_4", SeekPos::Origin);
    assert_eq!(blk_iter.key().unwrap(), b"key_test_4");

    blk_iter.seek(b"key_test_0", SeekPos::Origin);
    assert_eq!(blk_iter.key().unwrap(), b"key_test_0");

    blk_iter.seek(b"key_test", SeekPos::Origin);
    assert_eq!(blk_iter.key().unwrap(), b"key_test_0");

    blk_iter.seek(b"key_test_9", SeekPos::Origin);
    assert_eq!(blk_iter.key().unwrap(), b"key_test_9");

    blk_iter.seek(b"key_test_99", SeekPos::Origin);
    assert!(blk_iter.data().is_none());

    blk_iter.set_idx(3);
    blk_iter.seek(b"key_test_0", SeekPos::Current);
    assert_eq!(blk_iter.key().unwrap(), b"key_test_3");
}

#[test]
fn forward_traversal_ends_after_last() {
    let entries = test_entries();
    let mut it = BlockIterator::new(build_block(&entries));
    it.seek_to_first();
    for (k, v) in entries.iter().skip(1) {
        assert!(it.next());
        assert_eq!(it.data().unwrap(), (&k[..], &v[..]));
    }
    assert!(it.is_last());
    assert!(!it.next());
    assert!(!it.is_valid());
    assert!(!it.next());
    assert!(it.prev());
    assert_eq!(it.key().unwrap(), b"key_test_9");
}

#[test]
fn backward_traversal_ends_before_first() {
    let entries = test_entries();
    let mut it = BlockIterator::new(build_block(&entries));
    it.seek_to_last();
    let mut seen = vec![it.key().unwrap().to_vec()];
    while it.prev() {
        seen.push(it.key().unwrap().to_vec());
    }
    assert_eq!(seen.len(), 10);
    let expected: Vec<Vec<u8>> = entries.iter().rev().map(|e| e.0.clone()).collect();
    assert_eq!(seen, expected);
    assert!(it.data().is_none());
    assert!(it.next());
    assert_eq!(it.key().unwrap(), b"key_test_0");
}

#[test]
fn seek_between_and_beyond_keys() {
    let entries = vec![
        (b"apple_key_01".to_vec(), b"a".to_vec()),
        (b"apricot_k_02".to_vec(), b"b".to_vec()),
        (b"banana_ke_03".to_vec(), b"c".to_vec()),
    ];
    let mut it = BlockIterator::new(build_block(&entries));
    for (k, v) in &entries {
        it.seek(k, SeekPos::Origin);
        assert_eq!(it.data().unwrap(), (&k[..], &v[..]));
    }
    it.seek(b"apricot_k_01", SeekPos::Origin);
    assert_eq!(it.key().unwrap(), b"apricot_k_02");
    it.seek_le(b"apricot_k_01", SeekPos::Origin);
    assert_eq!(it.key().unwrap(), b"apple_key_01");
    it.seek(b"aaaaaaaaaaaa", SeekPos::Origin);
    assert_eq!(it.key().unwrap(), b"apple_key_01");
    it.seek(b"zzzzzzzzzzzz", SeekPos::Origin);
    assert!(it.key().is_none());
    assert!(!it.is_valid());
}

#[test]
fn seek_le_lands_on_floor() {
    let mut it = BlockIterator::new(build_block(&test_entries()));
    for i in 0..10 {
        let k = format!("key_test_{}", i);
        it.seek_le(k.as_bytes(), SeekPos::Origin);
        assert_eq!(it.key().unwrap(), k.as_bytes());
    }
    // user key "key" sorts after every stored user key "ke"
    it.seek_le(b"key_test_45", SeekPos::Origin);
    assert_eq!(it.key().unwrap(), b"key_test_9");
    it.seek_le(b"key_test", SeekPos::Origin);
    assert!(it.data().is_none());
    it.seek_le(b"key_test_99", SeekPos::Origin);
    assert_eq!(it.key().unwrap(), b"key_test_9");
}

#[test]
fn seek_le_current_window() {
    let mut it = BlockIterator::new(build_block(&test_entries()));
    it.set_idx(5);
    it.seek_le(b"key_test_99", SeekPos::Current);
    assert_eq!(it.key().unwrap(), b"key_test_5");
    it.seek_le(b"key_test_2", SeekPos::Current);
    assert_eq!(it.key().unwrap(), b"key_test_2");
    it.set_idx(-1);
    it.seek_le(b"key_test_99", SeekPos::Current);
    assert!(it.data().is_none());
}

#[test]
fn seek_current_never_moves_back() {
    let mut it = BlockIterator::new(build_block(&test_entries()));
    it.set_idx(6);
    it.seek(b"key_test_6", SeekPos::Current);
    assert_eq!(it.key().unwrap(), b"key_test_6");
    it.seek(b"key_test_8", SeekPos::Current);
    assert_eq!(it.key().unwrap(), b"key_test_8");
    it.seek(b"key_test_1", SeekPos::Current);
    assert_eq!(it.key().unwrap(), b"key_test_8");
}

#[test]
fn seek_current_from_before_first_stays() {
    let mut it = BlockIterator::new(build_block(&test_entries()));
    assert!(!it.is_valid());
    it.seek(b"key_test_3", SeekPos::Current);
    assert!(it.data().is_none());
    assert!(it.next());
    assert_eq!(it.key().unwrap(), b"key_test_0");
}

#[test]
fn independent_iterators_share_block() {
    let block = build_block(&test_entries());
    let mut a = BlockIterator::new(block.clone());
    let mut b = BlockIterator::new(block);
    a.seek(b"key_test_7", SeekPos::Origin);
    b.seek_to_last();
    b.prev();
    b.seek_le(b"key_test_2", SeekPos::Origin);
    assert_eq!(a.key().unwrap(), b"key_test_7");
    a.next();
    assert_eq!(b.key().unwrap(), b"key_test_2");
    assert_eq!(a.key().unwrap(), b"key_test_8");
}

#[test]
fn set_block_resets_cursor() {
    let mut it = BlockIterator::new(build_block(&test_entries()));
    it.seek_to_last();
    let other = build_block(&[(b"other_key_00".to_vec(), b"x".to_vec())]);
    it.set_block(other);
    assert!(it.data().is_none());
    it.seek_to_first();
    assert_eq!(it.data().unwrap(), (&b"other_key_00"[..], &b"x"[..]));
    assert!(it.is_last());
}

#[test]
fn empty_block_has_no_entries() {
    let block = Arc::new(Block::new(Bytes::new(), Vec::new()).unwrap());
    assert_eq!(block.len(), 0);
    assert!(block.base_key().is_empty());
    let mut it = BlockIterator::new(block);
    it.seek_to_first();
    assert!(it.data().is_none());
    assert!(!it.is_last());
    it.seek(b"anything", SeekPos::Origin);
    assert!(!it.is_valid());
    it.seek_le(b"anything", SeekPos::Origin);
    assert!(!it.is_valid());
}

#[test]
fn block_exposes_raw_entries_and_base_key() {
    let entries = test_entries();
    let (data, _) = encode_entries(&entries);
    let block = build_block(&entries);
    assert_eq!(block.len(), 10);
    assert_eq!(block.base_key(), b"key_test_0");
    assert_eq!(&block.raw_entry(0)[..], &data[..4 + 10 + 5]);
    assert_eq!(&block.raw_entry(3)[..], &[9, 0, 1, 0, b'3', b'v', b'a', b'l', b'_', b'3'][..]);
}

#[test]
fn unordered_keys_are_refused() {
    let entries = vec![
        (b"key_test_1".to_vec(), b"a".to_vec()),
        (b"key_test_0".to_vec(), b"b".to_vec()),
    ];
    let (data, offsets) = encode_entries(&entries);
    assert!(Block::new(Bytes::from(data), offsets).is_none());
    let dup = vec![
        (b"key_test_1".to_vec(), b"a".to_vec()),
        (b"key_test_1".to_vec(), b"b".to_vec()),
    ];
    let (data, offsets) = encode_entries(&dup);
    assert!(Block::new(Bytes::from(data), offsets).is_none());
}

#[test]
fn bad_framing_is_refused() {
    let (data, offsets) = encode_entries(&test_entries());
    let mut short = data.clone();
    short.truncate(offsets[9] + 3);
    assert!(Block::new(Bytes::from(short), offsets.clone()).is_none());
    let mut reversed = offsets.clone();
    reversed.swap(1, 2);
    assert!(Block::new(Bytes::from(data.clone()), reversed).is_none());
    let mut past_end = offsets.clone();
    past_end.push(data.len() + 1);
    assert!(Block::new(Bytes::from(data), past_end).is_none());
}

#[test]
fn bad_overlap_is_refused() {
    let mut data = Vec::new();
    Header { overlap: 1, diff: 2 }.encode(&mut data);
    data.extend_from_slice(b"ab");
    assert!(Block::new(Bytes::from(data), vec![0]).is_none());

    let mut data = Vec::new();
    Header { overlap: 0, diff: 2 }.encode(&mut data);
    data.extend_from_slice(b"ab");
    let second = data.len();
    Header { overlap: 3, diff: 0 }.encode(&mut data);
    assert!(Block::new(Bytes::from(data), vec![0, second]).is_none());
}

#[test]
fn header_round_trip() {
    let mut buf = vec![7u8];
    let h = Header { overlap: 0x1234, diff: 300 };
    h.encode(&mut buf);
    assert_eq!(buf, vec![7, 0x34, 0x12, 44, 1]);
    let d = Header::decode(&buf, 1);
    assert_eq!(d.overlap, 0x1234);
    assert_eq!(d.diff, 300);
}

#[test]
fn comparator_orders_user_key_then_version() {
    let k = |user: &[u8], version: u64| {
        let mut v = user.to_vec();
        v.extend_from_slice(&version.to_be_bytes());
        v
    };
    assert_eq!(VersionedComparator::compare_key(&k(b"a", 9), &k(b"b", 1)), Ordering::Less);
    assert_eq!(VersionedComparator::compare_key(&k(b"ab", 1), &k(b"b", 1)), Ordering::Less);
    assert_eq!(VersionedComparator::compare_key(&k(b"a", 1), &k(b"ab", 0)), Ordering::Less);
    assert_eq!(VersionedComparator::compare_key(&k(b"a", 2), &k(b"a", 1)), Ordering::Greater);
    assert_eq!(VersionedComparator::compare_key(&k(b"a", 2), &k(b"a", 2)), Ordering::Equal);
    assert_eq!(VersionedComparator::compare_key(b"", b""), Ordering::Equal);
    assert_eq!(VersionedComparator::compare_key(b"abc", b"abd"), Ordering::Less);
    assert_eq!(VersionedComparator::compare_key(b"key_test", b"key_test_0"), Ordering::Less);
    assert_eq!(VersionedComparator::compare_key(b"key_test_99", b"key_test_9"), Ordering::Greater);
}
