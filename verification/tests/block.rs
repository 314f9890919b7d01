use lark::engine::block::Block;
use lark::engine::block::BlockBuilder;
use lark::engine::block::RESTART_INTERVAL;
use lark::engine::block_cursor::is_regular;
use lark::engine::block_cursor::BlockCursor;
use lark::engine::block_entry::encoded_entry_size;
use lark::engine::internal_key::encode_internal_key;
use lark::engine::varint::decode_varint;
use lark::engine::varint::encode_varint;

fn build_block(entries: &[(&[u8], &[u8])]) -> Block {
    let mut builder = BlockBuilder::new(16);
    for (k, v) in entries {
        builder.add(k, v);
    }
    Block::decode(builder.finish()).unwrap()
}

fn all_entries(block: &Block) -> Vec<(Vec<u8>, Vec<u8>)> {
    let mut it = block.iter();
    let mut out = Vec::new();
    while let Some(entry) = it.next() {
        out.push(entry);
    }
    out
}

#[test]
fn test_varint_roundtrip() {
    let test_values = [0u64, 1, 127, 128, 16383, 16384, u64::MAX];
    for val in test_values {
        let mut buf = Vec::new();
        encode_varint(&mut buf, val);
        let (decoded, _) = decode_varint(&buf);
        assert_eq!(val, decoded);
    }
}

#[test]
fn varint_zero_and_127_fit_in_one_byte() {
    for v in [0u64, 42, 127] {
        let mut buf = Vec::new();
        encode_varint(&mut buf, v);
        assert_eq!(buf.len(), 1, "value {v} should encode to 1 byte");
        assert_eq!(decode_varint(&buf), (v, 1));
    }
}

#[test]
fn varint_128_crosses_into_two_bytes() {
    let mut buf = Vec::new();
    encode_varint(&mut buf, 128);
    assert_eq!(buf, vec![0x80, 0x01]);
    assert_eq!(decode_varint(&buf), (128, 2));
}

#[test]
fn varint_u64_max_fits_in_ten_bytes() {
    let mut buf = Vec::new();
    encode_varint(&mut buf, u64::MAX);
    assert_eq!(buf.len(), 10);
    assert_eq!(decode_varint(&buf), (u64::MAX, 10));
}

#[test]
fn test_block_seek_ge() {
    let block = build_block(&[
        (b"apple", b"red"),
        (b"application", b"software"),
        (b"banana", b"yellow"),
    ]);

    assert_eq!(
        block.seek_ge(b"apple"),
        Some((b"apple".to_vec(), b"red".to_vec()))
    );
    assert_eq!(
        block.seek_ge(b"applicatio"),
        Some((b"application".to_vec(), b"software".to_vec()))
    );
    assert_eq!(
        block.seek_ge(b"b"),
        Some((b"banana".to_vec(), b"yellow".to_vec()))
    );
    assert_eq!(block.seek_ge(b"cherry"), None);
}

#[test]
fn empty_block_iterates_nothing() {
    let builder = BlockBuilder::new(16);
    let block = Block::decode(builder.finish()).unwrap();
    assert_eq!(all_entries(&block).len(), 0);
}

#[test]
fn single_entry_block_round_trips() {
    let block = build_block(&[(b"only", b"one")]);
    let entries: Vec<_> = all_entries(&block);
    assert_eq!(entries, vec![(b"only".to_vec(), b"one".to_vec())]);
}

#[test]
fn iter_preserves_insert_order() {
    let pairs: Vec<(Vec<u8>, Vec<u8>)> = (0..20)
        .map(|i| {
            (
                format!("key_{:04}", i).into_bytes(),
                format!("val_{}", i).into_bytes(),
            )
        })
        .collect();
    let mut b = BlockBuilder::new(4);
    for (k, v) in &pairs {
        b.add(k, v);
    }
    let block = Block::decode(b.finish()).unwrap();
    let got: Vec<_> = all_entries(&block);
    assert_eq!(got, pairs);
}

#[test]
fn prefix_compression_round_trips_shared_prefix_keys() {
    let block = build_block(&[(b"zebra_a", b"1"), (b"zebra_b", b"2"), (b"zebra_c", b"3")]);
    let got: Vec<_> = all_entries(&block);
    assert_eq!(
        got,
        vec![
            (b"zebra_a".to_vec(), b"1".to_vec()),
            (b"zebra_b".to_vec(), b"2".to_vec()),
            (b"zebra_c".to_vec(), b"3".to_vec()),
        ]
    );
}

#[test]
fn restart_points_occur_every_interval_entries() {
    let n = 32usize;
    let mut b = BlockBuilder::new(8);
    for i in 0..n {
        let key = format!("k_{:04}", i);
        b.add(key.as_bytes(), b"v");
    }
    let block = Block::decode(b.finish()).unwrap();
    // Entry 0 is always a restart; then 8, 16, 24 → 4 total.
    assert_eq!(block.restart_count(), 4);
    assert_eq!(block.restart_offset(0), 0);
}

#[test]
fn a_last_group_that_is_not_full_has_a_restart_too() {
    for (n, restarts) in [(1usize, 1usize), (8, 1), (9, 2), (33, 5)] {
        let mut b = BlockBuilder::new(8);
        for i in 0..n {
            b.add(format!("k_{:04}", i).as_bytes(), b"v");
        }
        let block = Block::decode(b.finish()).unwrap();
        assert_eq!(block.restart_count(), restarts);
        assert_eq!(block.restart_offset(0), 0);
    }
}

#[test]
fn decode_rejects_buffer_smaller_than_footer() {
    assert!(Block::decode(vec![]).is_err());
    assert!(Block::decode(vec![0u8; 3]).is_err());
}

#[test]
fn seek_ge_before_first_key_returns_first() {
    let block = build_block(&[(b"b", b"2"), (b"c", b"3")]);
    // Empty target sorts before every key — the ordering function
    // short-circuits on suffix-length so any user key > "" wins.
    assert_eq!(block.seek_ge(b""), Some((b"b".to_vec(), b"2".to_vec())));
}

#[test]
fn seek_ge_matches_every_key_after_binary_search() {
    // 100 sorted keys with restart interval 4 exercises the
    // binary-search path over ~25 restart points.
    let keys: Vec<Vec<u8>> = (0..100)
        .map(|i| format!("key_{:05}", i).into_bytes())
        .collect();
    let mut b = BlockBuilder::new(4);
    for k in &keys {
        b.add(k, b"v");
    }
    let block = Block::decode(b.finish()).unwrap();

    for k in &keys {
        assert_eq!(block.seek_ge(k), Some((k.clone(), b"v".to_vec())));
    }
}

#[test]
fn charge_scales_with_data_bytes() {
    let small = build_block(&[(b"k", b"v")]);
    let big_pairs: Vec<(Vec<u8>, Vec<u8>)> = (0..500)
        .map(|i| (format!("key_{:04}", i).into_bytes(), vec![0u8; 128]))
        .collect();
    let mut b = BlockBuilder::new(16);
    for (k, v) in &big_pairs {
        b.add(k, v);
    }
    let big = Block::decode(b.finish()).unwrap();
    assert!(big.charge() > small.charge() * 100);
}

#[test]
fn builder_is_empty_flag_reflects_entry_count() {
    let mut b = BlockBuilder::new(16);
    assert!(b.is_empty());
    b.add(b"k", b"v");
    assert!(!b.is_empty());
}

#[test]
fn builder_estimated_size_grows_monotonically() {
    let mut b = BlockBuilder::new(16);
    let s0 = b.estimated_size();
    b.add(b"a", b"1");
    let s1 = b.estimated_size();
    b.add(b"b", b"2");
    let s2 = b.estimated_size();
    assert!(s1 >= s0);
    assert!(s2 >= s1);
}

#[test]
fn entry_data_length_matches_iter_consumption() {
    let pairs: Vec<(&[u8], &[u8])> = vec![(b"abc", b"1"), (b"abcd", b"22"), (b"xyz", b"333")];
    let mut b = BlockBuilder::new(16);
    for (k, v) in &pairs {
        b.add(k, v);
    }
    let block = Block::decode(b.finish()).unwrap();
    let data_len = block.entry_data().len();

    let mut consumed = 0usize;
    let mut pos = 0usize;
    let data = block.entry_data();
    while pos < data_len {
        let size = encoded_entry_size(data, pos);
        pos += size;
        consumed += size;
    }
    assert_eq!(consumed, data_len);
}

// ── Moving both ways ─────────────────────────────────────────────

fn forty(interval: usize) -> Block {
    let mut builder = BlockBuilder::new(interval);
    for i in 0..40u64 {
        let key = encode_internal_key(format!("key_{:03}", 2 * i).as_bytes(), 7, 1);
        builder.add(&key, format!("value_{i}").as_bytes());
    }
    Block::decode_data_block(builder.finish()).unwrap()
}

#[test]
fn a_cursor_walks_a_block_both_ways() {
    let block = forty(RESTART_INTERVAL);
    assert!(is_regular(&block));
    let entries = block.to_entries();
    assert_eq!(entries.len(), 40);
    let mut cursor = BlockCursor::new(&block);
    assert_eq!(cursor.key(), None);
    cursor.seek_to_first();
    for (key, value) in &entries {
        assert_eq!(cursor.key(), Some(key.as_slice()));
        assert_eq!(cursor.value(), Some(value.as_slice()));
        cursor.advance();
    }
    assert_eq!(cursor.key(), None);
    cursor.seek_to_last();
    for (key, value) in entries.iter().rev() {
        assert_eq!(cursor.key(), Some(key.as_slice()));
        assert_eq!(cursor.value(), Some(value.as_slice()));
        cursor.advance_backward();
    }
    assert_eq!(cursor.key(), None);
}

#[test]
fn a_cursor_seeks_from_both_sides() {
    let block = forty(RESTART_INTERVAL);
    let entries = block.to_entries();
    let probe = |n: u64| encode_internal_key(format!("key_{n:03}").as_bytes(), 7, 1);
    let mut cursor = BlockCursor::new(&block);
    // Odd numbers lie between two entries.
    cursor.seek(&probe(33));
    assert_eq!(cursor.key(), Some(entries[17].0.as_slice()));
    cursor.advance_backward();
    assert_eq!(cursor.key(), Some(entries[16].0.as_slice()));
    cursor.advance();
    assert_eq!(cursor.key(), Some(entries[17].0.as_slice()));
    cursor.seek_for_prev(&probe(33));
    assert_eq!(cursor.key(), Some(entries[16].0.as_slice()));
    cursor.advance();
    assert_eq!(cursor.key(), Some(entries[17].0.as_slice()));
    cursor.seek(&probe(32));
    assert_eq!(cursor.key(), Some(entries[16].0.as_slice()));
    cursor.seek(&probe(79));
    assert_eq!(cursor.key(), None);
    cursor.seek_for_prev(&encode_internal_key(b"a", 7, 1));
    assert_eq!(cursor.key(), None);
    cursor.seek_for_prev(&probe(500));
    assert_eq!(cursor.key(), Some(entries[39].0.as_slice()));
}

#[test]
fn a_cursor_needs_restart_points_in_their_places() {
    assert!(!is_regular(&forty(4)));
    assert!(!is_regular(&forty(32)));
    let empty = Block::decode_data_block(BlockBuilder::new(RESTART_INTERVAL).finish()).unwrap();
    assert!(is_regular(&empty));
    let mut cursor = BlockCursor::new(&empty);
    cursor.seek_to_first();
    assert_eq!(cursor.key(), None);
    cursor.seek_to_last();
    assert_eq!(cursor.value(), None);
}
