use lark::engine::block::BlockHandle;
use lark::engine::index_block::IndexBlock;
use lark::engine::index_block::IndexSlot;
use lark::engine::internal_key::compare_internal_keys;
use lark::engine::internal_key::encode_internal_key;
use lark::engine::internal_key::VALUE_TYPE_VALUE;
use lark::error::ErrorKind;

fn encode(entries: &[(Vec<u8>, BlockHandle)]) -> Vec<u8> {
    let mut data = Vec::new();
    data.extend_from_slice(&(entries.len() as u32).to_le_bytes());
    for (key, handle) in entries {
        data.extend_from_slice(&(key.len() as u32).to_le_bytes());
        data.extend_from_slice(key);
        data.extend_from_slice(&handle.offset.to_le_bytes());
        data.extend_from_slice(&handle.size.to_le_bytes());
    }
    data
}

fn ik(key: &[u8], seq: u64) -> Vec<u8> {
    encode_internal_key(key, seq, VALUE_TYPE_VALUE)
}

fn sample() -> Vec<(Vec<u8>, BlockHandle)> {
    vec![
        (
            ik(b"aaa", 1),
            BlockHandle {
                offset: 0,
                size: 10,
            },
        ),
        (
            ik(b"mmm", 2),
            BlockHandle {
                offset: 10,
                size: 20,
            },
        ),
        (
            ik(b"zzz", 3),
            BlockHandle {
                offset: 30,
                size: 30,
            },
        ),
    ]
}

#[test]
fn decode_roundtrip_preserves_keys_and_handles() {
    let entries = sample();
    let block = IndexBlock::decode(encode(&entries)).unwrap();
    assert_eq!(block.len(), entries.len());
    for (i, (key, handle)) in entries.iter().enumerate() {
        assert_eq!(block.key(i).unwrap(), key.as_slice());
        let got = block.handle(i).unwrap();
        assert_eq!(got.offset, handle.offset);
        assert_eq!(got.size, handle.size);
    }
}

#[test]
fn decode_rejects_short_block() {
    let err = IndexBlock::decode(vec![0u8; 3]).err().expect("too short");
    assert_eq!(err.kind(), ErrorKind::InvalidData);
}

#[test]
fn decode_rejects_trailing_bytes() {
    let mut bytes = encode(&sample());
    bytes.push(0);
    let err = IndexBlock::decode(bytes).err().expect("trailing bytes");
    assert_eq!(err.kind(), ErrorKind::InvalidData);
}

#[test]
fn decode_rejects_truncated_entry() {
    let mut bytes = encode(&sample());
    bytes.truncate(bytes.len() - 4);
    let err = IndexBlock::decode(bytes).err().expect("truncated");
    assert_eq!(err.kind(), ErrorKind::InvalidData);
}

#[test]
fn decode_rejects_absurd_entry_count() {
    let mut bytes = encode(&sample());
    bytes[0..4].copy_from_slice(&u32::MAX.to_le_bytes());
    let err = IndexBlock::decode(bytes).err().expect("count overflows bytes");
    assert_eq!(err.kind(), ErrorKind::InvalidData);
}

#[test]
fn empty_index_block_decodes() {
    let block = IndexBlock::decode(encode(&[])).unwrap();
    assert!(block.is_empty());
    assert_eq!(block.seek(&ik(b"any", 1)), 0);
    assert_eq!(
        block.approximate_size_in_range(&ik(b"a", 1), &ik(b"z", 1)),
        0
    );
}

#[test]
fn seek_matches_linear_scan() {
    let entries = sample();
    let block = IndexBlock::decode(encode(&entries)).unwrap();
    for probe in [
        ik(b"a", u64::MAX),
        ik(b"aaa", 1),
        ik(b"b", u64::MAX),
        ik(b"mmm", 2),
        ik(b"zzz", 3),
        ik(b"zzzz", u64::MAX),
    ] {
        let expected = entries
            .iter()
            .position(|(key, _)| !compare_internal_keys(key, &probe).is_lt())
            .unwrap_or(entries.len());
        assert_eq!(block.seek(&probe), expected, "probe {probe:?}");
    }
}

#[test]
fn key_and_handle_are_none_out_of_range() {
    let block = IndexBlock::decode(encode(&sample())).unwrap();
    assert!(block.key(3).is_none());
    assert!(block.handle(3).is_none());
}

#[test]
fn charge_covers_blob_and_slots() {
    let block = IndexBlock::decode(encode(&sample())).unwrap();
    assert!(block.charge() > block.len() * std::mem::size_of::<IndexSlot>());
}

#[test]
fn approximate_size_sums_covered_handles() {
    let block = IndexBlock::decode(encode(&sample())).unwrap();
    let all = block.approximate_size_in_range(&ik(b"a", u64::MAX), &ik(b"zzzz", u64::MAX));
    assert_eq!(all, 60);
    let past_end =
        block.approximate_size_in_range(&ik(b"zzzz", u64::MAX), &ik(b"zzzzz", u64::MAX));
    assert_eq!(
        past_end, 0,
        "a range entirely past the last key covers nothing"
    );
    let middle = block.approximate_size_in_range(&ik(b"mmm", 2), &ik(b"nnn", u64::MAX));
    assert_eq!(middle, 20 + 30);
}
