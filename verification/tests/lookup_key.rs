use lark::column_family::prefix_key;
use lark::engine::internal_key::encode_internal_key;
use lark::engine::internal_key::VALUE_TYPE_DELETION;
use lark::engine::lookup_key::InlineBuf;
use lark::engine::lookup_key::LookupKey;

fn legacy(cf_id: u32, user_key: &[u8], seq: u64) -> Vec<u8> {
    encode_internal_key(&prefix_key(cf_id, user_key), seq, VALUE_TYPE_DELETION)
}

#[test]
fn inline_buf_does_not_spill_for_typical_keys() {
    let lk = LookupKey::new(0, &[b'k'; 32], 7);
    assert!(!lk.spilled());
    assert_eq!(lk.internal().len(), 4 + 32 + 9);
}

#[test]
fn inline_buf_spills_exactly_once() {
    let mut buf = InlineBuf::new();
    buf.extend_from_slice(&[1u8; 64]);
    assert!(!buf.spilled());
    buf.extend_from_slice(&[2u8; 4096]);
    assert!(buf.spilled());
    assert_eq!(buf.len(), 64 + 4096);
    buf.extend_from_slice(&[3u8; 8]);
    assert!(buf.spilled());
    assert_eq!(buf.len(), 64 + 4096 + 8);
    assert_eq!(&buf.as_slice()[..64], &[1u8; 64]);
    assert_eq!(&buf.as_slice()[64..64 + 4096], &[2u8; 4096]);
    assert_eq!(&buf.as_slice()[64 + 4096..], &[3u8; 8]);
}

#[test]
fn clear_keeps_the_spilled_storage() {
    let mut buf = InlineBuf::new();
    buf.extend_from_slice(&[7u8; 4096]);
    assert!(buf.spilled());
    buf.clear();
    assert_eq!(buf.len(), 0);
    assert!(buf.as_slice().is_empty());
    buf.extend_from_slice(b"short");
    assert_eq!(buf.as_slice(), b"short");
}

#[test]
fn from_prefixed_tolerates_a_short_prefix() {
    let lk = LookupKey::from_prefixed(b"ab", 3);
    assert_eq!(lk.prefixed_user_key(), b"ab");
    assert_eq!(lk.internal().len(), 2 + 9);
    assert_eq!(lk.snapshot_seq(), 3);
}

#[test]
fn empty_user_key_round_trips() {
    let lk = LookupKey::new(4, b"", u64::MAX);
    assert_eq!(lk.prefixed_user_key(), 4u32.to_be_bytes());
    assert_eq!(lk.internal(), legacy(4, b"", u64::MAX).as_slice());
}

fn sample_keys() -> Vec<Vec<u8>> {
    [0usize, 1, 4, 31, 114, 115, 116, 128, 500, 4095]
        .iter()
        .map(|n| (0..*n).map(|i| (i * 7 + n) as u8).collect())
        .collect()
}

#[test]
fn matches_legacy_encoding() {
    for key in sample_keys() {
        for cf_id in [0u32, 1, 77, u32::MAX] {
            for seq in [0u64, 1, 1 << 40, u64::MAX] {
                let lk = LookupKey::new(cf_id, &key, seq);
                assert_eq!(lk.internal(), legacy(cf_id, &key, seq).as_slice());
                assert_eq!(lk.prefixed_user_key(), prefix_key(cf_id, &key).as_slice());
                assert_eq!(lk.snapshot_seq(), seq);
            }
        }
    }
}

#[test]
fn set_snapshot_seq_equals_rebuild() {
    for key in sample_keys() {
        for (first, second) in [(0u64, u64::MAX), (7, 7), (1 << 33, 5)] {
            let mut lk = LookupKey::new(9, &key, first);
            lk.set_snapshot_seq(second);
            let rebuilt = LookupKey::new(9, &key, second);
            assert_eq!(lk.internal(), rebuilt.internal());
            assert_eq!(lk.snapshot_seq(), second);
        }
    }
}

#[test]
fn reset_reuses_buffer_and_matches_fresh() {
    let long = vec![5u8; 700];
    for short in [&b""[..], &b"k"[..], &[9u8; 31][..]] {
        let mut lk = LookupKey::new(1, &long, 3);
        assert!(lk.spilled());
        lk.reset(2, short, 3);
        assert_eq!(lk.internal(), LookupKey::new(2, short, 3).internal());
        lk.reset(1, &long, 3);
        assert_eq!(lk.internal(), LookupKey::new(1, &long, 3).internal());
    }
}
