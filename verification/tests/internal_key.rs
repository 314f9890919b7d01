use lark::engine::block::Block;
use lark::engine::internal_key::compare_internal_keys;
use lark::engine::internal_key::decode_internal_key;
use lark::engine::internal_key::encode_internal_key;
use lark::engine::internal_key::lookup_key;
use lark::engine::internal_key::user_key_of;
use lark::engine::internal_key::InternalKey;
use lark::engine::internal_key::VALUE_TYPE_DELETION;
use lark::engine::internal_key::VALUE_TYPE_MERGE;
use lark::engine::internal_key::VALUE_TYPE_VALUE;
use lark::engine::varint::encode_varint;
use lark::error::ErrorKind;

#[test]
fn roundtrip() {
    let ik = encode_internal_key(b"hello", 42, VALUE_TYPE_VALUE);
    let (uk, seq, vt) = decode_internal_key(&ik);
    assert_eq!(uk, b"hello");
    assert_eq!(seq, 42);
    assert_eq!(vt, VALUE_TYPE_VALUE);
}

#[test]
fn newer_seq_sorts_first() {
    let older = encode_internal_key(b"k", 5, VALUE_TYPE_VALUE);
    let newer = encode_internal_key(b"k", 10, VALUE_TYPE_VALUE);
    assert!(newer < older, "higher seq must sort before lower seq");
}

#[test]
fn lookup_key_matches_first_visible() {
    // At snapshot_seq=7, the first entry >= lookup_key with matching user
    // key should be the one with seq=5 (largest seq ≤ 7).
    let seq_10 = encode_internal_key(b"k", 10, VALUE_TYPE_VALUE);
    let seq_5 = encode_internal_key(b"k", 5, VALUE_TYPE_VALUE);
    let seq_3 = encode_internal_key(b"k", 3, VALUE_TYPE_VALUE);
    let probe = lookup_key(b"k", 7);
    assert!(seq_10 < probe);
    assert!(seq_5 >= probe);
    assert!(seq_3 >= probe);
}

#[test]
fn user_key_of_strips_suffix() {
    let ik = encode_internal_key(b"hello", 42, VALUE_TYPE_VALUE);
    assert_eq!(user_key_of(&ik), b"hello");
}

#[test]
fn compare_correctly_orders_prefix_keys() {
    // Naive byte comparison would interleave these incorrectly
    // because `ab`'s `!seq` trailer collides with `abc`'s literal
    // `c` byte. The custom comparator fixes this: `ab` < `abc`
    // regardless of seq.
    let ab_high = encode_internal_key(b"ab", u64::MAX, VALUE_TYPE_VALUE);
    let ab_low = encode_internal_key(b"ab", 0, VALUE_TYPE_VALUE);
    let abc_high = encode_internal_key(b"abc", u64::MAX, VALUE_TYPE_VALUE);

    assert!(compare_internal_keys(&ab_high, &abc_high).is_lt());
    assert!(compare_internal_keys(&ab_low, &abc_high).is_lt());
    assert!(compare_internal_keys(&abc_high, &ab_high).is_gt());
}

#[test]
fn compare_falls_back_to_raw_for_short_keys() {
    // Keys shorter than the 9-byte internal-key suffix can't be
    // decoded as internal keys. The comparator short-circuits to
    // raw byte compare so it can still be used on test-crafted
    // blocks that contain raw user keys.
    let a = b"ab";
    let b = b"ac";
    assert!(compare_internal_keys(a, b).is_lt());
    assert!(compare_internal_keys(b, a).is_gt());
    assert!(compare_internal_keys(a, a).is_eq());
}

#[test]
fn internal_key_ord_trait_delegates_to_comparator() {
    let mut keys = [
        InternalKey(encode_internal_key(b"b", 1, VALUE_TYPE_VALUE)),
        InternalKey(encode_internal_key(b"a", 5, VALUE_TYPE_VALUE)),
        InternalKey(encode_internal_key(b"a", 1, VALUE_TYPE_VALUE)),
        InternalKey(encode_internal_key(b"c", 1, VALUE_TYPE_VALUE)),
    ];
    keys.sort_by(|a, b| a.compare(b));
    let user_keys: Vec<&[u8]> = keys.iter().map(|k| user_key_of(&k.0)).collect();
    assert_eq!(user_keys, vec![&b"a"[..], &b"a"[..], &b"b"[..], &b"c"[..]]);
}

#[test]
fn every_value_type_round_trips() {
    for vt in [VALUE_TYPE_VALUE, VALUE_TYPE_DELETION, VALUE_TYPE_MERGE] {
        let ik = encode_internal_key(b"k", 3, vt);
        let (_, _, decoded_vt) = decode_internal_key(&ik);
        assert_eq!(decoded_vt, vt);
    }
}

#[test]
fn lookup_key_at_u64_max_sorts_after_any_stored_seq() {
    // snapshot_seq = u64::MAX means "most recent possible read".
    // The resulting lookup key must be <= every encoded
    // entry for the same user key.
    let probe = lookup_key(b"k", u64::MAX);
    let seq_1 = encode_internal_key(b"k", 1, VALUE_TYPE_VALUE);
    let seq_huge = encode_internal_key(b"k", u64::MAX - 1, VALUE_TYPE_VALUE);
    assert!(compare_internal_keys(&probe, &seq_1).is_le());
    assert!(compare_internal_keys(&probe, &seq_huge).is_le());
}

#[test]
fn short_key_from_a_tampered_sstable_is_rejected_as_corruption() {
    // One entry with a 3-byte key plus a one-point restart array.
    let mut payload = Vec::new();
    encode_varint(&mut payload, 0);
    encode_varint(&mut payload, 3);
    encode_varint(&mut payload, 40);
    payload.extend_from_slice(b"abc");
    payload.resize(payload.len() + 40, 0u8);
    payload.extend_from_slice(&0u32.to_le_bytes());
    payload.extend_from_slice(&1u32.to_le_bytes());
    assert!(Block::decode(payload.clone()).is_ok());
    match Block::decode_data_block(payload) {
        Err(e) => assert_eq!(e.kind(), ErrorKind::InvalidData),
        Ok(_) => panic!("a short key must not decode as a data block"),
    }
}
