use lark::engine::internal_key::encode_internal_key;
use lark::engine::internal_key::user_key_of;
use lark::engine::internal_key::VALUE_TYPE_DELETION;
use lark::engine::internal_key::VALUE_TYPE_VALUE;
use lark::engine::memtable::KeyBound;
use lark::engine::memtable::MemTable;

#[test]
fn test_put_get() {
    let mut mt = MemTable::new();
    mt.put(b"key1", b"value1", 1);
    assert_eq!(mt.get(b"key1", 1), Some((1, Some(b"value1".to_vec()))));
    assert_eq!(mt.get(b"key1", 0), None);
}

#[test]
fn test_delete() {
    let mut mt = MemTable::new();
    mt.put(b"key1", b"value1", 1);
    mt.delete(b"key1", 2);

    assert_eq!(mt.get(b"key1", 2), Some((2, None)));
    assert_eq!(mt.get(b"key1", 1), Some((1, Some(b"value1".to_vec()))));
}

#[test]
fn test_overwrite() {
    let mut mt = MemTable::new();
    mt.put(b"key1", b"v1", 1);
    mt.put(b"key1", b"v2", 2);

    assert_eq!(mt.get(b"key1", 2), Some((2, Some(b"v2".to_vec()))));
    assert_eq!(mt.get(b"key1", 1), Some((1, Some(b"v1".to_vec()))));
}

#[test]
fn test_iter_internal_preserves_versions() {
    let mut mt = MemTable::new();
    mt.put(b"a", b"v1", 1);
    mt.put(b"a", b"v2", 2);
    mt.delete(b"a", 3);
    let items = mt.iter_internal();
    assert_eq!(items.len(), 3);
}

#[test]
fn test_range_tombstone_basic() {
    let mut mt = MemTable::new();
    mt.delete_range(b"b", b"d", 5);
    assert_eq!(mt.covering_range_tombstone_seq(b"a", 10), 0);
    assert_eq!(mt.covering_range_tombstone_seq(b"b", 10), 5);
    assert_eq!(mt.covering_range_tombstone_seq(b"c", 10), 5);
    assert_eq!(mt.covering_range_tombstone_seq(b"d", 10), 0); // end exclusive
                                                              // Invisible to snapshot older than the tombstone.
    assert_eq!(mt.covering_range_tombstone_seq(b"c", 4), 0);
}

#[test]
fn test_range_tombstone_clone() {
    let mut mt = MemTable::new();
    mt.delete_range(b"a", b"c", 1);
    mt.delete_range(b"e", b"g", 2);
    let rts = mt.clone_range_tombstones();
    assert_eq!(rts.len(), 2);
}

#[test]
fn empty_memtable_reports_empty_and_zero_size() {
    let mut mt = MemTable::new();
    assert!(mt.is_empty());
    assert_eq!(mt.approximate_size(), 0);
    assert_eq!(mt.get(b"k", u64::MAX), None);
    assert!(mt.iter_internal().is_empty());
}

#[test]
fn approximate_size_grows_monotonically() {
    let mut mt = MemTable::new();
    let s0 = mt.approximate_size();
    mt.put(b"k", b"v", 1);
    let s1 = mt.approximate_size();
    mt.put(b"k2", b"vv", 2);
    let s2 = mt.approximate_size();
    mt.delete(b"k3", 3);
    let s3 = mt.approximate_size();
    mt.delete_range(b"a", b"z", 4);
    let s4 = mt.approximate_size();
    assert!(s1 > s0 && s2 > s1 && s3 > s2 && s4 > s3);
}

#[test]
fn merge_and_get_returns_operand_as_value() {
    // `get` returns the newest entry regardless of value_type; merge
    // operands appear as `Some(bytes)` just like values. The merge
    // resolution itself happens one level up.
    let mut mt = MemTable::new();
    mt.merge(b"k", b"op1", 1);
    let (seq, val) = mt.get(b"k", 1).expect("should find operand");
    assert_eq!(seq, 1);
    assert_eq!(val, Some(b"op1".to_vec()));
}

#[test]
fn collect_merge_chain_walks_until_terminator() {
    let mut mt = MemTable::new();
    mt.put(b"k", b"base", 1);
    mt.merge(b"k", b"a", 2);
    mt.merge(b"k", b"b", 3);

    let mut chain = Vec::new();
    let reached_term = mt.collect_merge_chain(b"k", 3, &mut chain);
    assert!(reached_term);
    // Newest seq first: b, a, base (terminator).
    assert_eq!(chain.len(), 3);
    assert_eq!(chain[0].0, 3);
    assert_eq!(chain[2].0, 1);
    assert_eq!(chain[2].1, VALUE_TYPE_VALUE);
}

#[test]
fn collect_merge_chain_stops_at_tombstone() {
    let mut mt = MemTable::new();
    mt.delete(b"k", 1);
    mt.merge(b"k", b"a", 2);

    let mut chain = Vec::new();
    let reached_term = mt.collect_merge_chain(b"k", 2, &mut chain);
    assert!(reached_term);
    assert_eq!(chain.len(), 2);
    assert_eq!(chain[1].1, VALUE_TYPE_DELETION);
}

#[test]
fn collect_merge_chain_returns_false_when_only_merges_visible() {
    let mut mt = MemTable::new();
    mt.merge(b"k", b"a", 1);
    mt.merge(b"k", b"b", 2);
    let mut chain = Vec::new();
    let terminated = mt.collect_merge_chain(b"k", 2, &mut chain);
    assert!(!terminated, "pure-merge chain must return false");
    assert_eq!(chain.len(), 2);
}

#[test]
fn approximate_stats_for_range_counts_every_version() {
    let mut mt = MemTable::new();
    mt.put(b"a", b"1", 1);
    mt.put(b"a", b"2", 2);
    mt.put(b"b", b"x", 3);
    mt.put(b"z", b"outside", 4);

    let (count, _size) = mt.approximate_stats_for_range(b"a", b"c");
    assert_eq!(count, 3, "two versions of 'a' + one 'b'");

    let (count_empty, _) = mt.approximate_stats_for_range(b"x", b"a");
    assert_eq!(count_empty, 0, "reversed range yields zero");
}

#[test]
fn first_and_last_entry_bracket_the_memtable() {
    let mut mt = MemTable::new();
    mt.put(b"b", b"1", 1);
    mt.put(b"m", b"2", 2);
    mt.put(b"y", b"3", 3);

    let first = mt
        .first_entry_from(KeyBound::Unbounded)
        .expect("has first");
    let last = mt
        .last_entry_before(KeyBound::Unbounded)
        .expect("has last");
    assert_eq!(user_key_of(&first.0), b"b");
    assert_eq!(user_key_of(&last.0), b"y");

    // Bounded from above "k" — first >= k is "m".
    let m_first = mt
        .first_entry_from(KeyBound::Included(&encode_internal_key(
            b"k",
            u64::MAX,
            VALUE_TYPE_VALUE,
        )))
        .expect("has entry");
    assert_eq!(user_key_of(&m_first.0), b"m");
}
