use lark::engine::range_tombstone::exclusive_successor;
use lark::engine::range_tombstone::max_covering_seq;
use lark::engine::range_tombstone::RangeTombstone;
use lark::engine::range_tombstone::RangeTombstoneSet;

#[test]
fn covers_half_open() {
    let rt = RangeTombstone::new(b"b".to_vec(), b"d".to_vec(), 10);
    assert!(!rt.covers(b"a"));
    assert!(rt.covers(b"b"));
    assert!(rt.covers(b"c"));
    assert!(!rt.covers(b"d")); // end is exclusive
    assert!(!rt.covers(b"e"));
}

#[test]
fn max_covering_seq_picks_largest_visible() {
    let tombstones = vec![
        RangeTombstone::new(b"a".to_vec(), b"z".to_vec(), 5),
        RangeTombstone::new(b"a".to_vec(), b"z".to_vec(), 20), // invisible at snap=10
        RangeTombstone::new(b"c".to_vec(), b"e".to_vec(), 8),
    ];
    assert_eq!(max_covering_seq(&tombstones, b"d", 10), 8);
    assert_eq!(max_covering_seq(&tombstones, b"b", 10), 5);
    assert_eq!(max_covering_seq(&tombstones, b"m", 10), 5);
    // At snap=100, the seq=20 tombstone becomes visible.
    assert_eq!(max_covering_seq(&tombstones, b"m", 100), 20);
    // No coverage.
    assert_eq!(max_covering_seq(&tombstones, b"0", 100), 0);
}

#[test]
fn max_covering_seq_empty_list_returns_zero() {
    assert_eq!(max_covering_seq(&[], b"k", u64::MAX), 0);
}

#[test]
fn empty_range_covers_nothing() {
    // A degenerate `[x, x)` range has no keys in it.
    let rt = RangeTombstone::new(b"m".to_vec(), b"m".to_vec(), 1);
    assert!(!rt.covers(b"m"));
    assert!(!rt.covers(b"n"));
    assert!(!rt.covers(b"l"));
}

#[test]
fn snapshot_below_all_tombstone_seqs_sees_no_coverage() {
    let rts = vec![
        RangeTombstone::new(b"a".to_vec(), b"z".to_vec(), 10),
        RangeTombstone::new(b"a".to_vec(), b"z".to_vec(), 20),
    ];
    assert_eq!(max_covering_seq(&rts, b"m", 5), 0);
    assert_eq!(max_covering_seq(&rts, b"m", 9), 0);
    assert_eq!(max_covering_seq(&rts, b"m", 10), 10);
}

#[test]
fn tombstone_set_prunes_disjoint_ranges() {
    let set = RangeTombstoneSet::from_vec(vec![
        RangeTombstone::new(b"a".to_vec(), b"b".to_vec(), 1),
        RangeTombstone::new(b"d".to_vec(), b"e".to_vec(), 2),
        RangeTombstone::new(b"g".to_vec(), b"h".to_vec(), 3),
    ]);
    assert_eq!(set.max_covering_seq(b"f", u64::MAX), 0);
    assert_eq!(set.max_covering_seq(b"g", u64::MAX), 3);
}

#[test]
fn clipped_overlaps_returns_fragments_in_order() {
    let set = RangeTombstoneSet::from_vec(vec![
        RangeTombstone::new(b"a".to_vec(), b"z".to_vec(), 5),
        RangeTombstone::new(b"c".to_vec(), b"e".to_vec(), 7),
    ]);
    let clipped = set.clipped_overlaps(b"b", b"f");
    assert_eq!(clipped.len(), 2);
    assert_eq!(clipped[0].start, b"b");
    assert_eq!(clipped[0].end, b"f");
    assert_eq!(clipped[0].seq, 5);
    assert_eq!(clipped[1].start, b"c");
    assert_eq!(clipped[1].end, b"e");
    assert_eq!(clipped[1].seq, 7);
}

#[test]
fn exclusive_successor_contains_exact_key_only() {
    assert_eq!(exclusive_successor(b"a"), b"a\0");
    assert!(b"a".as_slice() < exclusive_successor(b"a").as_slice());
    assert!(exclusive_successor(b"a").as_slice() < b"aa".as_slice());
}
