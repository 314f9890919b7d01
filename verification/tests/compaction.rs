use lark::engine::batch::batch_op_wal_bytes;
use lark::engine::batch::SizeLimits;
use lark::engine::batch::WriteBatchOp;
use lark::engine::compaction::carry_tombstones;
use lark::engine::compaction::compact;
use lark::engine::compaction_merge::collapse_merge_chains;
use lark::engine::compaction_merge::drop_shadowed;
use lark::engine::compaction_merge::gc_old_versions;
use lark::engine::compaction_merge::merge_entries;
use lark::engine::compaction_output::compute_subcompaction_splits;
use lark::engine::compaction_output::count_user_key_groups;
use lark::engine::compaction_output::output_chunks;
use lark::engine::compaction_output::plan_outputs;
use lark::engine::compaction_output::worker_count;
use lark::engine::compaction_output::MIN_GROUPS_PER_SUBCOMPACTION;
use lark::engine::compaction_pick::compression_for_level;
use lark::engine::compaction_pick::file_overlaps_range;
use lark::engine::compaction_pick::find_overlapping;
use lark::engine::compaction_pick::key_range;
use lark::engine::compaction_pick::level_target_size;
use lark::engine::compaction_pick::order_by_age;
use lark::engine::compaction_pick::pick_compaction;
use lark::engine::compaction_pick::pick_fifo;
use lark::engine::compaction_pick::pick_l0;
use lark::engine::compaction_pick::pick_leveled;
use lark::engine::compaction_pick::pick_universal;
use lark::engine::compaction_pick::CompactionJob;
use lark::engine::compaction_pick::CompactionStyle;
use lark::engine::compaction_pick::LevelOptions;
use lark::engine::compaction_pick::UniversalCompactionOptions;
use lark::engine::hooks::CompactionDecision;
use lark::engine::hooks::CompactionFilter;
use lark::engine::hooks::KeepAll;
use lark::engine::hooks::MergeOperator;
use lark::engine::hooks::NoMergeOperator;
use lark::engine::internal_key::encode_internal_key;
use lark::engine::internal_key::VALUE_TYPE_DELETION;
use lark::engine::internal_key::VALUE_TYPE_MERGE;
use lark::engine::internal_key::VALUE_TYPE_VALUE;
use lark::engine::manifest::Version;
use lark::engine::options::stall_level;
use lark::engine::options::write_gate;
use lark::engine::options::Stall;
use lark::engine::options::StallOptions;
use lark::engine::options::StallReason;
use lark::engine::options::WriteGate;
use lark::engine::range_tombstone::RangeTombstone;
use lark::engine::sstable::LiveSst;
use lark::engine::sstable::SsTableMeta;
use lark::engine::sstable::SsTableReader;
use lark::engine::table_build::build_table;
use lark::error::ErrorKind;
use std::collections::HashSet;
use std::sync::Arc;

type Entry = (Vec<u8>, Vec<u8>);

fn put(key: &[u8], seq: u64, value: &[u8]) -> Entry {
    (encode_internal_key(key, seq, VALUE_TYPE_VALUE), value.to_vec())
}

fn deletion(key: &[u8], seq: u64) -> Entry {
    (encode_internal_key(key, seq, VALUE_TYPE_DELETION), Vec::new())
}

fn operand(key: &[u8], seq: u64, value: &[u8]) -> Entry {
    (encode_internal_key(key, seq, VALUE_TYPE_MERGE), value.to_vec())
}

fn range(start: &[u8], end: &[u8], seq: u64) -> RangeTombstone {
    RangeTombstone::new(start.to_vec(), end.to_vec(), seq)
}

fn table(id: u64, size: u64, entries: Vec<Entry>) -> Arc<LiveSst> {
    Arc::new(build_table(entries, Vec::new(), id, size).unwrap())
}

fn span(id: u64, size: u64, from: &[u8], to: &[u8]) -> Arc<LiveSst> {
    table(id, size, vec![put(from, id, b"v"), put(to, id, b"v")])
}

fn ids(files: &[Arc<LiveSst>]) -> Vec<u64> {
    files.iter().map(|f| f.meta.file_id).collect()
}

// ── Merging ──────────────────────────────────────────────────────

#[test]
fn entries_of_all_inputs_are_put_in_order() {
    let merged = merge_entries(vec![
        put(b"b", 1, b"old"),
        put(b"a", 2, b"x"),
        put(b"b", 3, b"new"),
        put(b"a", 2, b"x"),
    ]);
    assert_eq!(
        merged,
        vec![put(b"a", 2, b"x"), put(b"b", 3, b"new"), put(b"b", 1, b"old")]
    );
}

#[test]
fn a_range_deletion_drops_what_is_older() {
    let kept = drop_shadowed(
        vec![put(b"a", 9, b"1"), put(b"b", 4, b"2"), put(b"b", 3, b"3"), put(b"d", 1, b"4")],
        &vec![range(b"a", b"c", 4)],
        u64::MAX,
    );
    assert_eq!(
        kept,
        vec![put(b"a", 9, b"1"), put(b"b", 4, b"2"), put(b"d", 1, b"4")]
    );
}

#[test]
fn a_range_deletion_newer_than_the_pin_drops_nothing() {
    let entries = vec![put(b"k", 1, b"v")];
    let deletion = vec![range(b"a", b"z", 2)];
    assert_eq!(drop_shadowed(entries.clone(), &deletion, 1), entries);
    assert!(drop_shadowed(entries, &deletion, 2).is_empty());
}

#[test]
fn versions_below_the_pin_go_but_the_newest_of_them() {
    let versions = vec![
        put(b"k", 9, b"9"),
        put(b"k", 6, b"6"),
        put(b"k", 5, b"5"),
        put(b"k", 2, b"2"),
        deletion(b"m", 3),
    ];
    assert_eq!(
        gc_old_versions(versions.clone(), 5),
        vec![put(b"k", 9, b"9"), put(b"k", 6, b"6"), put(b"k", 5, b"5"), deletion(b"m", 3)]
    );
    assert_eq!(
        gc_old_versions(versions.clone(), u64::MAX),
        vec![put(b"k", 9, b"9"), deletion(b"m", 3)]
    );
    assert_eq!(gc_old_versions(versions.clone(), 0), versions);
}

#[test]
fn operands_keep_what_they_are_layered_on() {
    let versions = vec![
        operand(b"k", 9, b"c"),
        operand(b"k", 7, b"b"),
        put(b"k", 5, b"a"),
        put(b"k", 3, b"gone"),
    ];
    assert_eq!(gc_old_versions(versions.clone(), u64::MAX), versions[..3].to_vec());
}

struct Concat;

impl MergeOperator for Concat {
    fn full_merge(
        &self,
        _key: &[u8],
        base: Option<&[u8]>,
        operands: &Vec<Vec<u8>>,
    ) -> Option<Vec<u8>> {
        let mut out = base.unwrap_or(b"-").to_vec();
        for o in operands {
            out.extend_from_slice(o);
        }
        Some(out)
    }

    fn partial_merge(&self, _key: &[u8], left: &[u8], right: &[u8]) -> Option<Vec<u8>> {
        Some([left, right].concat())
    }
}

#[test]
fn operands_on_a_value_become_a_value() {
    let out = collapse_merge_chains(
        vec![
            put(b"a", 1, b"plain"),
            operand(b"k", 9, b"c"),
            operand(b"k", 7, b"b"),
            put(b"k", 5, b"a"),
        ],
        &Concat,
    );
    assert_eq!(out, vec![put(b"a", 1, b"plain"), put(b"k", 9, b"abc")]);
}

#[test]
fn a_collapsed_group_is_one_value() {
    let out = collapse_merge_chains(
        vec![operand(b"k", 3, b"a"), put(b"k", 2, b"x"), put(b"k", 1, b"old")],
        &Concat,
    );
    assert_eq!(out, vec![put(b"k", 3, b"xa")]);
}

#[test]
fn operands_without_a_base_become_one_operand() {
    let out = collapse_merge_chains(vec![operand(b"k", 9, b"c"), operand(b"k", 7, b"b")], &Concat);
    assert_eq!(out, vec![operand(b"k", 9, b"bc")]);
}

#[test]
fn operands_that_cannot_be_combined_stay() {
    let chain = vec![operand(b"k", 9, b"c"), operand(b"k", 7, b"b")];
    assert_eq!(collapse_merge_chains(chain.clone(), &NoMergeOperator), chain);
}

struct Rules;

impl CompactionFilter for Rules {
    fn filter(&self, _level: usize, key: &[u8], _value: &[u8]) -> CompactionDecision {
        match key {
            b"drop" => CompactionDecision::Remove,
            b"edit" => CompactionDecision::Change(b"edited".to_vec()),
            _ => CompactionDecision::Keep,
        }
    }

    fn filter_range_delete(&self, _level: usize, start: &[u8], _end: &[u8]) -> CompactionDecision {
        if start == b"x" {
            CompactionDecision::Remove
        } else {
            CompactionDecision::Keep
        }
    }
}

fn filtered_input() -> Vec<Arc<LiveSst>> {
    vec![Arc::new(
        build_table(
            vec![
                put(b"drop", 1, b"1"),
                put(b"edit", 2, b"2"),
                put(b"keep", 3, b"3"),
                put(b"xx", 4, b"4"),
            ],
            vec![range(b"x", b"y", 5), range(b"p", b"q", 6)],
            1,
            100,
        )
        .unwrap(),
    )]
}

#[test]
fn a_filter_drops_edits_and_keeps() {
    let out = compact(
        &filtered_input(),
        1,
        u64::MAX,
        Some(&Rules),
        None::<&NoMergeOperator>,
    );
    assert_eq!(
        out.entries,
        vec![
            deletion(b"drop", 1),
            put(b"edit", 2, b"edited"),
            put(b"keep", 3, b"3"),
            // Its tombstone was dropped first, so it is not shadowed.
            put(b"xx", 4, b"4"),
        ]
    );
    assert_eq!(out.tombstones.len(), 1);
    assert_eq!(out.tombstones[0].start, b"p".to_vec());
}

#[test]
fn a_filter_has_no_say_while_a_snapshot_is_live() {
    let out = compact(
        &filtered_input(),
        1,
        3,
        Some(&Rules),
        None::<&NoMergeOperator>,
    );
    assert_eq!(
        out.entries,
        vec![
            put(b"drop", 1, b"1"),
            put(b"edit", 2, b"2"),
            put(b"keep", 3, b"3"),
            // Its tombstone is newer than the snapshot.
            put(b"xx", 4, b"4"),
        ]
    );
    assert_eq!(out.tombstones.len(), 2);
}

#[test]
fn a_compaction_keeps_base_and_operands_for_a_pinned_snapshot() {
    let older = table(1, 10, vec![put(b"k", 1, b"a"), put(b"z", 2, b"z")]);
    let newer = table(2, 10, vec![operand(b"k", 5, b"c"), operand(b"k", 3, b"b")]);
    let out = compact(
        &vec![older, newer],
        1,
        4,
        None::<&KeepAll>,
        Some(&Concat),
    );
    assert_eq!(
        out.entries,
        vec![
            operand(b"k", 5, b"c"),
            operand(b"k", 3, b"b"),
            put(b"k", 1, b"a"),
            put(b"z", 2, b"z"),
        ]
    );
}

#[test]
fn tombstones_are_carried_on_in_order() {
    let carried = carry_tombstones(vec![
        range(b"m", b"n", 3),
        range(b"a", b"c", 1),
        range(b"a", b"c", 2),
        range(b"m", b"n", 3),
    ]);
    let said: Vec<(Vec<u8>, u64)> = carried.iter().map(|t| (t.start.clone(), t.seq)).collect();
    assert_eq!(said.iter().filter(|s| s.0 == b"m".to_vec()).count(), 1);
    assert_eq!(said.iter().filter(|s| s.0 == b"a".to_vec()).count(), 2);
    assert_eq!(said.last().unwrap().0, b"m".to_vec());
}

// ── Outputs ──────────────────────────────────────────────────────

#[test]
fn user_keys_are_counted_once() {
    assert_eq!(count_user_key_groups(&Vec::new()), 0);
    assert_eq!(
        count_user_key_groups(&vec![put(b"a", 2, b""), put(b"a", 1, b""), put(b"b", 1, b"")]),
        2
    );
}

#[test]
fn workers_need_enough_user_keys() {
    let least = MIN_GROUPS_PER_SUBCOMPACTION;
    assert_eq!(worker_count(0, 4), 1);
    assert_eq!(worker_count(4 * least, 4), 4);
    assert_eq!(worker_count(4 * least - 1, 4), 1);
    assert_eq!(worker_count(100 * least, 0), 1);
    assert_eq!(worker_count(100 * least, 1), 1);
}

#[test]
fn workers_start_at_user_keys() {
    let mut entries = Vec::new();
    for i in 0..6u8 {
        entries.push(put(&[i], 2, b""));
        entries.push(put(&[i], 1, b""));
    }
    assert_eq!(compute_subcompaction_splits(&entries, 6, 3), vec![0, 4, 8, 12]);
    assert_eq!(compute_subcompaction_splits(&entries, 6, 4), vec![0, 2, 4, 6, 12]);
}

#[test]
fn a_table_is_cut_between_user_keys() {
    // Every entry has 10 bytes of key and 10 of value.
    let entries: Vec<Entry> = (0..6u8)
        .map(|i| put(&[i / 2], 10 - u64::from(i), &[0; 10]))
        .collect();
    assert_eq!(output_chunks(&entries, 0, 6, 20), vec![(0, 2), (2, 4), (4, 6)]);
    assert_eq!(output_chunks(&entries, 0, 6, 41), vec![(0, 4), (4, 6)]);
    assert_eq!(output_chunks(&entries, 2, 6, 1000), vec![(2, 6)]);
    assert_eq!(plan_outputs(&entries, 8, 1000), vec![vec![(0, 6)]]);
    assert_eq!(plan_outputs(&Vec::new(), 8, 1000), vec![vec![(0, 0)]]);
}

// ── Picking ──────────────────────────────────────────────────────

#[test]
fn levels_grow_by_the_multiplier() {
    let opts = LevelOptions {
        l0_compaction_trigger: 4,
        level_base_bytes: 100,
        level_size_multiplier: 10,
    };
    assert_eq!(level_target_size(0, &opts), 100);
    assert_eq!(level_target_size(1, &opts), 100);
    assert_eq!(level_target_size(3, &opts), 10_000);
    let huge = LevelOptions {
        level_base_bytes: u64::MAX / 2,
        ..opts
    };
    assert_eq!(level_target_size(2, &huge), u64::MAX);
}

#[test]
fn a_level_has_its_own_compression_where_it_is_listed() {
    let listed = Some(vec![1u8, 2]);
    assert_eq!(compression_for_level(&listed, 9, 1), 2);
    assert_eq!(compression_for_level(&listed, 9, 2), 9);
    assert_eq!(compression_for_level(&None, 9, 0), 9);
}

#[test]
fn ranges_of_tables() {
    let files = vec![span(1, 1, b"d", b"f"), span(2, 1, b"a", b"b"), span(3, 1, b"e", b"z")];
    assert_eq!(key_range(&files), (b"a".to_vec(), b"z".to_vec()));
    assert_eq!(ids(&find_overlapping(&files, b"b", b"d")), vec![1, 2]);
    assert_eq!(ids(&find_overlapping(&files, b"f", b"f")), vec![1, 3]);
    // The end of a range that a caller gives is not in it.
    assert!(!file_overlaps_range(&files[0], Some(b"a"), Some(b"d")));
    assert!(file_overlaps_range(&files[0], Some(b"f"), None));
    assert!(file_overlaps_range(&files[0], None, None));
    assert_eq!(ids(&order_by_age(&files, true)), vec![3, 2, 1]);
    assert_eq!(ids(&order_by_age(&files, false)), vec![1, 2, 3]);
}

fn small_levels() -> LevelOptions {
    LevelOptions {
        l0_compaction_trigger: 2,
        level_base_bytes: 100,
        level_size_multiplier: 10,
    }
}

#[test]
fn level_zero_goes_first_and_whole() {
    let mut v = Version::new();
    v.levels[0].push(span(5, 10, b"c", b"d"));
    v.levels[0].push(span(6, 10, b"a", b"b"));
    v.levels[1].push(span(1, 500, b"b", b"c"));
    v.levels[1].push(span(2, 10, b"x", b"y"));
    let (level, picked) = pick_leveled(&v, &small_levels(), &HashSet::new()).unwrap();
    assert_eq!(level, 0);
    assert_eq!(ids(&picked.inputs), vec![5, 6]);
    assert_eq!(ids(&picked.overlaps), vec![1]);
    let busy: HashSet<u64> = [6].into_iter().collect();
    assert!(pick_leveled(&v, &small_levels(), &busy).is_none());
    let mut marked = HashSet::new();
    picked.register(&mut marked);
    assert_eq!(marked, [5, 6, 1].into_iter().collect());
    picked.deregister(&mut marked);
    assert!(marked.is_empty());
}

#[test]
fn a_busy_overlap_keeps_level_zero_waiting() {
    let mut v = Version::new();
    v.levels[0].push(span(5, 10, b"c", b"d"));
    v.levels[1].push(span(1, 10, b"b", b"c"));
    v.levels[1].push(span(2, 10, b"x", b"y"));
    let overlap: HashSet<u64> = [1].into_iter().collect();
    assert!(pick_l0(&v, &overlap).is_none());
    let elsewhere: HashSet<u64> = [2].into_iter().collect();
    let picked = pick_l0(&v, &elsewhere).unwrap();
    assert_eq!(ids(&picked.inputs), vec![5]);
    assert_eq!(ids(&picked.overlaps), vec![1]);
}

#[test]
fn an_oversized_level_gives_one_table_down() {
    let mut v = Version::new();
    v.levels[0].push(span(9, 10, b"a", b"z"));
    v.levels[1].push(span(1, 60, b"a", b"c"));
    v.levels[1].push(span(2, 60, b"m", b"n"));
    v.levels[2].push(span(3, 10, b"b", b"b"));
    let (level, picked) = pick_leveled(&v, &small_levels(), &HashSet::new()).unwrap();
    assert_eq!(level, 1);
    assert_eq!(picked.inputs.len(), 1);
    v.levels[1].pop();
    assert!(pick_leveled(&v, &small_levels(), &HashSet::new()).is_none());
}

fn universal() -> UniversalCompactionOptions {
    UniversalCompactionOptions {
        size_ratio: 10,
        min_merge_width: 2,
        max_merge_width: 8,
        max_size_amplification_percent: 200,
    }
}

#[test]
fn tables_of_similar_size_are_merged() {
    let files = vec![span(1, 1000, b"a", b"b"), span(2, 100, b"a", b"b"), span(3, 100, b"a", b"b")];
    assert_eq!(ids(&pick_universal(&files, &universal()).unwrap()), vec![3, 2]);
    // 110 percent of 100 is 110.
    let files = vec![span(1, 111, b"a", b"b"), span(2, 100, b"a", b"b")];
    assert!(pick_universal(&files, &universal()).is_none());
    let files = vec![span(1, 110, b"a", b"b"), span(2, 100, b"a", b"b")];
    assert_eq!(ids(&pick_universal(&files, &universal()).unwrap()), vec![2, 1]);
}

#[test]
fn a_large_overhead_merges_everything() {
    let files = vec![span(1, 100, b"a", b"b"), span(2, 180, b"a", b"b"), span(3, 20, b"a", b"b")];
    assert_eq!(ids(&pick_universal(&files, &universal()).unwrap()), vec![3, 2, 1]);
    let lazy = UniversalCompactionOptions {
        max_size_amplification_percent: 201,
        ..universal()
    };
    assert!(pick_universal(&files, &lazy).is_none());
    assert!(pick_universal(&vec![span(1, 1, b"a", b"b")], &universal()).is_none());
}

#[test]
fn the_oldest_tables_go_until_the_limit_holds() {
    let files = vec![span(3, 40, b"a", b"b"), span(1, 40, b"a", b"b"), span(2, 40, b"a", b"b")];
    assert_eq!(ids(&pick_fifo(&files, 80)), vec![1]);
    assert_eq!(ids(&pick_fifo(&files, 79)), vec![1, 2]);
    assert_eq!(ids(&pick_fifo(&files, 1)), vec![1, 2]);
    assert!(pick_fifo(&files, 120).is_empty());
    assert!(pick_fifo(&files, 0).is_empty());
}

#[test]
fn the_style_decides_what_is_done_next() {
    let mut v = Version::new();
    v.levels[0].push(span(1, 40, b"a", b"b"));
    v.levels[0].push(span(2, 40, b"a", b"b"));
    let next = |style, busy: &HashSet<u64>| {
        pick_compaction(&v, style, &small_levels(), &universal(), 50, busy)
    };
    let none = HashSet::new();
    let busy: HashSet<u64> = [7].into_iter().collect();
    assert!(matches!(
        next(CompactionStyle::Level, &none),
        Some(CompactionJob::Merge { level: 0, target_level: 1, .. })
    ));
    assert!(matches!(
        next(CompactionStyle::Universal, &none),
        Some(CompactionJob::Merge { level: 0, target_level: 0, .. })
    ));
    assert!(matches!(
        next(CompactionStyle::Fifo, &none),
        Some(CompactionJob::Discard { .. })
    ));
    assert!(next(CompactionStyle::Universal, &busy).is_none());
    assert!(next(CompactionStyle::Fifo, &busy).is_none());
}

// ── Tables and their metadata ────────────────────────────────────

#[test]
fn a_table_is_held_to_its_metadata() {
    let meta = |smallest: &[u8], largest: &[u8], num_entries| SsTableMeta {
        file_id: 1,
        smallest_key: smallest.to_vec(),
        largest_key: largest.to_vec(),
        file_size: 1,
        num_entries,
    };
    let open = |m| {
        LiveSst::new(
            m,
            SsTableReader::new(
                vec![put(b"b", 1, b""), put(b"d", 2, b"")],
                vec![range(b"c", b"f", 3)],
            ),
        )
        .is_as_announced()
    };
    assert!(open(meta(b"b", b"f", 2)));
    assert!(open(meta(b"a", b"z", 2)));
    assert!(!open(meta(b"b", b"f", 3)));
    assert!(!open(meta(b"c", b"f", 2)));
    assert!(!open(meta(b"b", b"e", 2)));
    let tight = LiveSst::new(
        meta(b"b", b"f", 0),
        SsTableReader::new(Vec::new(), vec![range(b"b", b"f\0", 3)]),
    );
    assert!(tight.is_as_announced());
}

// ── Stalls and sizes ─────────────────────────────────────────────

#[test]
fn every_reason_to_stall() {
    let opts = StallOptions {
        level0_slowdown_writes_trigger: 4,
        level0_stop_writes_trigger: 8,
        soft_pending_compaction_bytes_limit: 100,
        hard_pending_compaction_bytes_limit: 200,
        max_write_buffer_number: 2,
    };
    let stall = |reason, stop| Some(Stall { reason, stop });
    assert_eq!(opts.stall_state(3, 2, 99), None);
    assert_eq!(opts.stall_state(4, 2, 99), stall(StallReason::L0Files, false));
    assert_eq!(opts.stall_state(8, 9, 999), stall(StallReason::L0Files, true));
    assert_eq!(opts.stall_state(0, 3, 0), stall(StallReason::Memtables, false));
    assert_eq!(opts.stall_state(0, 4, 0), stall(StallReason::Memtables, true));
    assert_eq!(opts.stall_state(0, 0, 100), stall(StallReason::PendingBytes, false));
    assert_eq!(opts.stall_state(7, 0, 200), stall(StallReason::PendingBytes, true));
    assert_eq!(stall_level(None), 0);
    assert_eq!(stall_level(stall(StallReason::L0Files, false)), 1);
    assert_eq!(stall_level(stall(StallReason::L0Files, true)), 2);
    assert_eq!(
        opts.stall_state(8, 0, 0).unwrap().describe(),
        "stop: too many L0 files"
    );
}

#[test]
fn what_a_writer_does_at_the_gate() {
    let slow = Stall {
        reason: StallReason::Memtables,
        stop: false,
    };
    let stop = Stall { stop: true, ..slow };
    assert_eq!(write_gate(true, 0, None, false), WriteGate::Closed);
    assert_eq!(write_gate(false, 0, Some(stop), false), WriteGate::Proceed);
    assert_eq!(write_gate(false, 1, None, false), WriteGate::ProceedCleared);
    assert_eq!(write_gate(false, 2, Some(stop), false), WriteGate::Wait);
    assert_eq!(write_gate(false, 1, Some(slow), false), WriteGate::Delay);
    assert_eq!(write_gate(false, 1, Some(slow), true), WriteGate::Busy(slow));
}

#[test]
fn oversized_operations_are_refused() {
    let limits = SizeLimits {
        max_key_size: 4,
        max_value_size: 2,
    };
    let op = |key: &[u8], value: &[u8]| {
        vec![WriteBatchOp::Put {
            key: key.to_vec(),
            value: value.to_vec(),
        }]
    };
    assert!(limits.validate_ops_sizes(&op(b"k", b"vv")).is_ok());
    assert_eq!(
        limits.validate_ops_sizes(&op(b"k", b"vvv")).unwrap_err().kind(),
        ErrorKind::InvalidInput
    );
    assert_eq!(
        limits
            .validate_ops_sizes(&op(&[b'k'; 64], b"v"))
            .unwrap_err()
            .kind(),
        ErrorKind::InvalidInput
    );
    assert_eq!(batch_op_wal_bytes(&op(b"key", b"vv")[0]), 13);
}
