use lark::backup::backup_ids;
use lark::backup::ensure_shared_file;
use lark::backup::shared_filename;
use lark::backup::verify_shared_file;
use lark::backup::BackupEngine;
use lark::backup::BackupId;
use lark::backup::BackupInfo;
use lark::backup::MetaFile;
use lark::backup::SharedObject;
use lark::checkpoint::check_target;
use lark::checkpoint::Checkpoint;
use lark::engine::batch::grouped_batch_ops;
use lark::engine::batch::SizeLimits;
use lark::engine::batch::WriteBatchOp;
use lark::engine::checksum::backup_shared_file;
use lark::engine::compaction::compact;
use lark::engine::compaction_output::plan_outputs;
use lark::engine::compaction_pick::compaction_edits;
use lark::engine::compaction_pick::fifo_edits;
use lark::engine::compaction_pick::next_range_level;
use lark::engine::compaction_pick::CompactionJob;
use lark::engine::compaction_pick::CompactionStyle;
use lark::engine::compaction_pick::LevelOptions;
use lark::engine::compaction_pick::UniversalCompactionOptions;
use lark::engine::hooks::KeepAll;
use lark::engine::hooks::MergeOperator;
use lark::engine::hooks::NoMergeOperator;
use lark::engine::ingest::restamp_entries;
use lark::engine::ingest::restamp_tombstones;
use lark::engine::ingest::validate_source;
use lark::engine::ingest::IngestOptions;
use lark::engine::internal_key::encode_internal_key;
use lark::engine::internal_key::VALUE_TYPE_VALUE;
use lark::engine::iterator::LarkIterator;
use lark::engine::lark_engine::CommitOutcome;
use lark::engine::lark_engine::FlushStep;
use lark::engine::lark_engine::LarkEngine;
use lark::engine::manifest::replay_manifest;
use lark::engine::manifest::Version;
use lark::engine::manifest::VersionEdit;
use lark::engine::manifest_record::MAX_LEVELS;
use lark::engine::memtable::MemTable;
use lark::engine::options::EngineOptions;
use lark::engine::options::StallOptions;
use lark::engine::options::WriteGate;
use lark::engine::range_tombstone::RangeTombstone;
use lark::engine::read_view::ReadView;
use lark::engine::recovery::logged;
use lark::engine::recovery::should_replay_wal;
use lark::engine::recovery::WalEntry;
use lark::engine::sstable::LiveSst;
use lark::engine::sstable::SsTableReader;
use lark::engine::table_build::build_table;
use lark::error::Error;
use lark::error::ErrorKind;
use std::collections::BTreeMap;
use std::sync::Arc;

// ── A database in memory ─────────────────────────────────────────

type Table = (Vec<(Vec<u8>, Vec<u8>)>, Vec<(Vec<u8>, Vec<u8>, u64)>);

/// What a database has on disk.
#[derive(Clone, Default)]
struct Disk {
    tables: BTreeMap<u64, Table>,
    manifest: Vec<u8>,
    logs: BTreeMap<u64, Vec<LogLine>>,
}

#[derive(Clone)]
enum LogLine {
    Put(Vec<u8>, Vec<u8>, u64),
    Delete(Vec<u8>, u64),
    DeleteRange(Vec<u8>, Vec<u8>, u64),
    Merge(Vec<u8>, Vec<u8>, u64),
}

fn entry(line: &LogLine) -> WalEntry {
    match line.clone() {
        LogLine::Put(key, value, seq) => WalEntry::Put { key, value, seq },
        LogLine::Delete(key, seq) => WalEntry::Delete { key, seq },
        LogLine::DeleteRange(start, end, seq) => WalEntry::DeleteRange { start, end, seq },
        LogLine::Merge(key, operand, seq) => WalEntry::Merge { key, operand, seq },
    }
}

fn line(entry: &WalEntry) -> LogLine {
    match entry {
        WalEntry::Put { key, value, seq } => LogLine::Put(key.clone(), value.clone(), *seq),
        WalEntry::Delete { key, seq } => LogLine::Delete(key.clone(), *seq),
        WalEntry::DeleteRange { start, end, seq } => {
            LogLine::DeleteRange(start.clone(), end.clone(), *seq)
        }
        WalEntry::Merge { key, operand, seq } => {
            LogLine::Merge(key.clone(), operand.clone(), *seq)
        }
    }
}

fn stem(id: u64) -> String {
    format!("wal_{id:06}")
}

fn file_of(table: &LiveSst) -> Table {
    (
        table.reader.iter_internal(),
        table
            .reader
            .range_tombstones()
            .into_iter()
            .map(|t| (t.start, t.end, t.seq))
            .collect(),
    )
}

fn tombstones_of(table: &Table) -> Vec<RangeTombstone> {
    table
        .1
        .iter()
        .map(|(s, e, q)| RangeTombstone::new(s.clone(), e.clone(), *q))
        .collect()
}

fn bytes_of(table: &Table) -> Vec<u8> {
    let mut out = Vec::new();
    for (k, v) in &table.0 {
        for part in [k, v] {
            out.extend_from_slice(&(part.len() as u32).to_le_bytes());
            out.extend_from_slice(part);
        }
    }
    out.push(0xFF);
    for (s, e, q) in &table.1 {
        for part in [s, e] {
            out.extend_from_slice(&(part.len() as u32).to_le_bytes());
            out.extend_from_slice(part);
        }
        out.extend_from_slice(&q.to_le_bytes());
    }
    out
}

fn options() -> EngineOptions {
    EngineOptions {
        write_buffer_size: 64 * 1024 * 1024,
        read_only: false,
        sizes: SizeLimits {
            max_key_size: 1024,
            max_value_size: 1 << 20,
        },
        stalls: StallOptions::default(),
        compaction_style: CompactionStyle::Level,
        levels: LevelOptions::default(),
        universal: UniversalCompactionOptions {
            size_ratio: 1,
            min_merge_width: 2,
            max_merge_width: u32::MAX,
            max_size_amplification_percent: 200,
        },
        fifo_max_table_files_size: 1 << 30,
    }
}

fn tiny_flush_opts() -> EngineOptions {
    EngineOptions {
        write_buffer_size: 4 * 1024,
        ..options()
    }
}

struct Db {
    engine: LarkEngine,
    disk: Disk,
    log: u64,
}

fn load_version(disk: &Disk) -> Version {
    let replay = replay_manifest(&disk.manifest).unwrap();
    let mut version = Version::new();
    version.last_seq = replay.last_seq;
    version.next_file_id = replay.next_file_id;
    version.min_wal_id = replay.min_wal_id;
    for (level, metas) in replay.levels.iter().enumerate() {
        for meta in metas {
            let table = disk.tables.get(&meta.file_id).expect("a named table is there");
            assert!(SsTableReader::in_order(&table.0));
            let reader = SsTableReader::new(table.0.clone(), tombstones_of(table));
            version.levels[level].push(Arc::new(LiveSst::new(meta.clone(), reader)));
        }
    }
    version
}

impl Db {
    fn open(disk: Disk, options: EngineOptions) -> Db {
        let mut disk = disk;
        let version = load_version(&disk);
        let mut stems = Vec::new();
        let mut entries = Vec::new();
        for (id, lines) in &disk.logs {
            stems.push(stem(*id));
            if should_replay_wal(&stem(*id), version.min_wal_id) {
                entries.extend(lines.iter().map(entry));
            }
        }
        let recovered = LarkEngine::open(version, &stems, &entries, options).unwrap();
        let log = recovered.pending.version.next_file_id - 1;
        disk.logs.clear();
        disk.logs
            .insert(log, recovered.records.iter().map(line).collect());
        disk.manifest.extend_from_slice(&recovered.pending.records);
        let mut engine = recovered.engine;
        engine.install(recovered.pending);
        Db { engine, disk, log }
    }

    fn write(&mut self, ops: Vec<WriteBatchOp>) -> Result<(), Error> {
        if !self.engine.check_batch(&ops)? {
            return Ok(());
        }
        if self.engine.is_full() {
            self.rotate()?;
            self.flush_frozen();
        }
        let base = self.engine.reserve_seqs(ops.len() as u64);
        for (i, op) in ops.iter().enumerate() {
            let line = line(&logged(op, base + i as u64));
            self.disk.logs.entry(self.log).or_default().push(line);
        }
        self.engine.apply_batch(&ops, base);
        Ok(())
    }

    fn rotate(&mut self) -> Result<(), Error> {
        let rotation = self.engine.rotate_memtable()?;
        self.disk
            .manifest
            .extend_from_slice(&rotation.pending.records);
        self.engine.install(rotation.pending);
        self.engine.switch_log(rotation.wal_id);
        self.log = rotation.wal_id;
        Ok(())
    }

    fn flush_frozen(&mut self) {
        loop {
            match self.engine.next_flush() {
                FlushStep::Nothing => break,
                FlushStep::Empty => self.engine.drop_empty_memtable(),
                FlushStep::Write {
                    entries,
                    tombstones,
                } => {
                    let id = self.allocate();
                    let table = (
                        entries,
                        tombstones
                            .into_iter()
                            .map(|t| (t.start, t.end, t.seq))
                            .collect(),
                    );
                    let size = bytes_of(&table).len() as u64;
                    self.disk.tables.insert(id, table);
                    let live = self.engine.flush_table(id, size);
                    let last = self.engine.snapshot_seq();
                    let pending = self.engine.plan_add_table(0, live, last);
                    self.disk.manifest.extend_from_slice(&pending.records);
                    self.engine.finish_flush(pending);
                }
            }
        }
    }

    fn allocate(&mut self) -> u64 {
        let (id, pending) = self.engine.allocate_file_id();
        self.disk.manifest.extend_from_slice(&pending.records);
        self.engine.install(pending);
        id
    }

    fn flush(&mut self) {
        self.rotate().unwrap();
        self.flush_frozen();
    }

    fn run(&mut self, job: CompactionJob, pin: u64, target_size: u64) {
        let edits = match job {
            CompactionJob::Merge {
                level,
                target_level,
                picked,
            } => {
                let mut files: Vec<Arc<LiveSst>> = Vec::new();
                files.extend(picked.inputs.iter().cloned());
                files.extend(picked.overlaps.iter().cloned());
                let out = compact(
                    &files,
                    target_level,
                    pin,
                    None::<&KeepAll>,
                    None::<&NoMergeOperator>,
                );
                let mut outputs = Vec::new();
                for worker in plan_outputs(&out.entries, 4, target_size) {
                    for (from, to) in worker {
                        let id = self.allocate();
                        let live = build_table(
                            out.entries[from..to].to_vec(),
                            out.tombstones.clone(),
                            id,
                            (to - from) as u64,
                        );
                        if let Some(live) = live {
                            self.disk.tables.insert(id, file_of(&live));
                            outputs.push(Arc::new(live));
                        }
                    }
                }
                compaction_edits(level, target_level, &picked, &outputs)
            }
            CompactionJob::Discard { files } => fifo_edits(&files),
        };
        let pending = self.engine.read_view().version.apply(&edits).unwrap();
        self.disk.manifest.extend_from_slice(&pending.records);
        self.engine.install(pending);
    }

    fn compact_range(&mut self, start: Option<&[u8]>, end: Option<&[u8]>) {
        self.compact_range_at(start, end, u64::MAX)
    }

    fn compact_range_at(&mut self, start: Option<&[u8]>, end: Option<&[u8]>, pin: u64) {
        self.flush();
        let mut level = Some(0);
        while let Some(l) = level {
            let job = self.engine.compact_range(l, start, end).unwrap();
            let pushed = job.is_some();
            if let Some(job) = job {
                self.run(job, pin, 4 * 1024);
            }
            level = next_range_level(l, pushed);
        }
    }

    fn put(&mut self, key: &[u8], value: &[u8]) -> Result<(), Error> {
        self.write(vec![WriteBatchOp::Put {
            key: key.to_vec(),
            value: value.to_vec(),
        }])
    }

    fn delete(&mut self, key: &[u8]) -> Result<(), Error> {
        self.write(vec![WriteBatchOp::Delete { key: key.to_vec() }])
    }

    fn delete_range(&mut self, start: &[u8], end: &[u8]) -> Result<(), Error> {
        self.write(vec![WriteBatchOp::DeleteRange {
            start: start.to_vec(),
            end: end.to_vec(),
        }])
    }

    fn get(&self, key: &[u8]) -> Result<Option<Vec<u8>>, Error> {
        self.get_at(key, self.engine.snapshot_seq())
    }

    fn get_at(&self, key: &[u8], seq: u64) -> Result<Option<Vec<u8>>, Error> {
        self.engine.get(key, seq, None::<&NoMergeOperator>)
    }

    fn scan(&self) -> Vec<(Vec<u8>, Vec<u8>)> {
        let mut it = self
            .engine
            .new_iter(self.engine.snapshot_seq(), None::<&NoMergeOperator>);
        it.seek_to_first();
        let mut out = Vec::new();
        while it.valid() {
            out.push((it.key().unwrap().to_vec(), it.value().unwrap().to_vec()));
            it.next();
        }
        assert!(it.status().is_ok());
        out
    }

    /// What a checkpoint has on disk.
    fn checkpoint(&mut self) -> Disk {
        self.flush();
        let cp = Checkpoint::new(&self.engine).unwrap();
        let plan = cp.create(0).unwrap();
        let mut copy = Disk::default();
        for id in plan.files {
            copy.tables.insert(id, self.disk.tables[&id].clone());
        }
        copy.manifest = plan.manifest;
        copy
    }
}

// ── Reading and writing ──────────────────────────────────────────

#[test]
fn a_read_gives_back_the_last_write() {
    let mut db = Db::open(Disk::default(), options());
    db.put(b"k", b"1").unwrap();
    db.put(b"k", b"2").unwrap();
    let old = db.engine.snapshot_seq();
    db.delete(b"k").unwrap();
    assert_eq!(db.get(b"k").unwrap(), None);
    assert_eq!(db.get_at(b"k", old).unwrap(), Some(b"2".to_vec()));
    assert_eq!(db.get_at(b"k", old - 1).unwrap(), Some(b"1".to_vec()));
    assert_eq!(db.get(b"other").unwrap(), None);
}

#[test]
fn a_batch_is_seen_whole_and_in_order() {
    let mut db = Db::open(Disk::default(), options());
    db.put(b"b", b"old").unwrap();
    let before = db.engine.snapshot_seq();
    db.write(vec![
        WriteBatchOp::Put {
            key: b"a".to_vec(),
            value: b"1".to_vec(),
        },
        WriteBatchOp::DeleteRange {
            start: b"a".to_vec(),
            end: b"c".to_vec(),
        },
        WriteBatchOp::Put {
            key: b"b".to_vec(),
            value: b"2".to_vec(),
        },
    ])
    .unwrap();
    assert_eq!(db.get(b"a").unwrap(), None);
    assert_eq!(db.get(b"b").unwrap(), Some(b"2".to_vec()));
    assert_eq!(db.get_at(b"a", before).unwrap(), None);
    assert_eq!(db.get_at(b"b", before).unwrap(), Some(b"old".to_vec()));
}

#[test]
fn flushing_and_compacting_change_no_read() {
    let mut db = Db::open(Disk::default(), tiny_flush_opts());
    let mut model: BTreeMap<Vec<u8>, Vec<u8>> = BTreeMap::new();
    for i in 0..600u64 {
        let key = format!("key_{:03}", (i * 37) % 200).into_bytes();
        if i % 7 == 3 {
            db.delete(&key).unwrap();
            model.remove(&key);
        } else if i % 41 == 5 {
            db.delete_range(b"key_050", b"key_060").unwrap();
            model.retain(|k, _| !(k.as_slice() >= &b"key_050"[..] && k.as_slice() < &b"key_060"[..]));
        } else {
            let value = format!("value_{i}").into_bytes();
            db.put(&key, &value).unwrap();
            model.insert(key, value);
        }
        if i % 150 == 149 {
            db.compact_range(None, None);
        }
    }
    let expected: Vec<_> = model.clone().into_iter().collect();
    assert_eq!(db.scan(), expected);
    db.compact_range(None, None);
    assert_eq!(db.scan(), expected);
    assert_eq!(db.engine.num_files_at_level(0), 0);
    for i in 0..200u64 {
        let key = format!("key_{i:03}").into_bytes();
        assert_eq!(db.get(&key).unwrap(), model.get(&key).cloned());
    }
    let keys: Vec<Vec<u8>> = (0..200).rev().map(|i| format!("key_{i:03}").into_bytes()).collect();
    let refs: Vec<&[u8]> = keys.iter().map(|k| k.as_slice()).collect();
    let found = db
        .engine
        .multi_get(&refs, db.engine.snapshot_seq(), None::<&NoMergeOperator>)
        .unwrap();
    for (k, v) in keys.iter().zip(found) {
        assert_eq!(v, model.get(k).cloned());
    }
}

#[test]
fn a_pinned_snapshot_keeps_its_versions_through_a_compaction() {
    let mut db = Db::open(Disk::default(), options());
    db.put(b"k", b"1").unwrap();
    let pin = db.engine.snapshot_seq();
    db.put(b"k", b"2").unwrap();
    db.put(b"k", b"3").unwrap();
    db.compact_range_at(None, None, pin);
    assert_eq!(db.get_at(b"k", pin).unwrap(), Some(b"1".to_vec()));
    assert_eq!(db.get(b"k").unwrap(), Some(b"3".to_vec()));
    db.compact_range(None, None);
    assert_eq!(db.get(b"k").unwrap(), Some(b"3".to_vec()));
    let kept: usize = db.engine.total_sst_num_entries() as usize;
    assert!(kept <= 3);
}

#[test]
fn a_pinned_snapshot_sees_what_a_later_range_deletion_hides() {
    let mut db = Db::open(Disk::default(), options());
    db.put(b"k", b"1").unwrap();
    let pin = db.engine.snapshot_seq();
    db.delete_range(b"a", b"z").unwrap();
    db.compact_range_at(None, None, pin);
    assert_eq!(db.get_at(b"k", pin).unwrap(), Some(b"1".to_vec()));
    assert_eq!(db.get(b"k").unwrap(), None);
    db.compact_range(None, None);
    assert_eq!(db.get(b"k").unwrap(), None);
}

#[test]
fn a_reopened_database_reads_the_same() {
    let mut db = Db::open(Disk::default(), tiny_flush_opts());
    for i in 0..300u64 {
        db.put(format!("k{i:04}").as_bytes(), &[i as u8; 64]).unwrap();
    }
    db.delete_range(b"k0100", b"k0110").unwrap();
    db.write(vec![WriteBatchOp::Merge {
        key: b"m".to_vec(),
        operand: b"op".to_vec(),
    }])
    .unwrap();
    let expected = db.scan();
    let seq = db.engine.snapshot_seq();
    let again = Db::open(db.disk.clone(), tiny_flush_opts());
    assert_eq!(again.engine.snapshot_seq(), seq);
    assert_eq!(again.scan(), expected);
    // Opening rewrites the log; opening again finds the same.
    let third = Db::open(again.disk.clone(), tiny_flush_opts());
    assert_eq!(third.scan(), expected);
    assert!(third.log > again.log && again.log > db.log);
}

#[test]
fn an_unflushed_write_survives_in_the_log_alone() {
    let mut db = Db::open(Disk::default(), options());
    db.put(b"k", b"v").unwrap();
    db.delete_range(b"x", b"z").unwrap();
    assert!(db.disk.tables.is_empty());
    let again = Db::open(db.disk.clone(), options());
    assert_eq!(again.get(b"k").unwrap(), Some(b"v".to_vec()));
    assert_eq!(again.engine.snapshot_seq(), 2);
}

#[test]
fn a_recovery_that_was_cut_short_is_repeated() {
    let mut db = Db::open(Disk::default(), options());
    db.put(b"k", b"old").unwrap();
    for operand in [b"a", b"b"] {
        db.write(vec![WriteBatchOp::Merge {
            key: b"m".to_vec(),
            operand: operand.to_vec(),
        }])
        .unwrap();
    }
    db.delete_range(b"k", b"l").unwrap();
    db.put(b"k", b"new").unwrap();
    let expected = db.scan();
    // Both the logs and their copy are found when the database opens again.
    let mut torn = db.disk.clone();
    let again = Db::open(db.disk.clone(), options());
    let copy = again.disk.logs[&again.log].clone();
    torn.logs.insert(again.log, copy);
    let third = Db::open(torn, options());
    assert_eq!(third.scan(), expected);
    assert_eq!(third.get(b"k").unwrap(), Some(b"new".to_vec()));
    assert_eq!(third.engine.snapshot_seq(), db.engine.snapshot_seq());
}

struct Concat;

impl MergeOperator for Concat {
    fn full_merge(
        &self,
        _key: &[u8],
        base: Option<&[u8]>,
        operands: &Vec<Vec<u8>>,
    ) -> Option<Vec<u8>> {
        let mut out = base.unwrap_or(b"").to_vec();
        for o in operands {
            out.extend_from_slice(o);
        }
        Some(out)
    }

    fn partial_merge(&self, _key: &[u8], left: &[u8], right: &[u8]) -> Option<Vec<u8>> {
        Some([left, right].concat())
    }
}

#[test]
fn merge_operands_are_combined_across_sources() {
    let mut db = Db::open(Disk::default(), options());
    let merge = |op: &[u8]| {
        vec![WriteBatchOp::Merge {
            key: b"k".to_vec(),
            operand: op.to_vec(),
        }]
    };
    db.put(b"k", b"base").unwrap();
    db.flush();
    db.write(merge(b"+a")).unwrap();
    db.flush();
    db.write(merge(b"+b")).unwrap();
    let seq = db.engine.snapshot_seq();
    assert_eq!(
        db.engine.get(b"k", seq, Some(&Concat)).unwrap(),
        Some(b"base+a+b".to_vec())
    );
    assert_eq!(
        db.engine.get(b"k", seq - 1, Some(&Concat)).unwrap(),
        Some(b"base+a".to_vec())
    );
    let mut it = db.engine.new_iter(seq, Some(&Concat));
    it.seek_to_first();
    assert_eq!(it.value(), Some(&b"base+a+b"[..]));
    it.next();
    assert!(!it.valid());
    assert_eq!(
        db.engine
            .get(b"k", seq, Some(&NoMergeOperator))
            .unwrap_err()
            .kind(),
        ErrorKind::InvalidData
    );
}

#[test]
fn an_iterator_walks_both_ways() {
    let mut db = Db::open(Disk::default(), options());
    for k in [b"a", b"c", b"e"] {
        db.put(k, k).unwrap();
    }
    db.flush();
    for k in [b"b", b"d"] {
        db.put(k, k).unwrap();
    }
    db.delete(b"c").unwrap();
    let mut it = db
        .engine
        .new_iter(db.engine.snapshot_seq(), None::<&NoMergeOperator>);
    it.seek(b"b");
    assert_eq!(it.key(), Some(&b"b"[..]));
    it.next();
    assert_eq!(it.key(), Some(&b"d"[..]));
    it.prev();
    assert_eq!(it.key(), Some(&b"b"[..]));
    it.seek_to_last();
    assert_eq!(it.key(), Some(&b"e"[..]));
    it.seek_for_prev(b"c");
    assert_eq!(it.key(), Some(&b"b"[..]));
    it.prev();
    assert_eq!(it.key(), Some(&b"a"[..]));
    it.prev();
    assert!(!it.valid());
    assert_eq!(it.key(), None);
}

fn forward<M: MergeOperator>(it: &mut LarkIterator<'_, M>) -> Vec<(Vec<u8>, Vec<u8>)> {
    let mut out = Vec::new();
    it.seek_to_first();
    while it.valid() {
        out.push((it.key().unwrap().to_vec(), it.value().unwrap().to_vec()));
        it.next();
    }
    out
}

fn backward<M: MergeOperator>(it: &mut LarkIterator<'_, M>) -> Vec<(Vec<u8>, Vec<u8>)> {
    let mut out = Vec::new();
    it.seek_to_last();
    while it.valid() {
        out.push((it.key().unwrap().to_vec(), it.value().unwrap().to_vec()));
        it.prev();
    }
    out
}

#[test]
fn a_backward_walk_is_the_forward_one_reversed() {
    let mut db = Db::open(Disk::default(), options());
    for (i, k) in [b"a", b"c", b"e", b"g", b"i"].into_iter().enumerate() {
        db.put(k, &[i as u8]).unwrap();
    }
    db.flush();
    db.delete_range(b"c", b"f").unwrap();
    db.put(b"d", b"new").unwrap();
    db.flush();
    db.delete(b"g").unwrap();
    let mut it = db
        .engine
        .new_iter(db.engine.snapshot_seq(), None::<&NoMergeOperator>);
    let shown = forward(&mut it);
    assert_eq!(
        shown,
        vec![
            (b"a".to_vec(), vec![0]),
            (b"d".to_vec(), b"new".to_vec()),
            (b"i".to_vec(), vec![4])
        ]
    );
    let mut back = backward(&mut it);
    back.reverse();
    assert_eq!(back, shown);
}

#[test]
fn a_scan_shows_a_key_that_is_as_new_as_its_range_deletion() {
    let entries = vec![
        (encode_internal_key(b"k", 5, VALUE_TYPE_VALUE), b"v".to_vec()),
        (encode_internal_key(b"m", 4, VALUE_TYPE_VALUE), b"v".to_vec()),
    ];
    let deletion = vec![RangeTombstone::new(b"a".to_vec(), b"z".to_vec(), 5)];
    let mut version = Version::new();
    version.levels[0].push(Arc::new(build_table(entries, deletion, 1, 128).unwrap()));
    let view = ReadView {
        active: MemTable::new(),
        frozen: Vec::new(),
        version,
    };
    let mut it = view.new_iter(9, None::<&NoMergeOperator>);
    let shown = vec![(b"k".to_vec(), b"v".to_vec())];
    assert_eq!(forward(&mut it), shown);
    assert_eq!(backward(&mut it), shown);
}

#[test]
fn a_scan_meets_tables_of_a_deep_level_that_overlap() {
    let mut version = Version::new();
    version.levels[1].push(test_table(1, b"a", b"m"));
    version.levels[1].push(test_table(2, b"c", b"z"));
    let view = ReadView {
        active: MemTable::new(),
        frozen: Vec::new(),
        version,
    };
    let mut it = view.new_iter(9, None::<&NoMergeOperator>);
    let keys: Vec<Vec<u8>> = forward(&mut it).into_iter().map(|(k, _)| k).collect();
    assert_eq!(
        keys,
        vec![b"a".to_vec(), b"c".to_vec(), b"m".to_vec(), b"z".to_vec()]
    );
    assert_eq!(backward(&mut it).len(), 4);
}

// ── Transactions ─────────────────────────────────────────────────

#[test]
fn a_transaction_conflicts_with_a_later_write() {
    let mut db = Db::open(Disk::default(), options());
    db.put(b"a", b"1").unwrap();
    let began = db.engine.snapshot_seq();
    db.put(b"b", b"2").unwrap();
    let keys = vec![b"a".to_vec()];
    assert!(matches!(
        db.engine.check_commit(&keys, began).unwrap(),
        CommitOutcome::Clear
    ));
    let keys = vec![b"a".to_vec(), b"b".to_vec()];
    match db.engine.check_commit(&keys, began).unwrap() {
        CommitOutcome::Conflict {
            key,
            observed_seq,
            latest_seq,
        } => {
            assert_eq!(key, b"b");
            assert_eq!(observed_seq, began);
            assert_eq!(latest_seq, began + 1);
        }
        CommitOutcome::Clear => panic!("the write to b went unnoticed"),
    }
}

#[test]
fn grouped_writes_come_in_a_fixed_order() {
    let ops = grouped_batch_ops(
        vec![
            (b"a".to_vec(), Some(b"1".to_vec())),
            (b"b".to_vec(), None),
        ],
        vec![(b"x".to_vec(), b"y".to_vec())],
        vec![(b"m".to_vec(), b"op".to_vec())],
    );
    assert!(matches!(&ops[0], WriteBatchOp::Put { key, .. } if key == b"a"));
    assert!(matches!(&ops[1], WriteBatchOp::Delete { key } if key == b"b"));
    assert!(matches!(&ops[2], WriteBatchOp::DeleteRange { start, .. } if start == b"x"));
    assert!(matches!(&ops[3], WriteBatchOp::Merge { key, .. } if key == b"m"));
    assert_eq!(ops.len(), 4);
}

// ── Refusals ─────────────────────────────────────────────────────

#[test]
fn a_closed_database_refuses_everything() {
    let mut db = Db::open(Disk::default(), options());
    db.put(b"k", b"v").unwrap();
    assert!(db.engine.begin_close().unwrap());
    db.engine.finish_close(true);
    assert!(db.engine.is_closed());
    assert_eq!(db.get(b"k").unwrap_err().kind(), ErrorKind::NotConnected);
    assert_eq!(db.put(b"k", b"v").unwrap_err().kind(), ErrorKind::NotConnected);
    assert!(!db.engine.begin_close().unwrap());
    assert_eq!(
        db.engine.compact_range(0, None, None).err().unwrap().kind(),
        ErrorKind::NotConnected
    );
    let gate = db.engine.wait_for_write_capacity(false);
    assert_eq!(gate, WriteGate::Closed);
}

#[test]
fn a_read_only_database_refuses_writes() {
    let mut source = Db::open(Disk::default(), options());
    source.put(b"k", b"v").unwrap();
    source.flush();
    let engine = LarkEngine::open_read_only(
        load_version(&source.disk),
        &Vec::new(),
        &Vec::new(),
        options(),
    );
    assert!(engine.is_read_only());
    assert_eq!(
        engine
            .get(b"k", engine.snapshot_seq(), None::<&NoMergeOperator>)
            .unwrap(),
        Some(b"v".to_vec())
    );
    let ops = vec![WriteBatchOp::Delete { key: b"k".to_vec() }];
    assert_eq!(
        engine.check_batch(&ops).unwrap_err().kind(),
        ErrorKind::PermissionDenied
    );
}

#[test]
fn an_oversized_write_is_refused() {
    let mut db = Db::open(Disk::default(), options());
    let err = db.put(&[0u8; 1024 + 5], b"v").unwrap_err();
    assert_eq!(err.kind(), ErrorKind::InvalidInput);
    db.put(&[0u8; 1024 + 4], b"v").unwrap();
    let err = db.put(b"k", &vec![0u8; (1 << 20) + 1]).unwrap_err();
    assert_eq!(err.kind(), ErrorKind::InvalidInput);
    assert_eq!(db.engine.snapshot_seq(), 1);
}

#[test]
fn too_many_sealed_memtables_stop_writers() {
    let mut db = Db::open(Disk::default(), options());
    assert_eq!(db.engine.wait_for_write_capacity(false), WriteGate::Proceed);
    for i in 0..4u8 {
        db.put(&[i], b"v").unwrap();
        db.rotate().unwrap();
    }
    db.engine.refresh_stall_level();
    let stall = db.engine.stall_state().unwrap();
    assert!(stall.stop);
    assert_eq!(stall.describe(), "stop: too many memtables");
    assert_eq!(db.engine.wait_for_write_capacity(false), WriteGate::Wait);
    assert_eq!(
        db.engine.wait_for_write_capacity(true),
        WriteGate::Busy(stall)
    );
    db.flush_frozen();
    db.engine.refresh_stall_level();
    assert!(db.engine.stall_state().is_none());
}

// ── Taking tables in ─────────────────────────────────────────────

#[test]
fn an_ingested_table_hides_what_was_there() {
    let mut db = Db::open(Disk::default(), options());
    db.put(b"k", b"old").unwrap();
    db.flush();
    let opts = IngestOptions {
        ingest_behind: false,
        snapshot_consistency: true,
    };
    let source = vec![(encode_internal_key(b"k", 0, VALUE_TYPE_VALUE), b"new".to_vec())];
    let check = |_: &[u8]| -> Result<(), Error> { Ok(()) };
    let limits = options().sizes;
    let (lo, hi) = validate_source(&limits, &source, &Vec::new(), &check).unwrap();
    assert_eq!((lo.as_slice(), hi.as_slice()), (&b"k"[..], &b"k"[..]));
    assert!(db.engine.check_ingest(1, &opts, false).unwrap());
    assert!(db.engine.check_ingest(1, &opts, true).is_err());
    let level = db.engine.ingest_level(&lo, &hi, &opts).unwrap();
    assert_eq!(level, 0);
    let id = db.allocate();
    let seq = db.engine.reserve_seqs(1);
    let live = build_table(
        restamp_entries(&source, seq),
        restamp_tombstones(&Vec::new(), seq),
        id,
        1,
    )
    .unwrap();
    db.disk.tables.insert(id, file_of(&live));
    let pending = db.engine.plan_add_table(level, live, seq);
    db.disk.manifest.extend_from_slice(&pending.records);
    db.engine.install(pending);
    assert_eq!(db.get(b"k").unwrap(), Some(b"old".to_vec()));
    db.engine.publish(seq);
    assert_eq!(db.get(b"k").unwrap(), Some(b"new".to_vec()));
    let behind = IngestOptions {
        ingest_behind: true,
        snapshot_consistency: false,
    };
    assert_eq!(
        db.engine.ingest_level(b"k", b"k", &behind).unwrap_err().kind(),
        ErrorKind::InvalidInput
    );
    assert_eq!(
        db.engine.ingest_level(b"q", b"r", &behind).unwrap(),
        MAX_LEVELS - 1
    );
}

#[test]
fn the_range_of_a_source_has_its_range_deletions_in_it() {
    let mut db = Db::open(Disk::default(), options());
    db.put(b"m", b"old").unwrap();
    db.flush();
    let source = vec![(encode_internal_key(b"c", 0, VALUE_TYPE_VALUE), b"new".to_vec())];
    let deletions = vec![RangeTombstone::new(b"a".to_vec(), b"x".to_vec(), 0)];
    let check = |_: &[u8]| -> Result<(), Error> { Ok(()) };
    let (lo, hi) = validate_source(&options().sizes, &source, &deletions, &check).unwrap();
    assert_eq!((lo.as_slice(), hi.as_slice()), (&b"a"[..], &b"x"[..]));
    let opts = IngestOptions {
        ingest_behind: false,
        snapshot_consistency: false,
    };
    let level = db.engine.ingest_level(&lo, &hi, &opts).unwrap();
    assert_eq!(level, 0);
    assert_eq!(
        db.engine.ingest_level(b"c", b"c", &opts).unwrap(),
        MAX_LEVELS - 1
    );
    let before = db.engine.snapshot_seq();
    let id = db.allocate();
    let seq = db.engine.reserve_seqs(1);
    let live = build_table(
        restamp_entries(&source, seq),
        restamp_tombstones(&deletions, seq),
        id,
        1,
    )
    .unwrap();
    assert_eq!(live.meta.smallest_key, lo);
    assert_eq!(live.meta.largest_key, hi);
    let pending = db.engine.plan_add_table(level, live, seq);
    db.engine.install(pending);
    db.engine.publish(seq);
    assert_eq!(db.get(b"m").unwrap(), None);
    assert_eq!(db.get_at(b"m", before).unwrap(), Some(b"old".to_vec()));
}

#[test]
fn an_empty_source_is_refused() {
    let check = |_: &[u8]| -> Result<(), Error> { Ok(()) };
    let err = validate_source(&options().sizes, &Vec::new(), &Vec::new(), &check).unwrap_err();
    assert_eq!(err.kind(), ErrorKind::InvalidInput);
}

// ── Versions ─────────────────────────────────────────────────────

fn test_table(id: u64, lo: &[u8], hi: &[u8]) -> Arc<LiveSst> {
    let entries = vec![
        (encode_internal_key(lo, 1, VALUE_TYPE_VALUE), b"v".to_vec()),
        (encode_internal_key(hi, 1, VALUE_TYPE_VALUE), b"v".to_vec()),
    ];
    Arc::new(build_table(entries, Vec::new(), id, 128).unwrap())
}

#[test]
fn dropping_everything_leaves_no_table_and_no_log() {
    let mut db = Db::open(Disk::default(), options());
    db.put(b"k", b"v").unwrap();
    db.flush();
    db.put(b"l", b"v").unwrap();
    let reset = db.engine.plan_drop_all().unwrap();
    db.disk.manifest.extend_from_slice(&reset.pending.records);
    let wal_id = reset.wal_id;
    db.engine.finish_drop_all(reset);
    assert_eq!(db.get(b"k").unwrap(), None);
    assert_eq!(db.get(b"l").unwrap(), None);
    let replay = replay_manifest(&db.disk.manifest).unwrap();
    assert!(replay.levels.iter().all(|l| l.is_empty()));
    assert_eq!(replay.min_wal_id, wal_id);
    assert!(!should_replay_wal(&stem(wal_id - 1), replay.min_wal_id));
    assert!(should_replay_wal(&stem(wal_id), replay.min_wal_id));
}

// ── Views ────────────────────────────────────────────────────────

#[test]
fn a_rotation_publishes_the_sealed_memtable_and_the_fresh_one_together() {
    let mut db = Db::open(Disk::default(), options());
    db.put(b"k", b"v").unwrap();
    let rotation = db.engine.rotate_memtable().unwrap();
    let after = db.engine.read_view();
    assert!(after.active.is_empty(), "writers got a fresh memtable");
    assert_eq!(after.frozen.len(), 1);
    assert_eq!(
        after.frozen[0].get(b"k", 1),
        Some((1, Some(b"v".to_vec()))),
        "the sealed memtable is the one writers were using"
    );
    assert_eq!(after.version.next_file_id, rotation.wal_id);
    assert_eq!(db.get(b"k").unwrap(), Some(b"v".to_vec()));
}

#[test]
fn a_version_edit_publishes_a_new_view_that_keeps_the_memtables() {
    let mut db = Db::open(Disk::default(), options());
    db.put(b"k", b"v").unwrap();
    let pending = db
        .engine
        .read_view()
        .version
        .apply(&vec![VersionEdit::SetNextFileId(7)])
        .unwrap();
    db.engine.install(pending);
    let after = db.engine.read_view();
    assert_eq!(after.version.next_file_id, 7);
    assert_eq!(after.active.get(b"k", 1), Some((1, Some(b"v".to_vec()))));
    assert_eq!(after.frozen.len(), 0);
}

#[test]
fn a_view_reads_memtables_before_tables() {
    let mut active = MemTable::new();
    active.put(b"k", b"active", 9);
    let mut frozen = MemTable::new();
    frozen.put(b"k", b"frozen", 5);
    frozen.put(b"f", b"frozen", 6);
    let mut version = Version::new();
    version.levels[0].push(test_table(1, b"k", b"t"));
    let view = ReadView {
        active,
        frozen: vec![frozen],
        version,
    };
    assert_eq!(view.get(b"k", 9), Some(b"active".to_vec()));
    assert_eq!(view.get(b"k", 8), Some(b"frozen".to_vec()));
    assert_eq!(view.get(b"k", 4), Some(b"v".to_vec()));
    assert_eq!(view.get(b"f", 9), Some(b"frozen".to_vec()));
    assert_eq!(view.get(b"t", 9), Some(b"v".to_vec()));
    assert_eq!(view.latest_version_seq(b"k"), Some(9));
    assert_eq!(view.latest_version_seq(b"none"), None);
}

// ── Checkpoints ──────────────────────────────────────────────────

#[test]
fn checkpoint_empty_db() {
    let mut db = Db::open(Disk::default(), options());
    let copy = db.checkpoint();
    let reopened = Db::open(copy, options());
    assert_eq!(reopened.get(b"missing").unwrap(), None);
}

#[test]
fn checkpoint_memtable_only() {
    let mut db = Db::open(Disk::default(), options());
    db.put(b"a", b"1").unwrap();
    db.put(b"b", b"2").unwrap();
    db.put(b"c", b"3").unwrap();
    let reopened = Db::open(db.checkpoint(), options());
    assert_eq!(reopened.get(b"a").unwrap(), Some(b"1".to_vec()));
    assert_eq!(reopened.get(b"b").unwrap(), Some(b"2".to_vec()));
    assert_eq!(reopened.get(b"c").unwrap(), Some(b"3".to_vec()));
}

#[test]
fn checkpoint_flushed_and_compacted() {
    let mut db = Db::open(Disk::default(), tiny_flush_opts());
    for i in 0..200 {
        let k = format!("key_{:05}", i);
        db.put(k.as_bytes(), k.as_bytes()).unwrap();
    }
    let payload = vec![0u8; 512];
    for i in 0..32 {
        let key = format!("__flush_a_{:04}", i);
        db.put(key.as_bytes(), &payload).unwrap();
    }
    db.compact_range(None, None);
    db.put(b"post_1", b"pv1").unwrap();
    db.put(b"post_2", b"pv2").unwrap();
    let reopened = Db::open(db.checkpoint(), options());
    for i in 0..200 {
        let k = format!("key_{:05}", i);
        assert_eq!(reopened.get(k.as_bytes()).unwrap(), Some(k.into_bytes()));
    }
    assert_eq!(reopened.get(b"post_1").unwrap(), Some(b"pv1".to_vec()));
    assert_eq!(reopened.get(b"post_2").unwrap(), Some(b"pv2".to_vec()));
}

#[test]
fn a_checkpoint_captures_data_that_never_reached_an_sstable() {
    let mut db = Db::open(Disk::default(), options());
    for i in 0..200u64 {
        let k = format!("unflushed_{i:04}");
        db.put(k.as_bytes(), k.as_bytes()).unwrap();
    }
    assert!(db.disk.tables.is_empty());
    let reopened = Db::open(db.checkpoint(), options());
    for i in 0..200u64 {
        let k = format!("unflushed_{i:04}");
        assert_eq!(
            reopened.get(k.as_bytes()).unwrap(),
            Some(k.clone().into_bytes()),
            "{k} was acknowledged before the checkpoint but is not in it"
        );
    }
}

#[test]
fn a_checkpoint_captures_unflushed_range_deletes() {
    let mut db = Db::open(Disk::default(), options());
    for i in 0..50u64 {
        let k = format!("k_{i:04}");
        db.put(k.as_bytes(), b"v").unwrap();
    }
    db.delete_range(b"k_0010", b"k_0020").unwrap();
    let reopened = Db::open(db.checkpoint(), options());
    for i in 0..50u64 {
        let k = format!("k_{i:04}");
        let deleted = (10..20).contains(&i);
        assert_eq!(
            reopened.get(k.as_bytes()).unwrap().is_none(),
            deleted,
            "{k}: range delete did not survive the checkpoint"
        );
    }
}

#[test]
fn capturing_a_checkpoint_leaves_no_memtable_holding_data() {
    let mut db = Db::open(Disk::default(), options());
    for i in 0..200u64 {
        db.put(format!("k{i:04}").as_bytes(), b"v").unwrap();
    }
    assert!(!db.engine.memtables_hold_no_data());
    db.flush();
    let snapshot = db.engine.checkpoint_capture().unwrap();
    assert_eq!(snapshot.version.levels[0].len(), 1);
    assert!(db.engine.memtables_hold_no_data());
}

#[test]
fn a_manifest_rewritten_between_capture_and_copy_does_not_corrupt_the_checkpoint() {
    let mut db = Db::open(Disk::default(), options());
    for i in 0..400u64 {
        let k = format!("seed_{i:04}");
        db.put(k.as_bytes(), k.as_bytes()).unwrap();
    }
    db.flush();
    let plan = Checkpoint::new(&db.engine).unwrap().create(0).unwrap();
    for i in 0..400u64 {
        let k = format!("after_{i:04}");
        db.put(k.as_bytes(), &vec![b'z'; 256]).unwrap();
    }
    db.flush();
    db.disk.manifest = db.engine.read_view().version.encode_compacted();
    let mut copy = Disk::default();
    for id in plan.files {
        copy.tables.insert(id, db.disk.tables[&id].clone());
    }
    copy.manifest = plan.manifest;
    let reopened = Db::open(copy, options());
    for i in 0..400u64 {
        let k = format!("seed_{i:04}");
        assert_eq!(
            reopened.get(k.as_bytes()).unwrap(),
            Some(k.clone().into_bytes()),
            "{k} was captured but is not in the checkpoint"
        );
    }
    assert_eq!(
        reopened.get(b"after_0000").unwrap(),
        None,
        "the checkpoint picked up a write that happened after its capture"
    );
}

#[test]
fn a_checkpoint_into_a_full_directory_is_refused() {
    let db = Db::open(Disk::default(), options());
    let cp = Checkpoint::new(&db.engine).unwrap();
    assert_eq!(
        cp.create(1).err().unwrap().kind(),
        ErrorKind::AlreadyExists
    );
    assert_eq!(
        check_target(3).err().unwrap().kind(),
        ErrorKind::AlreadyExists
    );
    assert!(check_target(0).is_ok());
}

// ── Backups ──────────────────────────────────────────────────────

/// A repository in memory.
struct Repository {
    engine: BackupEngine,
    meta: BTreeMap<String, Vec<u8>>,
    shared: BTreeMap<String, (Table, Vec<u8>)>,
    last_id: u64,
}

impl Repository {
    fn new() -> Repository {
        Repository {
            engine: BackupEngine::open("/backups"),
            meta: BTreeMap::new(),
            shared: BTreeMap::new(),
            last_id: 0,
        }
    }

    fn found(&self, hash: u128) -> SharedObject {
        match self.shared.get(&shared_filename(hash)) {
            None => SharedObject::Missing,
            Some((_, bytes)) => SharedObject::File {
                len: bytes.len() as u64,
                hash: backup_shared_file(bytes),
            },
        }
    }

    fn create(&mut self, db: &mut Db) -> BackupId {
        db.flush();
        let version = db.engine.checkpoint_capture().unwrap().version;
        let names: Vec<String> = self.meta.keys().cloned().collect();
        let mut hashes = Vec::new();
        for level in &version.levels {
            for file in level {
                let table = &db.disk.tables[&file.meta.file_id];
                hashes.push(backup_shared_file(&bytes_of(table)));
            }
        }
        let plan =
            self.engine
                .create_backup(&names, self.last_id, &version, &hashes, 1_700_000_000);
        self.last_id = plan.id.0;
        for file in &plan.backup.files {
            let table = db.disk.tables[&file.file_id].clone();
            let bytes = bytes_of(&table);
            if ensure_shared_file(self.found(file.hash), file.hash, bytes.len() as u64).unwrap() {
                self.shared
                    .insert(shared_filename(file.hash), (table, bytes));
            }
        }
        self.meta.insert(plan.manifest_name, plan.manifest);
        plan.id
    }

    fn list(&self) -> Vec<BackupInfo> {
        let names: Vec<String> = self.meta.keys().cloned().collect();
        let ids = backup_ids(&names);
        let contents: Vec<Option<Vec<u8>>> = ids
            .iter()
            .map(|id| self.meta.get(&lark::backup::backup_filename(*id)).cloned())
            .collect();
        self.engine.list_backups(&ids, &contents)
    }

    fn restore(&self, id: BackupId) -> Result<Disk, Error> {
        let bytes = &self.meta[&lark::backup::backup_filename(id.0)];
        let plan = self.engine.restore(bytes)?;
        let mut disk = Disk::default();
        for file in &plan.backup.files {
            verify_shared_file(self.found(file.hash), file.hash, self.size(file.hash))?;
            let table = self.shared[&shared_filename(file.hash)].0.clone();
            disk.tables.insert(file.file_id, table);
        }
        disk.manifest = plan.manifest;
        Ok(disk)
    }

    fn size(&self, hash: u128) -> u64 {
        self.shared
            .get(&shared_filename(hash))
            .map_or(0, |(_, b)| b.len() as u64)
    }

    fn delete(&mut self, id: BackupId) {
        let name = lark::backup::backup_filename(id.0);
        let contents = self.meta.get(&name).cloned();
        let others: Vec<MetaFile> = self
            .meta
            .iter()
            .filter(|(n, _)| **n != name)
            .map(|(n, c)| MetaFile {
                name: n.clone(),
                contents: Some(c.clone()),
            })
            .collect();
        let plan = self
            .engine
            .delete_backup(id, contents.as_deref(), Some(&others))
            .unwrap();
        if let Some(plan) = plan {
            self.meta.remove(&plan.manifest_name);
            for hash in plan.objects {
                self.shared.remove(&shared_filename(hash));
            }
        }
    }

    fn purge(&mut self, keep: usize) {
        for id in self.engine.purge_old_backups(&self.list(), keep) {
            self.delete(id);
        }
    }
}

fn populate(db: &mut Db, prefix: &str, n: usize) {
    let filler = vec![0u8; 256];
    for i in 0..n {
        let k = format!("{}_{:05}", prefix, i);
        let mut v = filler.clone();
        v.extend_from_slice(k.as_bytes());
        db.put(k.as_bytes(), &v).unwrap();
    }
}

fn assert_has(db: &Db, prefix: &str, n: usize) {
    let filler = vec![0u8; 256];
    for i in 0..n {
        let k = format!("{}_{:05}", prefix, i);
        let mut expected = filler.clone();
        expected.extend_from_slice(k.as_bytes());
        assert_eq!(db.get(k.as_bytes()).unwrap(), Some(expected));
    }
}

#[test]
fn backup_and_restore_roundtrip() {
    let mut db = Db::open(Disk::default(), tiny_flush_opts());
    populate(&mut db, "k", 300);
    let mut repository = Repository::new();
    assert_eq!(repository.engine.path(), "/backups");
    let id = repository.create(&mut db);
    let infos = repository.list();
    assert_eq!(infos.len(), 1);
    assert_eq!(infos[0].id, id);
    assert!(infos[0].file_count >= 1);
    assert_eq!(infos[0].created_at_unix, 1_700_000_000);
    let reopened = Db::open(repository.restore(id).unwrap(), options());
    assert_has(&reopened, "k", 300);
    assert_eq!(reopened.engine.snapshot_seq(), db.engine.snapshot_seq());
}

#[test]
fn incremental_backup_dedupes() {
    let mut db = Db::open(Disk::default(), tiny_flush_opts());
    populate(&mut db, "x", 400);
    db.compact_range(None, None);
    let mut repository = Repository::new();
    let id1 = repository.create(&mut db);
    let shared_count_1 = repository.shared.len();
    let id2 = repository.create(&mut db);
    assert_eq!(id2.0, id1.0 + 1);
    assert_eq!(shared_count_1, repository.shared.len());
    assert_eq!(repository.list().len(), 2);
}

#[test]
fn create_backup_replaces_corrupt_existing_shared_object() {
    let mut db = Db::open(Disk::default(), tiny_flush_opts());
    populate(&mut db, "r", 400);
    db.compact_range(None, None);
    let mut repository = Repository::new();
    repository.create(&mut db);
    for (_, bytes) in repository.shared.values_mut() {
        bytes[0] ^= 0xFF;
    }
    let id2 = repository.create(&mut db);
    let restored = Db::open(repository.restore(id2).unwrap(), options());
    assert_has(&restored, "r", 400);
}

#[test]
fn restore_rejects_corrupt_shared_object() {
    let mut db = Db::open(Disk::default(), tiny_flush_opts());
    populate(&mut db, "bad", 300);
    db.compact_range(None, None);
    let mut repository = Repository::new();
    let id = repository.create(&mut db);
    let first = repository.shared.keys().next().unwrap().clone();
    repository.shared.get_mut(&first).unwrap().1[0] ^= 0xFF;
    let kind = match repository.restore(id) {
        Err(e) => e.kind(),
        Ok(_) => panic!("expected restore to reject corrupt shared object"),
    };
    assert_eq!(kind, ErrorKind::InvalidData);
}

#[test]
fn delete_backup_gcs_unreferenced_files() {
    let mut db = Db::open(Disk::default(), tiny_flush_opts());
    populate(&mut db, "a", 200);
    db.compact_range(None, None);
    let mut repository = Repository::new();
    let id1 = repository.create(&mut db);
    assert!(repository.shared.len() >= 1);
    populate(&mut db, "z", 200);
    db.compact_range(None, None);
    let id2 = repository.create(&mut db);
    let shared_after_2 = repository.shared.len();
    repository.delete(id1);
    assert!(repository.shared.len() <= shared_after_2);
    assert_eq!(repository.list().len(), 1);
    let reopened = Db::open(repository.restore(id2).unwrap(), options());
    assert_has(&reopened, "z", 200);
}

#[test]
fn the_id_of_a_deleted_backup_is_not_given_again() {
    let mut db = Db::open(Disk::default(), tiny_flush_opts());
    populate(&mut db, "d", 50);
    let mut repository = Repository::new();
    let id1 = repository.create(&mut db);
    let id2 = repository.create(&mut db);
    repository.delete(id2);
    let id3 = repository.create(&mut db);
    assert!(id3 > id2 && id2 > id1);
    assert_eq!(id3, BackupId(3));
}

#[test]
fn delete_only_backup_removes_all_shared() {
    let mut db = Db::open(Disk::default(), tiny_flush_opts());
    populate(&mut db, "q", 300);
    db.compact_range(None, None);
    let mut repository = Repository::new();
    let id = repository.create(&mut db);
    assert!(repository.shared.len() > 0);
    repository.delete(id);
    assert_eq!(repository.shared.len(), 0);
    assert_eq!(repository.list().len(), 0);
    // Removing what is not there is no failure.
    repository.delete(id);
}

#[test]
fn purge_keeps_newest() {
    let mut db = Db::open(Disk::default(), tiny_flush_opts());
    let mut repository = Repository::new();
    populate(&mut db, "g1", 100);
    db.compact_range(None, None);
    repository.create(&mut db);
    populate(&mut db, "g2", 100);
    db.compact_range(None, None);
    repository.create(&mut db);
    populate(&mut db, "g3", 100);
    db.compact_range(None, None);
    let b3 = repository.create(&mut db);
    repository.purge(1);
    let infos = repository.list();
    assert_eq!(infos.len(), 1);
    assert_eq!(infos[0].id, b3);
}

#[test]
fn restore_independent_of_source() {
    let mut db = Db::open(Disk::default(), tiny_flush_opts());
    populate(&mut db, "ind", 250);
    let mut repository = Repository::new();
    let id = repository.create(&mut db);
    drop(db);
    let reopened = Db::open(repository.restore(id).unwrap(), options());
    assert_has(&reopened, "ind", 250);
}

#[test]
fn a_scan_meets_an_entry_in_a_table_and_a_log_once() {
    let mut db = Db::open(Disk::default(), options());
    db.put(b"a", b"1").unwrap();
    db.put(b"b", b"2").unwrap();
    db.delete(b"a").unwrap();
    let log = db.disk.logs.clone();
    db.flush();
    // The log that was flushed is still there, as after a crash.
    let mut disk = db.disk.clone();
    disk.logs = log;
    let again = Db::open(disk, options());
    assert_eq!(again.engine.num_files_at_level(0), 1);
    assert!(!again.engine.memtables_hold_no_data());
    assert_eq!(again.scan(), vec![(b"b".to_vec(), b"2".to_vec())]);
    let mut it = again
        .engine
        .new_iter(again.engine.snapshot_seq(), None::<&NoMergeOperator>);
    it.seek_to_last();
    assert_eq!(it.key(), Some(&b"b"[..]));
    it.prev();
    assert!(!it.valid());
    let mut old = again.engine.new_iter(2, None::<&NoMergeOperator>);
    old.seek_to_first();
    assert_eq!(old.key(), Some(&b"a"[..]));
    old.next();
    assert_eq!(old.key(), Some(&b"b"[..]));
    old.prev();
    assert_eq!(old.key(), Some(&b"a"[..]));
}

#[test]
fn closing_seals_what_is_not_flushed() {
    let mut db = Db::open(Disk::default(), options());
    assert!(db.engine.rotate_for_close().is_none());
    db.put(b"k", b"v").unwrap();
    assert!(db.engine.begin_close().unwrap());
    // Nothing more is written, but what there is can be flushed.
    assert!(db.engine.rotate_memtable().is_err());
    let rotation = db.engine.rotate_for_close().unwrap();
    let id = rotation.wal_id;
    db.engine.install(rotation.pending);
    db.engine.switch_log(id);
    db.flush_frozen();
    assert!(db.engine.memtables_hold_no_data());
    assert!(db.engine.rotate_for_close().is_none());
    db.engine.finish_close(true);
    assert_eq!(db.disk.tables.len(), 1);
}

#[test]
fn a_scan_shows_what_lookups_find() {
    let mut db = Db::open(Disk::default(), tiny_flush_opts());
    for i in 0..400u64 {
        let key = format!("k{:02}", (i * 13) % 60).into_bytes();
        match i % 5 {
            0 => db.delete(&key).unwrap(),
            1 | 2 => db
                .write(vec![WriteBatchOp::Merge {
                    key,
                    operand: format!("+{i}").into_bytes(),
                }])
                .unwrap(),
            _ => db.put(&key, format!("{i}").as_bytes()).unwrap(),
        }
        if i % 90 == 80 {
            db.delete_range(b"k10", b"k20").unwrap();
            db.flush();
        }
    }
    for seq in [100, 250, db.engine.snapshot_seq()] {
        let mut it = db.engine.new_iter(seq, Some(&Concat));
        let mut shown = BTreeMap::new();
        it.seek_to_first();
        while it.valid() {
            shown.insert(it.key().unwrap().to_vec(), it.value().unwrap().to_vec());
            it.next();
        }
        for i in 0..60u64 {
            let key = format!("k{i:02}").into_bytes();
            let found = db.engine.get(&key, seq, Some(&Concat)).unwrap();
            assert_eq!(shown.get(&key).cloned(), found);
        }
    }
}

#[test]
fn compacting_changes_no_merged_value() {
    let mut db = Db::open(Disk::default(), options());
    db.put(b"k", b"base").unwrap();
    db.flush();
    for op in ["+a", "+b", "+c"] {
        db.write(vec![WriteBatchOp::Merge {
            key: b"k".to_vec(),
            operand: op.as_bytes().to_vec(),
        }])
        .unwrap();
        db.flush();
    }
    let pin = 3;
    db.compact_range_at(None, None, pin);
    assert_eq!(
        db.engine
            .multi_get(&[&b"k"[..], &b"none"[..]], 4, Some(&Concat))
            .unwrap(),
        vec![Some(b"base+a+b+c".to_vec()), None]
    );
    assert!(db
        .engine
        .multi_get(&[&b"k"[..]], 4, Some(&NoMergeOperator))
        .is_err());
    for (seq, expected) in [(3, &b"base+a+b"[..]), (4, &b"base+a+b+c"[..])] {
        assert_eq!(
            db.engine.get(b"k", seq, Some(&Concat)).unwrap(),
            Some(expected.to_vec())
        );
    }
}

#[test]
fn tables_of_a_level_below_the_first_do_not_overlap() {
    let mut db = Db::open(Disk::default(), options());
    for round in 0..3u64 {
        for i in 0..200u64 {
            let key = format!("k{:04}", i * 3 + round);
            db.put(key.as_bytes(), &[round as u8; 64]).unwrap();
        }
        db.compact_range(None, None);
        let version = load_version(&db.disk);
        let mut tables = 0;
        for level in version.levels.iter().skip(1) {
            let mut ranges: Vec<_> = level
                .iter()
                .map(|t| (t.meta.smallest_key.clone(), t.meta.largest_key.clone()))
                .collect();
            ranges.sort();
            assert!(ranges.iter().all(|r| r.0 <= r.1));
            assert!(ranges.windows(2).all(|w| w[0].1 < w[1].0));
            tables += ranges.len();
        }
        assert!(tables > 1);
        assert_eq!(db.scan().len() as u64, 200 * (round + 1));
    }
}

#[test]
fn bounded_scans_stay_in_their_bounds() {
    let mut db = Db::open(Disk::default(), options());
    for k in ["a", "ab", "ab\u{7f}", "b", "ba"] {
        db.put(k.as_bytes(), b"v").unwrap();
    }
    let mut it = db
        .engine
        .new_iter(db.engine.snapshot_seq(), None::<&NoMergeOperator>);
    it.seek_prefix(b"ab");
    assert_eq!(it.key(), Some(&b"ab"[..]));
    it.next();
    assert_eq!(it.key(), Some(&b"ab\x7f"[..]));
    it.next();
    assert!(!it.valid());
    it.seek_to_last_before(b"b");
    assert_eq!(it.key(), Some(&b"ab\x7f"[..]));
    it.seek_for_prev(b"b");
    assert_eq!(it.key(), Some(&b"b"[..]));
    assert_eq!(
        lark::engine::iterator::prefix_upper_bound(b"a\xff"),
        Some(b"b".to_vec())
    );
    assert_eq!(lark::engine::iterator::prefix_upper_bound(b"\xff"), None);
}

#[test]
fn ranges_of_the_memtable_and_of_tables_are_measured() {
    let mut db = Db::open(Disk::default(), options());
    db.put(b"a", b"1").unwrap();
    db.flush();
    db.put(b"m", b"22").unwrap();
    db.put(b"x", b"333").unwrap();
    let (count, size) = db.engine.approximate_memtable_stats(b"a", b"n");
    assert_eq!(count, 1);
    assert!(size > 0);
    assert_eq!(db.engine.tables_in_range(b"a", b"b").len(), 1);
    assert_eq!(db.engine.tables_in_range(b"b", b"z").len(), 0);
    assert_eq!(db.engine.tables_in_range(b"b", b"a").len(), 0);
    assert_eq!(db.engine.latest_seq(), 3);
    assert!(db.engine.active_memtable_size() > 0);
    assert_eq!(db.engine.frozen_memtables_size(), 0);
    assert_eq!(
        db.engine.total_sst_size(),
        bytes_of(db.disk.tables.values().next().unwrap()).len() as u64
    );
}
