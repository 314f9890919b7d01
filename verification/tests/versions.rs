use lark::engine::internal_key::encode_internal_key;
use lark::engine::internal_key::VALUE_TYPE_VALUE;
use lark::engine::manifest::is_suspect_table;
use lark::engine::manifest::rejects_discarded_tables;
use lark::engine::manifest::replay_manifest;
use lark::engine::manifest::ManifestReplay;
use lark::engine::manifest::Version;
use lark::engine::manifest::VersionEdit;
use lark::engine::manifest::VersionSet;
use lark::engine::manifest_record::encode_records;
use lark::engine::manifest_record::ManifestRecord;
use lark::engine::manifest_record::MAX_LEVELS;
use lark::engine::sstable::LiveSst;
use lark::engine::sstable::SsTableMeta;
use lark::engine::table_build::build_table;
use lark::error::Error;
use lark::error::ErrorKind;
use std::collections::BTreeMap;
use std::sync::Arc;

fn make_live_sst(id: u64, lo: &[u8], hi: &[u8]) -> Arc<LiveSst> {
    let entries = vec![
        (encode_internal_key(lo, 1, VALUE_TYPE_VALUE), b"v".to_vec()),
        (encode_internal_key(hi, 1, VALUE_TYPE_VALUE), b"v".to_vec()),
    ];
    Arc::new(build_table(entries, Vec::new(), id, 128).unwrap())
}

/// A version set with its manifest in memory.
struct Store {
    versions: VersionSet,
    manifest: Vec<u8>,
    tables: BTreeMap<u64, Arc<LiveSst>>,
}

fn version_of(replay: &ManifestReplay, tables: &BTreeMap<u64, Arc<LiveSst>>) -> Version {
    let mut version = Version::new();
    version.last_seq = replay.last_seq;
    version.next_file_id = replay.next_file_id;
    version.min_wal_id = replay.min_wal_id;
    for (level, metas) in replay.levels.iter().enumerate() {
        for meta in metas {
            version.levels[level].push(Arc::clone(&tables[&meta.file_id]));
        }
    }
    version
}

impl Store {
    fn open(manifest: Vec<u8>, tables: BTreeMap<u64, Arc<LiveSst>>) -> Result<Store, Error> {
        let replay = replay_manifest(&manifest)?;
        let versions = VersionSet::new(version_of(&replay, &tables));
        let mut manifest = manifest;
        manifest.truncate(replay.valid_len);
        Ok(Store {
            versions,
            manifest,
            tables,
        })
    }

    fn new() -> Store {
        Store::open(Vec::new(), BTreeMap::new()).unwrap()
    }

    fn apply(&mut self, edits: Vec<VersionEdit>) -> Result<(), Error> {
        let pending = self.versions.apply(&edits)?;
        for edit in &edits {
            if let VersionEdit::AddFile { file, .. } = edit {
                self.tables.insert(file.meta.file_id, Arc::clone(file));
            }
        }
        self.manifest.extend_from_slice(&pending.records);
        self.versions.install(pending);
        Ok(())
    }

    fn reopen(self) -> Store {
        Store::open(self.manifest, self.tables).unwrap()
    }

    fn current(&self) -> &Version {
        self.versions.current()
    }
}

#[test]
fn test_apply_and_replay_roundtrip() {
    let mut vs = Store::new();
    vs.apply(vec![
        VersionEdit::AddFile {
            level: 0,
            file: make_live_sst(1, b"aaa", b"zzz"),
        },
        VersionEdit::SetLastSeq(42),
        VersionEdit::SetNextFileId(10),
    ])
    .unwrap();
    for _ in 0..2 {
        let v = vs.current();
        assert_eq!(v.levels[0].len(), 1);
        assert_eq!(v.levels[0][0].meta.file_id, 1);
        assert_eq!(v.last_seq, 42);
        assert_eq!(v.next_file_id, 10);
        assert_eq!(v.min_wal_id, 0);
        vs = vs.reopen();
    }
}

#[test]
fn test_remove_file_hides_it_from_new_version() {
    let mut vs = Store::new();
    vs.apply(vec![
        VersionEdit::AddFile {
            level: 0,
            file: make_live_sst(1, b"a", b"c"),
        },
        VersionEdit::AddFile {
            level: 0,
            file: make_live_sst(2, b"d", b"f"),
        },
    ])
    .unwrap();
    let pinned = vs.current().snapshot();
    assert_eq!(pinned.levels[0].len(), 2);
    vs.apply(vec![VersionEdit::RemoveFile {
        level: 0,
        file_id: 1,
    }])
    .unwrap();
    let v = vs.current();
    assert_eq!(v.levels[0].len(), 1);
    assert_eq!(v.levels[0][0].meta.file_id, 2);
    // The pinned snapshot still has both tables.
    assert_eq!(pinned.levels[0].len(), 2);
}

#[test]
fn apply_rejects_invalid_level_indexes() {
    let mut vs = Store::new();
    let kind = match vs.apply(vec![VersionEdit::AddFile {
        level: MAX_LEVELS,
        file: make_live_sst(1, b"a", b"z"),
    }]) {
        Err(e) => e.kind(),
        Ok(_) => panic!("expected invalid level error"),
    };
    assert_eq!(kind, ErrorKind::InvalidData);
    assert_eq!(vs.current().levels.iter().map(Vec::len).sum::<usize>(), 0);
    let kind = match vs.apply(vec![VersionEdit::RemoveFile {
        level: MAX_LEVELS,
        file_id: 1,
    }]) {
        Err(e) => e.kind(),
        Ok(_) => panic!("expected invalid level error"),
    };
    assert_eq!(kind, ErrorKind::InvalidData);
}

#[test]
fn open_rejects_manifest_with_invalid_level_index() {
    let records = vec![ManifestRecord::AddFile {
        level: MAX_LEVELS,
        meta: SsTableMeta {
            file_id: 1,
            smallest_key: b"a".to_vec(),
            largest_key: b"z".to_vec(),
            file_size: 128,
            num_entries: 2,
        },
    }];
    let kind = match Store::open(encode_records(&records), BTreeMap::new()) {
        Err(e) => e.kind(),
        Ok(_) => panic!("expected invalid level error"),
    };
    assert_eq!(kind, ErrorKind::InvalidData);
}

#[test]
fn replay_survives_truncated_trailer() {
    let mut vs = Store::new();
    vs.apply(vec![VersionEdit::AddFile {
        level: 0,
        file: make_live_sst(1, b"a", b"m"),
    }])
    .unwrap();
    let first = vs.manifest.len();
    vs.apply(vec![VersionEdit::SetLastSeq(50)]).unwrap();
    for cut in first..vs.manifest.len() {
        let torn = Store::open(vs.manifest[..cut].to_vec(), vs.tables.clone()).unwrap();
        assert_eq!(torn.current().levels[0].len(), 1);
        assert_eq!(torn.current().last_seq, 0);
        assert_eq!(torn.manifest.len(), first);
    }
}

#[test]
fn reset_record_clears_files_and_sets_wal_floor_atomically() {
    let mut vs = Store::new();
    vs.apply(vec![
        VersionEdit::AddFile {
            level: 0,
            file: make_live_sst(1, b"a", b"m"),
        },
        VersionEdit::AddFile {
            level: 1,
            file: make_live_sst(2, b"n", b"z"),
        },
        VersionEdit::SetLastSeq(50),
        VersionEdit::SetNextFileId(9),
    ])
    .unwrap();
    vs.apply(vec![VersionEdit::Reset {
        next_file_id: 10,
        min_wal_id: 9,
    }])
    .unwrap();
    let vs = vs.reopen();
    let v = vs.current();
    assert!(v.levels.iter().all(Vec::is_empty));
    assert_eq!(v.last_seq, 0);
    assert_eq!(v.next_file_id, 10);
    assert_eq!(v.min_wal_id, 9);
}

#[test]
fn open_truncates_truncated_manifest_tail_before_append() {
    let mut vs = Store::new();
    vs.apply(vec![VersionEdit::SetLastSeq(7)]).unwrap();
    vs.apply(vec![VersionEdit::SetLastSeq(11)]).unwrap();
    let cut = vs.manifest.len() - 2;
    vs.manifest.truncate(cut);
    let mut vs = vs.reopen();
    assert_eq!(vs.current().last_seq, 7);
    vs.apply(vec![VersionEdit::SetLastSeq(99)]).unwrap();
    assert_eq!(vs.reopen().current().last_seq, 99);
}

#[test]
fn open_truncates_corrupt_manifest_tail_before_append() {
    let mut vs = Store::new();
    vs.apply(vec![VersionEdit::SetLastSeq(7)]).unwrap();
    vs.apply(vec![VersionEdit::SetLastSeq(11)]).unwrap();
    let last = vs.manifest.len() - 4;
    vs.manifest[last] ^= 0xFF;
    let mut vs = vs.reopen();
    assert_eq!(vs.current().last_seq, 7);
    vs.apply(vec![VersionEdit::SetLastSeq(99)]).unwrap();
    assert_eq!(vs.reopen().current().last_seq, 99);
}

#[test]
fn compact_manifest_rewrites_to_canonical_form() {
    let mut vs = Store::new();
    vs.apply(vec![VersionEdit::Reset {
        next_file_id: 7,
        min_wal_id: 7,
    }])
    .unwrap();
    vs.apply(vec![VersionEdit::AddFile {
        level: 0,
        file: make_live_sst(1, b"a", b"c"),
    }])
    .unwrap();
    vs.apply(vec![VersionEdit::AddFile {
        level: 1,
        file: make_live_sst(2, b"d", b"f"),
    }])
    .unwrap();
    vs.apply(vec![
        VersionEdit::SetLastSeq(500),
        VersionEdit::SetNextFileId(99),
    ])
    .unwrap();
    let pre_size = vs.manifest.len();
    vs.manifest = vs.versions.compact_manifest();
    assert!(vs.manifest.len() <= pre_size + 64);
    let vs = vs.reopen();
    let v = vs.current();
    assert_eq!(v.levels[0].len(), 1);
    assert_eq!(v.levels[1].len(), 1);
    assert_eq!(v.last_seq, 500);
    assert_eq!(v.next_file_id, 99);
    assert_eq!(v.min_wal_id, 7);
}

#[test]
fn an_edit_that_only_counts_needs_no_sync() {
    assert!(!VersionEdit::SetNextFileId(3).requires_manifest_sync());
    assert!(VersionEdit::RemoveFile {
        level: 0,
        file_id: 1
    }
    .requires_manifest_sync());
}

#[test]
fn tables_beside_an_unreadable_manifest_are_suspicious() {
    let empty = replay_manifest(b"not a manifest").unwrap();
    assert_eq!(empty.valid_len, 0);
    assert!(rejects_discarded_tables(&empty, 14, 1));
    assert!(!rejects_discarded_tables(&empty, 14, 0));
    assert!(is_suspect_table(Some(4096), Some(true)));
    assert!(!is_suspect_table(Some(4096), Some(false)));
}
