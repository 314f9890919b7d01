use lark::backup::backup_filename;
use lark::backup::backup_ids;
use lark::backup::manifest::decode_manifest;
use lark::backup::manifest::encode_manifest;
use lark::backup::manifest::BackupFileEntry;
use lark::backup::manifest::BackupManifest;
use lark::backup::next_backup_id;
use lark::backup::parse_backup_id;
use lark::backup::shared_filename;
use lark::backup::ensure_shared_file;
use lark::backup::verify_shared_file;
use lark::backup::SharedObject;
use lark::engine::checksum;
use lark::engine::batch::WriteBatchOp;
use lark::engine::memtable::MemTable;
use lark::engine::read_horizon::ReadHorizon;
use lark::engine::recovery::logged;
use lark::engine::recovery::next_wal_id;
use lark::engine::recovery::replay_entries;
use lark::engine::recovery::rewrite_recovered_memtable;
use lark::engine::recovery::should_replay_wal;
use lark::engine::recovery::wal_file_id;
use lark::engine::recovery::WalEntry;
use lark::error::ErrorKind;
use lark::names::padded_text;
use lark::names::parse_number;
use xxhash_rust::xxh3::xxh3_128;
use xxhash_rust::xxh3::xxh3_64;

#[test]
fn numbers_are_padded_with_zeros() {
    assert_eq!(padded_text(7, 10, 6), "000007");
    assert_eq!(padded_text(1234567, 10, 6), "1234567");
    assert_eq!(padded_text(0, 10, 6), "000000");
    assert_eq!(padded_text(0xABC, 16, 8), "00000abc");
}

#[test]
fn numbers_are_read_back() {
    assert_eq!(parse_number(b"000042"), Some(42));
    assert_eq!(parse_number(b"+42"), Some(42));
    assert_eq!(parse_number(b"18446744073709551615"), Some(u64::MAX));
    assert_eq!(parse_number(b"18446744073709551616"), None);
    assert_eq!(parse_number(b""), None);
    assert_eq!(parse_number(b"-1"), None);
    assert_eq!(parse_number(b"12x"), None);
}

#[test]
fn a_backup_name_says_its_id() {
    for id in [0u64, 1, 42, 1_000_000, u64::MAX] {
        assert_eq!(parse_backup_id(&backup_filename(id)), Some(id));
    }
    assert_eq!(backup_filename(3), "000003.backup");
    assert_eq!(parse_backup_id("000003.txt"), None);
    assert_eq!(parse_backup_id("x.backup"), None);
}

#[test]
fn a_shared_name_is_its_hash_in_hex() {
    assert_eq!(
        shared_filename(0xDEADBEEF),
        "000000000000000000000000deadbeef.sst"
    );
}

#[test]
fn the_next_backup_comes_after_all_others() {
    let names = vec![
        "000004.backup".to_string(),
        "junk".to_string(),
        "000002.backup".to_string(),
        "000003.backup.tmp".to_string(),
    ];
    assert_eq!(backup_ids(&names), vec![2, 4]);
    assert_eq!(next_backup_id(&names, 0), 5);
    assert_eq!(next_backup_id(&names, 9), 10);
    assert_eq!(next_backup_id(&Vec::new(), 0), 1);
}

fn sample_backup() -> BackupManifest {
    BackupManifest {
        created_at_unix: 17,
        files: vec![BackupFileEntry {
            level: 1,
            file_id: 9,
            file_size: 128,
            hash: 5,
            smallest_key: b"a".to_vec(),
            largest_key: b"z".to_vec(),
            num_entries: 2,
        }],
        next_file_id: 12,
        last_seq: 99,
    }
}

#[test]
fn a_backup_manifest_is_read_back() {
    let bytes = encode_manifest(&sample_backup());
    let m = decode_manifest(&bytes).unwrap();
    assert_eq!(m.created_at_unix, 17);
    assert_eq!(m.next_file_id, 12);
    assert_eq!(m.last_seq, 99);
    assert_eq!(m.files.len(), 1);
    assert_eq!(m.files[0].level, 1);
    assert_eq!(m.files[0].file_id, 9);
    assert_eq!(m.files[0].hash, 5);
    assert_eq!(m.files[0].smallest_key, b"a");
    assert_eq!(m.files[0].largest_key, b"z");
    assert_eq!(encode_manifest(&m), bytes);
}

#[test]
fn a_damaged_backup_manifest_is_refused() {
    let bytes = encode_manifest(&sample_backup());
    for i in 0..bytes.len() {
        let mut bad = bytes.clone();
        bad[i] ^= 0x40;
        assert!(decode_manifest(&bad).is_err(), "byte {i}");
    }
    for n in 0..bytes.len() {
        assert!(decode_manifest(&bytes[..n]).is_err(), "length {n}");
    }
    assert_eq!(
        decode_manifest(b"").err().unwrap().kind(),
        ErrorKind::InvalidData
    );
}

#[test]
fn a_shared_object_is_checked_before_it_is_trusted() {
    let good = SharedObject::File { len: 4, hash: 8 };
    assert!(verify_shared_file(good, 8, 4).is_ok());
    assert_eq!(
        verify_shared_file(good, 9, 4).unwrap_err().kind(),
        ErrorKind::InvalidData
    );
    assert_eq!(
        verify_shared_file(good, 8, 5).unwrap_err().kind(),
        ErrorKind::InvalidData
    );
    assert!(verify_shared_file(SharedObject::Directory, 8, 4).is_err());
    assert!(verify_shared_file(SharedObject::Special, 8, 4).is_err());
    assert!(verify_shared_file(SharedObject::Missing, 8, 4).is_err());
    assert_eq!(ensure_shared_file(SharedObject::Missing, 8, 4).unwrap(), true);
    assert_eq!(ensure_shared_file(good, 8, 4).unwrap(), false);
    assert_eq!(ensure_shared_file(good, 9, 4).unwrap(), true);
    assert!(ensure_shared_file(SharedObject::Directory, 8, 4).is_err());
}

#[test]
fn a_log_name_says_its_id() {
    assert_eq!(wal_file_id("wal_000012"), Some(12));
    assert_eq!(wal_file_id("000012"), None);
    assert_eq!(wal_file_id("wal_x"), None);
    assert!(!should_replay_wal("wal_000003", 4));
    assert!(should_replay_wal("wal_000004", 4));
}

#[test]
fn a_new_log_has_an_id_of_its_own() {
    let stems = vec!["wal_000009".to_string(), "wal_000004".to_string()];
    assert_eq!(next_wal_id(5, &stems), 10);
    assert_eq!(next_wal_id(20, &stems), 20);
    assert_eq!(next_wal_id(1, &Vec::new()), 1);
}

#[test]
fn a_write_is_logged_with_its_number() {
    let put = WriteBatchOp::Put {
        key: b"k".to_vec(),
        value: b"v".to_vec(),
    };
    assert!(matches!(
        logged(&put, 7),
        WalEntry::Put { key, value, seq: 7 } if key == b"k" && value == b"v"
    ));
    let range = WriteBatchOp::DeleteRange {
        start: b"a".to_vec(),
        end: b"c".to_vec(),
    };
    assert!(matches!(
        logged(&range, 8),
        WalEntry::DeleteRange { start, end, seq: 8 } if start == b"a" && end == b"c"
    ));
    let delete = WriteBatchOp::Delete { key: b"d".to_vec() };
    assert!(matches!(logged(&delete, 9), WalEntry::Delete { key, seq: 9 } if key == b"d"));
    let merge = WriteBatchOp::Merge {
        key: b"m".to_vec(),
        operand: b"o".to_vec(),
    };
    assert!(matches!(
        logged(&merge, 10),
        WalEntry::Merge { key, operand, seq: 10 } if key == b"m" && operand == b"o"
    ));
}

#[test]
fn a_rewritten_log_replays_to_the_same_memtable() {
    let log = vec![
        WalEntry::Put {
            key: b"a".to_vec(),
            value: b"1".to_vec(),
            seq: 3,
        },
        WalEntry::Delete {
            key: b"b".to_vec(),
            seq: 4,
        },
        WalEntry::DeleteRange {
            start: b"c".to_vec(),
            end: b"d".to_vec(),
            seq: 5,
        },
        WalEntry::Merge {
            key: b"a".to_vec(),
            operand: b"2".to_vec(),
            seq: 6,
        },
    ];
    let mut first = MemTable::new();
    assert_eq!(replay_entries(&mut first, &log, 2), 6);
    let rewritten = rewrite_recovered_memtable(&first).unwrap();
    let mut second = MemTable::new();
    assert_eq!(replay_entries(&mut second, &rewritten, 9), 9);
    assert_eq!(first.iter_internal(), second.iter_internal());
    assert_eq!(second.covering_range_tombstone_seq(b"c", 10), 5);
}

#[test]
fn the_read_horizon_never_goes_back() {
    let mut h = ReadHorizon::new(3);
    h.publish(7);
    assert_eq!(h.visible(), 7);
    h.publish(5);
    assert_eq!(h.visible(), 7);
    h.reset();
    assert_eq!(h.visible(), 0);
}

#[test]
fn checksums_cover_their_domain_and_every_part() {
    assert_ne!(checksum::wal_record(3, 1, b"abc"), checksum::wal_record(4, 1, b"abc"));
    assert_ne!(checksum::wal_record(3, 1, b"abc"), checksum::wal_record(3, 2, b"abc"));
    assert_ne!(checksum::wal_record(3, 1, b"abc"), checksum::wal_record(3, 1, b"abd"));
    assert_ne!(checksum::sst_block(0, b"abc"), checksum::sst_block(1, b"abc"));
    assert_ne!(checksum::sst_meta(1, b"abc"), checksum::sst_meta(2, b"abc"));
    assert_ne!(checksum::manifest_record(3, b"abc"), checksum::wal_record(3, 1, b"abc"));
    assert_eq!(checksum::legacy_payload_u64(b"abc"), xxh3_64(b"abc"));
    assert_eq!(checksum::legacy_payload_u32(b"abc"), xxh3_64(b"abc") as u32);
}

#[test]
fn a_shared_file_may_be_hashed_in_pieces() {
    let mut hasher = checksum::SharedFileHasher::new();
    hasher.update(b"hello ");
    hasher.update(b"world");
    assert_eq!(hasher.finish(), checksum::backup_shared_file(b"hello world"));
    assert_ne!(hasher.finish(), checksum::backup_shared_file(b"hello worle"));
    assert_ne!(hasher.finish(), xxh3_128(b"hello world"));
}
