use lark::engine::checksum;
use lark::engine::manifest::replay_manifest;
use lark::engine::manifest::Version;
use lark::engine::manifest_record::ManifestRecord;
use lark::engine::manifest_record::MAX_LEVELS;
use lark::engine::sstable::SsTableMeta;
use lark::error::ErrorKind;

fn test_meta(file_id: u64) -> SsTableMeta {
    SsTableMeta {
        file_id,
        smallest_key: b"a".to_vec(),
        largest_key: b"z".to_vec(),
        file_size: 128,
        num_entries: 2,
    }
}

#[test]
fn manifest_checksum_covers_length_header() {
    let mut record = Vec::new();
    ManifestRecord::SetLastSeq(7).encode(&mut record);
    let len = record.len() as u32;
    let baseline = checksum::manifest_record(len, &record);
    assert_ne!(baseline, checksum::manifest_record(len + 1, &record));
}

#[test]
fn replay_manifest_accepts_legacy_payload_only_checksum() {
    let mut record = Vec::new();
    ManifestRecord::SetLastSeq(7).encode(&mut record);
    let len = record.len() as u32;
    let mut data = Vec::new();
    data.extend_from_slice(&len.to_le_bytes());
    data.extend_from_slice(&record);
    data.extend_from_slice(&checksum::legacy_payload_u32(&record).to_le_bytes());

    let replay = replay_manifest(&data).unwrap();
    assert_eq!(replay.last_seq, 7);
    assert_eq!(replay.valid_len, data.len());
}

#[test]
fn initial_version_has_empty_levels_and_defaults() {
    let v = Version::new();
    assert_eq!(v.levels.len(), MAX_LEVELS);
    assert!(v.levels.iter().all(|l| l.is_empty()));
    assert_eq!(v.next_file_id, 1);
    assert_eq!(v.last_seq, 0);
    assert_eq!(v.min_wal_id, 0);
    assert_eq!(v.l0_count(), 0);
    for level in 0..MAX_LEVELS {
        assert_eq!(v.level_size(level), 0);
    }
}

#[test]
fn manifest_record_encode_decode_round_trip() {
    // Exercise every tag through the encode/decode path used by
    // the replay loop.
    let records = [
        ManifestRecord::AddFile {
            level: 2,
            meta: SsTableMeta {
                file_id: 99,
                smallest_key: b"aaa".to_vec(),
                largest_key: b"zzz".to_vec(),
                file_size: 4096,
                num_entries: 128,
            },
        },
        ManifestRecord::RemoveFile {
            level: 1,
            file_id: 7,
        },
        ManifestRecord::SetLastSeq(999),
        ManifestRecord::SetNextFileId(42),
        ManifestRecord::SetMinWalId(11),
        ManifestRecord::Reset {
            next_file_id: 77,
            min_wal_id: 76,
        },
    ];
    for r in &records {
        let mut buf = Vec::new();
        r.encode(&mut buf);
        let mut pos = 0;
        let decoded = match ManifestRecord::decode(&buf, &mut pos) {
            Ok(Some(d)) => d,
            other => panic!("expected decoded record, got {:?}", other.is_ok()),
        };
        // Re-encode and compare - equality via round-trip avoids
        // having to add PartialEq to ManifestRecord.
        let mut rebuf = Vec::new();
        decoded.encode(&mut rebuf);
        assert_eq!(buf, rebuf);
        assert_eq!(pos, buf.len());
    }
}

#[test]
fn manifest_record_decode_rejects_unknown_tag() {
    let data = [0xFFu8];
    let mut pos = 0;
    let kind = match ManifestRecord::decode(&data, &mut pos) {
        Err(e) => e.kind(),
        Ok(_) => panic!("expected error on unknown tag"),
    };
    assert_eq!(kind, ErrorKind::InvalidData);
}

#[test]
fn manifest_record_decode_rejects_invalid_level_indexes() {
    let records = [
        ManifestRecord::AddFile {
            level: MAX_LEVELS,
            meta: test_meta(1),
        },
        ManifestRecord::RemoveFile {
            level: MAX_LEVELS,
            file_id: 1,
        },
    ];

    for record in records {
        let mut data = Vec::new();
        record.encode(&mut data);
        let mut pos = 0;
        let kind = match ManifestRecord::decode(&data, &mut pos) {
            Err(e) => e.kind(),
            Ok(_) => panic!("expected invalid level error"),
        };
        assert_eq!(kind, ErrorKind::InvalidData);
    }
}

#[test]
fn manifest_record_decode_returns_none_at_eof() {
    let mut pos = 0;
    let got = ManifestRecord::decode(&[], &mut pos).unwrap();
    assert!(got.is_none());
}

#[test]
fn manifest_record_decode_returns_none_past_the_end() {
    let mut pos = 7;
    assert!(ManifestRecord::decode(&[1, 2, 3], &mut pos).unwrap().is_none());
    assert_eq!(pos, 7);
}
