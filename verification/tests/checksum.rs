use lark::engine::checksum;
use xxhash_rust::xxh3::xxh3_64;
use xxhash_rust::xxh3::Xxh3Default;

/// The digest of a domain and of parts, each after its length.
fn digest(domain: &str, parts: &[&[u8]]) -> u64 {
    let mut bytes = domain.as_bytes().to_vec();
    for part in parts {
        bytes.extend_from_slice(&(part.len() as u64).to_le_bytes());
        bytes.extend_from_slice(part);
    }
    xxh3_64(&bytes)
}

#[test]
fn checksums_cover_their_domain_and_their_parts() {
    assert_eq!(
        checksum::wal_record(3, 1, b"abc"),
        digest("regolith/wal-record/v2", &[&3u32.to_le_bytes(), &[1], b"abc"]) as u32
    );
    assert_eq!(
        checksum::wal_stamp(b"WALS", 2, 0),
        digest(
            "regolith/wal-stamp/v1",
            &[b"WALS", &2u16.to_le_bytes(), &0u16.to_le_bytes()]
        ) as u32
    );
    assert_eq!(
        checksum::manifest_record(3, b"abc"),
        digest("regolith/manifest-record/v2", &[&3u32.to_le_bytes(), b"abc"]) as u32
    );
    assert_eq!(
        checksum::sst_block(4, b"abc"),
        digest("regolith/sst-block/v2", &[&[4], b"abc"]) as u32
    );
    assert_eq!(
        checksum::sst_meta(checksum::META_KIND_BLOOM, b"abc"),
        digest("regolith/sst-meta/v1", &[&[3], b"abc"]) as u32
    );
    assert_eq!(
        checksum::sst_footer(b"fields", 9),
        digest("regolith/sst-meta/v1", &[&[5], b"fields", &9u64.to_le_bytes()])
    );
    assert_eq!(
        checksum::opfs_slot_header(b"fixed", b"path"),
        digest("regolith/opfs-slot-header/v1", &[b"fixed", b"path"]) as u32
    );
    assert_eq!(
        checksum::backup_manifest(b"body"),
        digest("regolith/backup-manifest/v2", &[b"body"])
    );
    assert_eq!(checksum::legacy_payload_u64(b"abc"), xxh3_64(b"abc"));
    assert_eq!(checksum::legacy_payload_u32(b"abc"), xxh3_64(b"abc") as u32);
}

#[test]
fn a_file_hash_does_not_depend_on_the_chunks() {
    let contents: Vec<u8> = (0..1000u32).map(|i| (i * 7) as u8).collect();
    let mut hasher = checksum::SharedFileHasher::new();
    for chunk in contents.chunks(13) {
        hasher.update(chunk);
    }
    assert_eq!(hasher.finish(), checksum::backup_shared_file(&contents));
    let mut expected = Xxh3Default::new();
    expected.update(b"regolith/backup-shared-file/v2");
    expected.update(&contents);
    assert_eq!(hasher.finish(), expected.digest128());
    assert_ne!(
        checksum::backup_shared_file(&contents[1..]),
        checksum::backup_shared_file(&contents)
    );
}
