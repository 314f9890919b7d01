//! Content-addressed incremental backups.
//!
//! A repository holds any number of backups. The bytes of a table are kept
//! once, under the hash of their contents, and each backup's manifest lists
//! the tables that make up its version. Backing up a database that did not
//! change a second time adds a manifest and nothing else.
//!
//! ```text
//! backup_dir/
//!   LAST_ID               # the last id that was given out
//!   meta/
//!     000001.backup       # manifest of one backup
//!     000002.backup
//!   shared/
//!     <32-hex>.sst        # contents of one table
//! ```
//!
//! The functions here decide: they take what is in the repository and say
//! what to copy, write and remove. Hash and checksum guard against accidental
//! corruption, not against tampering.

pub mod manifest;

use crate::bytes::copy_bytes;
use crate::engine::copy_laws::is_drain;
use crate::engine::copy_laws::lemma_copy_reads_as_its_source;
use crate::engine::copy_laws::lemma_draining_changes_no_read;
use crate::engine::copy_laws::read_the_same;
use crate::engine::copy_laws::same_files;
use crate::engine::lark_engine::holds_data;
use crate::engine::manifest::empty_levels;
use crate::engine::manifest::initial_state;
use crate::engine::manifest::lemma_levels_records;
use crate::engine::manifest::lemma_replay_reads_what_was_written;
use crate::engine::manifest::lemma_run_concat;
use crate::engine::manifest::level_records;
use crate::engine::manifest::levels_records;
use crate::engine::manifest::replay;
use crate::engine::manifest::run;
use crate::engine::manifest::table_metas;
use crate::engine::manifest::ManifestState;
use crate::engine::manifest::Replayed;
use crate::engine::manifest::Version;
use crate::engine::manifest_record::encode_records;
use crate::engine::manifest_record::frames;
use crate::engine::manifest_record::record_views;
use crate::engine::manifest_record::ManifestRecord;
use crate::engine::manifest_record::RecordView;
use crate::engine::manifest_record::MAX_LEVELS;
use crate::engine::read_view::ReadView;
use crate::engine::sstable::MetaView;
use crate::engine::sstable::SsTableMeta;
use crate::error::Error;
use crate::error::ErrorKind;
use crate::names::lemma_ascii_bytes;
use crate::names::lemma_number_round_trip;
use crate::names::padded;
use crate::names::padded_text;
use crate::names::parse_number;
use crate::names::parsed;
use crate::names::strip_suffix;
use crate::names::stripped_suffix;
use manifest::decode_manifest;
use manifest::encode_manifest;
use manifest::file_views;
use manifest::read_backup;
use manifest::BackupFileEntry;
use manifest::BackupManifest;
use manifest::BackupView;
use manifest::FileView;
use manifest::ReadBackup;
use std::collections::HashSet;
use vstd::prelude::*;
use vstd::string::StringExecFns;
use vstd::string::StringSliceAdditionalSpecFns;
use vstd::utf8::encode_utf8;

verus! {

/// Identifies one backup of a repository. Later backups have greater ids.
#[derive(Debug, Clone, Copy, PartialEq, Eq, PartialOrd, Ord, Hash, Structural)]
pub struct BackupId(pub u64);

/// Summary of a backup.
#[derive(Debug, Clone, Copy)]
pub struct BackupInfo {
    /// Which backup.
    pub id: BackupId,
    /// When it was made, in seconds since the Unix epoch.
    pub created_at_unix: u64,
    /// Number of tables.
    pub file_count: usize,
    /// Sum of the tables' sizes in bytes.
    pub bytes: u64,
}

// ── Names ────────────────────────────────────────────────────────

/// What the names of backups end with.
pub const BACKUP_SUFFIX: &'static str = ".backup";

/// What the names of shared tables end with.
pub const SHARED_SUFFIX: &'static str = ".sst";

/// The name of a backup's manifest.
pub open spec fn backup_name(id: u64) -> Seq<char> {
    padded(id as nat, 10, 6) + BACKUP_SUFFIX@
}

/// The name of a backup's manifest: its id in at least six digits.
pub fn backup_filename(id: u64) -> (r: String)
    ensures
        r@ == backup_name(id),
{
    let mut r = padded_text(id as u128, 10, 6);
    r.append(BACKUP_SUFFIX);
    r
}

/// The name under which the contents with this hash are kept: the hash in
/// thirty-two hexadecimal digits.
pub fn shared_filename(hash: u128) -> (r: String)
    ensures
        r@ == padded(hash as nat, 16, 32) + SHARED_SUFFIX@,
{
    let mut r = padded_text(hash, 16, 32);
    r.append(SHARED_SUFFIX);
    r
}

/// The id in the name of a backup's manifest.
pub open spec fn id_in_name(name: Seq<u8>) -> Option<u64> {
    match stripped_suffix(name, BACKUP_SUFFIX.spec_bytes()) {
        Some(stem) => parsed(stem),
        None => None,
    }
}

/// The id in the name of a backup's manifest; `None` for any other name.
pub fn parse_backup_id(name: &str) -> (r: Option<u64>)
    ensures
        r == id_in_name(name.spec_bytes()),
{
    match strip_suffix(name.as_bytes(), BACKUP_SUFFIX.as_bytes()) {
        Some(stem) => parse_number(stem),
        None => None,
    }
}

/// A backup's name says its id.
pub proof fn lemma_backup_name_says_id(id: u64)
    ensures
        id_in_name(encode_utf8(backup_name(id))) == Some(id),
{
    reveal_strlit(".backup");
    let p = padded(id as nat, 10, 6);
    let s = BACKUP_SUFFIX@;
    lemma_number_round_trip(id, 6);
    lemma_ascii_bytes(p);
    lemma_ascii_bytes(s);
    let name = p + s;
    assert forall|i: int| 0 <= i < name.len() implies '\0' <= #[trigger] name[i] <= '\u{7f}' by {
        if i < p.len() {
            assert(name[i] == p[i]);
        } else {
            assert(name[i] == s[i - p.len()]);
        }
    }
    lemma_ascii_bytes(name);
    let b = encode_utf8(name);
    assert(b.skip(b.len() - s.len()) =~= encode_utf8(s));
    assert(b.take(b.len() - s.len()) =~= encode_utf8(p));
}

// ── Shared tables ────────────────────────────────────────────────

/// What stands in the repository under the name of a shared table.
#[derive(Debug, Clone, Copy)]
pub enum SharedObject {
    Missing,
    Directory,
    /// Neither a file nor a directory.
    Special,
    File { len: u64, hash: u128 },
}

/// The object is a file with this size and these contents.
pub open spec fn intact(found: SharedObject, hash: u128, size: u64) -> bool {
    found == SharedObject::File { len: size, hash }
}

/// Check that an object is a file with this size and these contents.
pub fn verify_shared_file(found: SharedObject, expected_hash: u128, expected_size: u64) -> (r:
    Result<(), Error>)
    ensures
        r is Ok <==> intact(found, expected_hash, expected_size),
        r matches Err(e) ==> e.kind == if found is Missing {
            ErrorKind::NotFound
        } else {
            ErrorKind::InvalidData
        },
{
    match found {
        SharedObject::Missing => Err(
            Error::new(ErrorKind::NotFound, "backup shared object does not exist"),
        ),
        SharedObject::Directory | SharedObject::Special => Err(
            Error::invalid_data("backup shared object is not a regular file"),
        ),
        SharedObject::File { len, hash } => if len != expected_size {
            Err(Error::invalid_data("backup shared object has another size"))
        } else if hash != expected_hash {
            Err(Error::invalid_data("backup shared object content id mismatch"))
        } else {
            Ok(())
        },
    }
}

/// Whether a table has to be copied into the repository: where it is intact
/// already it is not, and a damaged file is replaced. A directory in its place
/// is an error.
pub fn ensure_shared_file(found: SharedObject, expected_hash: u128, expected_size: u64) -> (r:
    Result<bool, Error>)
    ensures
        r is Ok <==> !(found is Directory),
        r matches Ok(copy) ==> copy == !intact(found, expected_hash, expected_size),
        r matches Err(e) ==> e.kind == ErrorKind::InvalidData,
{
    match verify_shared_file(found, expected_hash, expected_size) {
        Ok(()) => Ok(false),
        Err(e) => match found {
            SharedObject::Directory => Err(e),
            _ => Ok(true),
        },
    }
}

// ── What a backup captures ───────────────────────────────────────

/// Number of tables of the first `n` levels.
pub open spec fn table_count(levels: Seq<Seq<MetaView>>, n: nat) -> nat
    decreases n,
{
    if n == 0 {
        0
    } else {
        table_count(levels, (n - 1) as nat) + levels[n - 1].len()
    }
}

/// The entry of a table.
pub open spec fn captured_file(level: int, meta: MetaView, hash: u128) -> FileView {
    FileView {
        level: level as u32,
        file_id: meta.file_id,
        file_size: meta.file_size,
        hash,
        smallest: meta.smallest,
        largest: meta.largest,
        num_entries: meta.num_entries,
    }
}

/// The entries of the tables of one level, whose hashes start at `at`.
pub open spec fn captured_level(
    level: int,
    metas: Seq<MetaView>,
    hashes: Seq<u128>,
    at: nat,
) -> Seq<FileView> {
    Seq::new(metas.len(), |i: int| captured_file(level, metas[i], hashes[at + i]))
}

/// The entries of the tables of the first `n` levels, whose hashes are given
/// in the same order.
pub open spec fn captured_files(
    levels: Seq<Seq<MetaView>>,
    hashes: Seq<u128>,
    n: nat,
) -> Seq<FileView>
    decreases n,
{
    if n == 0 {
        Seq::empty()
    } else {
        captured_files(levels, hashes, (n - 1) as nat) + captured_level(
            n - 1,
            levels[n - 1],
            hashes,
            table_count(levels, (n - 1) as nat),
        )
    }
}

/// The backup of a version.
pub open spec fn captured(st: ManifestState, hashes: Seq<u128>, created_at_unix: u64) -> BackupView {
    BackupView {
        created_at_unix,
        files: captured_files(st.levels, hashes, st.levels.len()),
        next_file_id: st.next_file_id,
        last_seq: st.last_seq,
    }
}

/// Collect the entries of a version's tables.
fn capture(version: &Version, hashes: &Vec<u128>) -> (r: Vec<BackupFileEntry>)
    requires
        version.wf(),
        hashes@.len() == table_count(version@.state().levels, MAX_LEVELS as nat),
    ensures
        file_views(r@) == captured_files(version@.state().levels, hashes@, MAX_LEVELS as nat),
{
    let ghost st = version@.state();
    let total: usize = hashes.len();
    let mut out: Vec<BackupFileEntry> = Vec::new();
    let mut at: usize = 0;
    let mut level: usize = 0;
    assert(file_views(out@) =~= Seq::<FileView>::empty());
    while level < version.levels.len()
        invariant
            version.wf(),
            st == version@.state(),
            level <= MAX_LEVELS,
            total == hashes@.len(),
            hashes@.len() == table_count(st.levels, MAX_LEVELS as nat),
            at == table_count(st.levels, level as nat),
            file_views(out@) == captured_files(st.levels, hashes@, level as nat),
        decreases MAX_LEVELS - level,
    {
        let files = &version.levels[level];
        let ghost metas = st.levels[level as int];
        let ghost base = captured_files(st.levels, hashes@, level as nat);
        let ghost at0 = at as nat;
        assert(metas =~= table_metas(files@));
        proof {
            lemma_table_count(st.levels, (level + 1) as nat, MAX_LEVELS as nat);
            assert(captured_level(level as int, metas, hashes@, at0).take(0) =~= Seq::<
                FileView,
            >::empty());
            assert(base + Seq::<FileView>::empty() =~= base);
        }
        let mut i: usize = 0;
        while i < files.len()
            invariant
                i <= files@.len(),
                level < MAX_LEVELS,
                metas == table_metas(files@),
                at == at0 + i,
                total == hashes@.len(),
                at0 + files@.len() <= total,
                file_views(out@) == base + captured_level(
                    level as int,
                    metas,
                    hashes@,
                    at0,
                ).take(i as int),
            decreases files@.len() - i,
        {
            let meta = &files[i].meta;
            let ghost before = file_views(out@);
            let entry = BackupFileEntry {
                level: level as u32,
                file_id: meta.file_id,
                file_size: meta.file_size,
                hash: hashes[at],
                smallest_key: copy_bytes(meta.smallest_key.as_slice()),
                largest_key: copy_bytes(meta.largest_key.as_slice()),
                num_entries: meta.num_entries,
            };
            let ghost ev = entry@;
            out.push(entry);
            proof {
                let all = captured_level(level as int, metas, hashes@, at0);
                assert(metas[i as int] == meta@);
                assert(ev == all[i as int]);
                assert(file_views(out@) =~= before.push(ev));
                assert(all.take(i + 1) =~= all.take(i as int).push(ev));
                assert(before.push(ev) =~= base + all.take(i + 1));
            }
            i += 1;
            at += 1;
        }
        proof {
            let all = captured_level(level as int, metas, hashes@, at0);
            assert(all.take(i as int) =~= all);
        }
        level += 1;
    }
    out
}

proof fn lemma_table_count(levels: Seq<Seq<MetaView>>, n: nat, m: nat)
    requires
        n <= m,
    ensures
        table_count(levels, n) <= table_count(levels, m),
    decreases m,
{
    if n < m {
        lemma_table_count(levels, n, (m - 1) as nat);
    }
}

// ── Listing ──────────────────────────────────────────────────────

/// The ids in names, in the order of the names.
pub open spec fn ids_in(names: Seq<String>) -> Seq<u64>
    decreases names.len(),
{
    if names.len() == 0 {
        Seq::empty()
    } else {
        match id_in_name(encode_utf8(names.last()@)) {
            Some(id) => ids_in(names.drop_last()).push(id),
            None => ids_in(names.drop_last()),
        }
    }
}

/// Put `x` into ascending numbers, behind those that are equal.
pub open spec fn put_id(s: Seq<u64>, x: u64) -> Seq<u64>
    decreases s.len(),
{
    if s.len() == 0 || s.last() <= x {
        s.push(x)
    } else {
        put_id(s.drop_last(), x).push(s.last())
    }
}

/// The numbers in ascending order.
pub open spec fn ascending_ids(s: Seq<u64>) -> Seq<u64>
    decreases s.len(),
{
    if s.len() == 0 {
        s
    } else {
        put_id(ascending_ids(s.drop_last()), s.last())
    }
}

/// The numbers ascend.
pub open spec fn ids_ascend(s: Seq<u64>) -> bool {
    forall|i: int, j: int| 0 <= i <= j < s.len() ==> s[i] <= s[j]
}

proof fn lemma_put_id(s: Seq<u64>, x: u64, k: int)
    requires
        0 <= k <= s.len(),
        k > 0 ==> s[k - 1] <= x,
        forall|j: int| k <= j < s.len() ==> s[j] > x,
    ensures
        put_id(s, x) == s.insert(k, x),
    decreases s.len(),
{
    if k == s.len() {
        assert(s.insert(k, x) =~= s.push(x));
    } else {
        lemma_put_id(s.drop_last(), x, k);
        assert(s.insert(k, x) =~= s.drop_last().insert(k, x).push(s.last()));
    }
}

proof fn lemma_put_id_ascends(s: Seq<u64>, x: u64)
    requires
        ids_ascend(s),
    ensures
        ids_ascend(put_id(s, x)),
        put_id(s, x).len() == s.len() + 1,
        put_id(s, x).last() == if s.len() == 0 || s.last() <= x {
            x
        } else {
            s.last()
        },
    decreases s.len(),
{
    if s.len() > 0 && s.last() > x {
        lemma_put_id_ascends(s.drop_last(), x);
        let p = put_id(s.drop_last(), x);
        let r = p.push(s.last());
        assert forall|i: int, j: int| 0 <= i <= j < r.len() implies r[i] <= r[j] by {
            if i < p.len() {
                assert(p[i] <= p[p.len() - 1]);
                if j < p.len() {
                    assert(p[i] <= p[j]);
                }
            }
        }
    }
}

/// Ordering the ids makes them ascend, and there are as many as before.
pub proof fn lemma_ascending_ids(s: Seq<u64>)
    ensures
        ids_ascend(ascending_ids(s)),
        ascending_ids(s).len() == s.len(),
    decreases s.len(),
{
    if s.len() > 0 {
        lemma_ascending_ids(s.drop_last());
        lemma_put_id_ascends(ascending_ids(s.drop_last()), s.last());
    }
}

/// The ids of the backups whose manifests have these names, in ascending
/// order. Other names are passed over.
pub fn backup_ids(names: &Vec<String>) -> (r: Vec<u64>)
    ensures
        r@ == ascending_ids(ids_in(names@)),
        ids_ascend(r@),
{
    let mut r: Vec<u64> = Vec::new();
    let mut i: usize = 0;
    assert(names@.take(0) =~= Seq::<String>::empty());
    assert(r@ =~= ascending_ids(ids_in(names@.take(0))));
    while i < names.len()
        invariant
            i <= names@.len(),
            r@ == ascending_ids(ids_in(names@.take(i as int))),
            ids_ascend(r@),
        decreases names@.len() - i,
    {
        proof {
            assert(names@.take(i + 1).drop_last() =~= names@.take(i as int));
        }
        match parse_backup_id(names[i].as_str()) {
            Some(id) => {
                let mut k: usize = r.len();
                while k > 0 && r[k - 1] > id
                    invariant
                        k <= r@.len(),
                        forall|j: int| k <= j < r@.len() ==> r@[j] > id,
                    decreases k,
                {
                    k -= 1;
                }
                let ghost before = r@;
                proof {
                    lemma_put_id(before, id, k as int);
                    lemma_put_id_ascends(before, id);
                    let ids = ids_in(names@.take(i as int));
                    assert(ids.push(id).drop_last() =~= ids);
                }
                r.insert(k, id);
            },
            None => {},
        }
        i += 1;
    }
    assert(names@.take(i as int) =~= names@);
    r
}

/// The greatest of the ids, 0 if there is none.
pub open spec fn greatest_id(ids: Seq<u64>) -> u64
    decreases ids.len(),
{
    if ids.len() == 0 {
        0
    } else if ids.last() > greatest_id(ids.drop_last()) {
        ids.last()
    } else {
        greatest_id(ids.drop_last())
    }
}

/// No id is greater than the greatest.
pub proof fn lemma_greatest_id(ids: Seq<u64>)
    ensures
        forall|i: int| 0 <= i < ids.len() ==> ids[i] <= greatest_id(ids),
    decreases ids.len(),
{
    if ids.len() > 0 {
        lemma_greatest_id(ids.drop_last());
        assert forall|i: int| 0 <= i < ids.len() implies ids[i] <= greatest_id(ids) by {
            if i < ids.len() - 1 {
                assert(ids[i] == ids.drop_last()[i]);
            }
        }
    }
}

/// The greatest id that was ever given out: `last_id`, or one of those there
/// are.
pub open spec fn given_id(names: Seq<String>, last_id: u64) -> u64 {
    if greatest_id(ids_in(names)) > last_id {
        greatest_id(ids_in(names))
    } else {
        last_id
    }
}

/// The id of the next backup: one more than the greatest that was given out.
/// `last_id` is the id that was given out last, 0 if there was none; the
/// backup that got it may be gone.
pub fn next_backup_id(names: &Vec<String>, last_id: u64) -> (r: u64)
    requires
        given_id(names@, last_id) < u64::MAX,
    ensures
        r == given_id(names@, last_id) + 1,
        r > last_id,
        forall|i: int| 0 <= i < ids_in(names@).len() ==> ids_in(names@)[i] < r,
{
    let mut max_id: u64 = 0;
    let mut i: usize = 0;
    assert(names@.take(0) =~= Seq::<String>::empty());
    while i < names.len()
        invariant
            i <= names@.len(),
            max_id == greatest_id(ids_in(names@.take(i as int))),
        decreases names@.len() - i,
    {
        proof {
            assert(names@.take(i + 1).drop_last() =~= names@.take(i as int));
        }
        match parse_backup_id(names[i].as_str()) {
            Some(id) => {
                proof {
                    let ids = ids_in(names@.take(i as int));
                    assert(ids.push(id).drop_last() =~= ids);
                }
                if id > max_id {
                    max_id = id;
                }
            },
            None => {},
        }
        i += 1;
    }
    proof {
        assert(names@.take(i as int) =~= names@);
        lemma_greatest_id(ids_in(names@));
    }
    if max_id > last_id {
        max_id + 1
    } else {
        last_id + 1
    }
}

/// The sum of the sizes of tables.
pub open spec fn files_size(fs: Seq<FileView>) -> nat
    decreases fs.len(),
{
    if fs.len() == 0 {
        0
    } else {
        files_size(fs.drop_last()) + fs.last().file_size as nat
    }
}

/// The summary of a backup. The sum of the sizes counts modulo 2^64.
pub open spec fn summary(id: u64, m: BackupView) -> BackupInfo {
    BackupInfo {
        id: BackupId(id),
        created_at_unix: m.created_at_unix,
        file_count: m.files.len() as usize,
        bytes: (files_size(m.files) % 0x1_0000_0000_0000_0000) as u64,
    }
}

/// The summary of a backup with this manifest, if it can be read.
pub open spec fn info_of(id: u64, contents: Option<Vec<u8>>) -> Option<BackupInfo> {
    match contents {
        None => None,
        Some(bytes) => match read_backup(bytes@) {
            ReadBackup::Manifest(m) => Some(summary(id, m)),
            ReadBackup::Bad(_) => None,
        },
    }
}

/// The summaries of the backups whose manifests can be read.
pub open spec fn listed(ids: Seq<u64>, contents: Seq<Option<Vec<u8>>>) -> Seq<BackupInfo>
    decreases ids.len(),
{
    if ids.len() == 0 {
        Seq::empty()
    } else {
        match info_of(ids.last(), contents[ids.len() - 1]) {
            Some(info) => listed(ids.drop_last(), contents).push(info),
            None => listed(ids.drop_last(), contents),
        }
    }
}

proof fn lemma_wrapping_sum(total: nat, sum: u64, size: u64)
    requires
        sum as nat == total % 0x1_0000_0000_0000_0000,
    ensures
        (sum + size) % 0x1_0000_0000_0000_0000 == (total + size) % 0x1_0000_0000_0000_0000,
{
}

fn summarize(id: u64, manifest: &BackupManifest) -> (r: BackupInfo)
    ensures
        r == summary(id, manifest@),
{
    let ghost fs = manifest@.files;
    let mut bytes: u64 = 0;
    let mut i: usize = 0;
    assert(fs.take(0) =~= Seq::<FileView>::empty());
    while i < manifest.files.len()
        invariant
            i <= manifest.files@.len(),
            fs == manifest@.files,
            bytes as nat == files_size(fs.take(i as int)) % 0x1_0000_0000_0000_0000,
        decreases manifest.files@.len() - i,
    {
        proof {
            assert(fs.take(i + 1).drop_last() =~= fs.take(i as int));
            assert(fs[i as int] == manifest.files@[i as int]@);
            lemma_wrapping_sum(
                files_size(fs.take(i as int)),
                bytes,
                manifest.files@[i as int].file_size,
            );
        }
        bytes = bytes.wrapping_add(manifest.files[i].file_size);
        i += 1;
    }
    assert(fs.take(i as int) =~= fs);
    BackupInfo {
        id: BackupId(id),
        created_at_unix: manifest.created_at_unix,
        file_count: manifest.files.len(),
        bytes,
    }
}

// ── Restoring ────────────────────────────────────────────────────

/// What the engine's manifest says of a table.
pub open spec fn meta_of(f: FileView) -> MetaView {
    MetaView {
        file_id: f.file_id,
        smallest: f.smallest,
        largest: f.largest,
        file_size: f.file_size,
        num_entries: f.num_entries,
    }
}

/// The record that adds a table.
pub open spec fn added(f: FileView) -> RecordView {
    RecordView::AddFile { level: f.level as nat, meta: meta_of(f) }
}

/// The records of the engine's manifest from which the backup's version is
/// rebuilt.
pub open spec fn restore_records(m: BackupView) -> Seq<RecordView> {
    seq![RecordView::SetNextFileId(m.next_file_id), RecordView::SetLastSeq(m.last_seq)]
        + m.files.map_values(|f: FileView| added(f))
}

/// Every table's record fits into the engine's manifest.
pub open spec fn restorable(m: BackupView) -> bool {
    forall|i: int| 0 <= i < m.files.len() ==> added(#[trigger] m.files[i]).fits()
}

/// The engine's manifest for a restored backup.
pub fn encode_engine_manifest(m: &BackupManifest) -> (r: Vec<u8>)
    requires
        restorable(m@),
    ensures
        r@ == frames(restore_records(m@)),
{
    let ghost fs = m@.files;
    let mut records: Vec<ManifestRecord> = Vec::new();
    records.push(ManifestRecord::SetNextFileId(m.next_file_id));
    records.push(ManifestRecord::SetLastSeq(m.last_seq));
    let ghost head = seq![
        RecordView::SetNextFileId(m.next_file_id),
        RecordView::SetLastSeq(m.last_seq),
    ];
    let ghost tail = fs.map_values(|f: FileView| added(f));
    assert(record_views(records@) =~= head + tail.take(0));
    let mut i: usize = 0;
    while i < m.files.len()
        invariant
            i <= m.files@.len(),
            fs == m@.files,
            tail == fs.map_values(|f: FileView| added(f)),
            forall|j: int| 0 <= j < fs.len() ==> added(#[trigger] fs[j]).fits(),
            record_views(records@) == head + tail.take(i as int),
            forall|j: int| 0 <= j < records@.len() ==> (#[trigger] records@[j])@.fits(),
        decreases m.files@.len() - i,
    {
        let f = &m.files[i];
        let ghost before = record_views(records@);
        let record = ManifestRecord::AddFile {
            level: f.level as usize,
            meta: SsTableMeta {
                file_id: f.file_id,
                smallest_key: copy_bytes(f.smallest_key.as_slice()),
                largest_key: copy_bytes(f.largest_key.as_slice()),
                file_size: f.file_size,
                num_entries: f.num_entries,
            },
        };
        let ghost rv = record@;
        records.push(record);
        proof {
            assert(fs[i as int] == f@);
            assert(rv == added(fs[i as int]));
            assert(record_views(records@) =~= before.push(rv));
            assert(tail.take(i + 1) =~= tail.take(i as int).push(rv));
            assert(before.push(rv) =~= head + tail.take(i + 1));
        }
        i += 1;
    }
    assert(tail.take(i as int) =~= tail);
    encode_records(&records)
}

proof fn lemma_captured_records(levels: Seq<Seq<MetaView>>, hashes: Seq<u128>, n: nat)
    requires
        n <= levels.len() <= MAX_LEVELS,
    ensures
        captured_files(levels, hashes, n).map_values(|f: FileView| added(f)) == levels_records(
            levels,
            n,
        ),
    decreases n,
{
    let whole = captured_files(levels, hashes, n).map_values(|f: FileView| added(f));
    if n == 0 {
        assert(whole =~= Seq::<RecordView>::empty());
    } else {
        let m = (n - 1) as nat;
        lemma_captured_records(levels, hashes, m);
        let lower = captured_files(levels, hashes, m).map_values(|f: FileView| added(f));
        let last = captured_level(m as int, levels[m as int], hashes, table_count(levels, m));
        let mapped = last.map_values(|f: FileView| added(f));
        assert forall|i: int| 0 <= i < last.len() implies mapped[i] == level_records(
            m,
            levels[m as int],
        )[i] by {
            assert(meta_of(last[i]) =~= levels[m as int][i]);
        }
        assert(mapped =~= level_records(m, levels[m as int]));
        assert(whole =~= lower + mapped);
    }
}

/// Restoring a backup gives back the version that was captured: the same
/// tables on the same levels, the same last sequence number and the same next
/// file id. Nothing waits in a log.
pub proof fn lemma_restore_gives_back_version(
    st: ManifestState,
    hashes: Seq<u128>,
    created_at_unix: u64,
)
    requires
        st.levels.len() == MAX_LEVELS,
    ensures
        run(initial_state(), restore_records(captured(st, hashes, created_at_unix))) == (
        ManifestState { min_wal_id: 0, ..st }),
{
    let m = captured(st, hashes, created_at_unix);
    let head = seq![RecordView::SetNextFileId(m.next_file_id), RecordView::SetLastSeq(m.last_seq)];
    let tail = m.files.map_values(|f: FileView| added(f));
    lemma_captured_records(st.levels, hashes, st.levels.len());
    lemma_run_concat(initial_state(), head, tail);
    let mid = run(initial_state(), head);
    assert(mid == (ManifestState {
        levels: empty_levels(),
        last_seq: st.last_seq,
        next_file_id: st.next_file_id,
        min_wal_id: 0,
    })) by {
        reveal_with_fuel(run, 3);
        assert(head.drop_last().last() == RecordView::SetNextFileId(m.next_file_id));
    }
    lemma_levels_records(mid, st.levels, st.levels.len());
    assert(run(mid, tail).levels =~= st.levels);
}

/// The engine that opens a restored directory replays its manifest to the
/// version that was captured, and finds all of it valid.
pub proof fn lemma_restored_manifest_replays(
    st: ManifestState,
    hashes: Seq<u128>,
    created_at_unix: u64,
)
    requires
        st.levels.len() == MAX_LEVELS,
        forall|i: int|
            0 <= i < captured(st, hashes, created_at_unix).files.len() ==> added(
                #[trigger] captured(st, hashes, created_at_unix).files[i],
            ).ok(),
    ensures
        replay(
            initial_state(),
            frames(restore_records(captured(st, hashes, created_at_unix))),
            0,
        ) == Replayed::Done(
            ManifestState { min_wal_id: 0, ..st },
            frames(restore_records(captured(st, hashes, created_at_unix))).len(),
        ),
{
    let m = captured(st, hashes, created_at_unix);
    let rs = restore_records(m);
    assert forall|i: int| 0 <= i < rs.len() implies (#[trigger] rs[i]).ok() by {
        if i >= 2 {
            assert(rs[i] == added(m.files[i - 2]));
        }
    }
    lemma_replay_reads_what_was_written(rs);
    lemma_restore_gives_back_version(st, hashes, created_at_unix);
}

/// A database opened on a restored backup reads as its source did, at every
/// snapshot, with and without a merge operator. `vs` is what the source went
/// through until all its data was in tables and it was captured; `v1` is what
/// was opened on the manifest that [`BackupEngine::restore`] gives, with no
/// logs.
pub proof fn lemma_restored_backup_reads_as_its_source(
    vs: Seq<ReadView>,
    v1: ReadView,
    hashes: Seq<u128>,
    created_at_unix: u64,
    key: Seq<u8>,
    snapshot_seq: u64,
)
    requires
        is_drain(vs),
        v1.wf(),
        forall|i: int|
            0 <= i < captured(vs.last().version@.state(), hashes, created_at_unix).files.len()
                ==> added(
                #[trigger] captured(vs.last().version@.state(), hashes, created_at_unix).files[i],
            ).ok(),
        replay(
            initial_state(),
            frames(restore_records(captured(vs.last().version@.state(), hashes, created_at_unix))),
            0,
        ) == Replayed::Done(
            v1.version@.state(),
            frames(
                restore_records(captured(vs.last().version@.state(), hashes, created_at_unix)),
            ).len(),
        ),
        same_files(vs.last().version, v1.version),
        !holds_data(v1.active),
        v1.frozen@.len() == 0,
    ensures
        read_the_same(vs[0], v1, key, snapshot_seq),
        v1.version@.state() == (ManifestState { min_wal_id: 0, ..vs.last().version@.state() }),
{
    let v0 = vs.last();
    let st = v0.version@.state();
    lemma_draining_changes_no_read(vs, vs.len() - 1, key, snapshot_seq);
    assert(st.levels.len() == v0.version.levels@.len());
    lemma_restored_manifest_replays(st, hashes, created_at_unix);
    lemma_copy_reads_as_its_source(v0, v1, key, snapshot_seq);
}

// ── Removing ─────────────────────────────────────────────────────

/// A backup that remains in the repository: the name and the contents of its
/// manifest, if they could be read.
pub struct MetaFile {
    pub name: String,
    pub contents: Option<Vec<u8>>,
}

/// The backup has a table with these contents.
pub open spec fn lists(m: BackupView, hash: u128) -> bool {
    exists|i: int| 0 <= i < m.files.len() && (#[trigger] m.files[i]).hash == hash
}

/// The file is the manifest of a backup that has a table with these contents.
pub open spec fn needs(f: MetaFile, hash: u128) -> bool {
    &&& id_in_name(encode_utf8(f.name@)) is Some
    &&& f.contents matches Some(bytes)
    &&& read_backup(bytes@) matches ReadBackup::Manifest(m)
    &&& lists(m, hash)
}

/// One of the files is the manifest of such a backup.
pub open spec fn any_needs(files: Seq<MetaFile>, hash: u128) -> bool {
    exists|i: int| 0 <= i < files.len() && needs(#[trigger] files[i], hash)
}

/// The hashes of the tables that no other backup has.
pub open spec fn unneeded(fs: Seq<FileView>, others: Seq<MetaFile>) -> Seq<u128>
    decreases fs.len(),
{
    if fs.len() == 0 {
        Seq::empty()
    } else if any_needs(others, fs.last().hash) {
        unneeded(fs.drop_last(), others)
    } else {
        unneeded(fs.drop_last(), others).push(fs.last().hash)
    }
}

broadcast use vstd::std_specs::hash::group_hash_axioms;

/// Collect the hashes of all tables of the backups.
fn needed_hashes(others: &Vec<MetaFile>) -> (r: HashSet<u128>)
    ensures
        forall|h: u128| #[trigger] r@.contains(h) == any_needs(others@, h),
{
    let mut r: HashSet<u128> = HashSet::new();
    let mut i: usize = 0;
    while i < others.len()
        invariant
            i <= others@.len(),
            forall|h: u128| #[trigger]
                r@.contains(h) == (exists|j: int|
                    0 <= j < i && needs(#[trigger] others@[j], h)),
        decreases others@.len() - i,
    {
        let ghost before = r@;
        let f = &others[i];
        let mut found: Option<BackupManifest> = None;
        if parse_backup_id(f.name.as_str()).is_some() {
            match &f.contents {
                Some(bytes) => match decode_manifest(bytes.as_slice()) {
                    Ok(m) => {
                        found = Some(m);
                    },
                    Err(_) => {},
                },
                None => {},
            }
        }
        match found {
            Some(m) => {
                let mut j: usize = 0;
                while j < m.files.len()
                    invariant
                        j <= m.files@.len(),
                        forall|h: u128| #[trigger]
                            r@.contains(h) == (before.contains(h) || exists|k: int|
                                0 <= k < j && (#[trigger] m@.files[k]).hash == h),
                    decreases m.files@.len() - j,
                {
                    let ghost mid = r@;
                    let hash: u128 = m.files[j].hash;
                    assert(m@.files[j as int].hash == hash);
                    r.insert(hash);
                    proof {
                        assert forall|h: u128| #[trigger]
                            r@.contains(h) == (before.contains(h) || exists|k: int|
                                0 <= k < j + 1 && (#[trigger] m@.files[k]).hash == h) by {
                            assert(mid.contains(h) == (before.contains(h) || exists|k: int|
                                0 <= k < j && (#[trigger] m@.files[k]).hash == h));
                            if r@.contains(h) && h != hash {
                                assert(mid.contains(h));
                            }
                        }
                    }
                    j += 1;
                }
                proof {
                    assert forall|h: u128| #[trigger]
                        r@.contains(h) == (before.contains(h) || lists(m@, h)) by {
                        assert(r@.contains(h) == (before.contains(h) || exists|k: int|
                            0 <= k < j && (#[trigger] m@.files[k]).hash == h));
                    }
                }
            },
            None => {},
        }
        proof {
            assert forall|h: u128| #[trigger]
                r@.contains(h) == (exists|j: int|
                    0 <= j < i + 1 && needs(#[trigger] others@[j], h)) by {
                assert(r@.contains(h) == (before.contains(h) || needs(others@[i as int], h)));
                assert(before.contains(h) == (exists|j: int|
                    0 <= j < i && needs(#[trigger] others@[j], h)));
                if exists|j: int| 0 <= j < i + 1 && needs(#[trigger] others@[j], h) {
                    let j = choose|j: int| 0 <= j < i + 1 && needs(#[trigger] others@[j], h);
                    if j < i {
                        assert(0 <= j < i && needs(others@[j], h));
                    }
                }
            }
        }
        i += 1;
    }
    r
}

/// The shared tables to remove once a backup is gone: those of its tables that
/// none of the other backups has.
pub fn gc_shared(removed: &BackupManifest, others: &Vec<MetaFile>) -> (r: Vec<u128>)
    ensures
        r@ == unneeded(removed@.files, others@),
{
    let needed = needed_hashes(others);
    let ghost fs = removed@.files;
    let mut r: Vec<u128> = Vec::new();
    let mut i: usize = 0;
    assert(fs.take(0) =~= Seq::<FileView>::empty());
    while i < removed.files.len()
        invariant
            i <= removed.files@.len(),
            fs == removed@.files,
            forall|h: u128| #[trigger] needed@.contains(h) == any_needs(others@, h),
            r@ == unneeded(fs.take(i as int), others@),
        decreases removed.files@.len() - i,
    {
        let hash: u128 = removed.files[i].hash;
        proof {
            assert(fs.take(i + 1).drop_last() =~= fs.take(i as int));
            assert(fs[i as int].hash == hash);
        }
        if !needed.contains(&hash) {
            r.push(hash);
        }
        i += 1;
    }
    assert(fs.take(i as int) =~= fs);
    r
}

/// Removing a backup removes no table that another backup has, and every table
/// of its own that no other backup has.
pub proof fn lemma_removing_keeps_other_backups(
    removed: Seq<FileView>,
    others: Seq<MetaFile>,
    hash: u128,
)
    ensures
        unneeded(removed, others).contains(hash) <==> !any_needs(others, hash) && exists|i: int|
            0 <= i < removed.len() && (#[trigger] removed[i]).hash == hash,
    decreases removed.len(),
{
    if removed.len() > 0 {
        let p = removed.drop_last();
        lemma_removing_keeps_other_backups(p, others, hash);
        let u = unneeded(p, others);
        if exists|i: int| 0 <= i < p.len() && (#[trigger] p[i]).hash == hash {
            let i = choose|i: int| 0 <= i < p.len() && (#[trigger] p[i]).hash == hash;
            assert(removed[i].hash == hash);
        }
        if exists|i: int| 0 <= i < removed.len() && (#[trigger] removed[i]).hash == hash {
            let i = choose|i: int| 0 <= i < removed.len() && (#[trigger] removed[i]).hash == hash;
            if i < p.len() {
                assert(p[i].hash == hash);
            }
        }
        if !any_needs(others, removed.last().hash) {
            let w = u.push(removed.last().hash);
            if u.contains(hash) {
                let k = choose|k: int| 0 <= k < u.len() && u[k] == hash;
                assert(w[k] == hash);
            }
            if removed.last().hash == hash {
                assert(w[u.len() as int] == hash);
                assert(removed[removed.len() - 1].hash == hash);
            }
            if w.contains(hash) {
                let k = choose|k: int| 0 <= k < w.len() && w[k] == hash;
                if k < u.len() {
                    assert(u[k] == hash);
                } else {
                    assert(removed[removed.len() - 1].hash == hash);
                }
            }
        }
    }
}

// ── The repository ───────────────────────────────────────────────

/// What to do to make a backup.
pub struct BackupPlan {
    /// The new backup's id.
    pub id: BackupId,
    /// Its tables; each has to be in the repository under its hash.
    pub backup: BackupManifest,
    /// The name of its manifest.
    pub manifest_name: String,
    /// The bytes of its manifest.
    pub manifest: Vec<u8>,
}

/// What to do to restore a backup.
pub struct RestorePlan {
    /// Its tables: the shared table of each hash goes to the table of that id.
    pub backup: BackupManifest,
    /// The bytes of the engine's manifest.
    pub manifest: Vec<u8>,
}

/// What to do to remove a backup.
pub struct DeletePlan {
    /// The name of its manifest, which goes first.
    pub manifest_name: String,
    /// The hashes of the shared tables that go with it.
    pub objects: Vec<u128>,
}

/// A repository of backups, for one database or more.
///
/// There is no lock between processes: two of them should not share a
/// repository.
pub struct BackupEngine {
    root: String,
}

impl BackupEngine {
    /// The directory of the repository.
    pub closed spec fn root(&self) -> Seq<char> {
        self.root@
    }

    /// The repository in the given directory.
    pub fn open(backup_dir: &str) -> (r: Self)
        ensures
            r.root() == backup_dir@,
    {
        BackupEngine { root: backup_dir.to_owned() }
    }

    /// The directory of the repository.
    pub fn path(&self) -> (r: &str)
        ensures
            r@ == self.root(),
    {
        self.root.as_str()
    }

    /// Make a backup of a version with all data in its tables. `names` are the
    /// names in the repository's `meta/`, `last_id` is the id that was given
    /// out last, and `hashes` are the content hashes of the tables, level by
    /// level. No id is given out twice.
    pub fn create_backup(
        &self,
        names: &Vec<String>,
        last_id: u64,
        version: &Version,
        hashes: &Vec<u128>,
        created_at_unix: u64,
    ) -> (r: BackupPlan)
        requires
            given_id(names@, last_id) < u64::MAX,
            version.wf(),
            hashes@.len() == table_count(version@.state().levels, MAX_LEVELS as nat),
            captured(version@.state(), hashes@, created_at_unix).fits(),
        ensures
            r.id.0 == given_id(names@, last_id) + 1,
            r.id.0 > last_id,
            forall|i: int| 0 <= i < ids_in(names@).len() ==> ids_in(names@)[i] < r.id.0,
            r.backup@ == captured(version@.state(), hashes@, created_at_unix),
            r.manifest_name@ == backup_name(r.id.0),
            r.manifest@ == r.backup@.bytes(),
            read_backup(r.manifest@) == ReadBackup::Manifest(r.backup@),
    {
        let id: u64 = next_backup_id(names, last_id);
        let files = capture(version, hashes);
        let backup = BackupManifest {
            created_at_unix,
            files,
            next_file_id: version.next_file_id,
            last_seq: version.last_seq,
        };
        proof {
            assert(version@.state().levels.len() == MAX_LEVELS);
            assert(backup@ == captured(version@.state(), hashes@, created_at_unix));
            manifest::lemma_backup_round_trip(backup@);
        }
        let manifest = encode_manifest(&backup);
        BackupPlan { id: BackupId(id), backup, manifest_name: backup_filename(id), manifest }
    }

    /// The summaries of the backups with these ids, whose manifests have these
    /// contents. A manifest that could not be read, or is damaged, is passed
    /// over.
    pub fn list_backups(&self, ids: &Vec<u64>, contents: &Vec<Option<Vec<u8>>>) -> (r: Vec<
        BackupInfo,
    >)
        requires
            ids@.len() == contents@.len(),
        ensures
            r@ == listed(ids@, contents@),
    {
        let mut r: Vec<BackupInfo> = Vec::new();
        let mut i: usize = 0;
        assert(ids@.take(0) =~= Seq::<u64>::empty());
        while i < ids.len()
            invariant
                i <= ids@.len(),
                ids@.len() == contents@.len(),
                r@ == listed(ids@.take(i as int), contents@),
            decreases ids@.len() - i,
        {
            proof {
                assert(ids@.take(i + 1).drop_last() =~= ids@.take(i as int));
                assert(ids@.take(i + 1).last() == ids@[i as int]);
            }
            match &contents[i] {
                Some(bytes) => match decode_manifest(bytes.as_slice()) {
                    Ok(m) => {
                        r.push(summarize(ids[i], &m));
                    },
                    Err(_) => {},
                },
                None => {},
            }
            i += 1;
        }
        assert(ids@.take(i as int) =~= ids@);
        r
    }

    /// Restore the backup whose manifest has these contents. A table whose
    /// keys are too long for a record of the engine's manifest, which counts
    /// its bytes in 32 bits, cannot be restored.
    pub fn restore(&self, contents: &[u8]) -> (r: Result<RestorePlan, Error>)
        ensures
            match read_backup(contents@) {
                ReadBackup::Manifest(m) => if restorable(m) {
                    r matches Ok(p) && p.backup@ == m && p.manifest@ == frames(restore_records(m))
                } else {
                    r matches Err(e) && e.kind == ErrorKind::InvalidData
                },
                ReadBackup::Bad(k) => r matches Err(e) && e.kind == k,
            },
    {
        let backup = match decode_manifest(contents) {
            Ok(m) => m,
            Err(e) => return Err(e),
        };
        let mut i: usize = 0;
        while i < backup.files.len()
            invariant
                i <= backup.files@.len(),
                read_backup(contents@) == ReadBackup::Manifest(backup@),
                forall|j: int| 0 <= j < i ==> added(#[trigger] backup@.files[j]).fits(),
            decreases backup.files@.len() - i,
        {
            let f = &backup.files[i];
            let size: u128 = 37 + f.smallest_key.len() as u128 + f.largest_key.len() as u128;
            assert(backup@.files[i as int] == f@);
            if size > u32::MAX as u128 {
                assert(!added(backup@.files[i as int]).fits());
                return Err(Error::invalid_data("backup lists a table with keys that are too long"));
            }
            i += 1;
        }
        let manifest = encode_engine_manifest(&backup);
        Ok(RestorePlan { backup, manifest })
    }

    /// Remove the backup whose manifest has these contents, `None` if there is
    /// no such manifest. `others` are the files that remain in `meta/`, `None`
    /// if they cannot be listed; no shared table is removed then.
    pub fn delete_backup(
        &self,
        backup_id: BackupId,
        contents: Option<&[u8]>,
        others: Option<&Vec<MetaFile>>,
    ) -> (r: Result<Option<DeletePlan>, Error>)
        ensures
            match contents {
                None => r matches Ok(None),
                Some(bytes) => match read_backup(bytes@) {
                    ReadBackup::Bad(k) => r matches Err(e) && e.kind == k,
                    ReadBackup::Manifest(m) => r matches Ok(Some(p)) && p.manifest_name@
                        == backup_name(backup_id.0) && p.objects@ == match others {
                        Some(fs) => unneeded(m.files, fs@),
                        None => Seq::empty(),
                    },
                },
            },
    {
        let bytes = match contents {
            None => return Ok(None),
            Some(bytes) => bytes,
        };
        let removed = match decode_manifest(bytes) {
            Ok(m) => m,
            Err(e) => return Err(e),
        };
        let objects = match others {
            Some(fs) => gc_shared(&removed, fs),
            None => Vec::new(),
        };
        Ok(Some(DeletePlan { manifest_name: backup_filename(backup_id.0), objects }))
    }

    /// The backups to remove so that the `keep` most recent remain, oldest
    /// first. `infos` lists the backups in the order of their ids.
    pub fn purge_old_backups(&self, infos: &Vec<BackupInfo>, keep: usize) -> (r: Vec<BackupId>)
        ensures
            r@.len() == if infos@.len() <= keep {
                0
            } else {
                infos@.len() - keep
            },
            forall|i: int| 0 <= i < r@.len() ==> #[trigger] r@[i] == infos@[i].id,
    {
        let mut r: Vec<BackupId> = Vec::new();
        if infos.len() <= keep {
            return r;
        }
        let to_remove: usize = infos.len() - keep;
        let mut i: usize = 0;
        while i < to_remove
            invariant
                i <= to_remove <= infos@.len(),
                r@.len() == i,
                forall|j: int| 0 <= j < i ==> #[trigger] r@[j] == infos@[j].id,
            decreases to_remove - i,
        {
            r.push(infos[i].id);
            i += 1;
        }
        r
    }
}

/// The backups in a listing are in the order of their ids.
pub proof fn lemma_listing_ascends(ids: Seq<u64>, contents: Seq<Option<Vec<u8>>>)
    requires
        ids_ascend(ids),
    ensures
        forall|i: int, j: int|
            0 <= i <= j < listed(ids, contents).len() ==> (#[trigger] listed(ids, contents)[i]).id.0
                <= (#[trigger] listed(ids, contents)[j]).id.0,
        forall|i: int|
            0 <= i < listed(ids, contents).len() ==> ids.len() > 0 && (#[trigger] listed(
                ids,
                contents,
            )[i]).id.0 <= ids.last(),
    decreases ids.len(),
{
    if ids.len() > 0 {
        let p = ids.drop_last();
        lemma_listing_ascends(p, contents);
        let lower = listed(p, contents);
        if p.len() > 0 {
            assert(ids[ids.len() - 2] <= ids[ids.len() - 1]);
        }
        let all = listed(ids, contents);
        assert forall|i: int| 0 <= i < all.len() implies (#[trigger] all[i]).id.0 <= ids.last() by {
            if i < lower.len() {
                assert(all[i] == lower[i]);
            }
        }
        assert forall|i: int, j: int| 0 <= i <= j < all.len() implies (#[trigger] all[i]).id.0 <= (
        #[trigger] all[j]).id.0 by {
            if j < lower.len() {
                assert(all[i] == lower[i] && all[j] == lower[j]);
            } else {
                assert(all[j].id.0 == ids.last());
            }
        }
    }
}

/// What a listing says of the first manifests does not depend on those behind.
proof fn lemma_listed_prefix(
    ids: Seq<u64>,
    a: Seq<Option<Vec<u8>>>,
    b: Seq<Option<Vec<u8>>>,
)
    requires
        ids.len() <= a.len(),
        ids.len() <= b.len(),
        forall|i: int| 0 <= i < ids.len() ==> a[i] == b[i],
    ensures
        listed(ids, a) == listed(ids, b),
    decreases ids.len(),
{
    if ids.len() > 0 {
        lemma_listed_prefix(ids.drop_last(), a, b);
    }
}

/// Where every manifest can be read, the listing names all backups.
proof fn lemma_listed_all(ids: Seq<u64>, contents: Seq<Option<Vec<u8>>>)
    requires
        ids.len() <= contents.len(),
        forall|i: int| 0 <= i < ids.len() ==> info_of(ids[i], #[trigger] contents[i]) is Some,
    ensures
        listed(ids, contents).len() == ids.len(),
        forall|i: int|
            0 <= i < ids.len() ==> Some(#[trigger] listed(ids, contents)[i]) == info_of(
                ids[i],
                contents[i],
            ),
    decreases ids.len(),
{
    if ids.len() > 0 {
        lemma_listed_all(ids.drop_last(), contents);
        assert(info_of(ids[ids.len() - 1], contents[ids.len() - 1]) is Some);
    }
}

/// How many backups a purge removes.
pub open spec fn purged(count: nat, keep: nat) -> int {
    if count <= keep {
        0
    } else {
        count - keep
    }
}

/// The manifest of a backup that can be read.
pub open spec fn manifest_in(contents: Option<Vec<u8>>) -> BackupView {
    read_backup(contents->0@)->Manifest_0
}

/// A purge leaves the last `keep` backups, in their order: the listing
/// afterwards is the end of the listing before. No shared table that one of
/// them lists goes with a backup that is removed, so each can be restored as
/// before.
pub proof fn lemma_purge_leaves_newest(
    ids: Seq<u64>,
    contents: Seq<Option<Vec<u8>>>,
    metas: Seq<MetaFile>,
    keep: nat,
)
    requires
        ids.len() == contents.len(),
        ids.len() == metas.len(),
        ids_ascend(ids),
        forall|i: int| 0 <= i < ids.len() ==> info_of(ids[i], #[trigger] contents[i]) is Some,
        forall|i: int|
            0 <= i < metas.len() ==> (#[trigger] metas[i]).contents == contents[i] && id_in_name(
                encode_utf8(metas[i].name@),
            ) == Some(ids[i]),
    ensures
        ({
            let n = purged(ids.len(), keep);
            let before = listed(ids, contents);
            &&& before.len() == ids.len()
            &&& forall|i: int| 0 <= i < n ==> (#[trigger] before[i]).id.0 == ids[i]
            &&& listed(ids.skip(n), contents.skip(n)) == before.skip(n)
            &&& forall|i: int, k: int, hash: u128|
                #![trigger manifest_in(contents[i]), lists(manifest_in(contents[k]), hash)]
                0 <= i < n <= k < ids.len() && lists(manifest_in(contents[k]), hash) ==> !unneeded(
                    manifest_in(contents[i]).files,
                    metas.skip(i + 1),
                ).contains(hash)
        }),
{
    let n = purged(ids.len(), keep);
    let before = listed(ids, contents);
    let (a, c) = (ids.skip(n), contents.skip(n));
    lemma_listed_all(ids, contents);
    assert forall|i: int| 0 <= i < a.len() implies info_of(a[i], #[trigger] c[i]) is Some by {
        assert(c[i] == contents[n + i]);
    }
    lemma_listed_all(a, c);
    let after = listed(a, c);
    assert forall|i: int| 0 <= i < after.len() implies after[i] == before.skip(n)[i] by {
        assert(Some(after[i]) == info_of(a[i], c[i]));
        assert(Some(before[n + i]) == info_of(ids[n + i], contents[n + i]));
    }
    assert(after =~= before.skip(n));
    assert forall|i: int| 0 <= i < n implies (#[trigger] before[i]).id.0 == ids[i] by {
        assert(Some(before[i]) == info_of(ids[i], contents[i]));
    }
    assert forall|i: int, k: int, hash: u128|
        #![trigger manifest_in(contents[i]), lists(manifest_in(contents[k]), hash)]
        0 <= i < n <= k < ids.len() && lists(manifest_in(contents[k]), hash) implies !unneeded(
        manifest_in(contents[i]).files,
        metas.skip(i + 1),
    ).contains(hash) by {
        let others = metas.skip(i + 1);
        lemma_removing_keeps_other_backups(manifest_in(contents[i]).files, others, hash);
        assert(others[k - i - 1] == metas[k]);
        assert(info_of(ids[k], contents[k]) is Some);
        assert(needs(others[k - i - 1], hash));
        assert(any_needs(others, hash));
    }
}

/// An id behind all others stands at the end.
proof fn lemma_ids_push(ids: Seq<u64>, id: u64)
    requires
        forall|i: int| 0 <= i < ids.len() ==> ids[i] < id,
    ensures
        ascending_ids(ids.push(id)) == ascending_ids(ids).push(id),
{
    let s = ascending_ids(ids);
    lemma_ascending_ids(ids);
    assert(ids.push(id).drop_last() =~= ids);
    lemma_ascending_ids_below(ids, id);
    lemma_put_id(s, id, s.len() as int);
    assert(s.insert(s.len() as int, id) =~= s.push(id));
}

proof fn lemma_put_below(s: Seq<u64>, x: u64, id: u64)
    requires
        x < id,
        forall|i: int| 0 <= i < s.len() ==> s[i] < id,
    ensures
        forall|i: int| 0 <= i < put_id(s, x).len() ==> put_id(s, x)[i] < id,
    decreases s.len(),
{
    if s.len() > 0 {
        let d = s.drop_last();
        assert forall|i: int| 0 <= i < d.len() implies d[i] < id by {
            assert(d[i] == s[i]);
        }
        lemma_put_below(d, x, id);
        assert(s[s.len() - 1] < id);
    }
    assert forall|i: int| 0 <= i < put_id(s, x).len() implies put_id(s, x)[i] < id by {
        if s.len() == 0 || s.last() <= x {
            if i < s.len() {
                assert(put_id(s, x)[i] == s[i]);
            }
        } else if i < put_id(s.drop_last(), x).len() {
            assert(put_id(s, x)[i] == put_id(s.drop_last(), x)[i]);
        }
    }
}

proof fn lemma_ascending_ids_below(ids: Seq<u64>, id: u64)
    requires
        forall|i: int| 0 <= i < ids.len() ==> ids[i] < id,
    ensures
        forall|i: int| 0 <= i < ascending_ids(ids).len() ==> ascending_ids(ids)[i] < id,
    decreases ids.len(),
{
    if ids.len() > 0 {
        let front = ids.drop_last();
        assert forall|i: int| 0 <= i < front.len() implies front[i] < id by {
            assert(front[i] == ids[i]);
        }
        lemma_ascending_ids_below(front, id);
        assert(ids[ids.len() - 1] < id);
        lemma_put_below(ascending_ids(front), ids.last(), id);
    }
}

/// A second backup of a version that has not changed finds every table of the
/// first in the repository, so nothing is copied, and the listing has exactly
/// one entry more: that of the new backup, at its end.
pub proof fn lemma_unchanged_version_adds_one_entry(
    st: ManifestState,
    hashes: Seq<u128>,
    first: u64,
    second: u64,
    objects: spec_fn(u128) -> SharedObject,
    names: Seq<String>,
    contents: Seq<Option<Vec<u8>>>,
    id: u64,
    name: String,
    bytes: Vec<u8>,
)
    requires
        forall|i: int|
            0 <= i < captured(st, hashes, first).files.len() ==> {
                let f = #[trigger] captured(st, hashes, first).files[i];
                intact(objects(f.hash), f.hash, f.file_size)
            },
        captured(st, hashes, second).fits(),
        bytes@ == captured(st, hashes, second).bytes(),
        forall|i: int| 0 <= i < ids_in(names).len() ==> ids_in(names)[i] < id,
        name@ == backup_name(id),
        contents.len() == ids_in(names).len(),
    ensures
        forall|i: int|
            0 <= i < captured(st, hashes, second).files.len() ==> {
                let f = #[trigger] captured(st, hashes, second).files[i];
                intact(objects(f.hash), f.hash, f.file_size)
            },
        listed(ascending_ids(ids_in(names.push(name))), contents.push(Some(bytes))) == listed(
            ascending_ids(ids_in(names)),
            contents,
        ).push(summary(id, captured(st, hashes, second))),
{
    let m = captured(st, hashes, second);
    let ids = ids_in(names);
    assert(m.files == captured(st, hashes, first).files);
    lemma_backup_name_says_id(id);
    assert(names.push(name).drop_last() =~= names);
    assert(ids_in(names.push(name)) == ids.push(id));
    lemma_ids_push(ids, id);
    lemma_ascending_ids(ids);
    let s = ascending_ids(ids);
    assert(s.push(id).drop_last() =~= s);
    manifest::lemma_backup_round_trip(m);
    let after = contents.push(Some(bytes));
    assert(after[s.len() as int] == Some(bytes));
    lemma_listed_prefix(s, after, contents);
}

/// The greatest id that was given out is no less than the last one and those of
/// the backups there are, and it is one of them.
pub proof fn lemma_given_id_is_the_greatest(names: Seq<String>, last_id: u64)
    ensures
        given_id(names, last_id) >= last_id,
        forall|i: int| 0 <= i < ids_in(names).len() ==> ids_in(names)[i] <= given_id(names, last_id),
        given_id(names, last_id) == last_id || ids_in(names).contains(given_id(names, last_id)),
{
    let ids = ids_in(names);
    lemma_greatest_id(ids);
    lemma_greatest_is_there(ids);
}

proof fn lemma_greatest_is_there(ids: Seq<u64>)
    ensures
        greatest_id(ids) == 0 || ids.contains(greatest_id(ids)),
    decreases ids.len(),
{
    if ids.len() > 0 {
        let front = ids.drop_last();
        lemma_greatest_is_there(front);
        assert(ids[ids.len() - 1] == ids.last());
        if front.contains(greatest_id(ids)) {
            let i = choose|i: int| 0 <= i < front.len() && front[i] == greatest_id(ids);
            assert(ids[i] == greatest_id(ids));
        }
    }
}

/// A shared table is copied again unless a file with the very size and contents
/// is there; the size alone, or the contents' hash alone, is not enough.
pub proof fn lemma_only_whole_tables_are_reused(found: SharedObject, hash: u128, size: u64)
    ensures
        intact(found, hash, size) <==> found is File && found->len == size && found->hash == hash,
{
}

/// The summary of a backup counts its tables and adds up their sizes, as far as
/// 64 bits go.
pub proof fn lemma_summary_counts_the_tables(id: u64, m: BackupView)
    requires
        m.files.len() <= usize::MAX,
    ensures
        summary(id, m).id == BackupId(id),
        summary(id, m).created_at_unix == m.created_at_unix,
        summary(id, m).file_count == m.files.len(),
        m.files.fold_left(0int, |sum: int, f: FileView| sum + f.file_size) <= u64::MAX ==> summary(
            id,
            m,
        ).bytes == m.files.fold_left(0int, |sum: int, f: FileView| sum + f.file_size),
{
    lemma_files_size_is_sum(m.files);
    if files_size(m.files) <= u64::MAX {
        vstd::arithmetic::div_mod::lemma_small_mod(files_size(m.files), 0x1_0000_0000_0000_0000);
    }
}

proof fn lemma_files_size_is_sum(fs: Seq<FileView>)
    ensures
        files_size(fs) == fs.fold_left(0int, |sum: int, f: FileView| sum + f.file_size),
    decreases fs.len(),
{
    if fs.len() > 0 {
        lemma_files_size_is_sum(fs.drop_last());
    }
}

/// A listing has every backup whose manifest can be read, in the order of the
/// ids, and no other.
pub proof fn lemma_listing_has_what_can_be_read(
    ids: Seq<u64>,
    contents: Seq<Option<Vec<u8>>>,
    info: BackupInfo,
)
    requires
        ids.len() == contents.len(),
    ensures
        listed(ids, contents).contains(info) <==> exists|i: int|
            0 <= i < ids.len() && #[trigger] info_of(ids[i], contents[i]) == Some(info),
    decreases ids.len(),
{
    lemma_listed_within(ids, contents, info);
}

proof fn lemma_listed_within(ids: Seq<u64>, contents: Seq<Option<Vec<u8>>>, info: BackupInfo)
    requires
        ids.len() <= contents.len(),
    ensures
        listed(ids, contents).contains(info) <==> exists|i: int|
            0 <= i < ids.len() && #[trigger] info_of(ids[i], contents[i]) == Some(info),
    decreases ids.len(),
{
    if ids.len() > 0 {
        let front = ids.drop_last();
        let n = ids.len() - 1;
        let l = listed(front, contents);
        lemma_listed_within(front, contents, info);
        assert(ids[n] == ids.last());
        if exists|i: int| 0 <= i < front.len() && #[trigger] info_of(front[i], contents[i]) == Some(
            info,
        ) {
            let i = choose|i: int|
                0 <= i < front.len() && #[trigger] info_of(front[i], contents[i]) == Some(info);
            assert(info_of(ids[i], contents[i]) == Some(info));
        }
        if exists|i: int| 0 <= i < ids.len() && #[trigger] info_of(ids[i], contents[i]) == Some(
            info,
        ) {
            let i = choose|i: int|
                0 <= i < ids.len() && #[trigger] info_of(ids[i], contents[i]) == Some(info);
            if i < n {
                assert(info_of(front[i], contents[i]) == Some(info));
            }
        }
        if let Some(x) = info_of(ids.last(), contents[n]) {
            let w = l.push(x);
            assert(w[l.len() as int] == x);
            if l.contains(info) {
                let i = choose|i: int| 0 <= i < l.len() && l[i] == info;
                assert(w[i] == info);
            }
            if w.contains(info) {
                let i = choose|i: int| 0 <= i < w.len() && w[i] == info;
                if i < l.len() {
                    assert(l[i] == info);
                } else {
                    assert(info_of(ids[n], contents[n]) == Some(info));
                }
            }
        }
    }
}

} // verus!
