//! The manifest of one backup.
//!
//! It lists the tables of the captured version, each with the content hash
//! under which the repository keeps its bytes:
//!
//! ```text
//! [magic: 8][version: u32][created: u64][next file: u64][last seq: u64]
//! [count: u32] count * [level: u32][file: u64][size: u64][entries: u64]
//!                      [hash: u128][len: u32][smallest][len: u32][largest]
//! [checksum: u64]
//! ```
//!
//! The first format had a magic of four bytes and a checksum over the body
//! alone. It is read, never written.

use crate::bytes::append_bytes;
use crate::bytes::bytes_eq;
use crate::bytes::from_le128;
use crate::bytes::get_le128;
use crate::bytes::get_le64;
use crate::bytes::le128;
use crate::bytes::le32;
use crate::bytes::le64;
use crate::bytes::lemma_le_round_trip;
use crate::bytes::put_le128;
use crate::bytes::put_le32;
use crate::bytes::put_le64;
use crate::engine::checksum::backup_manifest;
use crate::engine::checksum::backup_manifest_checksum;
use crate::engine::checksum::legacy_payload_u64;
use crate::engine::checksum::xxh3_hash64;
use crate::engine::manifest_record::at32;
use crate::engine::manifest_record::at64;
use crate::engine::manifest_record::bytes_end;
use crate::engine::manifest_record::read_bytes;
use crate::engine::manifest_record::read_u32;
use crate::engine::manifest_record::read_u64;
use crate::engine::manifest_record::short_read;
use crate::error::Error;
use crate::error::ErrorKind;
use vstd::prelude::*;
use vstd::slice::slice_subrange;
use vstd::string::StringSliceAdditionalSpecFns;

verus! {

/// Identifier at the head of a backup manifest.
pub const BACKUP_MANIFEST_MAGIC: &'static str = "REGOMBKP";

/// The identifier of the first format.
pub const BACKUP_MANIFEST_MAGIC_LEGACY: u32 = 0x4C4B_4250;

/// The format that is written.
pub const BACKUP_MANIFEST_VERSION: u32 = 2;

/// The first format.
pub const BACKUP_MANIFEST_VERSION_LEGACY: u32 = 1;

/// What a backup says of one table.
#[verifier::ext_equal]
pub struct FileView {
    pub level: u32,
    pub file_id: u64,
    pub file_size: u64,
    pub hash: u128,
    pub smallest: Seq<u8>,
    pub largest: Seq<u8>,
    pub num_entries: u64,
}

/// What a backup says.
#[verifier::ext_equal]
pub struct BackupView {
    pub created_at_unix: u64,
    pub files: Seq<FileView>,
    pub next_file_id: u64,
    pub last_seq: u64,
}

/// One table of a backup.
pub struct BackupFileEntry {
    pub level: u32,
    pub file_id: u64,
    pub file_size: u64,
    pub hash: u128,
    pub smallest_key: Vec<u8>,
    pub largest_key: Vec<u8>,
    pub num_entries: u64,
}

impl View for BackupFileEntry {
    type V = FileView;

    open spec fn view(&self) -> FileView {
        FileView {
            level: self.level,
            file_id: self.file_id,
            file_size: self.file_size,
            hash: self.hash,
            smallest: self.smallest_key@,
            largest: self.largest_key@,
            num_entries: self.num_entries,
        }
    }
}

/// What the entries say.
pub open spec fn file_views(s: Seq<BackupFileEntry>) -> Seq<FileView> {
    s.map_values(|f: BackupFileEntry| f@)
}

/// The manifest of a backup.
pub struct BackupManifest {
    pub created_at_unix: u64,
    pub files: Vec<BackupFileEntry>,
    pub next_file_id: u64,
    pub last_seq: u64,
}

impl View for BackupManifest {
    type V = BackupView;

    open spec fn view(&self) -> BackupView {
        BackupView {
            created_at_unix: self.created_at_unix,
            files: file_views(self.files@),
            next_file_id: self.next_file_id,
            last_seq: self.last_seq,
        }
    }
}

impl FileView {
    /// The lengths of the keys can be written.
    pub open spec fn fits(self) -> bool {
        self.smallest.len() <= u32::MAX && self.largest.len() <= u32::MAX
    }

    /// The bytes of the entry.
    pub open spec fn bytes(self) -> Seq<u8> {
        le32(self.level) + le64(self.file_id) + le64(self.file_size) + le64(self.num_entries)
            + le128(self.hash) + le32(self.smallest.len() as u32) + self.smallest + le32(
            self.largest.len() as u32,
        ) + self.largest
    }
}

/// The bytes of entries.
pub open spec fn files_bytes(fs: Seq<FileView>) -> Seq<u8>
    decreases fs.len(),
{
    if fs.len() == 0 {
        Seq::empty()
    } else {
        files_bytes(fs.drop_last()) + fs.last().bytes()
    }
}

impl BackupView {
    /// The number of tables and the lengths of their keys can be written.
    pub open spec fn fits(self) -> bool {
        &&& self.files.len() <= u32::MAX
        &&& forall|i: int| 0 <= i < self.files.len() ==> (#[trigger] self.files[i]).fits()
    }

    /// What stands before the tables.
    pub open spec fn head(self) -> Seq<u8> {
        BACKUP_MANIFEST_MAGIC.spec_bytes() + le32(BACKUP_MANIFEST_VERSION) + le64(
            self.created_at_unix,
        ) + le64(self.next_file_id) + le64(self.last_seq) + le32(self.files.len() as u32)
    }

    /// What the checksum covers.
    pub open spec fn body(self) -> Seq<u8> {
        self.head() + files_bytes(self.files)
    }

    /// The bytes of the manifest.
    pub open spec fn bytes(self) -> Seq<u8> {
        self.body() + le64(backup_manifest_checksum(self.body()))
    }
}

// ── Reading ──────────────────────────────────────────────────────

/// What a manifest holds, or what is wrong with it.
#[verifier::ext_equal]
pub enum ReadBackup {
    Manifest(BackupView),
    Bad(ErrorKind),
}

/// The table at `at`, and where it ends.
pub open spec fn file_at(s: Seq<u8>, at: int) -> Option<(FileView, int)> {
    if at + 44 > s.len() {
        None
    } else {
        match bytes_end(s, at + 44) {
            None => None,
            Some(a) => match bytes_end(s, a) {
                None => None,
                Some(b) => Some(
                    (
                        FileView {
                            level: at32(s, at),
                            file_id: at64(s, at + 4),
                            file_size: at64(s, at + 12),
                            num_entries: at64(s, at + 20),
                            hash: from_le128(s.subrange(at + 28, at + 44)),
                            smallest: s.subrange(at + 48, a),
                            largest: s.subrange(a + 4, b),
                        },
                        b,
                    ),
                ),
            },
        }
    }
}

/// The `n` tables from `at` on.
pub open spec fn files_at(s: Seq<u8>, at: int, n: nat) -> Option<Seq<FileView>>
    decreases n,
{
    if n == 0 {
        Some(Seq::empty())
    } else {
        match file_at(s, at) {
            None => None,
            Some((f, e)) => match files_at(s, e, (n - 1) as nat) {
                None => None,
                Some(rest) => Some(seq![f] + rest),
            },
        }
    }
}

/// The count at `at`.
pub open spec fn count_at(s: Seq<u8>, at: int) -> nat {
    at32(s, at) as nat
}

/// What a body holds behind its magic, which ends at `at` and calls for a
/// version.
pub open spec fn read_behind(s: Seq<u8>, at: int, version: u32) -> ReadBackup {
    if at + 4 > s.len() {
        ReadBackup::Bad(ErrorKind::UnexpectedEof)
    } else if at32(s, at) != version {
        ReadBackup::Bad(ErrorKind::InvalidData)
    } else if at + 32 > s.len() {
        ReadBackup::Bad(ErrorKind::UnexpectedEof)
    } else {
        match files_at(s, at + 32, count_at(s, at + 28)) {
            None => ReadBackup::Bad(ErrorKind::UnexpectedEof),
            Some(files) => ReadBackup::Manifest(
                BackupView {
                    created_at_unix: at64(s, at + 4),
                    next_file_id: at64(s, at + 12),
                    last_seq: at64(s, at + 20),
                    files,
                },
            ),
        }
    }
}

/// What a body holds.
pub open spec fn read_body(s: Seq<u8>) -> ReadBackup {
    if s.len() >= 8 && s.take(8) == BACKUP_MANIFEST_MAGIC.spec_bytes() {
        read_behind(s, 8, BACKUP_MANIFEST_VERSION)
    } else if s.len() < 4 {
        ReadBackup::Bad(ErrorKind::UnexpectedEof)
    } else if at32(s, 0) == BACKUP_MANIFEST_MAGIC_LEGACY {
        read_behind(s, 4, BACKUP_MANIFEST_VERSION_LEGACY)
    } else {
        ReadBackup::Bad(ErrorKind::InvalidData)
    }
}

/// A body's checksum holds: the current one, or that of the first format.
pub open spec fn body_checksum_holds(body: Seq<u8>, stored: u64) -> bool {
    stored == backup_manifest_checksum(body) || stored == xxh3_hash64(body)
}

/// What a manifest holds.
pub open spec fn read_backup(s: Seq<u8>) -> ReadBackup {
    if s.len() < 8 {
        ReadBackup::Bad(ErrorKind::InvalidData)
    } else if !body_checksum_holds(s.take(s.len() - 8), at64(s, s.len() - 8)) {
        ReadBackup::Bad(ErrorKind::InvalidData)
    } else {
        read_body(s.take(s.len() - 8))
    }
}

proof fn lemma_magic_len()
    ensures
        BACKUP_MANIFEST_MAGIC.spec_bytes().len() == 8,
{
    reveal_strlit("REGOMBKP");
    vstd::string::is_ascii_spec_bytes(BACKUP_MANIFEST_MAGIC);
}

/// Reading a written table gives it back, wherever it stands.
proof fn lemma_file_round_trip(before: Seq<u8>, f: FileView, rest: Seq<u8>)
    requires
        f.fits(),
    ensures
        file_at(before + f.bytes() + rest, before.len() as int) == Some(
            (f, (before.len() + f.bytes().len()) as int),
        ),
{
    lemma_le_round_trip();
    let s = before + f.bytes() + rest;
    let at = before.len() as int;
    let n1 = f.smallest.len() as int;
    let n2 = f.largest.len() as int;
    assert(s.subrange(at, at + 4) =~= le32(f.level));
    assert(s.subrange(at + 4, at + 12) =~= le64(f.file_id));
    assert(s.subrange(at + 12, at + 20) =~= le64(f.file_size));
    assert(s.subrange(at + 20, at + 28) =~= le64(f.num_entries));
    assert(s.subrange(at + 28, at + 44) =~= le128(f.hash));
    assert(s.subrange(at + 44, at + 48) =~= le32(n1 as u32));
    assert(s.subrange(at + 48, at + 48 + n1) =~= f.smallest);
    assert(s.subrange(at + 48 + n1, at + 52 + n1) =~= le32(n2 as u32));
    assert(s.subrange(at + 52 + n1, at + 52 + n1 + n2) =~= f.largest);
    assert(bytes_end(s, at + 44) == Some(at + 48 + n1));
    assert(bytes_end(s, at + 48 + n1) == Some(at + 52 + n1 + n2));
}

proof fn lemma_files_bytes_front(fs: Seq<FileView>)
    requires
        fs.len() > 0,
    ensures
        files_bytes(fs) == fs[0].bytes() + files_bytes(fs.skip(1)),
    decreases fs.len(),
{
    if fs.len() == 1 {
        assert(fs.drop_last() =~= Seq::<FileView>::empty());
        assert(fs.skip(1) =~= Seq::<FileView>::empty());
        assert(files_bytes(fs) =~= fs[0].bytes() + files_bytes(fs.skip(1)));
    } else {
        lemma_files_bytes_front(fs.drop_last());
        assert(fs.drop_last().skip(1) =~= fs.skip(1).drop_last());
        assert(files_bytes(fs) =~= fs[0].bytes() + files_bytes(fs.skip(1)));
    }
}

proof fn lemma_files_round_trip(before: Seq<u8>, fs: Seq<FileView>)
    requires
        forall|i: int| 0 <= i < fs.len() ==> (#[trigger] fs[i]).fits(),
    ensures
        files_at(before + files_bytes(fs), before.len() as int, fs.len()) == Some(fs),
    decreases fs.len(),
{
    if fs.len() > 0 {
        let f = fs[0];
        let rest = fs.skip(1);
        lemma_files_bytes_front(fs);
        lemma_file_round_trip(before, f, files_bytes(rest));
        let s = before + files_bytes(fs);
        assert(s =~= before + f.bytes() + files_bytes(rest));
        let b1 = before + f.bytes();
        assert forall|i: int| 0 <= i < rest.len() implies (#[trigger] rest[i]).fits() by {
            assert(rest[i] == fs[i + 1]);
        }
        lemma_files_round_trip(b1, rest);
        assert(s =~= b1 + files_bytes(rest));
        assert(seq![f] + rest =~= fs);
    } else {
        assert(fs =~= Seq::<FileView>::empty());
    }
}

/// Reading the manifest that was written for a backup gives the backup back.
pub proof fn lemma_backup_round_trip(m: BackupView)
    requires
        m.fits(),
    ensures
        read_backup(m.bytes()) == ReadBackup::Manifest(m),
{
    lemma_le_round_trip();
    lemma_magic_len();
    let s = m.bytes();
    let body = m.body();
    let head = m.head();
    assert(s.take(s.len() - 8) =~= body);
    assert(s.subrange(s.len() - 8, s.len() as int) =~= le64(backup_manifest_checksum(body)));
    assert(body.take(8) =~= BACKUP_MANIFEST_MAGIC.spec_bytes());
    assert(body.subrange(8, 12) =~= le32(BACKUP_MANIFEST_VERSION));
    assert(body.subrange(12, 20) =~= le64(m.created_at_unix));
    assert(body.subrange(20, 28) =~= le64(m.next_file_id));
    assert(body.subrange(28, 36) =~= le64(m.last_seq));
    assert(body.subrange(36, 40) =~= le32(m.files.len() as u32));
    assert(head.len() == 40);
    lemma_files_round_trip(head, m.files);
}

/// Encode the manifest of a backup.
pub fn encode_manifest(m: &BackupManifest) -> (r: Vec<u8>)
    requires
        m@.fits(),
    ensures
        r@ == m@.bytes(),
{
    let mut out: Vec<u8> = Vec::new();
    append_bytes(&mut out, BACKUP_MANIFEST_MAGIC.as_bytes());
    put_le32(&mut out, BACKUP_MANIFEST_VERSION);
    put_le64(&mut out, m.created_at_unix);
    put_le64(&mut out, m.next_file_id);
    put_le64(&mut out, m.last_seq);
    put_le32(&mut out, m.files.len() as u32);
    let ghost fs = m@.files;
    let ghost head = m@.head();
    assert(out@ =~= head);
    assert(fs.take(0) =~= Seq::<FileView>::empty());
    assert(out@ =~= head + files_bytes(fs.take(0)));
    let mut i: usize = 0;
    while i < m.files.len()
        invariant
            i <= m.files@.len(),
            fs == m@.files,
            m@.fits(),
            out@ == head + files_bytes(fs.take(i as int)),
        decreases m.files@.len() - i,
    {
        let f = &m.files[i];
        let ghost before = out@;
        assert(fs[i as int] == f@);
        assert(fs[i as int].fits());
        put_le32(&mut out, f.level);
        put_le64(&mut out, f.file_id);
        put_le64(&mut out, f.file_size);
        put_le64(&mut out, f.num_entries);
        put_le128(&mut out, f.hash);
        put_le32(&mut out, f.smallest_key.len() as u32);
        append_bytes(&mut out, f.smallest_key.as_slice());
        put_le32(&mut out, f.largest_key.len() as u32);
        append_bytes(&mut out, f.largest_key.as_slice());
        proof {
            assert(out@ =~= before + f@.bytes());
            let t = fs.take(i + 1);
            assert(t.drop_last() =~= fs.take(i as int));
            assert(t.last() == f@);
            assert(before + f@.bytes() =~= head + (files_bytes(fs.take(i as int)) + f@.bytes()));
        }
        i += 1;
    }
    assert(fs.take(i as int) =~= fs);
    let checksum: u64 = backup_manifest(out.as_slice());
    put_le64(&mut out, checksum);
    out
}

/// Read a number and move behind it.
fn read_u128(data: &[u8], pos: &mut usize) -> (r: Result<u128, Error>)
    requires
        *old(pos) <= data@.len(),
    ensures
        r is Ok <==> *old(pos) + 16 <= data@.len(),
        r matches Ok(x) ==> x == from_le128(data@.subrange(*old(pos) as int, *old(pos) + 16))
            && *final(pos) == *old(pos) + 16,
        r matches Err(e) ==> e.kind == ErrorKind::UnexpectedEof,
{
    let len: usize = data.len();
    if len - *pos < 16 {
        return Err(short_read());
    }
    let val: u128 = get_le128(data, *pos);
    *pos = *pos + 16;
    Ok(val)
}

/// Read a table and move behind it.
fn read_file(body: &[u8], pos: &mut usize) -> (r: Result<BackupFileEntry, Error>)
    requires
        *old(pos) <= body@.len(),
    ensures
        match file_at(body@, *old(pos) as int) {
            Some((f, e)) => r matches Ok(x) && x@ == f && *final(pos) == e && e <= body@.len(),
            None => r matches Err(e) && e.kind == ErrorKind::UnexpectedEof,
        },
{
    let level: u32 = match read_u32(body, pos) {
        Ok(x) => x,
        Err(e) => return Err(e),
    };
    let file_id: u64 = match read_u64(body, pos) {
        Ok(x) => x,
        Err(e) => return Err(e),
    };
    let file_size: u64 = match read_u64(body, pos) {
        Ok(x) => x,
        Err(e) => return Err(e),
    };
    let num_entries: u64 = match read_u64(body, pos) {
        Ok(x) => x,
        Err(e) => return Err(e),
    };
    let hash: u128 = match read_u128(body, pos) {
        Ok(x) => x,
        Err(e) => return Err(e),
    };
    let smallest_key = match read_bytes(body, pos) {
        Ok(x) => x,
        Err(e) => return Err(e),
    };
    let largest_key = match read_bytes(body, pos) {
        Ok(x) => x,
        Err(e) => return Err(e),
    };
    Ok(
        BackupFileEntry {
            level,
            file_id,
            file_size,
            hash,
            smallest_key,
            largest_key,
            num_entries,
        },
    )
}

/// Decode the manifest of a backup. A manifest that is short, has another
/// magic or version, or whose checksum does not hold is refused, and so is
/// one that ends before what it announces.
pub fn decode_manifest(data: &[u8]) -> (r: Result<BackupManifest, Error>)
    ensures
        match read_backup(data@) {
            ReadBackup::Manifest(m) => r matches Ok(x) && x@ == m,
            ReadBackup::Bad(k) => r matches Err(e) && e.kind == k,
        },
{
    let n: usize = data.len();
    if n < 8 {
        return Err(Error::invalid_data("short backup"));
    }
    let body = slice_subrange(data, 0, n - 8);
    assert(body@ =~= data@.take(n - 8));
    let stored: u64 = get_le64(data, n - 8);
    if backup_manifest(body) != stored && legacy_payload_u64(body) != stored {
        return Err(Error::invalid_data("backup manifest checksum mismatch"));
    }
    let mut p: usize = 0;
    let magic = BACKUP_MANIFEST_MAGIC.as_bytes();
    proof {
        lemma_magic_len();
    }
    let len: usize = body.len();
    let mut current = false;
    if len >= 8 {
        let front = slice_subrange(body, 0, 8);
        assert(front@ =~= body@.take(8));
        current = bytes_eq(front, magic);
    }
    let version: u32 = if current {
        p = 8;
        BACKUP_MANIFEST_VERSION
    } else {
        let x: u32 = match read_u32(body, &mut p) {
            Ok(x) => x,
            Err(e) => return Err(e),
        };
        if x != BACKUP_MANIFEST_MAGIC_LEGACY {
            return Err(Error::invalid_data("backup manifest bad magic"));
        }
        BACKUP_MANIFEST_VERSION_LEGACY
    };
    let ghost at = p as int;
    assert(read_backup(data@) == read_behind(body@, at, version));
    let found: u32 = match read_u32(body, &mut p) {
        Ok(x) => x,
        Err(e) => return Err(e),
    };
    if found != version {
        return Err(Error::invalid_data("unsupported backup manifest version"));
    }
    let created_at_unix: u64 = match read_u64(body, &mut p) {
        Ok(x) => x,
        Err(e) => return Err(e),
    };
    let next_file_id: u64 = match read_u64(body, &mut p) {
        Ok(x) => x,
        Err(e) => return Err(e),
    };
    let last_seq: u64 = match read_u64(body, &mut p) {
        Ok(x) => x,
        Err(e) => return Err(e),
    };
    let count: u32 = match read_u32(body, &mut p) {
        Ok(x) => x,
        Err(e) => return Err(e),
    };
    let ghost whole = files_at(body@, at + 32, count as nat);
    let mut files: Vec<BackupFileEntry> = Vec::new();
    let mut i: u32 = 0;
    proof {
        if let Some(fs) = whole {
            assert(file_views(files@) + fs =~= fs);
        }
    }
    while i < count
        invariant
            i <= count,
            p <= body@.len(),
            whole == files_at(body@, at + 32, count as nat),
            whole == match files_at(body@, p as int, (count - i) as nat) {
                Some(rest) => Some(file_views(files@) + rest),
                None => None,
            },
            read_backup(data@) == read_behind(body@, at, version),
            version == at32(body@, at),
            at + 32 <= body@.len(),
            count == at32(body@, at + 28),
        decreases count - i,
    {
        let ghost p0 = p as int;
        let ghost done = file_views(files@);
        let f = match read_file(body, &mut p) {
            Ok(x) => x,
            Err(e) => return Err(e),
        };
        let ghost fv = f@;
        files.push(f);
        proof {
            assert(file_views(files@) =~= done.push(fv));
            if let Some(rest) = files_at(body@, p as int, (count - i - 1) as nat) {
                assert(done + (seq![fv] + rest) =~= done.push(fv) + rest);
            }
        }
        i += 1;
    }
    assert(file_views(files@) + Seq::<FileView>::empty() =~= file_views(files@));
    Ok(BackupManifest { created_at_unix, files, next_file_id, last_seq })
}

} // verus!
