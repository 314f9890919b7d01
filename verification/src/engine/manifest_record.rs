//! The records of the manifest.
//!
//! A record is a tag and its fields, integers least significant byte first,
//! byte strings behind their length. In the manifest each record stands in a
//! frame: `[len: u32][record][checksum: u32]`.

use super::checksum::legacy_payload_u32;
use super::checksum::manifest_record;
use super::checksum::manifest_record_checksum;
use super::checksum::xxh3_hash64;
use super::sstable::MetaView;
use super::sstable::SsTableMeta;
use crate::bytes::append_bytes;
use crate::bytes::copy_bytes;
use crate::bytes::from_le32;
use crate::bytes::from_le64;
use crate::bytes::get_le32;
use crate::bytes::get_le64;
use crate::bytes::le32;
use crate::bytes::le64;
use crate::bytes::lemma_le_round_trip;
use crate::bytes::put_le32;
use crate::bytes::put_le64;
use crate::error::Error;
use crate::error::ErrorKind;
use vstd::prelude::*;
use vstd::slice::slice_subrange;

verus! {

/// Maximum number of levels in the tree.
pub const MAX_LEVELS: usize = 7;

pub const TAG_ADD_FILE: u8 = 1;

pub const TAG_REMOVE_FILE: u8 = 2;

pub const TAG_LAST_SEQ: u8 = 3;

pub const TAG_NEXT_FILE_ID: u8 = 4;

pub const TAG_MIN_WAL_ID: u8 = 5;

pub const TAG_RESET: u8 = 6;

/// What a record says.
#[verifier::ext_equal]
pub enum RecordView {
    AddFile { level: nat, meta: MetaView },
    RemoveFile { level: nat, file_id: u64 },
    SetLastSeq(u64),
    SetNextFileId(u64),
    SetMinWalId(u64),
    Reset { next_file_id: u64, min_wal_id: u64 },
}

impl RecordView {
    /// The level and the lengths of the keys can be written.
    pub open spec fn fits(self) -> bool {
        match self {
            RecordView::AddFile { level, meta } => level <= u32::MAX && 37 + meta.smallest.len()
                + meta.largest.len() <= u32::MAX,
            RecordView::RemoveFile { level, file_id } => level <= u32::MAX,
            _ => true,
        }
    }

    /// The record can be written, and names a level of the tree.
    pub open spec fn ok(self) -> bool {
        &&& self.fits()
        &&& match self {
            RecordView::AddFile { level, meta } => level < MAX_LEVELS,
            RecordView::RemoveFile { level, file_id } => level < MAX_LEVELS,
            _ => true,
        }
    }

    /// The bytes of the record.
    pub open spec fn bytes(self) -> Seq<u8> {
        match self {
            RecordView::AddFile { level, meta } => seq![TAG_ADD_FILE] + le32(level as u32) + le64(
                meta.file_id,
            ) + le32(meta.smallest.len() as u32) + meta.smallest + le32(meta.largest.len() as u32)
                + meta.largest + le64(meta.file_size) + le64(meta.num_entries),
            RecordView::RemoveFile { level, file_id } => seq![TAG_REMOVE_FILE] + le32(level as u32)
                + le64(file_id),
            RecordView::SetLastSeq(seq) => seq![TAG_LAST_SEQ] + le64(seq),
            RecordView::SetNextFileId(id) => seq![TAG_NEXT_FILE_ID] + le64(id),
            RecordView::SetMinWalId(id) => seq![TAG_MIN_WAL_ID] + le64(id),
            RecordView::Reset { next_file_id, min_wal_id } => seq![TAG_RESET] + le64(next_file_id)
                + le64(min_wal_id),
        }
    }
}

/// What stands at the front of a byte string: nothing, a record of some
/// length, or something that is not a record.
#[verifier::ext_equal]
pub enum Front {
    End,
    Record(RecordView, nat),
    Bad(ErrorKind),
}

/// The number at `at`.
pub open spec fn at32(s: Seq<u8>, at: int) -> u32 {
    from_le32(s.subrange(at, at + 4))
}

/// The number at `at`.
pub open spec fn at64(s: Seq<u8>, at: int) -> u64 {
    from_le64(s.subrange(at, at + 8))
}

/// A byte string behind its length ends within `s`, and where.
pub open spec fn bytes_end(s: Seq<u8>, at: int) -> Option<int> {
    if at + 4 <= s.len() && at + 4 + at32(s, at) <= s.len() {
        Some(at + 4 + at32(s, at))
    } else {
        None
    }
}

/// What stands at the front of `s`.
pub open spec fn front(s: Seq<u8>) -> Front {
    if s.len() == 0 {
        Front::End
    } else if s[0] == TAG_ADD_FILE {
        front_add_file(s)
    } else if s[0] == TAG_REMOVE_FILE {
        if s.len() < 5 {
            Front::Bad(ErrorKind::UnexpectedEof)
        } else if at32(s, 1) >= MAX_LEVELS {
            Front::Bad(ErrorKind::InvalidData)
        } else if s.len() < 13 {
            Front::Bad(ErrorKind::UnexpectedEof)
        } else {
            Front::Record(
                RecordView::RemoveFile { level: at32(s, 1) as nat, file_id: at64(s, 5) },
                13,
            )
        }
    } else if s[0] == TAG_RESET {
        if s.len() < 17 {
            Front::Bad(ErrorKind::UnexpectedEof)
        } else {
            Front::Record(
                RecordView::Reset { next_file_id: at64(s, 1), min_wal_id: at64(s, 9) },
                17,
            )
        }
    } else if TAG_LAST_SEQ <= s[0] <= TAG_MIN_WAL_ID {
        if s.len() < 9 {
            Front::Bad(ErrorKind::UnexpectedEof)
        } else if s[0] == TAG_LAST_SEQ {
            Front::Record(RecordView::SetLastSeq(at64(s, 1)), 9)
        } else if s[0] == TAG_NEXT_FILE_ID {
            Front::Record(RecordView::SetNextFileId(at64(s, 1)), 9)
        } else {
            Front::Record(RecordView::SetMinWalId(at64(s, 1)), 9)
        }
    } else {
        Front::Bad(ErrorKind::InvalidData)
    }
}

/// What stands at the front of `s`, behind the tag of an added file.
pub open spec fn front_add_file(s: Seq<u8>) -> Front {
    if s.len() < 5 {
        Front::Bad(ErrorKind::UnexpectedEof)
    } else if at32(s, 1) >= MAX_LEVELS {
        Front::Bad(ErrorKind::InvalidData)
    } else if s.len() < 13 {
        Front::Bad(ErrorKind::UnexpectedEof)
    } else {
        match bytes_end(s, 13) {
            None => Front::Bad(ErrorKind::UnexpectedEof),
            Some(a) => match bytes_end(s, a) {
                None => Front::Bad(ErrorKind::UnexpectedEof),
                Some(b) => if b + 16 > s.len() {
                    Front::Bad(ErrorKind::UnexpectedEof)
                } else {
                    Front::Record(
                        RecordView::AddFile {
                            level: at32(s, 1) as nat,
                            meta: MetaView {
                                file_id: at64(s, 5),
                                smallest: s.subrange(17, a),
                                largest: s.subrange(a + 4, b),
                                file_size: at64(s, b),
                                num_entries: at64(s, b + 8),
                            },
                        },
                        (b + 16) as nat,
                    )
                },
            },
        }
    }
}

/// A record that was read is longer than nothing and within the string.
pub proof fn lemma_front_len(s: Seq<u8>)
    ensures
        front(s) matches Front::Record(_, n) ==> 0 < n <= s.len(),
{
}

/// Writing a record and reading it gives the record back, whatever follows.
pub proof fn lemma_record_round_trip(r: RecordView, rest: Seq<u8>)
    requires
        r.ok(),
    ensures
        front(r.bytes() + rest) == Front::Record(r, r.bytes().len()),
        0 < r.bytes().len() <= u32::MAX,
{
    lemma_le_round_trip();
    let s = r.bytes() + rest;
    match r {
        RecordView::AddFile { level, meta } => {
            let n1 = meta.smallest.len() as int;
            let n2 = meta.largest.len() as int;
            assert(s.subrange(1, 5) =~= le32(level as u32));
            assert(s.subrange(5, 13) =~= le64(meta.file_id));
            assert(s.subrange(13, 17) =~= le32(n1 as u32));
            assert(s.subrange(17, 17 + n1) =~= meta.smallest);
            assert(s.subrange(17 + n1, 21 + n1) =~= le32(n2 as u32));
            assert(s.subrange(21 + n1, 21 + n1 + n2) =~= meta.largest);
            assert(s.subrange(21 + n1 + n2, 29 + n1 + n2) =~= le64(meta.file_size));
            assert(s.subrange(29 + n1 + n2, 37 + n1 + n2) =~= le64(meta.num_entries));
            assert(bytes_end(s, 13) == Some(17 + n1));
            assert(bytes_end(s, 17 + n1) == Some(21 + n1 + n2));
        },
        RecordView::RemoveFile { level, file_id } => {
            assert(s.subrange(1, 5) =~= le32(level as u32));
            assert(s.subrange(5, 13) =~= le64(file_id));
        },
        RecordView::SetLastSeq(x) => {
            assert(s.subrange(1, 9) =~= le64(x));
        },
        RecordView::SetNextFileId(x) => {
            assert(s.subrange(1, 9) =~= le64(x));
        },
        RecordView::SetMinWalId(x) => {
            assert(s.subrange(1, 9) =~= le64(x));
        },
        RecordView::Reset { next_file_id, min_wal_id } => {
            assert(s.subrange(1, 9) =~= le64(next_file_id));
            assert(s.subrange(9, 17) =~= le64(min_wal_id));
        },
    }
}

/// A record of the manifest.
pub enum ManifestRecord {
    AddFile { level: usize, meta: SsTableMeta },
    RemoveFile { level: usize, file_id: u64 },
    SetLastSeq(u64),
    SetNextFileId(u64),
    SetMinWalId(u64),
    Reset { next_file_id: u64, min_wal_id: u64 },
}

impl View for ManifestRecord {
    type V = RecordView;

    open spec fn view(&self) -> RecordView {
        match self {
            ManifestRecord::AddFile { level, meta } => RecordView::AddFile {
                level: *level as nat,
                meta: meta@,
            },
            ManifestRecord::RemoveFile { level, file_id } => RecordView::RemoveFile {
                level: *level as nat,
                file_id: *file_id,
            },
            ManifestRecord::SetLastSeq(x) => RecordView::SetLastSeq(*x),
            ManifestRecord::SetNextFileId(x) => RecordView::SetNextFileId(*x),
            ManifestRecord::SetMinWalId(x) => RecordView::SetMinWalId(*x),
            ManifestRecord::Reset { next_file_id, min_wal_id } => RecordView::Reset {
                next_file_id: *next_file_id,
                min_wal_id: *min_wal_id,
            },
        }
    }
}

impl ManifestRecord {
    /// Append the record to `buf`.
    pub fn encode(&self, buf: &mut Vec<u8>)
        requires
            self@.fits(),
        ensures
            final(buf)@ == old(buf)@ + self@.bytes(),
            self@.bytes().len() <= u32::MAX,
    {
        let ghost b0 = buf@;
        match self {
            ManifestRecord::AddFile { level, meta } => {
                buf.push(TAG_ADD_FILE);
                put_le32(buf, *level as u32);
                put_le64(buf, meta.file_id);
                put_le32(buf, meta.smallest_key.len() as u32);
                append_bytes(buf, meta.smallest_key.as_slice());
                put_le32(buf, meta.largest_key.len() as u32);
                append_bytes(buf, meta.largest_key.as_slice());
                put_le64(buf, meta.file_size);
                put_le64(buf, meta.num_entries);
            },
            ManifestRecord::RemoveFile { level, file_id } => {
                buf.push(TAG_REMOVE_FILE);
                put_le32(buf, *level as u32);
                put_le64(buf, *file_id);
            },
            ManifestRecord::SetLastSeq(seq) => {
                buf.push(TAG_LAST_SEQ);
                put_le64(buf, *seq);
            },
            ManifestRecord::SetNextFileId(id) => {
                buf.push(TAG_NEXT_FILE_ID);
                put_le64(buf, *id);
            },
            ManifestRecord::SetMinWalId(id) => {
                buf.push(TAG_MIN_WAL_ID);
                put_le64(buf, *id);
            },
            ManifestRecord::Reset { next_file_id, min_wal_id } => {
                buf.push(TAG_RESET);
                put_le64(buf, *next_file_id);
                put_le64(buf, *min_wal_id);
            },
        }
        assert(buf@ =~= b0 + self@.bytes());
    }

    /// Read the record at `pos` and move `pos` behind it; `None` at the end
    /// of the data, and beyond it. `pos` never moves back, and never out of the
    /// data.
    pub fn decode(data: &[u8], pos: &mut usize) -> (r: Result<Option<Self>, Error>)
        ensures
            r == Ok::<Option<Self>, Error>(None) <==> *old(pos) >= data@.len(),
            *old(pos) >= data@.len() ==> *final(pos) == *old(pos),
            *old(pos) < data@.len() ==> match front(data@.skip(*old(pos) as int)) {
                Front::End => false,
                Front::Record(v, n) => r matches Ok(Some(x)) && x@ == v && *final(pos) == *old(pos)
                    + n,
                Front::Bad(k) => r matches Err(e) && e.kind == k,
            },
            *final(pos) >= *old(pos),
            *old(pos) <= data@.len() ==> *final(pos) <= data@.len(),
    {
        let len: usize = data.len();
        if *pos >= len {
            return Ok(None);
        }
        let start: usize = *pos;
        let ghost s = data@.skip(start as int);
        let tag: u8 = data[start];
        assert(s[0] == tag);
        *pos = start + 1;
        if tag == TAG_ADD_FILE {
            let level: usize = match read_u32(data, pos) {
                Ok(x) => x as usize,
                Err(e) => return Err(e),
            };
            assert(at32(s, 1) == level) by {
                assert(s.subrange(1, 5) =~= data@.subrange(start + 1, start + 5));
            }
            match validate_level_index(level) {
                Ok(()) => {},
                Err(e) => return Err(e),
            }
            let file_id: u64 = match read_u64(data, pos) {
                Ok(x) => x,
                Err(e) => return Err(e),
            };
            assert(at64(s, 5) == file_id) by {
                assert(s.subrange(5, 13) =~= data@.subrange(start + 5, start + 13));
            }
            proof {
                lemma_bytes_end_shift(data@, start as int, 13);
            }
            let smallest_key = match read_bytes(data, pos) {
                Ok(x) => x,
                Err(e) => return Err(e),
            };
            let ghost a = *pos - start;
            assert(smallest_key@ =~= s.subrange(17, a));
            proof {
                lemma_bytes_end_shift(data@, start as int, a);
            }
            let largest_key = match read_bytes(data, pos) {
                Ok(x) => x,
                Err(e) => return Err(e),
            };
            let ghost b = *pos - start;
            assert(largest_key@ =~= s.subrange(a + 4, b));
            let file_size: u64 = match read_u64(data, pos) {
                Ok(x) => x,
                Err(e) => return Err(e),
            };
            let num_entries: u64 = match read_u64(data, pos) {
                Ok(x) => x,
                Err(e) => return Err(e),
            };
            assert(at64(s, b) == file_size) by {
                assert(s.subrange(b, b + 8) =~= data@.subrange(start + b, start + b + 8));
            }
            assert(at64(s, b + 8) == num_entries) by {
                assert(s.subrange(b + 8, b + 16) =~= data@.subrange(start + b + 8, start + b + 16));
            }
            Ok(
                Some(
                    ManifestRecord::AddFile {
                        level,
                        meta: SsTableMeta {
                            file_id,
                            smallest_key,
                            largest_key,
                            file_size,
                            num_entries,
                        },
                    },
                ),
            )
        } else if tag == TAG_REMOVE_FILE {
            let level: usize = match read_u32(data, pos) {
                Ok(x) => x as usize,
                Err(e) => return Err(e),
            };
            assert(at32(s, 1) == level) by {
                assert(s.subrange(1, 5) =~= data@.subrange(start + 1, start + 5));
            }
            match validate_level_index(level) {
                Ok(()) => {},
                Err(e) => return Err(e),
            }
            let file_id: u64 = match read_u64(data, pos) {
                Ok(x) => x,
                Err(e) => return Err(e),
            };
            assert(at64(s, 5) == file_id) by {
                assert(s.subrange(5, 13) =~= data@.subrange(start + 5, start + 13));
            }
            Ok(Some(ManifestRecord::RemoveFile { level, file_id }))
        } else if tag == TAG_LAST_SEQ || tag == TAG_NEXT_FILE_ID || tag == TAG_MIN_WAL_ID {
            let x: u64 = match read_u64(data, pos) {
                Ok(x) => x,
                Err(e) => return Err(e),
            };
            assert(at64(s, 1) == x) by {
                assert(s.subrange(1, 9) =~= data@.subrange(start + 1, start + 9));
            }
            if tag == TAG_LAST_SEQ {
                Ok(Some(ManifestRecord::SetLastSeq(x)))
            } else if tag == TAG_NEXT_FILE_ID {
                Ok(Some(ManifestRecord::SetNextFileId(x)))
            } else {
                Ok(Some(ManifestRecord::SetMinWalId(x)))
            }
        } else if tag == TAG_RESET {
            let next_file_id: u64 = match read_u64(data, pos) {
                Ok(x) => x,
                Err(e) => return Err(e),
            };
            let min_wal_id: u64 = match read_u64(data, pos) {
                Ok(x) => x,
                Err(e) => return Err(e),
            };
            assert(at64(s, 1) == next_file_id) by {
                assert(s.subrange(1, 9) =~= data@.subrange(start + 1, start + 9));
            }
            assert(at64(s, 9) == min_wal_id) by {
                assert(s.subrange(9, 17) =~= data@.subrange(start + 9, start + 17));
            }
            Ok(Some(ManifestRecord::Reset { next_file_id, min_wal_id }))
        } else {
            Err(Error::invalid_data("unknown manifest record tag"))
        }
    }
}

/// Reading a byte string at an offset is reading it in the rest.
proof fn lemma_bytes_end_shift(data: Seq<u8>, start: int, at: int)
    requires
        0 <= start <= data.len(),
        0 <= at,
    ensures
        bytes_end(data.skip(start), at) == match bytes_end(data, start + at) {
            Some(e) => Some(e - start),
            None => None,
        },
{
    let s = data.skip(start);
    if at + 4 <= s.len() {
        assert(s.subrange(at, at + 4) =~= data.subrange(start + at, start + at + 4));
    }
}

pub(crate) fn short_read() -> (e: Error)
    ensures
        e.kind == ErrorKind::UnexpectedEof,
{
    Error::new(ErrorKind::UnexpectedEof, "short read")
}

/// Read a number and move behind it.
pub(crate) fn read_u32(data: &[u8], pos: &mut usize) -> (r: Result<u32, Error>)
    requires
        *old(pos) <= data@.len(),
    ensures
        r is Ok <==> *old(pos) + 4 <= data@.len(),
        r matches Ok(x) ==> x == at32(data@, *old(pos) as int) && *final(pos) == *old(pos) + 4,
        r matches Err(e) ==> e.kind == ErrorKind::UnexpectedEof && *final(pos) == *old(pos),
{
    let len: usize = data.len();
    if len - *pos < 4 {
        return Err(short_read());
    }
    let val: u32 = get_le32(data, *pos);
    *pos = *pos + 4;
    Ok(val)
}

/// Read a number and move behind it.
pub(crate) fn read_u64(data: &[u8], pos: &mut usize) -> (r: Result<u64, Error>)
    requires
        *old(pos) <= data@.len(),
    ensures
        r is Ok <==> *old(pos) + 8 <= data@.len(),
        r matches Ok(x) ==> x == at64(data@, *old(pos) as int) && *final(pos) == *old(pos) + 8,
        r matches Err(e) ==> e.kind == ErrorKind::UnexpectedEof && *final(pos) == *old(pos),
{
    let len: usize = data.len();
    if len - *pos < 8 {
        return Err(short_read());
    }
    let val: u64 = get_le64(data, *pos);
    *pos = *pos + 8;
    Ok(val)
}

/// Read a byte string behind its length and move behind it.
pub(crate) fn read_bytes(data: &[u8], pos: &mut usize) -> (r: Result<Vec<u8>, Error>)
    requires
        *old(pos) <= data@.len(),
    ensures
        r is Ok <==> bytes_end(data@, *old(pos) as int) is Some,
        r matches Ok(x) ==> bytes_end(data@, *old(pos) as int) == Some(*final(pos) as int) && x@
            == data@.subrange(*old(pos) + 4, *final(pos) as int),
        r matches Err(e) ==> e.kind == ErrorKind::UnexpectedEof,
        *old(pos) <= *final(pos) <= data@.len(),
{
    let n: usize = match read_u32(data, pos) {
        Ok(x) => x as usize,
        Err(e) => return Err(e),
    };
    let len: usize = data.len();
    if len - *pos < n {
        return Err(short_read());
    }
    let bytes = copy_bytes(slice_subrange(data, *pos, *pos + n));
    *pos = *pos + n;
    Ok(bytes)
}

/// Whether a level is one of the tree's.
pub fn validate_level_index(level: usize) -> (r: Result<(), Error>)
    ensures
        r is Ok <==> level < MAX_LEVELS,
        r matches Err(e) ==> e.kind == ErrorKind::InvalidData,
{
    if level < MAX_LEVELS {
        Ok(())
    } else {
        Err(Error::invalid_data("manifest level out of range"))
    }
}

// ── Frames ───────────────────────────────────────────────────────

/// The frame of a record.
pub open spec fn frame(payload: Seq<u8>) -> Seq<u8> {
    le32(payload.len() as u32) + payload + le32(
        manifest_record_checksum(payload.len() as u32, payload),
    )
}

/// The frames of a list of records.
pub open spec fn frames(records: Seq<RecordView>) -> Seq<u8>
    decreases records.len(),
{
    if records.len() == 0 {
        Seq::empty()
    } else {
        frames(records.drop_last()) + frame(records.last().bytes())
    }
}

/// What records say.
pub open spec fn record_views(records: Seq<ManifestRecord>) -> Seq<RecordView> {
    records.map_values(|r: ManifestRecord| r@)
}

/// Encode records into their frames.
pub fn encode_records(records: &Vec<ManifestRecord>) -> (r: Vec<u8>)
    requires
        forall|i: int| 0 <= i < records@.len() ==> (#[trigger] records@[i])@.fits(),
    ensures
        r@ == frames(record_views(records@)),
{
    let mut buf: Vec<u8> = Vec::new();
    let mut i: usize = 0;
    let ghost vs = record_views(records@);
    assert(vs.take(0) =~= Seq::<RecordView>::empty());
    while i < records.len()
        invariant
            i <= records@.len(),
            vs == record_views(records@),
            forall|j: int| 0 <= j < records@.len() ==> (#[trigger] records@[j])@.fits(),
            buf@ == frames(vs.take(i as int)),
        decreases records@.len() - i,
    {
        let mut record_buf: Vec<u8> = Vec::new();
        let ghost before = buf@;
        assert(records@[i as int]@.fits());
        records[i].encode(&mut record_buf);
        assert(record_buf@ =~= records@[i as int]@.bytes());
        let len: u32 = record_buf.len() as u32;
        let checksum: u32 = manifest_record(len, record_buf.as_slice());
        put_le32(&mut buf, len);
        append_bytes(&mut buf, record_buf.as_slice());
        put_le32(&mut buf, checksum);
        proof {
            let t = vs.take(i + 1);
            assert(t.drop_last() =~= vs.take(i as int));
            assert(t.last() == records@[i as int]@);
            assert(buf@ =~= before + frame(record_buf@));
        }
        i += 1;
    }
    assert(vs.take(i as int) =~= vs);
    buf
}

/// A checksum holds for a payload: the current one, or that of the first
/// format.
pub open spec fn checksum_holds(payload: Seq<u8>, stored: u32) -> bool {
    stored == manifest_record_checksum(payload.len() as u32, payload) || stored == xxh3_hash64(
        payload,
    ) as u32
}

/// A whole frame with a checksum that holds stands at the front of `s`.
pub open spec fn frame_ok(s: Seq<u8>) -> bool {
    &&& s.len() >= 4
    &&& 8 + at32(s, 0) <= s.len()
    &&& checksum_holds(frame_payload(s), at32(s, 4 + at32(s, 0)))
}

/// The payload of the frame at the front of `s`.
pub open spec fn frame_payload(s: Seq<u8>) -> Seq<u8> {
    s.subrange(4, 4 + at32(s, 0))
}

/// Take the payload of the frame at `offset`, if there is a whole one whose
/// checksum holds.
pub fn read_frame(data: &[u8], offset: usize) -> (r: Option<&[u8]>)
    requires
        offset <= data@.len(),
    ensures
        r is Some <==> frame_ok(data@.skip(offset as int)),
        r matches Some(p) ==> p@ == frame_payload(data@.skip(offset as int)) && offset + 8
            + p@.len() <= data@.len(),
{
    let len: usize = data.len();
    let ghost s = data@.skip(offset as int);
    if len - offset < 4 {
        return None;
    }
    let n: usize = get_le32(data, offset) as usize;
    assert(s.subrange(0, 4) =~= data@.subrange(offset as int, offset + 4));
    if len - offset - 4 < n || len - offset - 4 - n < 4 {
        return None;
    }
    let payload = slice_subrange(data, offset + 4, offset + 4 + n);
    assert(payload@ =~= frame_payload(s));
    let stored: u32 = get_le32(data, offset + 4 + n);
    assert(s.subrange(4 + n, 8 + n) =~= data@.subrange(offset + 4 + n, offset + 8 + n));
    if stored == manifest_record(n as u32, payload) || stored == legacy_payload_u32(payload) {
        Some(payload)
    } else {
        None
    }
}

/// A written frame is read back, whatever follows.
pub proof fn lemma_frame_round_trip(payload: Seq<u8>, rest: Seq<u8>)
    requires
        payload.len() <= u32::MAX,
    ensures
        frame(payload).len() == payload.len() + 8,
        frame_ok(frame(payload) + rest),
        frame_payload(frame(payload) + rest) == payload,
{
    lemma_le_round_trip();
    let s = frame(payload) + rest;
    let n = payload.len() as int;
    assert(s.subrange(0, 4) =~= le32(n as u32));
    assert(s.subrange(4, 4 + n) =~= payload);
    assert(s.subrange(4 + n, 8 + n) =~= le32(manifest_record_checksum(n as u32, payload)));
}

/// A frame that was cut short is no frame.
pub proof fn lemma_torn_frame(payload: Seq<u8>, n: int)
    requires
        payload.len() <= u32::MAX,
        0 <= n < frame(payload).len(),
    ensures
        !frame_ok(frame(payload).take(n)),
{
    lemma_frame_round_trip(payload, Seq::empty());
    lemma_le_round_trip();
    let f = frame(payload);
    let s = f.take(n);
    if n >= 4 {
        assert(s.subrange(0, 4) =~= le32(payload.len() as u32));
    }
}

} // verus!
