//! Fast on-disk checksums for accidental corruption detection.
//!
//! These use xxh3 without a secret. They are intended to catch torn writes,
//! truncated records and random bit rot; they are not cryptographic hashes
//! and do not authenticate data.
//!
//! A checksum covers a domain and a list of parts. The domain keeps one
//! family of checksums from colliding with another; each part is preceded by
//! its length, so that no two lists of parts feed the hash the same bytes.

use crate::bytes::le32;
use crate::bytes::le64;
use crate::bytes::lemma_le_round_trip;
use vstd::prelude::*;
use vstd::string::StringSliceAdditionalSpecFns;
use xxhash_rust::xxh3::xxh3_64;
use xxhash_rust::xxh3::Xxh3Default;

verus! {

// ── The hash ─────────────────────────────────────────────────────

/// The streaming hasher of `xxhash_rust`.
#[verifier::external_type_specification]
#[verifier::external_body]
pub struct ExXxh3Default(Xxh3Default);

/// The bytes that a hasher has been fed, in order.
pub uninterp spec fn hashed_bytes(h: Xxh3Default) -> Seq<u8>;

/// What `Xxh3Default::digest` returns after the hasher was fed `b`.
pub uninterp spec fn xxh3_digest64(b: Seq<u8>) -> u64;

/// What `Xxh3Default::digest128` returns after the hasher was fed `b`.
pub uninterp spec fn xxh3_digest128(b: Seq<u8>) -> u128;

/// What `xxh3_64` returns for `b`.
pub uninterp spec fn xxh3_hash64(b: Seq<u8>) -> u64;

/// `Xxh3Default::new` makes a hasher that has been fed nothing.
pub assume_specification[ Xxh3Default::new ]() -> (h: Xxh3Default)
    ensures
        hashed_bytes(h) == Seq::<u8>::empty(),
;

/// `Xxh3Default::update` feeds the hasher a chunk.
pub assume_specification[ Xxh3Default::update ](h: &mut Xxh3Default, input: &[u8])
    ensures
        hashed_bytes(*final(h)) == hashed_bytes(*old(h)) + input@,
;

/// `Xxh3Default::digest` depends on the fed bytes alone, not on how they were
/// cut into chunks.
pub assume_specification[ Xxh3Default::digest ](h: &Xxh3Default) -> (r: u64)
    ensures
        r == xxh3_digest64(hashed_bytes(*h)),
;

/// `Xxh3Default::digest128` depends on the fed bytes alone, not on how they
/// were cut into chunks.
pub assume_specification[ Xxh3Default::digest128 ](h: &Xxh3Default) -> (r: u128)
    ensures
        r == xxh3_digest128(hashed_bytes(*h)),
;

/// `xxh3_64` is a function of its input.
pub assume_specification[ xxh3_64 ](input: &[u8]) -> (r: u64)
    ensures
        r == xxh3_hash64(input@),
;

// ── Domains ──────────────────────────────────────────────────────

// The bytes are part of the on-disk format: a change to any of them is a
// format break.

pub const WAL_RECORD_DOMAIN: &'static str = "regolith/wal-record/v2";

pub const WAL_STAMP_DOMAIN: &'static str = "regolith/wal-stamp/v1";

pub const MANIFEST_RECORD_DOMAIN: &'static str = "regolith/manifest-record/v2";

pub const SST_BLOCK_DOMAIN: &'static str = "regolith/sst-block/v2";

pub const SST_META_DOMAIN: &'static str = "regolith/sst-meta/v1";

pub const BACKUP_MANIFEST_DOMAIN: &'static str = "regolith/backup-manifest/v2";

pub const BACKUP_SHARED_FILE_DOMAIN: &'static str = "regolith/backup-shared-file/v2";

pub const OPFS_SLOT_HEADER_DOMAIN: &'static str = "regolith/opfs-slot-header/v1";

/// Kind tags for the table metadata regions. They are mixed into the checksum
/// so that a region cannot validate as a different kind of region after a
/// damaged offset sends the reader to the wrong bytes.
pub const META_KIND_INDEX: u8 = 1;

pub const META_KIND_INDEX_LEAF: u8 = 2;

pub const META_KIND_BLOOM: u8 = 3;

pub const META_KIND_RANGE_TOMBSTONE: u8 = 4;

pub const META_KIND_FOOTER: u8 = 5;

// ── Framing ──────────────────────────────────────────────────────

/// The bytes hashed for one part: its length, then the part.
pub open spec fn framed_part(part: Seq<u8>) -> Seq<u8> {
    le64(part.len() as u64) + part
}

/// The bytes hashed for a list of parts.
pub open spec fn framed_parts(parts: Seq<Seq<u8>>) -> Seq<u8>
    decreases parts.len(),
{
    if parts.len() == 0 {
        Seq::empty()
    } else {
        framed_parts(parts.drop_last()) + framed_part(parts.last())
    }
}

/// The 64-bit checksum of a list of parts in a domain.
pub open spec fn parts64(domain: Seq<u8>, parts: Seq<Seq<u8>>) -> u64 {
    xxh3_digest64(domain + framed_parts(parts))
}

/// The 32-bit checksum of a list of parts: the low half of the 64-bit one.
pub open spec fn parts32(domain: Seq<u8>, parts: Seq<Seq<u8>>) -> u32 {
    parts64(domain, parts) as u32
}

fn new_hasher(domain: &str) -> (h: Xxh3Default)
    ensures
        hashed_bytes(h) == domain.spec_bytes() + framed_parts(Seq::empty()),
{
    let mut hasher = Xxh3Default::new();
    hasher.update(domain.as_bytes());
    assert(hashed_bytes(hasher) =~= domain.spec_bytes() + framed_parts(Seq::empty()));
    hasher
}

fn add_part(
    hasher: &mut Xxh3Default,
    part: &[u8],
    Ghost(domain): Ghost<Seq<u8>>,
    Ghost(parts): Ghost<Seq<Seq<u8>>>,
)
    requires
        hashed_bytes(*old(hasher)) == domain + framed_parts(parts),
    ensures
        hashed_bytes(*final(hasher)) == domain + framed_parts(parts.push(part@)),
{
    let len = vstd::bytes::u64_to_le_bytes(part.len() as u64);
    hasher.update(len.as_slice());
    hasher.update(part);
    assert(parts.push(part@).drop_last() =~= parts);
    assert(hashed_bytes(*hasher) =~= domain + framed_parts(parts.push(part@)));
}

fn parts_of_one(domain: &str, a: &[u8]) -> (r: u64)
    ensures
        r == parts64(domain.spec_bytes(), seq![a@]),
{
    let mut h = new_hasher(domain);
    add_part(&mut h, a, Ghost(domain.spec_bytes()), Ghost(Seq::empty()));
    assert(Seq::empty().push(a@) =~= seq![a@]);
    h.digest()
}

fn parts_of_two(domain: &str, a: &[u8], b: &[u8]) -> (r: u64)
    ensures
        r == parts64(domain.spec_bytes(), seq![a@, b@]),
{
    let mut h = new_hasher(domain);
    add_part(&mut h, a, Ghost(domain.spec_bytes()), Ghost(Seq::empty()));
    assert(Seq::empty().push(a@) =~= seq![a@]);
    let ghost first = seq![a@];
    add_part(&mut h, b, Ghost(domain.spec_bytes()), Ghost(first));
    assert(seq![a@].push(b@) =~= seq![a@, b@]);
    h.digest()
}

fn parts_of_three(domain: &str, a: &[u8], b: &[u8], c: &[u8]) -> (r: u64)
    ensures
        r == parts64(domain.spec_bytes(), seq![a@, b@, c@]),
{
    let mut h = new_hasher(domain);
    add_part(&mut h, a, Ghost(domain.spec_bytes()), Ghost(Seq::empty()));
    assert(Seq::empty().push(a@) =~= seq![a@]);
    let ghost first = seq![a@];
    add_part(&mut h, b, Ghost(domain.spec_bytes()), Ghost(first));
    assert(seq![a@].push(b@) =~= seq![a@, b@]);
    let ghost two = seq![a@, b@];
    add_part(&mut h, c, Ghost(domain.spec_bytes()), Ghost(two));
    assert(seq![a@, b@].push(c@) =~= seq![a@, b@, c@]);
    h.digest()
}

// ── The checksums ────────────────────────────────────────────────

/// The checksum of a write-ahead-log record, over its length, its type and
/// its payload.
pub open spec fn wal_record_checksum(len: u32, record_type: u8, data: Seq<u8>) -> u32 {
    parts32(WAL_RECORD_DOMAIN.spec_bytes(), seq![le32(len), seq![record_type], data])
}

/// The checksum of a write-ahead-log record.
pub fn wal_record(len: u32, record_type: u8, data: &[u8]) -> (r: u32)
    ensures
        r == wal_record_checksum(len, record_type, data@),
{
    let len_bytes = vstd::bytes::u32_to_le_bytes(len);
    let mut kind: Vec<u8> = Vec::new();
    kind.push(record_type);
    assert(kind@ =~= seq![record_type]);
    parts_of_three(WAL_RECORD_DOMAIN, len_bytes.as_slice(), kind.as_slice(), data) as u32
}

/// The two bytes of `x`, least significant first.
pub open spec fn le16(x: u16) -> Seq<u8> {
    vstd::bytes::spec_u16_to_le_bytes(x)
}

/// The checksum of the stamp that a write-ahead-log file starts with: the
/// magic, the format and the reserved field.
pub open spec fn stamp_checksum(magic: Seq<u8>, format: u16, reserved: u16) -> u32 {
    parts32(WAL_STAMP_DOMAIN.spec_bytes(), seq![magic, le16(format), le16(reserved)])
}

/// The checksum of the stamp that a write-ahead-log file starts with. It covers
/// the stamp only, so a stamp that survives says nothing about the records after
/// it.
pub fn wal_stamp(magic: &[u8; 4], format: u16, reserved: u16) -> (r: u32)
    ensures
        r == stamp_checksum(magic@, format, reserved),
{
    let format_bytes = vstd::bytes::u16_to_le_bytes(format);
    let reserved_bytes = vstd::bytes::u16_to_le_bytes(reserved);
    parts_of_three(
        WAL_STAMP_DOMAIN,
        magic.as_slice(),
        format_bytes.as_slice(),
        reserved_bytes.as_slice(),
    ) as u32
}

/// The checksum of a manifest record, over its length and its payload.
pub open spec fn manifest_record_checksum(len: u32, data: Seq<u8>) -> u32 {
    parts32(MANIFEST_RECORD_DOMAIN.spec_bytes(), seq![le32(len), data])
}

/// The checksum of a manifest record.
pub fn manifest_record(len: u32, data: &[u8]) -> (r: u32)
    ensures
        r == manifest_record_checksum(len, data@),
{
    let len_bytes = vstd::bytes::u32_to_le_bytes(len);
    parts_of_two(MANIFEST_RECORD_DOMAIN, len_bytes.as_slice(), data) as u32
}

/// The checksum of a table's data block, over its compression type and its
/// payload.
pub open spec fn block_checksum(compression_type: u8, payload: Seq<u8>) -> u32 {
    parts32(SST_BLOCK_DOMAIN.spec_bytes(), seq![seq![compression_type], payload])
}

/// The checksum of a table's data block.
pub fn sst_block(compression_type: u8, payload: &[u8]) -> (r: u32)
    ensures
        r == block_checksum(compression_type, payload@),
{
    let mut kind: Vec<u8> = Vec::new();
    kind.push(compression_type);
    assert(kind@ =~= seq![compression_type]);
    parts_of_two(SST_BLOCK_DOMAIN, kind.as_slice(), payload) as u32
}

/// The checksum of one table metadata region, over its tag and its payload.
pub open spec fn region_checksum(kind: u8, payload: Seq<u8>) -> u32 {
    parts32(SST_META_DOMAIN.spec_bytes(), seq![seq![kind], payload])
}

/// The checksum of one table metadata region: the index block, a partitioned
/// index leaf, the bloom region or the range-tombstone block. `kind` is one
/// of the `META_KIND_*` tags.
pub fn sst_meta(kind: u8, payload: &[u8]) -> (r: u32)
    ensures
        r == region_checksum(kind, payload@),
{
    let mut tag: Vec<u8> = Vec::new();
    tag.push(kind);
    assert(tag@ =~= seq![kind]);
    parts_of_two(SST_META_DOMAIN, tag.as_slice(), payload) as u32
}

/// The checksum of a table's footer: its fixed fields, and the magic that
/// says how to parse them.
pub open spec fn footer_checksum(fields: Seq<u8>, magic: u64) -> u64 {
    parts64(SST_META_DOMAIN.spec_bytes(), seq![seq![META_KIND_FOOTER], fields, le64(magic)])
}

/// The checksum of a table's footer.
pub fn sst_footer(fields: &[u8], magic: u64) -> (r: u64)
    ensures
        r == footer_checksum(fields@, magic),
{
    let mut tag: Vec<u8> = Vec::new();
    tag.push(META_KIND_FOOTER);
    assert(tag@ =~= seq![META_KIND_FOOTER]);
    let magic_bytes = vstd::bytes::u64_to_le_bytes(magic);
    parts_of_three(SST_META_DOMAIN, tag.as_slice(), fields, magic_bytes.as_slice())
}

/// The checksum of a slot header: the fixed-width fields followed by the
/// logical path they describe.
pub open spec fn slot_checksum(fixed: Seq<u8>, path: Seq<u8>) -> u32 {
    parts32(OPFS_SLOT_HEADER_DOMAIN.spec_bytes(), seq![fixed, path])
}

/// The checksum of a slot header.
pub fn opfs_slot_header(fixed: &[u8], path: &[u8]) -> (r: u32)
    ensures
        r == slot_checksum(fixed@, path@),
{
    parts_of_two(OPFS_SLOT_HEADER_DOMAIN, fixed, path) as u32
}

/// The checksum of a backup manifest's body.
pub open spec fn backup_manifest_checksum(body: Seq<u8>) -> u64 {
    parts64(BACKUP_MANIFEST_DOMAIN.spec_bytes(), seq![body])
}

/// The checksum of a backup manifest's body.
pub fn backup_manifest(body: &[u8]) -> (r: u64)
    ensures
        r == backup_manifest_checksum(body@),
{
    parts_of_one(BACKUP_MANIFEST_DOMAIN, body)
}

/// The checksum that records of the first formats carry: of the payload
/// alone, without a domain or a length.
pub fn legacy_payload_u64(payload: &[u8]) -> (r: u64)
    ensures
        r == xxh3_hash64(payload@),
{
    xxh3_64(payload)
}

/// The low half of [`legacy_payload_u64`].
pub fn legacy_payload_u32(payload: &[u8]) -> (r: u32)
    ensures
        r == xxh3_hash64(payload@) as u32,
{
    xxh3_64(payload) as u32
}

/// The content hash under which a backup stores a file with these contents.
pub open spec fn shared_file_hash(contents: Seq<u8>) -> u128 {
    xxh3_digest128(BACKUP_SHARED_FILE_DOMAIN.spec_bytes() + contents)
}

/// Hashes a file's contents as they are read, chunk by chunk.
pub struct SharedFileHasher {
    hasher: Xxh3Default,
    fed: Ghost<Seq<u8>>,
}

impl SharedFileHasher {
    /// The contents read so far.
    pub closed spec fn contents(&self) -> Seq<u8> {
        self.fed@
    }

    /// The hasher has been fed the domain and the contents.
    pub closed spec fn wf(&self) -> bool {
        hashed_bytes(self.hasher) == BACKUP_SHARED_FILE_DOMAIN.spec_bytes() + self.fed@
    }

    /// A hasher for a file of which nothing has been read yet.
    pub fn new() -> (r: Self)
        ensures
            r.wf(),
            r.contents() == Seq::<u8>::empty(),
    {
        let mut hasher = Xxh3Default::new();
        hasher.update(BACKUP_SHARED_FILE_DOMAIN.as_bytes());
        assert(hashed_bytes(hasher) =~= BACKUP_SHARED_FILE_DOMAIN.spec_bytes()
            + Seq::<u8>::empty());
        SharedFileHasher { hasher, fed: Ghost(Seq::empty()) }
    }

    /// Take the next chunk of the file.
    pub fn update(&mut self, chunk: &[u8])
        requires
            old(self).wf(),
        ensures
            final(self).wf(),
            final(self).contents() == old(self).contents() + chunk@,
    {
        self.hasher.update(chunk);
        self.fed = Ghost(self.fed@ + chunk@);
        assert(hashed_bytes(self.hasher) =~= BACKUP_SHARED_FILE_DOMAIN.spec_bytes() + self.fed@);
    }

    /// The content hash of what was read.
    pub fn finish(&self) -> (r: u128)
        requires
            self.wf(),
        ensures
            r == shared_file_hash(self.contents()),
    {
        self.hasher.digest128()
    }
}

/// The content hash of a file held in memory.
pub fn backup_shared_file(contents: &[u8]) -> (r: u128)
    ensures
        r == shared_file_hash(contents@),
{
    let mut hasher = SharedFileHasher::new();
    hasher.update(contents);
    assert(Seq::<u8>::empty() + contents@ =~= contents@);
    hasher.finish()
}

// ── What a checksum covers ───────────────────────────────────────

proof fn lemma_framed_from_front(parts: Seq<Seq<u8>>)
    requires
        parts.len() > 0,
    ensures
        framed_parts(parts) == framed_part(parts[0]) + framed_parts(parts.skip(1)),
    decreases parts.len(),
{
    if parts.len() == 1 {
        assert(parts.drop_last() =~= Seq::<Seq<u8>>::empty());
        assert(parts.skip(1) =~= Seq::<Seq<u8>>::empty());
        assert(framed_parts(parts) =~= framed_part(parts[0]) + framed_parts(parts.skip(1)));
    } else {
        let d = parts.drop_last();
        lemma_framed_from_front(d);
        assert(parts.skip(1).drop_last() =~= d.skip(1));
        assert(parts.skip(1).last() == parts.last());
        assert(framed_parts(parts) =~= framed_part(parts[0]) + framed_parts(parts.skip(1)));
    }
}

/// What is hashed says what the parts are: two lists of as many parts are hashed
/// alike only if they are the same.
pub proof fn lemma_hashed_bytes_say_the_parts(a: Seq<Seq<u8>>, b: Seq<Seq<u8>>)
    requires
        a.len() == b.len(),
        forall|i: int| 0 <= i < a.len() ==> (#[trigger] a[i]).len() <= u64::MAX,
        forall|i: int| 0 <= i < b.len() ==> (#[trigger] b[i]).len() <= u64::MAX,
        framed_parts(a) == framed_parts(b),
    ensures
        a == b,
    decreases a.len(),
{
    if a.len() > 0 {
        lemma_framed_from_front(a);
        lemma_framed_from_front(b);
        let (x, y) = (a[0], b[0]);
        let (ta, tb) = (a.skip(1), b.skip(1));
        let (fa, fb) = (framed_parts(a), framed_parts(b));
        let (la, lb) = (le64(x.len() as u64), le64(y.len() as u64));
        lemma_le_round_trip();
        assert(la.len() == 8 && lb.len() == 8);
        assert(fa.take(8) =~= la);
        assert(fb.take(8) =~= lb);
        assert(x.len() == y.len());
        assert(fa.subrange(8, 8 + x.len() as int) =~= x);
        assert(fb.subrange(8, 8 + y.len() as int) =~= y);
        assert(fa.skip(8 + x.len() as int) =~= framed_parts(ta));
        assert(fb.skip(8 + y.len() as int) =~= framed_parts(tb));
        assert forall|i: int| 0 <= i < ta.len() implies (#[trigger] ta[i]).len() <= u64::MAX by {
            assert(ta[i] == a[i + 1]);
        }
        assert forall|i: int| 0 <= i < tb.len() implies (#[trigger] tb[i]).len() <= u64::MAX by {
            assert(tb[i] == b[i + 1]);
        }
        lemma_hashed_bytes_say_the_parts(ta, tb);
        assert(a =~= seq![x] + ta);
        assert(b =~= seq![y] + tb);
    } else {
        assert(a =~= b);
    }
}

/// What is hashed of two lists of parts.
proof fn lemma_parts_apart(domain: Seq<u8>, a: Seq<Seq<u8>>, b: Seq<Seq<u8>>)
    requires
        a.len() == b.len(),
        forall|i: int| 0 <= i < a.len() ==> (#[trigger] a[i]).len() <= u64::MAX,
        forall|i: int| 0 <= i < b.len() ==> (#[trigger] b[i]).len() <= u64::MAX,
    ensures
        domain + framed_parts(a) == domain + framed_parts(b) ==> a == b,
{
    let (p, q) = (domain + framed_parts(a), domain + framed_parts(b));
    if p == q {
        let n = domain.len() as int;
        assert(p.skip(n) =~= framed_parts(a));
        assert(q.skip(n) =~= framed_parts(b));
        lemma_hashed_bytes_say_the_parts(a, b);
    }
}

/// The checksum of a log record covers all of it, its length, its type and its
/// payload: what is hashed of two records is the same only if they are.
pub proof fn lemma_log_checksum_covers_the_record(
    len: u32,
    record_type: u8,
    data: Seq<u8>,
    other_len: u32,
    other_type: u8,
    other: Seq<u8>,
)
    requires
        data.len() <= u64::MAX,
        other.len() <= u64::MAX,
    ensures
        exists|p: Seq<u8>, q: Seq<u8>|
            #![trigger xxh3_digest64(p), xxh3_digest64(q)]
            {
                &&& wal_record_checksum(len, record_type, data) == xxh3_digest64(p) as u32
                &&& wal_record_checksum(other_len, other_type, other) == xxh3_digest64(q) as u32
                &&& p == q ==> len == other_len && record_type == other_type && data == other
            },
{
    lemma_le_round_trip();
    let a = seq![le32(len), seq![record_type], data];
    let b = seq![le32(other_len), seq![other_type], other];
    assert(a[0] == le32(len) && b[0] == le32(other_len));
    assert(a[1] == seq![record_type] && b[1] == seq![other_type]);
    assert(a[2] == data && b[2] == other);
    assert(seq![record_type][0] == record_type && seq![other_type][0] == other_type);
    let domain = WAL_RECORD_DOMAIN.spec_bytes();
    lemma_parts_apart(domain, a, b);
    let (p, q) = (domain + framed_parts(a), domain + framed_parts(b));
    assert(wal_record_checksum(len, record_type, data) == xxh3_digest64(p) as u32);
    assert(wal_record_checksum(other_len, other_type, other) == xxh3_digest64(q) as u32);
}

/// The checksum of a manifest record covers its length and its payload.
pub proof fn lemma_manifest_checksum_covers_the_record(
    len: u32,
    data: Seq<u8>,
    other_len: u32,
    other: Seq<u8>,
)
    requires
        data.len() <= u64::MAX,
        other.len() <= u64::MAX,
    ensures
        exists|p: Seq<u8>, q: Seq<u8>|
            #![trigger xxh3_digest64(p), xxh3_digest64(q)]
            {
                &&& manifest_record_checksum(len, data) == xxh3_digest64(p) as u32
                &&& manifest_record_checksum(other_len, other) == xxh3_digest64(q) as u32
                &&& p == q ==> len == other_len && data == other
            },
{
    lemma_le_round_trip();
    let a = seq![le32(len), data];
    let b = seq![le32(other_len), other];
    assert(a[0] == le32(len) && b[0] == le32(other_len));
    assert(a[1] == data && b[1] == other);
    let domain = MANIFEST_RECORD_DOMAIN.spec_bytes();
    lemma_parts_apart(domain, a, b);
    let (p, q) = (domain + framed_parts(a), domain + framed_parts(b));
    assert(manifest_record_checksum(len, data) == xxh3_digest64(p) as u32);
    assert(manifest_record_checksum(other_len, other) == xxh3_digest64(q) as u32);
}

/// The checksum of a backup manifest covers its body.
pub proof fn lemma_backup_checksum_covers_the_body(data: Seq<u8>, other: Seq<u8>)
    requires
        data.len() <= u64::MAX,
        other.len() <= u64::MAX,
    ensures
        exists|p: Seq<u8>, q: Seq<u8>|
            #![trigger xxh3_digest64(p), xxh3_digest64(q)]
            {
                &&& backup_manifest_checksum(data) == xxh3_digest64(p)
                &&& backup_manifest_checksum(other) == xxh3_digest64(q)
                &&& p == q ==> data == other
            },
{
    let (a, b) = (seq![data], seq![other]);
    assert(a[0] == data && b[0] == other);
    let domain = BACKUP_MANIFEST_DOMAIN.spec_bytes();
    lemma_parts_apart(domain, a, b);
    let (p, q) = (domain + framed_parts(a), domain + framed_parts(b));
    assert(backup_manifest_checksum(data) == xxh3_digest64(p));
    assert(backup_manifest_checksum(other) == xxh3_digest64(q));
}

/// The checksums of data blocks and of metadata regions cover the tag and the
/// payload, and that of a slot header the fields and the path.
pub proof fn lemma_tagged_checksums_cover_everything(
    tag: u8,
    data: Seq<u8>,
    other_tag: u8,
    other: Seq<u8>,
    path: Seq<u8>,
    other_path: Seq<u8>,
)
    requires
        data.len() <= u64::MAX,
        other.len() <= u64::MAX,
        path.len() <= u64::MAX,
        other_path.len() <= u64::MAX,
    ensures
        exists|p: Seq<u8>, q: Seq<u8>|
            #![trigger xxh3_digest64(p), xxh3_digest64(q)]
            {
                &&& block_checksum(tag, data) == xxh3_digest64(p) as u32
                &&& block_checksum(other_tag, other) == xxh3_digest64(q) as u32
                &&& p == q ==> tag == other_tag && data == other
            },
        exists|p: Seq<u8>, q: Seq<u8>|
            #![trigger xxh3_digest64(p), xxh3_digest64(q)]
            {
                &&& region_checksum(tag, data) == xxh3_digest64(p) as u32
                &&& region_checksum(other_tag, other) == xxh3_digest64(q) as u32
                &&& p == q ==> tag == other_tag && data == other
            },
        exists|p: Seq<u8>, q: Seq<u8>|
            #![trigger xxh3_digest64(p), xxh3_digest64(q)]
            {
                &&& slot_checksum(data, path) == xxh3_digest64(p) as u32
                &&& slot_checksum(other, other_path) == xxh3_digest64(q) as u32
                &&& p == q ==> data == other && path == other_path
            },
{
    let (a, b) = (seq![seq![tag], data], seq![seq![other_tag], other]);
    assert(a[0] == seq![tag] && b[0] == seq![other_tag] && a[1] == data && b[1] == other);
    assert(seq![tag][0] == tag && seq![other_tag][0] == other_tag);
    let blocks = SST_BLOCK_DOMAIN.spec_bytes();
    lemma_parts_apart(blocks, a, b);
    assert(block_checksum(tag, data) == xxh3_digest64(blocks + framed_parts(a)) as u32);
    assert(block_checksum(other_tag, other) == xxh3_digest64(blocks + framed_parts(b)) as u32);
    let regions = SST_META_DOMAIN.spec_bytes();
    lemma_parts_apart(regions, a, b);
    assert(region_checksum(tag, data) == xxh3_digest64(regions + framed_parts(a)) as u32);
    assert(region_checksum(other_tag, other) == xxh3_digest64(regions + framed_parts(b)) as u32);
    let (c, d) = (seq![data, path], seq![other, other_path]);
    assert(c[0] == data && d[0] == other && c[1] == path && d[1] == other_path);
    let slots = OPFS_SLOT_HEADER_DOMAIN.spec_bytes();
    lemma_parts_apart(slots, c, d);
    assert(slot_checksum(data, path) == xxh3_digest64(slots + framed_parts(c)) as u32);
    assert(slot_checksum(other, other_path) == xxh3_digest64(slots + framed_parts(d)) as u32);
}

/// The checksum of a footer covers its fields and its magic, and that of a log's
/// stamp its magic, its format and the reserved field.
pub proof fn lemma_header_checksums_cover_everything(
    fields: Seq<u8>,
    magic: u64,
    other_fields: Seq<u8>,
    other_magic: u64,
    format: u16,
    reserved: u16,
    other_format: u16,
    other_reserved: u16,
)
    requires
        fields.len() <= u64::MAX,
        other_fields.len() <= u64::MAX,
    ensures
        exists|p: Seq<u8>, q: Seq<u8>|
            #![trigger xxh3_digest64(p), xxh3_digest64(q)]
            {
                &&& footer_checksum(fields, magic) == xxh3_digest64(p)
                &&& footer_checksum(other_fields, other_magic) == xxh3_digest64(q)
                &&& p == q ==> fields == other_fields && magic == other_magic
            },
        exists|p: Seq<u8>, q: Seq<u8>|
            #![trigger xxh3_digest64(p), xxh3_digest64(q)]
            {
                &&& stamp_checksum(fields, format, reserved) == xxh3_digest64(p) as u32
                &&& stamp_checksum(other_fields, other_format, other_reserved) == xxh3_digest64(
                    q,
                ) as u32
                &&& p == q ==> fields == other_fields && format == other_format && reserved
                    == other_reserved
            },
{
    lemma_le_round_trip();
    vstd::bytes::lemma_auto_spec_u16_to_from_le_bytes();
    let tag = seq![META_KIND_FOOTER];
    let a = seq![tag, fields, le64(magic)];
    let b = seq![tag, other_fields, le64(other_magic)];
    assert(a[1] == fields && b[1] == other_fields);
    assert(a[2] == le64(magic) && b[2] == le64(other_magic));
    assert(a[0] == tag && b[0] == tag);
    let footers = SST_META_DOMAIN.spec_bytes();
    lemma_parts_apart(footers, a, b);
    assert(footer_checksum(fields, magic) == xxh3_digest64(footers + framed_parts(a)));
    assert(footer_checksum(other_fields, other_magic) == xxh3_digest64(footers + framed_parts(b)));
    let c = seq![fields, le16(format), le16(reserved)];
    let d = seq![other_fields, le16(other_format), le16(other_reserved)];
    assert(c[0] == fields && d[0] == other_fields);
    assert(c[1] == le16(format) && d[1] == le16(other_format));
    assert(c[2] == le16(reserved) && d[2] == le16(other_reserved));
    assert forall|x: u16| (#[trigger] le16(x)).len() == 2
        && vstd::bytes::spec_u16_from_le_bytes(le16(x)) == x by {
        assert(vstd::bytes::spec_u16_to_le_bytes(x).len() == 2);
    }
    let stamps = WAL_STAMP_DOMAIN.spec_bytes();
    lemma_parts_apart(stamps, c, d);
    assert(stamp_checksum(fields, format, reserved) == xxh3_digest64(
        stamps + framed_parts(c),
    ) as u32);
    assert(stamp_checksum(other_fields, other_format, other_reserved) == xxh3_digest64(
        stamps + framed_parts(d),
    ) as u32);
}

/// Files are stored under one name only if what is hashed of them, all of their
/// contents, is the same.
pub proof fn lemma_shared_hash_covers_the_contents(contents: Seq<u8>, other: Seq<u8>)
    ensures
        exists|p: Seq<u8>, q: Seq<u8>|
            #![trigger xxh3_digest128(p), xxh3_digest128(q)]
            {
                &&& shared_file_hash(contents) == xxh3_digest128(p)
                &&& shared_file_hash(other) == xxh3_digest128(q)
                &&& p == q ==> contents == other
            },
{
    let domain = BACKUP_SHARED_FILE_DOMAIN.spec_bytes();
    let (p, q) = (domain + contents, domain + other);
    let n = domain.len() as int;
    assert(p.skip(n) =~= contents);
    assert(q.skip(n) =~= other);
    assert(shared_file_hash(contents) == xxh3_digest128(p));
    assert(shared_file_hash(other) == xxh3_digest128(q));
}

} // verus!
