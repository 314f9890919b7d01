//! Table data blocks: prefix-compressed key-value entries with restart points.
//!
//! Block format:
//! ```text
//! [entry_0][entry_1]...[entry_n][restart_0]...[restart_m][num_restarts: u32]
//! ```
//!
//! The entries are those of [`super::block_entry`]. Every so many entries the
//! key is written whole and the entry's offset is recorded as a restart point,
//! which is what a seek searches first.

use super::block_entry::check_entry;
use super::block_entry::decode_block_entry;
use super::block_entry::decode_entry_at;
use super::block_entry::encode_entry;
use super::block_entry::encoded_entry;
use super::block_entry::entry_key;
use super::block_entry::entry_ok;
use super::block_entry::entry_shared;
use super::block_entry::entry_size;
use super::block_entry::entry_value;
use super::block_entry::last_key_of;
use super::block_entry::lemma_encoded_entry;
use super::block_entry::lemma_parse_append;
use super::block_entry::lemma_parse_fresh;
use super::block_entry::lemma_parse_step;
use super::block_entry::parse;
use super::block_entry::Pair;
use super::internal_key::ik_lt;
use super::internal_key::internal_key_lt;
use super::internal_key::is_internal;
use super::varint::lemma_varint_of_u64;
use crate::bytes::common_prefix_len;
use crate::bytes::copy_bytes;
use crate::bytes::from_le32;
use crate::bytes::get_le32;
use crate::bytes::le32;
use crate::bytes::lemma_common_prefix_len;
use crate::bytes::lemma_le_round_trip;
use crate::bytes::put_le32;
use crate::bytes::shared_prefix;
use crate::error::Error;
use crate::error::ErrorKind;
use vstd::prelude::*;
use vstd::slice::slice_subrange;

verus! {

/// Entries per restart point. Smaller is faster to search, larger compresses
/// better.
pub const RESTART_INTERVAL: usize = 16;

/// Offset and size of a block within a table file.
#[derive(Debug, Clone, Copy)]
pub struct BlockHandle {
    pub offset: u64,
    pub size: u64,
}

// ── The restart array ────────────────────────────────────────────

/// The bytes of the restart array.
pub open spec fn restart_bytes(restarts: Seq<u32>) -> Seq<u8>
    decreases restarts.len(),
{
    if restarts.len() == 0 {
        Seq::empty()
    } else {
        restart_bytes(restarts.drop_last()) + le32(restarts.last())
    }
}

/// The bytes of a block.
pub open spec fn block_bytes(region: Seq<u8>, restarts: Seq<u32>) -> Seq<u8> {
    region + restart_bytes(restarts) + le32(restarts.len() as u32)
}

/// How many restart points the last four bytes announce.
pub open spec fn announced_restarts(data: Seq<u8>) -> nat {
    from_le32(data.subrange(data.len() - 4, data.len() as int)) as nat
}

/// The restart array has four bytes for each restart point, in order.
proof fn lemma_restart_bytes(restarts: Seq<u32>)
    ensures
        restart_bytes(restarts).len() == 4 * restarts.len(),
        forall|i: int|
            0 <= i < restarts.len() ==> #[trigger] restarts[i] == from_le32(
                restart_bytes(restarts).subrange(4 * i, 4 * i + 4),
            ),
    decreases restarts.len(),
{
    lemma_le_round_trip();
    if restarts.len() > 0 {
        let p = restarts.drop_last();
        lemma_restart_bytes(p);
        let b = restart_bytes(restarts);
        assert forall|i: int| 0 <= i < restarts.len() implies #[trigger] restarts[i] == from_le32(
            b.subrange(4 * i, 4 * i + 4),
        ) by {
            if i < p.len() {
                assert(b.subrange(4 * i, 4 * i + 4) =~= restart_bytes(p).subrange(
                    4 * i,
                    4 * i + 4,
                ));
                assert(p[i] == restarts[i]);
            } else {
                assert(b.subrange(4 * i, 4 * i + 4) =~= le32(restarts.last()));
            }
        }
    }
}

/// Each restart point `j` is where entry `at[j]` of `es` starts, with its key
/// written whole; the restart points are in the order of the entries.
pub open spec fn restarts_at(region: Seq<u8>, restarts: Seq<u32>, es: Seq<Pair>, at: Seq<nat>) -> bool {
    &&& at.len() == restarts.len()
    &&& forall|j: int|
        0 <= j < restarts.len() ==> (#[trigger] restarts[j]) <= region.len() && at[j] <= es.len()
            && parse(region.skip(restarts[j] as int), Seq::empty()) == Some(es.skip(at[j] as int))
    &&& forall|i: int, j: int|
        0 <= i <= j < restarts.len() ==> (#[trigger] at[i]) <= (#[trigger] at[j])
}

/// The restart points are where entries start.
pub open spec fn restarts_ok(region: Seq<u8>, restarts: Seq<u32>, es: Seq<Pair>) -> bool {
    exists|at: Seq<nat>| restarts_at(region, restarts, es, at)
}

// ── Valid data blocks ────────────────────────────────────────────

/// The entry region that the trailing count leaves.
pub open spec fn announced_region(data: Seq<u8>) -> Seq<u8> {
    data.take(data.len() - 4 - 4 * announced_restarts(data))
}

/// The restart array that the trailing count announces.
pub open spec fn announced_restart_array(data: Seq<u8>) -> Seq<u32> {
    Seq::new(
        announced_restarts(data),
        |i: int|
            from_le32(
                data.subrange(
                    announced_region(data).len() + 4 * i,
                    announced_region(data).len() + 4 * i + 4,
                ),
            ),
    )
}

/// An entry of the run `s` after `prev` starts at `off`, or the run ends there.
pub open spec fn boundary(s: Seq<u8>, prev: Seq<u8>, off: int) -> bool
    decreases s.len(),
{
    if off <= 0 {
        off == 0
    } else if s.len() == 0 || !entry_ok(s, prev.len()) || entry_size(s) == 0 || off < entry_size(
        s,
    ) {
        false
    } else {
        boundary(s.skip(entry_size(s) as int), entry_key(s, prev), off - entry_size(s))
    }
}

/// The entry at `off`, if there is one, has its key written whole.
pub open spec fn fresh_at(region: Seq<u8>, off: int) -> bool {
    off < region.len() ==> entry_shared(region.skip(off)) == 0
}

/// The restart points are in order, and each is where an entry with a whole
/// key starts, or the end.
pub open spec fn well_placed(region: Seq<u8>, restarts: Seq<u32>) -> bool {
    &&& forall|i: int, j: int|
        0 <= i <= j < restarts.len() ==> (#[trigger] restarts[i]) <= (#[trigger] restarts[j])
    &&& forall|i: int|
        0 <= i < restarts.len() ==> boundary(
            region,
            Seq::empty(),
            #[trigger] restarts[i] as int,
        ) && fresh_at(region, restarts[i] as int)
}

/// `region` is a run of whole entries with internal keys.
pub open spec fn internal_run(region: Seq<u8>) -> bool {
    &&& parse(region, Seq::empty()) is Some
    &&& forall|i: int|
        0 <= i < parse(region, Seq::empty())->0.len() ==> is_internal(
            (#[trigger] parse(region, Seq::empty())->0[i]).0,
        )
}

/// `data` is a data block of a table.
pub open spec fn data_block_ok(data: Seq<u8>) -> bool {
    &&& data.len() >= 4
    &&& 4 + 4 * announced_restarts(data) <= data.len()
    &&& internal_run(announced_region(data))
    &&& well_placed(announced_region(data), announced_restart_array(data))
}

/// How many entries of the run `s` after `prev` start before `off`.
pub open spec fn entries_before(s: Seq<u8>, prev: Seq<u8>, off: int) -> nat
    decreases s.len(),
{
    if off <= 0 || s.len() == 0 || !entry_ok(s, prev.len()) || entry_size(s) == 0 {
        0
    } else {
        1 + entries_before(s.skip(entry_size(s) as int), entry_key(s, prev), off - entry_size(s))
    }
}

pub proof fn lemma_boundary_within(s: Seq<u8>, prev: Seq<u8>, off: int)
    requires
        boundary(s, prev, off),
    ensures
        0 <= off <= s.len(),
    decreases s.len(),
{
    if off > 0 {
        lemma_boundary_within(
            s.skip(entry_size(s) as int),
            entry_key(s, prev),
            off - entry_size(s),
        );
    }
}

/// At a boundary the rest of the run is the rest of the entries.
pub proof fn lemma_boundary_suffix(s: Seq<u8>, prev: Seq<u8>, off: int)
    requires
        parse(s, prev) is Some,
        boundary(s, prev, off),
        fresh_at(s, off),
    ensures
        0 <= off <= s.len(),
        entries_before(s, prev, off) <= parse(s, prev)->0.len(),
        parse(s.skip(off), Seq::empty()) == Some(
            parse(s, prev)->0.skip(entries_before(s, prev, off) as int),
        ) || off == 0,
        off == 0 ==> entries_before(s, prev, off) == 0,
    decreases s.len(),
{
    let es = parse(s, prev)->0;
    if off > 0 {
        lemma_parse_step(s, prev);
        let k = entry_key(s, prev);
        let n = entry_size(s) as int;
        let t = s.skip(n);
        lemma_boundary_within(t, k, off - n);
        assert(t.skip(off - n) =~= s.skip(off));
        lemma_boundary_suffix(t, k, off - n);
        let m = entries_before(t, k, off - n) as int;
        assert(es.skip(1).skip(m) =~= es.skip(m + 1));
        if off == n {
            lemma_parse_fresh(t, k, Seq::empty());
            assert(t.skip(0) =~= t);
            assert(es.skip(1).skip(0) =~= es.skip(1));
        }
    }
}

proof fn lemma_entries_before_monotone(s: Seq<u8>, prev: Seq<u8>, a: int, b: int)
    requires
        a <= b,
    ensures
        entries_before(s, prev, a) <= entries_before(s, prev, b),
    decreases s.len(),
{
    if !(a <= 0 || s.len() == 0 || !entry_ok(s, prev.len()) || entry_size(s) == 0) {
        lemma_entries_before_monotone(
            s.skip(entry_size(s) as int),
            entry_key(s, prev),
            a - entry_size(s),
            b - entry_size(s),
        );
    }
}

/// Well-placed restart points are where entries start.
proof fn lemma_well_placed(region: Seq<u8>, restarts: Seq<u32>)
    requires
        parse(region, Seq::empty()) is Some,
        well_placed(region, restarts),
    ensures
        restarts_ok(region, restarts, parse(region, Seq::empty())->0),
{
    let es = parse(region, Seq::empty())->0;
    let at = Seq::new(
        restarts.len(),
        |j: int| entries_before(region, Seq::empty(), restarts[j] as int),
    );
    assert forall|j: int| 0 <= j < restarts.len() implies (#[trigger] restarts[j]) <= region.len()
        && at[j] <= es.len() && parse(region.skip(restarts[j] as int), Seq::empty()) == Some(
        es.skip(at[j] as int),
    ) by {
        lemma_boundary_suffix(region, Seq::empty(), restarts[j] as int);
        if restarts[j] == 0 {
            assert(region.skip(0) =~= region);
            assert(es.skip(0) =~= es);
        }
    }
    assert forall|i: int, j: int| 0 <= i <= j < restarts.len() implies (#[trigger] at[i]) <= (
    #[trigger] at[j]) by {
        assert(restarts[i] <= restarts[j]);
        lemma_entries_before_monotone(
            region,
            Seq::empty(),
            restarts[i] as int,
            restarts[j] as int,
        );
    }
    assert(restarts_at(region, restarts, es, at));
}

/// The run has been walked to `pos`, where the key before is `key`.
pub open spec fn walked(region: Seq<u8>, pos: int, key: Seq<u8>) -> bool {
    &&& 0 <= pos <= region.len()
    &&& parse(region.skip(pos), key) is Some
    &&& forall|off: int|
        off >= pos ==> #[trigger] boundary(region, Seq::empty(), off) == boundary(
            region.skip(pos),
            key,
            off - pos,
        )
}

/// One more well-placed restart point.
proof fn lemma_well_placed_step(region: Seq<u8>, restarts: Seq<u32>, j: int)
    requires
        0 <= j < restarts.len(),
        well_placed(region, restarts.take(j)),
        j > 0 ==> restarts[j - 1] <= restarts[j],
        boundary(region, Seq::empty(), restarts[j] as int),
        fresh_at(region, restarts[j] as int),
    ensures
        well_placed(region, restarts.take(j + 1)),
        well_placed(region, restarts) && j + 1 < restarts.len() ==> restarts[j] <= restarts[j + 1],
{
    let p = restarts.take(j);
    let q = restarts.take(j + 1);
    assert forall|a: int, b: int| 0 <= a <= b < q.len() implies (#[trigger] q[a]) <= (
    #[trigger] q[b]) by {
        if b < j {
            assert(p[a] <= p[b]);
        } else if a < j {
            assert(p[a] <= p[j - 1]);
        }
    }
    assert forall|i: int| 0 <= i < q.len() implies boundary(
        region,
        Seq::empty(),
        #[trigger] q[i] as int,
    ) && fresh_at(region, q[i] as int) by {
        if i < j {
            assert(p[i] == q[i]);
        }
    }
}

/// Walk on to `target`; false where no entry starts there.
fn walk_to(data: &[u8], pos: &mut usize, key: &mut Vec<u8>, target: usize) -> (r: bool)
    requires
        walked(data@, *old(pos) as int, old(key)@),
        *old(pos) <= target,
    ensures
        r == boundary(data@, Seq::empty(), target as int),
        r ==> *final(pos) == target && walked(data@, target as int, final(key)@),
{
    let len: usize = data.len();
    if target > len {
        proof {
            if boundary(data@, Seq::empty(), target as int) {
                lemma_boundary_within(data@, Seq::empty(), target as int);
            }
        }
        return false;
    }
    while *pos < target
        invariant
            len == data@.len(),
            *pos <= target <= len,
            walked(data@, *pos as int, key@),
        decreases target - *pos,
    {
        let ghost s = data@.skip(*pos as int);
        let ghost prev = key@;
        let ghost p0 = *pos as int;
        proof {
            lemma_parse_step(s, prev);
        }
        let (size, _, _) = decode_entry_at(data, *pos, key);
        proof {
            assert(boundary(data@, Seq::empty(), target as int) == boundary(s, prev, target - p0));
        }
        if size > target - *pos {
            return false;
        }
        *pos = *pos + size;
        proof {
            assert(s.skip(size as int) =~= data@.skip(*pos as int));
            assert forall|off: int| off >= *pos implies #[trigger] boundary(
                data@,
                Seq::empty(),
                off,
            ) == boundary(data@.skip(*pos as int), key@, off - *pos) by {
                assert(boundary(data@, Seq::empty(), off) == boundary(s, prev, off - p0));
                assert(off - p0 - size == off - *pos);
            }
        }
    }
    proof {
        assert(boundary(data@, Seq::empty(), target as int) == boundary(
            data@.skip(target as int),
            key@,
            0,
        ));
    }
    true
}

/// Whether the entry at `pos`, if there is one, has its key written whole.
fn whole_key_at(data: &[u8], pos: usize, key: &Vec<u8>) -> (r: bool)
    requires
        walked(data@, pos as int, key@),
    ensures
        r == fresh_at(data@, pos as int),
{
    let len: usize = data.len();
    if pos >= len {
        return true;
    }
    proof {
        lemma_parse_step(data@.skip(pos as int), key@);
    }
    let d = slice_subrange(data, pos, len);
    assert(d@ =~= data@.skip(pos as int));
    let (shared, _) = super::varint::decode_varint(d);
    shared == 0
}

/// The entries whose keys come before `target` stand in front of the others.
pub open spec fn partitioned(es: Seq<Pair>, target: Seq<u8>) -> bool {
    forall|i: int, j: int|
        0 <= i <= j < es.len() && ik_lt((#[trigger] es[j]).0, target) ==> ik_lt(
            (#[trigger] es[i]).0,
            target,
        )
}

/// The first entry of `es` whose key does not come before `target`.
pub open spec fn first_ge(es: Seq<Pair>, target: Seq<u8>) -> Option<Pair>
    decreases es.len(),
{
    if es.len() == 0 {
        None
    } else if !ik_lt(es[0].0, target) {
        Some(es[0])
    } else {
        first_ge(es.skip(1), target)
    }
}

/// The keys of `es` are internal keys in strictly ascending order.
pub open spec fn sorted_entries(es: Seq<Pair>) -> bool {
    &&& forall|i: int| 0 <= i < es.len() ==> is_internal((#[trigger] es[i]).0)
    &&& forall|i: int, j: int|
        0 <= i < j < es.len() ==> ik_lt((#[trigger] es[i]).0, (#[trigger] es[j]).0)
}

/// Entries before the target can be skipped.
proof fn lemma_first_ge_skip(es: Seq<Pair>, target: Seq<u8>, n: int)
    requires
        0 <= n <= es.len(),
        forall|i: int| 0 <= i < n ==> ik_lt((#[trigger] es[i]).0, target),
    ensures
        first_ge(es, target) == first_ge(es.skip(n), target),
    decreases n,
{
    if n == 0 {
        assert(es.skip(0) =~= es);
    } else {
        assert(ik_lt(es[0].0, target));
        assert forall|i: int| 0 <= i < n - 1 implies ik_lt((#[trigger] es.skip(1)[i]).0, target) by {
            assert(es.skip(1)[i] == es[i + 1]);
        }
        lemma_first_ge_skip(es.skip(1), target, n - 1);
        assert(es.skip(1).skip(n - 1) =~= es.skip(n));
    }
}

// ── Blocks ───────────────────────────────────────────────────────

/// A decoded data block.
pub struct Block {
    data: Vec<u8>,
    restarts: Vec<u32>,
}

/// `Vec::capacity`: no less than the length. What else it is, the allocator
/// decides.
#[verifier::external_body]
pub(crate) fn vec_capacity<T>(v: &Vec<T>) -> (r: usize)
    ensures
        r >= v@.len(),
{
    v.capacity()
}

impl Block {
    /// The bytes of the block.
    pub closed spec fn bytes(&self) -> Seq<u8> {
        self.data@
    }

    /// The restart points.
    pub closed spec fn restarts(&self) -> Seq<u32> {
        self.restarts@
    }

    /// The bytes of the entries.
    pub open spec fn region(&self) -> Seq<u8> {
        self.bytes().take(self.bytes().len() - 4 - 4 * self.restarts().len())
    }

    /// The restart array fits in the block.
    pub open spec fn framed(&self) -> bool {
        self.bytes().len() >= 4 + 4 * self.restarts().len()
    }

    /// The entries of the block.
    pub open spec fn entries(&self) -> Seq<Pair> {
        parse(self.region(), Seq::empty())->0
    }

    /// The block is a run of whole entries, and its restart points are where
    /// entries start.
    pub open spec fn wf(&self) -> bool {
        &&& self.framed()
        &&& parse(self.region(), Seq::empty()) is Some
        &&& restarts_ok(self.region(), self.restarts(), self.entries())
    }

    /// Take a block apart. A block too small for its trailing count is
    /// invalid. The entries are not looked at: see
    /// [`Block::decode_data_block`].
    pub fn decode(data: Vec<u8>) -> (r: Result<Self, Error>)
        requires
            data@.len() >= 4 ==> 4 + 4 * announced_restarts(data@) <= data@.len(),
        ensures
            r is Ok <==> data@.len() >= 4,
            r matches Err(e) ==> e.kind == ErrorKind::InvalidData,
            r matches Ok(b) ==> {
                &&& b.framed()
                &&& b.bytes() == data@
                &&& b.region() == announced_region(data@)
                &&& b.restarts() == announced_restart_array(data@)
            },
    {
        if data.len() < 4 {
            return Err(Error::invalid_data("block too small"));
        }
        let len: usize = data.len();
        let num_restarts: usize = get_le32(data.as_slice(), len - 4) as usize;
        let restarts_offset: usize = len - 4 - num_restarts * 4;
        let mut restarts: Vec<u32> = Vec::new();
        let mut i: usize = 0;
        while i < num_restarts
            invariant
                len == data@.len(),
                restarts_offset + 4 * num_restarts + 4 == len,
                i <= num_restarts,
                restarts@.len() == i,
                forall|j: int|
                    0 <= j < i ==> #[trigger] restarts@[j] == from_le32(
                        data@.subrange(restarts_offset + 4 * j, restarts_offset + 4 * j + 4),
                    ),
            decreases num_restarts - i,
        {
            restarts.push(get_le32(data.as_slice(), restarts_offset + i * 4));
            i += 1;
        }
        let block = Block { data, restarts };
        assert(block.restarts() =~= announced_restart_array(data@));
        assert(block.region() =~= announced_region(data@));
        Ok(block)
    }

    /// Take apart a data block of a table: a run of whole entries with
    /// internal keys, whose restart points are where entries with whole keys
    /// start. Anything else is invalid.
    pub fn decode_data_block(data: Vec<u8>) -> (r: Result<Self, Error>)
        ensures
            r is Ok <==> data_block_ok(data@),
            r matches Err(e) ==> e.kind == ErrorKind::InvalidData,
            r matches Ok(b) ==> {
                &&& b.wf()
                &&& b.bytes() == data@
                &&& b.region() == announced_region(data@)
                &&& forall|i: int|
                    0 <= i < b.entries().len() ==> is_internal((#[trigger] b.entries()[i]).0)
            },
    {
        if data.len() < 4 {
            return Err(Error::invalid_data("block too small"));
        }
        let len: usize = data.len();
        let num_restarts: usize = get_le32(data.as_slice(), len - 4) as usize;
        if num_restarts > (len - 4) / 4 {
            return Err(Error::invalid_data("restart array larger than its block"));
        }
        let block = match Block::decode(data) {
            Ok(b) => b,
            Err(e) => return Err(e),
        };
        if block.check_keys() && block.check_restarts() {
            Ok(block)
        } else {
            Err(Error::invalid_data("malformed data block"))
        }
    }

    /// Whether the block is a run of whole entries with internal keys.
    fn check_keys(&self) -> (r: bool)
        requires
            self.framed(),
        ensures
            r == internal_run(self.region()),
            r ==> forall|i: int|
                0 <= i < self.entries().len() ==> is_internal((#[trigger] self.entries()[i]).0),
    {
        let data = self.entry_data();
        let len: usize = data.len();
        let mut pos: usize = 0;
        let mut key: Vec<u8> = Vec::new();
        let ghost region = self.region();
        let ghost mut seen: Seq<Pair> = Seq::empty();
        assert(key@ =~= Seq::<u8>::empty());
        assert(region.skip(0) =~= region);
        while pos < len
            invariant
                data@ == region,
                region == self.region(),
                len == data@.len(),
                pos <= len,
                (parse(region, Seq::empty()) is Some) == (parse(region.skip(pos as int), key@)
                    is Some),
                parse(region, Seq::empty()) is Some ==> parse(region, Seq::empty())->0 == seen
                    + parse(region.skip(pos as int), key@)->0,
                forall|i: int| 0 <= i < seen.len() ==> is_internal((#[trigger] seen[i]).0),
            decreases len - pos,
        {
            let ghost s = region.skip(pos as int);
            match check_entry(data, pos, key.len()) {
                None => {
                    return false;
                },
                Some(size) => {
                    let ghost prev = key@;
                    let _ = decode_entry_at(data, pos, &mut key);
                    assert(s.skip(size as int) =~= region.skip(pos + size));
                    pos = pos + size;
                    if key.len() < 9 {
                        proof {
                            if parse(region, Seq::empty()) is Some {
                                lemma_parse_step(s, prev);
                                let es = parse(region, Seq::empty())->0;
                                assert(es[seen.len() as int] == parse(s, prev)->0[0]);
                                assert(!is_internal(es[seen.len() as int].0));
                            }
                        }
                        return false;
                    }
                    proof {
                        let seen1 = seen.push((key@, entry_value(s)));
                        if parse(s, prev) is Some {
                            lemma_parse_step(s, prev);
                            assert(seen + parse(s, prev)->0 =~= seen1 + parse(
                                region.skip(pos as int),
                                key@,
                            )->0);
                        }
                        assert forall|i: int| 0 <= i < seen1.len() implies is_internal(
                            (#[trigger] seen1[i]).0,
                        ) by {
                            if i < seen.len() {
                                assert(seen1[i] == seen[i]);
                            }
                        }
                        seen = seen1;
                    }
                },
            }
        }
        proof {
            assert(region.skip(pos as int).len() == 0);
            assert(seen + Seq::<Pair>::empty() =~= seen);
        }
        true
    }

    /// Whether the restart points are in order and each is where an entry
    /// with a whole key starts.
    fn check_restarts(&self) -> (r: bool)
        requires
            self.framed(),
            parse(self.region(), Seq::empty()) is Some,
        ensures
            r == well_placed(self.region(), self.restarts()),
            r ==> restarts_ok(self.region(), self.restarts(), self.entries()),
    {
        let data = self.entry_data();
        let ghost region = self.region();
        let mut pos: usize = 0;
        let mut key: Vec<u8> = Vec::new();
        let mut j: usize = 0;
        assert(key@ =~= Seq::<u8>::empty());
        assert(region.skip(0) =~= region);
        assert(walked(region, 0, key@));
        while j < self.restarts.len()
            invariant
                data@ == region,
                region == self.region(),
                pos <= data@.len(),
                j <= self.restarts@.len(),
                walked(region, pos as int, key@),
                j > 0 ==> pos == self.restarts@[j - 1],
                j == 0 ==> pos == 0,
                well_placed(region, self.restarts@.take(j as int)),
                well_placed(region, self.restarts@) ==> (j < self.restarts@.len() ==> pos
                    <= self.restarts@[j as int]),
            decreases self.restarts@.len() - j,
        {
            let target: usize = self.restarts[j] as usize;
            if target < pos {
                return false;
            }
            if !walk_to(data, &mut pos, &mut key, target) {
                return false;
            }
            if !whole_key_at(data, pos, &key) {
                return false;
            }
            proof {
                lemma_well_placed_step(region, self.restarts@, j as int);
            }
            j += 1;
        }
        proof {
            assert(self.restarts@.take(j as int) =~= self.restarts@);
            lemma_well_placed(region, self.restarts@);
        }
        true
    }

    /// Approximate heap bytes held by this block, charged against the block
    /// cache's budget: the struct and what its vectors have allocated.
    pub fn charge(&self) -> (r: usize)
        ensures
            r >= self.bytes().len() + 4 * self.restarts().len() || r == usize::MAX,
    {
        std::mem::size_of::<Self>().saturating_add(vec_capacity(&self.data)).saturating_add(
            vec_capacity(&self.restarts).saturating_add(vec_capacity(&self.restarts)).saturating_add(
                vec_capacity(&self.restarts),
            ).saturating_add(vec_capacity(&self.restarts)),
        )
    }

    /// The entry region of the block.
    pub fn entry_data(&self) -> (r: &[u8])
        requires
            self.framed(),
        ensures
            r@ == self.region(),
    {
        let r = slice_subrange(
            self.data.as_slice(),
            0,
            self.data.len() - 4 - self.restarts.len() * 4,
        );
        assert(r@ =~= self.region());
        r
    }

    /// How many restart points there are.
    pub fn restart_count(&self) -> (r: usize)
        ensures
            r == self.restarts().len(),
    {
        self.restarts.len()
    }

    /// The offset of a restart point.
    pub fn restart_offset(&self, idx: usize) -> (r: usize)
        requires
            idx < self.restarts().len(),
        ensures
            r == self.restarts()[idx as int],
    {
        self.restarts[idx] as usize
    }

    /// Iterate the entries in order.
    pub fn iter(&self) -> (r: BlockIterator<'_>)
        requires
            self.framed(),
            parse(self.region(), Seq::empty()) is Some,
        ensures
            r.wf(),
            r.remaining() == self.entries(),
    {
        let it = BlockIterator { data: self.entry_data(), pos: 0, current_key: Vec::new() };
        assert(it.data@.skip(0) =~= self.region());
        assert(it.current_key@ =~= Seq::<u8>::empty());
        it
    }

    /// The entries in order.
    pub fn to_entries(&self) -> (r: Vec<(Vec<u8>, Vec<u8>)>)
        requires
            self.framed(),
            parse(self.region(), Seq::empty()) is Some,
        ensures
            pairs(r@) == self.entries(),
    {
        let mut it = self.iter();
        let mut r: Vec<(Vec<u8>, Vec<u8>)> = Vec::new();
        assert(pairs(r@) + it.remaining() =~= self.entries());
        loop
            invariant
                it.wf(),
                pairs(r@) + it.remaining() == self.entries(),
            ensures
                pairs(r@) == self.entries(),
            decreases it.remaining().len(),
        {
            let ghost before = it.remaining();
            let ghost r0 = pairs(r@);
            match it.next() {
                Some(e) => {
                    r.push(e);
                    assert(pairs(r@) =~= r0.push((e.0@, e.1@)));
                    assert(pairs(r@) + it.remaining() =~= r0 + before);
                },
                None => {
                    assert(r0 + before =~= r0);
                    break;
                },
            }
        }
        r
    }

    /// Return the first `(key, value)` entry with `key >= target`, if any.
    ///
    /// This is the primitive of point lookups: the caller makes a search key
    /// from a user key and a snapshot, and inspects the entry found.
    pub fn seek_ge(&self, target: &[u8]) -> (r: Option<(Vec<u8>, Vec<u8>)>)
        requires
            self.wf(),
        ensures
            r matches Some(e) ==> self.entries().contains((e.0@, e.1@)) && !ik_lt(e.0@, target@),
            partitioned(self.entries(), target@) ==> match r {
                Some(e) => first_ge(self.entries(), target@) == Some((e.0@, e.1@)),
                None => first_ge(self.entries(), target@) is None,
            },
    {
        let data = self.entry_data();
        let data_end: usize = data.len();
        let (start, Ghost(skipped)) = self.restart_start_for(target);
        let ghost es = self.entries();
        proof {
            if partitioned(es, target@) {
                lemma_first_ge_skip(es, target@, skipped);
            }
        }
        let mut pos: usize = start;
        let mut current_key: Vec<u8> = Vec::new();
        assert(current_key@ =~= Seq::<u8>::empty());
        let ghost mut done: int = skipped;
        while pos < data_end
            invariant
                data@ == self.region(),
                data_end == data@.len(),
                pos <= data_end,
                es == self.entries(),
                0 <= done <= es.len(),
                parse(data@.skip(pos as int), current_key@) == Some(es.skip(done)),
                partitioned(es, target@) ==> first_ge(es, target@) == first_ge(
                    es.skip(done),
                    target@,
                ),
            decreases data_end - pos,
        {
            let ghost s = data@.skip(pos as int);
            proof {
                lemma_parse_step(s, current_key@);
            }
            let (key, value) = decode_block_entry(data, pos, current_key.as_slice());
            let size: usize = super::block_entry::encoded_entry_size(data, pos);
            proof {
                assert(es.skip(done)[0] == es[done]);
                assert(es.skip(done).skip(1) =~= es.skip(done + 1));
                assert(s.skip(size as int) =~= data@.skip(pos + size));
            }
            pos = pos + size;
            current_key = key;
            if !internal_key_lt(current_key.as_slice(), target) {
                assert(es[done] == (current_key@, value@));
                return Some((current_key, value));
            }
            proof {
                done = done + 1;
            }
        }
        proof {
            assert(data@.skip(pos as int).len() == 0);
            assert(es.skip(done).len() == 0);
        }
        None
    }

    /// Binary-search the restart points for where the first entry with a key
    /// `>= target` can be; returns the offset to start the walk from, and how
    /// many entries, all before the target, are behind it.
    fn restart_start_for(&self, target: &[u8]) -> (r: (usize, Ghost<int>))
        requires
            self.wf(),
        ensures
            r.0 <= self.region().len(),
            0 <= r.1@ <= self.entries().len(),
            parse(self.region().skip(r.0 as int), Seq::empty()) == Some(
                self.entries().skip(r.1@),
            ),
            partitioned(self.entries(), target@) ==> forall|i: int|
                0 <= i < r.1@ ==> ik_lt((#[trigger] self.entries()[i]).0, target@),
    {
        let data = self.entry_data();
        let ghost region = self.region();
        let ghost es = self.entries();
        let ghost at = choose|at: Seq<nat>| restarts_at(region, self.restarts@, es, at);
        let empty: Vec<u8> = Vec::new();
        assert(empty@ =~= Seq::<u8>::empty());
        let mut left: usize = 0;
        let mut right: usize = self.restarts.len();
        while left < right
            invariant
                self.framed(),
                data@ == region,
                region == self.region(),
                es == self.entries(),
                empty@ == Seq::<u8>::empty(),
                restarts_at(region, self.restarts@, es, at),
                left <= right <= self.restarts@.len(),
                left > 0 ==> at[left - 1] < es.len() && ik_lt(
                    es[at[left - 1] as int].0,
                    target@,
                ),
            decreases right - left,
        {
            let mid: usize = left + (right - left) / 2;
            let restart_pos: usize = self.restarts[mid] as usize;
            if restart_pos < data.len() {
                proof {
                    lemma_restart_entry(region, self.restarts@, es, at, mid as int);
                }
                let (key, _) = decode_block_entry(data, restart_pos, empty.as_slice());
                if internal_key_lt(key.as_slice(), target) {
                    left = mid + 1;
                } else {
                    right = mid;
                }
            } else {
                right = mid;
            }
        }
        if left > 0 {
            proof {
                let n = at[left - 1] as int;
                if partitioned(es, target@) {
                    assert forall|i: int| 0 <= i < n implies ik_lt(
                        (#[trigger] es[i]).0,
                        target@,
                    ) by {
                        assert(ik_lt(es[n].0, target@));
                    }
                }
            }
            (self.restarts[left - 1] as usize, Ghost(at[left - 1] as int))
        } else {
            proof {
                assert(region.skip(0) =~= region);
                assert(es.skip(0) =~= es);
            }
            (0, Ghost(0int))
        }
    }
}

/// The entry at a restart point.
proof fn lemma_restart_entry(
    region: Seq<u8>,
    restarts: Seq<u32>,
    es: Seq<Pair>,
    at: Seq<nat>,
    j: int,
)
    requires
        restarts_at(region, restarts, es, at),
        0 <= j < restarts.len(),
        restarts[j] < region.len(),
    ensures
        entry_ok(region.skip(restarts[j] as int), 0),
        restarts[j] + entry_size(region.skip(restarts[j] as int)) <= region.len(),
        at[j] < es.len(),
        entry_key(region.skip(restarts[j] as int), Seq::empty()) == es[at[j] as int].0,
{
    let s = region.skip(restarts[j] as int);
    lemma_parse_step(s, Seq::empty());
    assert(es.skip(at[j] as int)[0] == es[at[j] as int]);
}

/// The keys and values of owned pairs.
pub open spec fn pairs(v: Seq<(Vec<u8>, Vec<u8>)>) -> Seq<Pair> {
    v.map_values(|e: (Vec<u8>, Vec<u8>)| (e.0@, e.1@))
}

/// A position in the entries of a block.
pub struct BlockIterator<'a> {
    data: &'a [u8],
    pos: usize,
    current_key: Vec<u8>,
}

impl<'a> BlockIterator<'a> {
    /// The rest of the block is a run of whole entries.
    pub closed spec fn wf(&self) -> bool {
        &&& self.pos <= self.data@.len()
        &&& parse(self.data@.skip(self.pos as int), self.current_key@) is Some
    }

    /// The entries still to come.
    pub closed spec fn remaining(&self) -> Seq<Pair> {
        parse(self.data@.skip(self.pos as int), self.current_key@)->0
    }

    /// The next entry.
    pub fn next(&mut self) -> (r: Option<(Vec<u8>, Vec<u8>)>)
        requires
            old(self).wf(),
        ensures
            final(self).wf(),
            r is None <==> old(self).remaining().len() == 0,
            r is None ==> final(self).remaining() == old(self).remaining(),
            r matches Some(e) ==> (e.0@, e.1@) == old(self).remaining()[0]
                && final(self).remaining() == old(self).remaining().skip(1),
    {
        let ghost s = self.data@.skip(self.pos as int);
        if self.pos >= self.data.len() {
            assert(s.len() == 0);
            return None;
        }
        proof {
            lemma_parse_step(s, self.current_key@);
        }
        let len: usize = self.data.len();
        let (consumed, val_off, val_len) = decode_entry_at(
            self.data,
            self.pos,
            &mut self.current_key,
        );
        assert(s.skip(consumed as int) =~= self.data@.skip(self.pos + consumed));
        self.pos = self.pos + consumed;
        assert(val_off + val_len <= len);
        let value = copy_bytes(slice_subrange(self.data, val_off, val_off + val_len));
        assert(value@ =~= entry_value(s));
        Some((copy_bytes(self.current_key.as_slice()), value))
    }
}

/// `0, step, 2 * step, ...`: the entries at which a builder puts restarts.
pub open spec fn every(step: nat, n: nat) -> Seq<nat> {
    Seq::new(n, |j: int| (j * step) as nat)
}

pub proof fn lemma_every(step: nat, n: nat)
    ensures
        every(step, n).len() == n,
        forall|j: int| 0 <= j < n ==> #[trigger] every(step, n)[j] == j * step,
        forall|i: int, j: int|
            0 <= i <= j < n ==> (#[trigger] every(step, n)[i]) <= (#[trigger] every(step, n)[j]),
{
    assert forall|j: int| 0 <= j < n implies #[trigger] every(step, n)[j] == j * step by {
        assert(j * step >= 0) by (nonlinear_arith)
            requires
                j >= 0,
        ;
    }
    assert forall|i: int, j: int| 0 <= i <= j < n implies (#[trigger] every(step, n)[i]) <= (
    #[trigger] every(step, n)[j]) by {
        assert(i * step <= j * step) by (nonlinear_arith)
            requires
                0 <= i <= j,
        ;
    }
}

/// How an added entry moves the bounds between the number of entries and the
/// number of restart points.
proof fn lemma_interval_step(count: nat, step: nat, restarts: nat)
    requires
        step > 0,
        restarts > 0,
        restarts == 1 || (restarts - 1) * step < count,
        count <= restarts * step,
    ensures
        count > 0 && count % step == 0 ==> count == restarts * step && count + 1 <= (restarts + 1)
            * step,
        count == 0 || count % step != 0 ==> count + 1 <= restarts * step,
        forall|j: int| 0 <= j < restarts ==> #[trigger] (j * step) <= count,
        forall|j: int| 0 <= j < restarts && count > 0 ==> #[trigger] (j * step) < count,
{
    let q = count as int / step as int;
    vstd::arithmetic::div_mod::lemma_fundamental_div_mod(count as int, step as int);
    assert(count + 1 <= (restarts + 1) * step) by (nonlinear_arith)
        requires
            count <= restarts * step,
            step > 0,
    ;
    if count > 0 && count % step == 0 {
        assert(q == restarts) by (nonlinear_arith)
            requires
                count == step * q,
                count <= restarts * step,
                count > 0,
                step > 0,
                restarts > 0,
                restarts == 1 || (restarts - 1) * step < count,
        ;
        assert(count == restarts * step) by (nonlinear_arith)
            requires
                count == step * q,
                q == restarts,
        ;
    } else if count == 0 {
        assert(1 <= restarts * step) by (nonlinear_arith)
            requires
                step > 0,
                restarts > 0,
        ;
    } else {
        assert(count != restarts * step) by (nonlinear_arith)
            requires
                count == step * q + count % step,
                0 < count % step < step,
        ;
    }
    assert forall|j: int| 0 <= j < restarts implies #[trigger] (j * step) <= count by {
        assert(j * step <= (restarts - 1) * step) by (nonlinear_arith)
            requires
                0 <= j <= restarts - 1,
        ;
        if restarts == 1 {
            assert(j * step == 0) by (nonlinear_arith)
                requires
                    j == 0,
            ;
        }
    }
    assert forall|j: int| 0 <= j < restarts && count > 0 implies #[trigger] (j * step) < count by {
        assert(j * step <= (restarts - 1) * step) by (nonlinear_arith)
            requires
                0 <= j <= restarts - 1,
        ;
        if restarts == 1 {
            assert(j * step == 0) by (nonlinear_arith)
                requires
                    j == 0,
            ;
        }
    }
}

// ── Building ─────────────────────────────────────────────────────

/// What adding an entry does to a builder's run and its restart points.
proof fn lemma_add_entry(
    before: BlockBuilder,
    at_restart: bool,
    shared: u64,
    key: Seq<u8>,
    value: Seq<u8>,
)
    requires
        before.wf(),
        before.buffer@.len() <= u32::MAX,
        at_restart == (before.entry_count % before.restart_interval == 0 && before.entry_count
            > 0),
        at_restart ==> shared == 0,
        shared <= key.len() <= u64::MAX,
        shared <= before.last_key@.len(),
        value.len() <= u64::MAX,
        before.last_key@.take(shared as int) == key.take(shared as int),
    ensures
        ({
            let region = before.buffer@ + encoded_entry(shared as nat, key, value);
            let es = before.entries().push((key, value));
            let restarts = if at_restart {
                before.restarts@.push(before.buffer@.len() as u32)
            } else {
                before.restarts@
            };
            let step = before.restart_interval as nat;
            &&& parse(region, Seq::empty()) == Some(es)
            &&& restarts_at(region, restarts, es, every(step, restarts.len()))
            &&& well_placed(region, restarts)
            &&& forall|i: int|
                0 <= i < restarts.len() ==> #[trigger] restarts[i] < region.len()
            &&& encoded_entry(shared as nat, key, value).len() >= 3
            &&& restarts.len() == 1 || (restarts.len() - 1) * step < before.entry_count + 1
            &&& before.entry_count + 1 <= restarts.len() * step
        }),
{
    let e = encoded_entry(shared as nat, key, value);
    let region = before.buffer@;
    let region1 = region + e;
    let es = before.entries();
    let es1 = es.push((key, value));
    let step = before.restart_interval as nat;
    let restarts1 = if at_restart {
        before.restarts@.push(region.len() as u32)
    } else {
        before.restarts@
    };
    let at0 = every(step, before.restarts@.len());
    let at1 = every(step, restarts1.len());
    lemma_encoded_entry(shared, key, value, before.last_key@);
    lemma_parse_append(region, Seq::empty(), e);
    lemma_interval_step(before.entry_count as nat, step, before.restarts@.len());
    lemma_every(step, before.restarts@.len());
    lemma_every(step, restarts1.len());
    assert forall|j: int| 0 <= j < restarts1.len() implies (#[trigger] restarts1[j])
        <= region1.len() && at1[j] <= es1.len() && parse(
        region1.skip(restarts1[j] as int),
        Seq::empty(),
    ) == Some(es1.skip(at1[j] as int)) by {
        if j < before.restarts@.len() {
            assert(before.restarts@[j] == restarts1[j]);
            assert(at1[j] == at0[j]);
            assert(es.len() > 0 ==> j * step < before.entry_count);
            lemma_restart_kept(
                region,
                before.restarts@[j] as int,
                es,
                at0[j] as int,
                e,
                before.last_key@,
            );
        } else {
            lemma_restart_new(region, es, shared, key, value);
        }
    }
    lemma_well_placed_append(region, before.restarts@, e, at_restart);
}

/// Boundaries stay boundaries when bytes are appended, and the end of a run
/// is one.
proof fn lemma_boundary_extend(s: Seq<u8>, prev: Seq<u8>, e: Seq<u8>, off: int)
    requires
        parse(s, prev) is Some,
        boundary(s, prev, off) || off == s.len(),
    ensures
        boundary(s + e, prev, off),
        0 <= off <= s.len(),
    decreases s.len(),
{
    if off > 0 {
        lemma_parse_step(s, prev);
        super::block_entry::lemma_entry_extend(s, e, prev);
        let n = entry_size(s) as int;
        assert((s + e).skip(n) =~= s.skip(n) + e);
        lemma_boundary_extend(s.skip(n), entry_key(s, prev), e, off - n);
    }
}

/// An entry within a run, after a key of any length, is a whole entry.
proof fn lemma_boundary_entry(s: Seq<u8>, prev: Seq<u8>, e: Seq<u8>, off: int)
    requires
        parse(s, prev) is Some,
        boundary(s, prev, off),
        off < s.len(),
    ensures
        entry_shared((s + e).skip(off)) == entry_shared(s.skip(off)),
    decreases s.len(),
{
    lemma_boundary_within(s, prev, off);
    lemma_parse_step(s, prev);
    if off == 0 {
        assert(s.skip(0) =~= s);
        assert((s + e).skip(0) =~= s + e);
        super::block_entry::lemma_entry_extend(s, e, prev);
    } else {
        let n = entry_size(s) as int;
        let k = entry_key(s, prev);
        lemma_boundary_entry(s.skip(n), k, e, off - n);
        assert((s.skip(n) + e).skip(off - n) =~= (s + e).skip(off));
        assert(s.skip(n).skip(off - n) =~= s.skip(off));
    }
}

/// Restart points stay well placed when an entry is appended.
proof fn lemma_well_placed_append(
    region: Seq<u8>,
    restarts: Seq<u32>,
    e: Seq<u8>,
    at_restart: bool,
)
    requires
        parse(region, Seq::empty()) is Some,
        well_placed(region, restarts),
        region.len() <= u32::MAX,
        at_restart || region.len() == 0 ==> entry_shared(e) == 0,
        forall|i: int|
            0 <= i < restarts.len() ==> #[trigger] restarts[i] < region.len() || region.len() == 0,
        e.len() > 0,
    ensures
        at_restart ==> well_placed(region + e, restarts.push(region.len() as u32)),
        !at_restart ==> well_placed(region + e, restarts),
{
    let region1 = region + e;
    assert forall|i: int| 0 <= i < restarts.len() implies boundary(
        region1,
        Seq::empty(),
        #[trigger] restarts[i] as int,
    ) && fresh_at(region1, restarts[i] as int) && restarts[i] <= region.len() by {
        let r = restarts[i] as int;
        lemma_boundary_extend(region, Seq::empty(), e, r);
        if r < region.len() {
            lemma_boundary_entry(region, Seq::empty(), e, r);
        } else {
            assert(region1.skip(r) =~= e);
        }
    }
    if at_restart {
        let r1 = restarts.push(region.len() as u32);
        lemma_boundary_extend(region, Seq::empty(), e, region.len() as int);
        assert(region1.skip(region.len() as int) =~= e);
        assert forall|i: int, j: int| 0 <= i <= j < r1.len() implies (#[trigger] r1[i]) <= (
        #[trigger] r1[j]) by {
            if j < restarts.len() {
                assert(restarts[i] <= restarts[j]);
            } else if i < restarts.len() {
                assert(restarts[i] <= region.len());
            }
        }
        assert forall|i: int| 0 <= i < r1.len() implies boundary(
            region1,
            Seq::empty(),
            #[trigger] r1[i] as int,
        ) && fresh_at(region1, r1[i] as int) by {
            if i < restarts.len() {
                assert(r1[i] == restarts[i]);
            }
        }
    }
}

/// A restart point stays one when an entry is appended.
proof fn lemma_restart_kept(
    region: Seq<u8>,
    r: int,
    es: Seq<Pair>,
    n: int,
    e: Seq<u8>,
    last: Seq<u8>,
)
    requires
        0 <= r <= region.len(),
        0 <= n <= es.len(),
        n < es.len() || es.len() == 0,
        parse(region.skip(r), Seq::empty()) == Some(es.skip(n)),
        last == last_key_of(es, Seq::empty()),
        entry_ok(e, last.len()),
        entry_size(e) == e.len(),
        e.len() > 0,
    ensures
        parse((region + e).skip(r), Seq::empty()) == Some(
            es.push((entry_key(e, last), entry_value(e))).skip(n),
        ),
{
    let t = region.skip(r);
    assert((region + e).skip(r) =~= t + e);
    if es.len() > 0 {
        assert(es.skip(n).last() == es.last());
    }
    lemma_parse_append(t, Seq::empty(), e);
    let p = (entry_key(e, last), entry_value(e));
    assert(es.push(p).skip(n) =~= es.skip(n).push(p));
}

/// An appended entry with a whole key starts at a restart point.
proof fn lemma_restart_new(
    region: Seq<u8>,
    es: Seq<Pair>,
    shared: u64,
    key: Seq<u8>,
    value: Seq<u8>,
)
    requires
        shared == 0,
        key.len() <= u64::MAX,
        value.len() <= u64::MAX,
    ensures
        parse(
            (region + encoded_entry(shared as nat, key, value)).skip(region.len() as int),
            Seq::empty(),
        ) == Some(es.push((key, value)).skip(es.len() as int)),
{
    let e = encoded_entry(shared as nat, key, value);
    assert((region + e).skip(region.len() as int) =~= e);
    assert(Seq::<u8>::empty().take(0) =~= key.take(0));
    lemma_encoded_entry(0, key, value, Seq::empty());
    assert(parse(Seq::<u8>::empty(), Seq::empty()) == Some(Seq::<Pair>::empty()));
    lemma_parse_append(Seq::empty(), Seq::empty(), e);
    assert(Seq::<u8>::empty() + e =~= e);
    assert(es.push((key, value)).skip(es.len() as int) =~= Seq::<Pair>::empty().push((key, value)));
}

/// A finished block, taken apart again, is the region and the restart points
/// that it was made of.
pub proof fn lemma_block_round_trip(region: Seq<u8>, restarts: Seq<u32>)
    requires
        restarts.len() <= u32::MAX,
    ensures
        block_bytes(region, restarts).len() == region.len() + 4 * restarts.len() + 4,
        announced_restarts(block_bytes(region, restarts)) == restarts.len(),
        announced_region(block_bytes(region, restarts)) == region,
        announced_restart_array(block_bytes(region, restarts)) == restarts,
{
    let data = block_bytes(region, restarts);
    lemma_restart_bytes(restarts);
    lemma_le_round_trip();
    assert(data.subrange(data.len() - 4, data.len() as int) =~= le32(restarts.len() as u32));
    assert(announced_region(data) =~= region);
    assert forall|i: int| 0 <= i < restarts.len() implies announced_restart_array(data)[i]
        == restarts[i] by {
        assert(data.subrange(region.len() + 4 * i, region.len() + 4 * i + 4) =~= restart_bytes(
            restarts,
        ).subrange(4 * i, 4 * i + 4));
    }
    assert(announced_restart_array(data) =~= restarts);
}

/// What a builder finishes, a reader gets back: the block is valid, its entries
/// are those that were added, and it has a restart point at every so many of
/// them.
pub proof fn lemma_built_block_decodes(builder: BlockBuilder, block: Block)
    requires
        builder.wf(),
        builder.region().len() <= u32::MAX,
        block.bytes() == block_bytes(builder.region(), builder.restarts()),
        block.restarts() == announced_restart_array(block.bytes()),
    ensures
        block.wf(),
        block.entries() == builder.entries(),
        (forall|i: int|
            0 <= i < builder.entries().len() ==> is_internal((#[trigger] builder.entries()[i]).0))
            ==> data_block_ok(block.bytes()),
        well_placed(block.region(), block.restarts()),
        restarts_at(
            block.region(),
            block.restarts(),
            block.entries(),
            every(builder.interval(), block.restarts().len()),
        ),
        block.entries().len() <= block.restarts().len() * builder.interval(),
        block.restarts().len() == 1 || (block.restarts().len() - 1) * builder.interval()
            < block.entries().len(),
        block.restarts()[0] == 0,
        builder.interval() > 0,
        block.restarts().len() > 0,
        block.restarts() == builder.restarts(),
{
    lemma_block_round_trip(builder.region(), builder.restarts());
    assert(block.region() =~= builder.region());
}

/// A block of `n` entries has a restart point for every `k` of them, the first
/// at the start: as many as `n / k`, rounded up. Restart point `j` is where
/// entry `j * k` starts, with its key written whole.
pub proof fn lemma_restart_points_every_interval(builder: BlockBuilder, block: Block)
    requires
        builder.wf(),
        builder.region().len() <= u32::MAX,
        block.bytes() == block_bytes(builder.region(), builder.restarts()),
        block.restarts() == announced_restart_array(block.bytes()),
        builder.entries().len() > 0,
    ensures
        ({
            let n = builder.entries().len() as int;
            let k = builder.interval() as int;
            &&& k > 0
            &&& block.restarts().len() == (n + k - 1) / k
            &&& block.restarts()[0] == 0
            &&& forall|j: int|
                #![trigger block.restarts()[j]]
                0 <= j < block.restarts().len() ==> block.restarts()[j] <= block.region().len()
                    && parse(block.region().skip(block.restarts()[j] as int), Seq::empty()) == Some(
                    builder.entries().skip(j * k),
                )
        }),
{
    let n = builder.entries().len() as int;
    let k = builder.interval() as int;
    let r = builder.restarts().len() as int;
    lemma_built_block_decodes(builder, block);
    lemma_block_round_trip(builder.region(), builder.restarts());
    assert(r == (n + k - 1) / k) by (nonlinear_arith)
        requires
            k > 0,
            (r - 1) * k < n,
            n <= r * k,
    ;
    assert forall|j: int|
        #![trigger block.restarts()[j]]
        0 <= j < block.restarts().len() implies block.restarts()[j] <= block.region().len()
        && parse(block.region().skip(block.restarts()[j] as int), Seq::empty()) == Some(
        builder.entries().skip(j * k),
    ) by {
        assert(every(k as nat, block.restarts().len())[j] == (j * k) as nat);
        assert(j * k >= 0) by (nonlinear_arith)
            requires
                j >= 0,
                k > 0,
        ;
    }
}

/// Stepping through `s` by the sizes of the entries meets `n` of them and ends
/// at the end.
pub open spec fn steps_to_end(s: Seq<u8>, n: nat) -> bool
    decreases n,
{
    if n == 0 {
        s.len() == 0
    } else {
        0 < entry_size(s) <= s.len() && steps_to_end(s.skip(entry_size(s) as int), (n - 1) as nat)
    }
}

/// A run of `n` entries has `n` of them: stepping by their sizes from the start
/// meets exactly `n` starts and ends at the end.
pub proof fn lemma_sizes_step_to_end(s: Seq<u8>, prev: Seq<u8>)
    requires
        parse(s, prev) is Some,
    ensures
        steps_to_end(s, parse(s, prev)->0.len()),
    decreases s.len(),
{
    if s.len() > 0 {
        lemma_parse_step(s, prev);
        let t = s.skip(entry_size(s) as int);
        let es = parse(s, prev)->0;
        lemma_sizes_step_to_end(t, entry_key(s, prev));
        assert(es.skip(1).len() == es.len() - 1);
    }
}

/// How many bytes of its key an entry takes from the one before it: none at a
/// restart point, otherwise all that they have in common.
pub open spec fn shared_with_last(es: Seq<Pair>, interval: nat, key: Seq<u8>) -> nat {
    if es.len() > 0 && es.len() % interval == 0 {
        0
    } else {
        common_prefix_len(last_key_of(es, Seq::empty()), key)
    }
}

proof fn lemma_encoded_entry_len(shared: u64, key: Seq<u8>, value: Seq<u8>)
    requires
        shared <= key.len() <= u64::MAX,
        value.len() <= u64::MAX,
    ensures
        encoded_entry(shared as nat, key, value).len() <= 30 + key.len() + value.len(),
{
    lemma_varint_of_u64(shared as nat);
    lemma_varint_of_u64((key.len() - shared) as nat);
    lemma_varint_of_u64(value.len());
}

/// Block builder: accumulates sorted entries and emits a data block.
pub struct BlockBuilder {
    buffer: Vec<u8>,
    restarts: Vec<u32>,
    entry_count: usize,
    last_key: Vec<u8>,
    restart_interval: usize,
}

impl BlockBuilder {
    /// The bytes of the entries added so far.
    pub closed spec fn region(&self) -> Seq<u8> {
        self.buffer@
    }

    /// The restart points so far.
    pub closed spec fn restarts(&self) -> Seq<u32> {
        self.restarts@
    }

    /// The entries added so far.
    pub open spec fn entries(&self) -> Seq<Pair> {
        parse(self.region(), Seq::empty())->0
    }

    /// Entries between restart points.
    pub closed spec fn interval(&self) -> nat {
        self.restart_interval as nat
    }

    /// What was written so far is a run of entries with its restart points.
    pub closed spec fn wf(&self) -> bool {
        &&& self.restart_interval > 0
        &&& parse(self.buffer@, Seq::empty()) is Some
        &&& self.entry_count == self.entries().len()
        &&& 3 * self.entry_count <= self.buffer@.len()
        &&& 0 < self.restarts@.len() <= 1 + self.entry_count
        &&& self.restarts@[0] == 0
        &&& self.last_key@ == last_key_of(self.entries(), Seq::empty())
        &&& restarts_at(
            self.buffer@,
            self.restarts@,
            self.entries(),
            every(self.restart_interval as nat, self.restarts@.len()),
        )
        &&& well_placed(self.buffer@, self.restarts@)
        &&& forall|i: int|
            0 <= i < self.restarts@.len() ==> #[trigger] self.restarts@[i] < self.buffer@.len()
                || self.buffer@.len() == 0
        &&& self.restarts@.len() == 1 || (self.restarts@.len() - 1) * self.restart_interval
            < self.entry_count
        &&& self.entry_count <= self.restarts@.len() * self.restart_interval
    }

    /// An empty builder that writes a whole key every `restart_interval`
    /// entries.
    pub fn new(restart_interval: usize) -> (r: Self)
        requires
            restart_interval > 0,
        ensures
            r.wf(),
            r.entries() == Seq::<Pair>::empty(),
            r.region() == Seq::<u8>::empty(),
            r.restarts() == seq![0u32],
            r.interval() == restart_interval,
    {
        let mut restarts: Vec<u32> = Vec::new();
        restarts.push(0);
        let b = BlockBuilder {
            buffer: Vec::new(),
            restarts,
            entry_count: 0,
            last_key: Vec::new(),
            restart_interval,
        };
        proof {
            let at = every(restart_interval as nat, 1);
            assert(b.buffer@.skip(0) =~= b.buffer@);
            assert(b.buffer@ =~= Seq::<u8>::empty());
            assert(b.entries() =~= Seq::<Pair>::empty());
            assert(b.entries().skip(0) =~= b.entries());
            assert(restarts_at(b.buffer@, b.restarts@, b.entries(), at));
            assert(b.last_key@ =~= Seq::<u8>::empty());
        }
        b
    }

    /// Add an entry. Keys come in ascending order.
    pub fn add(&mut self, key: &[u8], value: &[u8])
        requires
            old(self).wf(),
            old(self).region().len() <= u32::MAX,
        ensures
            final(self).wf(),
            final(self).interval() == old(self).interval(),
            final(self).entries() == old(self).entries().push((key@, value@)),
            final(self).region() == old(self).region() + encoded_entry(
                shared_with_last(old(self).entries(), old(self).interval(), key@),
                key@,
                value@,
            ),
            old(self).region().len() < final(self).region().len() <= old(self).region().len() + 30
                + key@.len() + value@.len(),
            final(self).restarts() == if old(self).entries().len() > 0
                && old(self).entries().len() % old(self).interval() == 0 {
                old(self).restarts().push(old(self).region().len() as u32)
            } else {
                old(self).restarts()
            },
    {
        let ghost before = *self;
        let ghost es = self.entries();
        let ghost region = self.buffer@;
        let at_restart = self.entry_count % self.restart_interval == 0 && self.entry_count > 0;
        proof {
            lemma_common_prefix_len(self.last_key@, key@);
            assert(self.last_key@.take(0) =~= key@.take(0));
        }
        let shared: usize = if at_restart {
            self.restarts.push(self.buffer.len() as u32);
            0
        } else {
            shared_prefix(self.last_key.as_slice(), key)
        };
        let len: usize = key.len();
        let vlen: usize = value.len();
        encode_entry(&mut self.buffer, shared, key, value);
        self.last_key = copy_bytes(key);
        let total: usize = self.buffer.len();
        self.entry_count = self.entry_count + 1;
        proof {
            lemma_add_entry(before, at_restart, shared as u64, key@, value@);
            lemma_encoded_entry_len(shared as u64, key@, value@);
            assert(self.restarts@ =~= if at_restart {
                before.restarts@.push(region.len() as u32)
            } else {
                before.restarts@
            });
        }
    }

    /// The block of the entries added.
    pub fn finish(self) -> (r: Vec<u8>)
        requires
            self.wf(),
            self.region().len() <= u32::MAX,
        ensures
            r@ == block_bytes(self.region(), self.restarts()),
            announced_restarts(r@) == self.restarts().len(),
            4 + 4 * announced_restarts(r@) <= r@.len(),
    {
        proof {
            lemma_block_round_trip(self.region(), self.restarts());
        }
        let restarts = self.restarts;
        let mut buffer = self.buffer;
        let ghost region = buffer@;
        let mut i: usize = 0;
        assert(restarts@.take(0) =~= Seq::<u32>::empty());
        assert(buffer@ =~= region + restart_bytes(restarts@.take(0)));
        while i < restarts.len()
            invariant
                i <= restarts@.len(),
                buffer@ == region + restart_bytes(restarts@.take(i as int)),
            decreases restarts@.len() - i,
        {
            put_le32(&mut buffer, restarts[i]);
            proof {
                let t = restarts@.take(i + 1);
                assert(t.drop_last() =~= restarts@.take(i as int));
                assert(buffer@ =~= region + restart_bytes(t));
            }
            i += 1;
        }
        assert(restarts@.take(i as int) =~= restarts@);
        put_le32(&mut buffer, restarts.len() as u32);
        buffer
    }

    /// The size that the block has if it is finished now.
    pub fn estimated_size(&self) -> (r: usize)
        requires
            self.wf(),
            block_bytes(self.region(), self.restarts()).len() <= usize::MAX,
        ensures
            r == block_bytes(self.region(), self.restarts()).len(),
    {
        proof {
            lemma_restart_bytes(self.restarts@);
            lemma_le_round_trip();
        }
        self.buffer.len() + self.restarts.len() * 4 + 4
    }

    /// Whether nothing was added.
    pub fn is_empty(&self) -> (r: bool)
        requires
            self.wf(),
        ensures
            r == (self.entries().len() == 0),
    {
        self.entry_count == 0
    }
}

} // verus!
