//! Decoded table index blocks.
//!
//! Format:
//!
//! ```text
//! [count: u32 LE]
//! then `count` times:
//!   [key_len: u32 LE][key bytes][handle.offset: u64 LE][handle.size: u64 LE]
//! ```
//!
//! Each key is the last internal key of the block that the handle points at,
//! so a search for the first entry whose key is `>= target` names the block
//! that may contain `target`.
//!
//! The raw bytes are held whole, with a table of slots into them.

use super::block::vec_capacity;
use super::block::BlockHandle;
use super::internal_key::ik_lt;
use super::internal_key::internal_key_lt;
use crate::bytes::from_le32;
use crate::bytes::from_le64;
use crate::bytes::get_le32;
use crate::bytes::get_le64;
use crate::bytes::le32;
use crate::bytes::le64;
use crate::bytes::lemma_le_round_trip;
use crate::error::Error;
use crate::error::ErrorKind;
use vstd::prelude::*;
use vstd::slice::slice_subrange;

verus! {

/// An index entry: the last key of a block, and where the block is.
#[verifier::ext_equal]
pub struct IndexEntry {
    pub key: Seq<u8>,
    pub offset: u64,
    pub size: u64,
}

/// The bytes of one entry.
pub open spec fn index_entry_bytes(e: IndexEntry) -> Seq<u8> {
    le32(e.key.len() as u32) + e.key + le64(e.offset) + le64(e.size)
}

/// The bytes of a list of entries.
pub open spec fn index_entries_bytes(es: Seq<IndexEntry>) -> Seq<u8>
    decreases es.len(),
{
    if es.len() == 0 {
        Seq::empty()
    } else {
        index_entry_bytes(es[0]) + index_entries_bytes(es.skip(1))
    }
}

/// The bytes of an index block.
pub open spec fn index_bytes(es: Seq<IndexEntry>) -> Seq<u8> {
    le32(es.len() as u32) + index_entries_bytes(es)
}

/// The length of the key at the front of `s`.
pub open spec fn front_key_len(s: Seq<u8>) -> int {
    from_le32(s.take(4)) as int
}

/// A whole entry stands at the front of `s`.
pub open spec fn front_ok(s: Seq<u8>) -> bool {
    s.len() >= 4 && 4 + front_key_len(s) + 16 <= s.len()
}

/// The entry at the front of `s`.
pub open spec fn front_entry(s: Seq<u8>) -> IndexEntry {
    let k = front_key_len(s);
    IndexEntry {
        key: s.subrange(4, 4 + k),
        offset: from_le64(s.subrange(4 + k, 12 + k)),
        size: from_le64(s.subrange(12 + k, 20 + k)),
    }
}

/// The `n` entries that `s` is made of; `None` where `s` is anything else.
pub open spec fn parse_index(s: Seq<u8>, n: nat) -> Option<Seq<IndexEntry>>
    decreases n,
{
    if n == 0 {
        if s.len() == 0 {
            Some(Seq::empty())
        } else {
            None
        }
    } else if !front_ok(s) {
        None
    } else {
        match parse_index(s.skip(20 + front_key_len(s)), (n - 1) as nat) {
            Some(rest) => Some(seq![front_entry(s)] + rest),
            None => None,
        }
    }
}

/// The entries of an index block; `None` where `blob` is not one, or is too
/// large for its slots.
pub open spec fn decoded_index(blob: Seq<u8>) -> Option<Seq<IndexEntry>> {
    if blob.len() < 4 || blob.len() > u32::MAX {
        None
    } else {
        parse_index(blob.skip(4), from_le32(blob.take(4)) as nat)
    }
}

/// What is written as an index block is decoded to the entries written.
pub proof fn lemma_index_round_trip(es: Seq<IndexEntry>)
    requires
        index_bytes(es).len() <= u32::MAX,
        es.len() <= u32::MAX,
        forall|i: int| 0 <= i < es.len() ==> (#[trigger] es[i]).key.len() <= u32::MAX,
    ensures
        decoded_index(index_bytes(es)) == Some(es),
{
    lemma_le_round_trip();
    let b = index_bytes(es);
    assert(b.take(4) =~= le32(es.len() as u32));
    assert(b.skip(4) =~= index_entries_bytes(es));
    lemma_entries_round_trip(es);
}

proof fn lemma_entries_round_trip(es: Seq<IndexEntry>)
    requires
        forall|i: int| 0 <= i < es.len() ==> (#[trigger] es[i]).key.len() <= u32::MAX,
    ensures
        parse_index(index_entries_bytes(es), es.len()) == Some(es),
    decreases es.len(),
{
    if es.len() == 0 {
        assert(es =~= Seq::<IndexEntry>::empty());
    } else {
        lemma_le_round_trip();
        let e = es[0];
        let rest = es.skip(1);
        assert forall|i: int| 0 <= i < rest.len() implies (#[trigger] rest[i]).key.len()
            <= u32::MAX by {
            assert(rest[i] == es[i + 1]);
        }
        lemma_entries_round_trip(rest);
        let s = index_entries_bytes(es);
        let k = e.key.len() as int;
        assert(s.take(4) =~= le32(e.key.len() as u32));
        assert(s.subrange(4, 4 + k) =~= e.key);
        assert(s.subrange(4 + k, 12 + k) =~= le64(e.offset));
        assert(s.subrange(12 + k, 20 + k) =~= le64(e.size));
        assert(s.skip(20 + k) =~= index_entries_bytes(rest));
        assert(front_entry(s) =~= e);
        assert(seq![e] + rest =~= es);
    }
}

/// Where an entry's key is within the bytes, and the block it points at.
#[derive(Debug, Clone, Copy)]
pub struct IndexSlot {
    key_offset: u32,
    key_len: u32,
    handle: BlockHandle,
}

/// A decoded index block: the raw bytes plus a slot table.
pub struct IndexBlock {
    blob: Vec<u8>,
    slots: Vec<IndexSlot>,
}

/// The entry that a slot stands for.
closed spec fn slot_entry(blob: Seq<u8>, slot: IndexSlot) -> IndexEntry {
    IndexEntry {
        key: blob.subrange(slot.key_offset as int, slot.key_offset + slot.key_len),
        offset: slot.handle.offset,
        size: slot.handle.size,
    }
}

/// The sum of the sizes of the entries `lo..hi`.
pub open spec fn size_sum(es: Seq<IndexEntry>, lo: int, hi: int) -> nat
    decreases hi - lo,
{
    if lo >= hi {
        0
    } else {
        size_sum(es, lo, hi - 1) + es[hi - 1].size as nat
    }
}

/// Within longer bounds the sum is no less.
proof fn lemma_size_sum_within(es: Seq<IndexEntry>, lo: int, hi: int, n: int)
    requires
        0 <= lo,
        hi <= n,
    ensures
        size_sum(es, lo, hi) <= size_sum(es, 0, n),
    decreases n, lo,
{
    if lo < hi {
        if hi < n {
            lemma_size_sum_within(es, lo, hi, n - 1);
        } else if lo > 0 {
            lemma_size_sum_within(es, lo - 1, hi, n);
            lemma_size_sum_front(es, lo - 1, hi);
        }
    }
}

proof fn lemma_size_sum_front(es: Seq<IndexEntry>, lo: int, hi: int)
    requires
        lo < hi,
    ensures
        size_sum(es, lo, hi) == es[lo].size + size_sum(es, lo + 1, hi),
    decreases hi - lo,
{
    if lo + 1 < hi {
        lemma_size_sum_front(es, lo, hi - 1);
    } else {
        assert(size_sum(es, lo, lo) == 0);
        assert(size_sum(es, lo + 1, hi) == 0);
    }
}

/// The entries whose keys come before `target` stand in front of the others.
pub open spec fn index_partitioned(es: Seq<IndexEntry>, target: Seq<u8>) -> bool {
    forall|i: int, j: int|
        0 <= i <= j < es.len() && ik_lt((#[trigger] es[j]).key, target) ==> ik_lt(
            (#[trigger] es[i]).key,
            target,
        )
}

/// The first entry whose key does not come before `target` is entry `n`;
/// there is none where `n` is the number of entries.
pub open spec fn first_at(es: Seq<IndexEntry>, target: Seq<u8>, n: int) -> bool {
    &&& 0 <= n <= es.len()
    &&& forall|i: int| 0 <= i < n ==> ik_lt((#[trigger] es[i]).key, target)
    &&& n < es.len() ==> !ik_lt(es[n].key, target)
}

impl IndexBlock {
    /// The entries.
    pub closed spec fn entries(&self) -> Seq<IndexEntry> {
        Seq::new(self.slots@.len(), |i: int| slot_entry(self.blob@, self.slots@[i]))
    }

    /// The bytes that the block was decoded from.
    pub closed spec fn bytes(&self) -> Seq<u8> {
        self.blob@
    }

    /// The slots lie within the bytes.
    pub closed spec fn wf(&self) -> bool {
        forall|i: int|
            0 <= i < self.slots@.len() ==> (#[trigger] self.slots@[i]).key_offset
                + self.slots@[i].key_len <= self.blob@.len()
    }

    /// Decode an index block.
    ///
    /// Rejects a truncated block, a declared entry count that the bytes
    /// cannot support, and trailing bytes past the last entry.
    pub fn decode(blob: Vec<u8>) -> (r: Result<Self, Error>)
        ensures
            r is Ok <==> decoded_index(blob@) is Some,
            r matches Err(e) ==> e.kind == ErrorKind::InvalidData,
            r matches Ok(b) ==> b.wf() && b.bytes() == blob@ && decoded_index(blob@) == Some(
                b.entries(),
            ),
    {
        if blob.len() < 4 {
            return Err(Error::invalid_data("index block too short"));
        }
        let len: usize = blob.len();
        if len > u32::MAX as usize {
            return Err(Error::invalid_data("index block is too large to address"));
        }
        let num_entries: u32 = get_le32(blob.as_slice(), 0);
        assert(blob@.subrange(0, 4) =~= blob@.take(4));
        let mut slots: Vec<IndexSlot> = Vec::new();
        let mut pos: usize = 4;
        let mut i: u32 = 0;
        let ghost mut seen: Seq<IndexEntry> = Seq::empty();
        let ghost all = parse_index(blob@.skip(4), num_entries as nat);
        while i < num_entries
            invariant
                len == blob@.len(),
                4 <= pos <= len <= u32::MAX,
                i <= num_entries,
                slots@.len() == i == seen.len(),
                all is Some <==> parse_index(blob@.skip(pos as int), (num_entries - i) as nat)
                    is Some,
                all is Some ==> all->0 == seen + parse_index(
                    blob@.skip(pos as int),
                    (num_entries - i) as nat,
                )->0,
                forall|j: int|
                    0 <= j < i ==> (#[trigger] slots@[j]).key_offset + slots@[j].key_len
                        <= blob@.len() && slot_entry(blob@, slots@[j]) == seen[j],
                decoded_index(blob@) == all,
            decreases num_entries - i,
        {
            let ghost s = blob@.skip(pos as int);
            if len - pos < 4 {
                return Err(Error::invalid_data("index key length is truncated"));
            }
            let key_len: usize = get_le32(blob.as_slice(), pos) as usize;
            assert(blob@.subrange(pos as int, pos + 4) =~= s.take(4));
            let key_offset: usize = pos + 4;
            if key_len > len - key_offset {
                return Err(Error::invalid_data("index key is truncated"));
            }
            let key_end: usize = key_offset + key_len;
            if len - key_end < 16 {
                return Err(Error::invalid_data("index block handle is truncated"));
            }
            let offset: u64 = get_le64(blob.as_slice(), key_end);
            let size: u64 = get_le64(blob.as_slice(), key_end + 8);
            let slot = IndexSlot {
                key_offset: key_offset as u32,
                key_len: key_len as u32,
                handle: BlockHandle { offset, size },
            };
            proof {
                let k = front_key_len(s);
                assert(k == key_len);
                assert(s.subrange(4, 4 + k) =~= blob@.subrange(
                    key_offset as int,
                    key_offset + key_len,
                ));
                assert(s.subrange(4 + k, 12 + k) =~= blob@.subrange(key_end as int, key_end + 8));
                assert(s.subrange(12 + k, 20 + k) =~= blob@.subrange(key_end + 8, key_end + 16));
                assert(slot_entry(blob@, slot) =~= front_entry(s));
                assert(s.skip(20 + k) =~= blob@.skip(key_end + 16));
                let seen1 = seen.push(front_entry(s));
                if all is Some {
                    let rest = parse_index(
                        blob@.skip(key_end + 16),
                        (num_entries - i - 1) as nat,
                    )->0;
                    assert(seen + (seq![front_entry(s)] + rest) =~= seen1 + rest);
                }
                assert forall|j: int| 0 <= j < i implies seen1[j] == seen[j] by {}
                seen = seen1;
            }
            slots.push(slot);
            pos = key_end + 16;
            i += 1;
        }
        if pos != len {
            return Err(Error::invalid_data("index block has trailing bytes"));
        }
        let block = IndexBlock { blob, slots };
        proof {
            assert(blob@.skip(pos as int).len() == 0);
            assert(seen + Seq::<IndexEntry>::empty() =~= seen);
            assert(block.entries() =~= seen);
        }
        Ok(block)
    }

    /// Number of entries.
    pub fn len(&self) -> (r: usize)
        ensures
            r == self.entries().len(),
    {
        self.slots.len()
    }

    /// Whether the block has no entries. An empty index block is legal: a
    /// table with only range tombstones has one.
    pub fn is_empty(&self) -> (r: bool)
        ensures
            r == (self.entries().len() == 0),
    {
        self.slots.is_empty()
    }

    /// The internal key of entry `i`.
    pub fn key(&self, i: usize) -> (r: Option<&[u8]>)
        requires
            self.wf(),
        ensures
            r is Some <==> i < self.entries().len(),
            r matches Some(k) ==> k@ == self.entries()[i as int].key,
    {
        if i < self.slots.len() {
            Some(self.key_at(i))
        } else {
            None
        }
    }

    fn key_at(&self, i: usize) -> (r: &[u8])
        requires
            self.wf(),
            i < self.entries().len(),
        ensures
            r@ == self.entries()[i as int].key,
    {
        let slot = self.slots[i];
        let len: usize = self.blob.len();
        let start: usize = slot.key_offset as usize;
        assert(self.slots@[i as int].key_offset + self.slots@[i as int].key_len <= len);
        slice_subrange(self.blob.as_slice(), start, start + slot.key_len as usize)
    }

    /// The handle of entry `i`.
    pub fn handle(&self, i: usize) -> (r: Option<BlockHandle>)
        ensures
            r is Some <==> i < self.entries().len(),
            r matches Some(h) ==> h.offset == self.entries()[i as int].offset && h.size
                == self.entries()[i as int].size,
    {
        if i < self.slots.len() {
            Some(self.slots[i].handle)
        } else {
            None
        }
    }

    /// Index of the first entry whose key is `>= target`, or the number of
    /// entries when every key comes before `target`.
    pub fn seek(&self, target: &[u8]) -> (r: usize)
        requires
            self.wf(),
        ensures
            r <= self.entries().len(),
            index_partitioned(self.entries(), target@) ==> first_at(
                self.entries(),
                target@,
                r as int,
            ),
    {
        self.partition_point(target)
    }

    /// Sum of the handle sizes of the entries between the two probes; a high
    /// probe past the end still charges the final block.
    pub fn approximate_size_in_range(&self, lo_probe: &[u8], hi_probe: &[u8]) -> (r: u64)
        requires
            self.wf(),
            size_sum(self.entries(), 0, self.entries().len() as int) <= u64::MAX,
        ensures
            self.entries().len() == 0 ==> r == 0,
            index_partitioned(self.entries(), lo_probe@) && index_partitioned(
                self.entries(),
                hi_probe@,
            ) ==> forall|lo: int, hi: int| #[trigger]
                first_at(self.entries(), lo_probe@, lo) && #[trigger] first_at(
                    self.entries(),
                    hi_probe@,
                    hi,
                ) ==> r == size_sum(
                    self.entries(),
                    lo,
                    if hi < self.entries().len() {
                        hi + 1
                    } else {
                        hi
                    },
                ),
    {
        let ghost es = self.entries();
        if self.slots.is_empty() {
            proof {
                assert(forall|lo: int| #[trigger] first_at(es, lo_probe@, lo) ==> lo == 0);
                assert(forall|lo: int| #[trigger] first_at(es, hi_probe@, lo) ==> lo == 0);
                assert(size_sum(es, 0, 0) == 0);
            }
            return 0;
        }
        let first: usize = self.partition_point(lo_probe);
        let last: usize = self.partition_point(hi_probe);
        let n: usize = self.slots.len();
        let end: usize = if last < n {
            last + 1
        } else {
            n
        };
        let mut total: u64 = 0;
        let mut i: usize = first;
        while i < end
            invariant
                es == self.entries(),
                n == self.slots@.len(),
                end <= n,
                first <= i,
                first <= end ==> i <= end,
                first > end ==> i == first,
                total == size_sum(es, first as int, i as int),
                size_sum(es, 0, n as int) <= u64::MAX,
            decreases end - i,
        {
            proof {
                lemma_size_sum_within(es, first as int, i + 1, n as int);
                assert(es[i as int].size == self.slots@[i as int].handle.size);
            }
            total = total + self.slots[i].handle.size;
            i += 1;
        }
        proof {
            assert(first > end ==> size_sum(es, first as int, end as int) == 0);
            assert forall|lo: int, hi: int| #[trigger]
                first_at(es, lo_probe@, lo) && #[trigger] first_at(
                    es,
                    hi_probe@,
                    hi,
                ) && index_partitioned(es, lo_probe@) && index_partitioned(
                    es,
                    hi_probe@,
                ) implies lo == first && hi == last by {
                if lo < first {
                    assert(ik_lt(es[lo].key, lo_probe@));
                }
                if first < lo {
                    assert(ik_lt(es[first as int].key, lo_probe@));
                }
                if hi < last {
                    assert(ik_lt(es[hi].key, hi_probe@));
                }
                if last < hi {
                    assert(ik_lt(es[last as int].key, hi_probe@));
                }
            }
        }
        total
    }

    /// Heap bytes held by this block, for block-cache charging.
    pub fn charge(&self) -> (r: usize)
        ensures
            r >= self.bytes().len(),
    {
        let slot_bytes: usize = match vec_capacity(&self.slots).checked_mul(
            std::mem::size_of::<IndexSlot>(),
        ) {
            Some(n) => n,
            None => usize::MAX,
        };
        std::mem::size_of::<Self>().saturating_add(vec_capacity(&self.blob)).saturating_add(
            slot_bytes,
        )
    }

    fn partition_point(&self, target: &[u8]) -> (r: usize)
        requires
            self.wf(),
        ensures
            r <= self.entries().len(),
            index_partitioned(self.entries(), target@) ==> first_at(
                self.entries(),
                target@,
                r as int,
            ),
    {
        let ghost es = self.entries();
        let mut lo: usize = 0;
        let mut hi: usize = self.slots.len();
        while lo < hi
            invariant
                self.wf(),
                es == self.entries(),
                lo <= hi <= es.len(),
                index_partitioned(es, target@) ==> forall|i: int|
                    0 <= i < lo ==> ik_lt((#[trigger] es[i]).key, target@),
                hi < es.len() ==> !ik_lt(es[hi as int].key, target@),
            decreases hi - lo,
        {
            let mid: usize = lo + (hi - lo) / 2;
            if internal_key_lt(self.key_at(mid), target) {
                proof {
                    if index_partitioned(es, target@) {
                        assert forall|i: int| 0 <= i < mid + 1 implies ik_lt(
                            (#[trigger] es[i]).key,
                            target@,
                        ) by {
                            assert(ik_lt(es[mid as int].key, target@));
                        }
                    }
                }
                lo = mid + 1;
            } else {
                hi = mid;
            }
        }
        lo
    }
}

/// The estimate of a range adds up the sizes of the blocks from the one that
/// its start falls into to the one that its end falls into.
pub proof fn lemma_size_is_that_of_the_blocks(es: Seq<IndexEntry>, lo: int, hi: int)
    requires
        0 <= lo <= hi <= es.len(),
    ensures
        size_sum(es, lo, hi) == es.subrange(lo, hi).fold_left(
            0int,
            |sum: int, e: IndexEntry| sum + e.size,
        ),
    decreases hi - lo,
{
    if lo < hi {
        lemma_size_is_that_of_the_blocks(es, lo, hi - 1);
        let s = es.subrange(lo, hi);
        assert(s.drop_last() =~= es.subrange(lo, hi - 1));
        assert(s.last() == es[hi - 1]);
    }
}

} // verus!
