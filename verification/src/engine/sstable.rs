//! Open tables: what a table file holds, as the read path and compaction see
//! it.

use super::block::pairs;
use super::block::sorted_entries;
use super::block_entry::Pair;
use super::internal_key::decode_internal_key;
use super::internal_key::ik_lt;
use super::internal_key::internal_key;
use super::internal_key::internal_key_lt;
use super::internal_key::is_internal;
use super::internal_key::lemma_decode_encoded;
use super::internal_key::lemma_internal_total_order;
use super::internal_key::lookup_key;
use super::internal_key::user_of;
use super::internal_key::VALUE_TYPE_DELETION;
use super::internal_key::VALUE_TYPE_MERGE;
use super::memtable::lemma_before_probe;
use super::memtable::lemma_user_ascends;
use super::memtable::links;
use super::memtable::opt_found;
use super::range_tombstone::max_covering;
use super::range_tombstone::RangeTombstone;
use super::range_tombstone::RangeTombstoneSet;
use super::versions::chain;
use super::versions::chain_ended;
use super::versions::found;
use super::versions::lemma_skip_invisible;
use super::versions::visible;
use super::versions::Link;
use crate::bytes::bytes_eq;
use crate::bytes::bytes_le;
use crate::bytes::bytes_lt;
use crate::bytes::copy_bytes;
use crate::bytes::lemma_lex_order;
use crate::bytes::lemma_lex_prefix_le;
use crate::bytes::lemma_lex_trichotomy;
use crate::bytes::lex_le;
use crate::bytes::lex_lt;
use std::sync::Arc;
use vstd::prelude::*;

verus! {

/// What the manifest says of a table.
#[verifier::ext_equal]
pub struct MetaView {
    pub file_id: u64,
    pub smallest: Seq<u8>,
    pub largest: Seq<u8>,
    pub file_size: u64,
    pub num_entries: u64,
}

/// What the manifest records of a table file: its id, the range of its user
/// keys (both ends included), its size and how many entries it has.
#[derive(Debug)]
pub struct SsTableMeta {
    pub file_id: u64,
    pub smallest_key: Vec<u8>,
    pub largest_key: Vec<u8>,
    pub file_size: u64,
    pub num_entries: u64,
}

impl View for SsTableMeta {
    type V = MetaView;

    open spec fn view(&self) -> MetaView {
        MetaView {
            file_id: self.file_id,
            smallest: self.smallest_key@,
            largest: self.largest_key@,
            file_size: self.file_size,
            num_entries: self.num_entries,
        }
    }
}

impl Clone for SsTableMeta {
    fn clone(&self) -> (r: Self)
        ensures
            r@ == self@,
    {
        SsTableMeta {
            file_id: self.file_id,
            smallest_key: copy_bytes(self.smallest_key.as_slice()),
            largest_key: copy_bytes(self.largest_key.as_slice()),
            file_size: self.file_size,
            num_entries: self.num_entries,
        }
    }
}

/// The contents of an open table: its entries in order, and its range
/// tombstones.
pub struct SsTableReader {
    entries: Vec<(Vec<u8>, Vec<u8>)>,
    tombstones: RangeTombstoneSet,
}

impl SsTableReader {
    /// The entries, in the order of their internal keys.
    pub closed spec fn entries(&self) -> Seq<Pair> {
        pairs(self.entries@)
    }

    /// The range tombstones.
    pub closed spec fn tombstones(&self) -> Seq<RangeTombstone> {
        self.tombstones.items()
    }

    /// The entries are in order and the tombstones are indexed.
    pub closed spec fn wf(&self) -> bool {
        &&& sorted_entries(pairs(self.entries@))
        &&& self.tombstones.wf()
    }

    /// The entries of a table are sorted.
    pub proof fn lemma_sorted(&self)
        requires
            self.wf(),
        ensures
            sorted_entries(self.entries()),
    {
    }

    /// A table of the given entries, which are in order.
    pub fn new(entries: Vec<(Vec<u8>, Vec<u8>)>, tombstones: Vec<RangeTombstone>) -> (r: Self)
        requires
            sorted_entries(pairs(entries@)),
        ensures
            r.wf(),
            r.entries() == pairs(entries@),
            crate::ordered::is_sort_dedup(tombstones@, r.tombstones()),
    {
        SsTableReader { entries, tombstones: RangeTombstoneSet::from_vec(tombstones) }
    }

    /// Whether entries are internal keys in strictly ascending order, as a
    /// table holds them.
    pub fn in_order(entries: &Vec<(Vec<u8>, Vec<u8>)>) -> (r: bool)
        ensures
            r == sorted_entries(pairs(entries@)),
    {
        let ghost es = pairs(entries@);
        let mut i: usize = 0;
        while i < entries.len()
            invariant
                i <= entries@.len(),
                es == pairs(entries@),
                sorted_entries(es.take(i as int)),
            decreases entries@.len() - i,
        {
            let key = entries[i].0.as_slice();
            assert(es[i as int].0 == key@);
            if key.len() < 9 {
                assert(!is_internal(es[i as int].0));
                return false;
            }
            if i > 0 {
                let prev = entries[i - 1].0.as_slice();
                assert(es[i - 1].0 == prev@);
                if !internal_key_lt(prev, key) {
                    assert(!ik_lt(es[i - 1].0, es[i as int].0));
                    return false;
                }
            }
            proof {
                let t = es.take(i as int);
                let t1 = es.take(i + 1);
                assert forall|a: int| 0 <= a < t1.len() implies is_internal((#[trigger] t1[a]).0) by {
                    if a < i {
                        assert(t[a] == t1[a]);
                    }
                }
                assert forall|a: int, b: int| 0 <= a < b < t1.len() implies ik_lt(
                    (#[trigger] t1[a]).0,
                    (#[trigger] t1[b]).0,
                ) by {
                    if b < i {
                        assert(t[a] == t1[a] && t[b] == t1[b]);
                    } else if a < i - 1 {
                        assert(t[a] == t1[a] && t[i - 1] == t1[i - 1]);
                        assert(ik_lt(t[a].0, t[i - 1].0));
                        lemma_internal_total_order(t1[a].0, t1[i - 1].0, t1[b].0);
                    }
                }
            }
            i += 1;
        }
        assert(es.take(i as int) =~= es);
        true
    }

    /// Where the first entry stands that does not come before `target`.
    pub fn lower_bound(&self, target: &[u8]) -> (n: usize)
        requires
            self.wf(),
            is_internal(target@),
        ensures
            n <= self.entries().len(),
            forall|j: int|
                0 <= j < self.entries().len() ==> (j < n <==> ik_lt(
                    (#[trigger] self.entries()[j]).0,
                    target@,
                )),
    {
        let ghost es = self.entries();
        let mut lo: usize = 0;
        let mut hi: usize = self.entries.len();
        while lo < hi
            invariant
                self.wf(),
                es == self.entries(),
                is_internal(target@),
                lo <= hi <= es.len(),
                forall|j: int| 0 <= j < lo ==> ik_lt((#[trigger] es[j]).0, target@),
                forall|j: int| hi <= j < es.len() ==> !ik_lt((#[trigger] es[j]).0, target@),
            decreases hi - lo,
        {
            let mid: usize = lo + (hi - lo) / 2;
            assert(es[mid as int].0 == self.entries@[mid as int].0@);
            if internal_key_lt(self.entries[mid].0.as_slice(), target) {
                proof {
                    assert forall|j: int| 0 <= j < mid + 1 implies ik_lt(
                        (#[trigger] es[j]).0,
                        target@,
                    ) by {
                        if j < mid {
                            lemma_internal_total_order(es[j].0, es[mid as int].0, target@);
                        }
                    }
                }
                lo = mid + 1;
            } else {
                proof {
                    assert forall|j: int| mid <= j < es.len() implies !ik_lt(
                        (#[trigger] es[j]).0,
                        target@,
                    ) by {
                        if mid < j {
                            lemma_internal_total_order(es[mid as int].0, es[j].0, target@);
                        }
                    }
                }
                hi = mid;
            }
        }
        lo
    }

    /// How many entries there are.
    pub fn len(&self) -> (n: usize)
        ensures
            n == self.entries().len(),
    {
        self.entries.len()
    }

    /// The internal key of entry `i`.
    pub fn key_at(&self, i: usize) -> (r: &[u8])
        requires
            i < self.entries().len(),
        ensures
            r@ == self.entries()[i as int].0,
    {
        self.entries[i].0.as_slice()
    }

    /// The value of entry `i`.
    pub fn value_at(&self, i: usize) -> (r: &[u8])
        requires
            i < self.entries().len(),
        ensures
            r@ == self.entries()[i as int].1,
    {
        self.entries[i].1.as_slice()
    }

    /// The newest point entry for `key` visible at `snapshot_seq`. Range
    /// tombstones are ignored.
    pub fn get(&self, key: &[u8], snapshot_seq: u64) -> (r: Option<(u64, Option<Vec<u8>>)>)
        requires
            self.wf(),
        ensures
            opt_found(r) == found(self.entries(), key@, snapshot_seq),
    {
        let probe = lookup_key(key, snapshot_seq);
        proof {
            lemma_decode_encoded(key@, snapshot_seq, VALUE_TYPE_DELETION);
        }
        let n: usize = self.lower_bound(probe.as_slice());
        proof {
            lemma_before_probe(self.entries(), key@, snapshot_seq, n as int);
        }
        if n >= self.entries.len() {
            return None;
        }
        assert(is_internal(self.entries()[n as int].0));
        let (user_key, seq, value_type) = decode_internal_key(self.key_at(n));
        if !bytes_eq(user_key, key) {
            return None;
        }
        if value_type == VALUE_TYPE_DELETION {
            Some((seq, None))
        } else {
            Some((seq, Some(copy_bytes(self.value_at(n)))))
        }
    }

    /// Append the visible versions of `key`, newest first, up to and with the
    /// first that is not a merge operand. Returns whether there was such a
    /// one.
    pub fn collect_merge_chain(
        &self,
        key: &[u8],
        snapshot_seq: u64,
        out: &mut Vec<(u64, u8, Vec<u8>)>,
    ) -> (r: bool)
        requires
            self.wf(),
        ensures
            links(final(out)@) == links(old(out)@) + chain(self.entries(), key@, snapshot_seq),
            r == chain_ended(chain(self.entries(), key@, snapshot_seq)),
    {
        let ghost es = self.entries();
        let ghost whole = chain(es, key@, snapshot_seq);
        let ghost out0 = links(out@);
        let probe = lookup_key(key, snapshot_seq);
        proof {
            lemma_decode_encoded(key@, snapshot_seq, VALUE_TYPE_DELETION);
        }
        let mut i: usize = self.lower_bound(probe.as_slice());
        let ghost start = i as int;
        let ghost mut seen: Seq<Link> = Seq::empty();
        proof {
            lemma_before_probe(es, key@, snapshot_seq, i as int);
            assert forall|j: int| 0 <= j < i implies !visible(
                #[trigger] es[j],
                key@,
                snapshot_seq,
            ) by {
                assert(ik_lt(es[j].0, probe@));
                assert(is_internal(es[j].0));
                super::memtable::lemma_probe_parts(es[j].0, key@, snapshot_seq);
            }
            lemma_skip_invisible(es, key@, snapshot_seq, i as int);
            assert(Seq::<Link>::empty() + whole =~= whole);
            assert(out0 + seen =~= out0);
        }
        while i < self.entries.len()
            invariant
                self.wf(),
                es == self.entries(),
                sorted_entries(es),
                whole == chain(es, key@, snapshot_seq),
                out0 == links(old(out)@),
                start <= i <= es.len(),
                forall|j: int| start <= j < es.len() ==> !ik_lt((#[trigger] es[j]).0, probe@),
                probe@ == internal_key(key@, snapshot_seq, VALUE_TYPE_DELETION),
                links(out@) == out0 + seen,
                whole == seen + chain(es.skip(i as int), key@, snapshot_seq),
                forall|j: int| 0 <= j < seen.len() ==> (#[trigger] seen[j]).1 == VALUE_TYPE_MERGE,
            decreases es.len() - i,
        {
            assert(is_internal(es[i as int].0));
            let (user_key, seq, value_type) = decode_internal_key(self.key_at(i));
            proof {
                assert(!ik_lt(es[i as int].0, probe@));
                super::memtable::lemma_probe_parts(es[i as int].0, key@, snapshot_seq);
                assert(es.skip(i as int)[0] == es[i as int]);
                assert(es.skip(i as int).skip(1) =~= es.skip(i + 1));
            }
            if !bytes_eq(user_key, key) {
                proof {
                    super::memtable::lemma_past_user(es, key@, snapshot_seq, i as int);
                    assert(seen + Seq::<Link>::empty() =~= seen);
                }
                return false;
            }
            let ghost link: Link = (seq, value_type, es[i as int].1);
            let ghost out1 = links(out@);
            out.push((seq, value_type, copy_bytes(self.value_at(i))));
            assert(links(out@) =~= out1.push(link));
            if value_type != VALUE_TYPE_MERGE {
                assert(links(out@) =~= out0 + (seen + seq![link]));
                return true;
            }
            proof {
                assert(seen + (seq![link] + chain(es.skip(i + 1), key@, snapshot_seq))
                    =~= seen.push(link) + chain(es.skip(i + 1), key@, snapshot_seq));
                assert(links(out@) =~= out0 + seen.push(link));
                seen = seen.push(link);
            }
            i += 1;
        }
        proof {
            assert(es.skip(i as int).len() == 0);
            assert(seen + Seq::<Link>::empty() =~= seen);
        }
        false
    }

    /// Largest sequence number of a range tombstone that covers `user_key`
    /// and is visible at `snapshot_seq`; `0` if there is none.
    pub fn covering_range_tombstone_seq(&self, user_key: &[u8], snapshot_seq: u64) -> (r: u64)
        requires
            self.wf(),
        ensures
            r == max_covering(self.tombstones(), user_key@, snapshot_seq),
    {
        self.tombstones.max_covering_seq(user_key, snapshot_seq)
    }

    /// Copies of the range tombstones.
    pub fn range_tombstones(&self) -> (r: Vec<RangeTombstone>)
        ensures
            r@.len() == self.tombstones().len(),
            forall|i: int| 0 <= i < r@.len() ==> (#[trigger] r@[i])@ == self.tombstones()[i]@,
    {
        self.tombstones.to_vec()
    }

    /// Copies of all entries, in order.
    pub fn iter_internal(&self) -> (r: Vec<(Vec<u8>, Vec<u8>)>)
        ensures
            pairs(r@) == self.entries(),
    {
        copy_entries(&self.entries)
    }
}

/// `Arc::clone`: another handle to the same value.
#[verifier::external_body]
pub(crate) fn share<T>(shared: &Arc<T>) -> (r: Arc<T>)
    ensures
        r == *shared,
{
    Arc::clone(shared)
}

/// A copy of a list of entries.
pub fn copy_entries(entries: &Vec<(Vec<u8>, Vec<u8>)>) -> (r: Vec<(Vec<u8>, Vec<u8>)>)
    ensures
        pairs(r@) == pairs(entries@),
{
    let mut r: Vec<(Vec<u8>, Vec<u8>)> = Vec::new();
    let mut i: usize = 0;
    while i < entries.len()
        invariant
            i <= entries@.len(),
            r@.len() == i,
            forall|j: int| 0 <= j < i ==> pairs(r@)[j] == pairs(entries@)[j],
        decreases entries@.len() - i,
    {
        let ghost before = r@;
        r.push((copy_bytes(entries[i].0.as_slice()), copy_bytes(entries[i].1.as_slice())));
        assert forall|j: int| 0 <= j < i + 1 implies pairs(r@)[j] == pairs(entries@)[j] by {
            if j < i {
                assert(pairs(before)[j] == pairs(entries@)[j]);
            }
        }
        i += 1;
    }
    assert(pairs(r@) =~= pairs(entries@));
    r
}

/// No key stands between one and the same with a zero byte behind it.
proof fn lemma_none_between(a: Seq<u8>, k: Seq<u8>)
    ensures
        lex_lt(a, a.push(0)),
        lex_lt(a, k) ==> lex_le(a.push(0), k),
    decreases a.len(),
{
    let b = a.push(0);
    lemma_lex_prefix_le(a, seq![0u8]);
    assert(a + seq![0u8] =~= b);
    if lex_lt(a, k) {
        if a.len() == 0 {
            assert(b.skip(1) =~= Seq::<u8>::empty());
            if k.len() == 1 && k[0] == 0 {
                assert(b =~= k);
            } else if k[0] == 0 {
                assert(lex_lt(b.skip(1), k.skip(1)));
            }
        } else if a[0] == k[0] {
            lemma_none_between(a.skip(1), k.skip(1));
            assert(b.skip(1) =~= a.skip(1).push(0));
            if b.skip(1) == k.skip(1) {
                assert(b =~= seq![b[0]] + b.skip(1));
                assert(k =~= seq![k[0]] + k.skip(1));
            }
        }
    }
}

/// A table of the current version: what the manifest says of it, and its
/// contents.
pub struct LiveSst {
    pub meta: SsTableMeta,
    pub reader: SsTableReader,
}

impl LiveSst {
    /// The table is well formed, and lies within what its metadata says.
    pub open spec fn wf(&self) -> bool {
        &&& self.reader.wf()
        &&& self.meta.num_entries == self.reader.entries().len()
        &&& forall|i: int|
            0 <= i < self.reader.entries().len() ==> self.covers(
                user_of((#[trigger] self.reader.entries()[i]).0),
            )
        &&& forall|i: int, k: Seq<u8>|
            0 <= i < self.reader.tombstones().len() && #[trigger] (
            self.reader.tombstones()[i])@.covers(k) ==> self.covers(k)
    }

    /// The range that the metadata announces has `user_key` in it.
    pub open spec fn covers(&self, user_key: Seq<u8>) -> bool {
        lex_le(self.meta.smallest_key@, user_key) && lex_le(user_key, self.meta.largest_key@)
    }

    /// The table of the given contents.
    pub fn new(meta: SsTableMeta, reader: SsTableReader) -> (r: Self)
        ensures
            r.meta == meta,
            r.reader == reader,
    {
        LiveSst { meta, reader }
    }

    /// Whether the range of the metadata has all keys of a tombstone in it.
    fn spans(&self, t: &RangeTombstone) -> (r: bool)
        ensures
            r == (forall|k: Seq<u8>| #[trigger] t@.covers(k) ==> self.covers(k)),
    {
        let ghost lo = self.meta.smallest_key@;
        let ghost hi = self.meta.largest_key@;
        if !bytes_lt(t.start.as_slice(), t.end.as_slice()) {
            assert forall|k: Seq<u8>| #[trigger] t@.covers(k) implies self.covers(k) by {
                lemma_lex_order(t.start@, k, t.end@);
            }
            return true;
        }
        // The least key above the largest one has one more byte, a zero.
        let mut past = copy_bytes(self.meta.largest_key.as_slice());
        past.push(0);
        proof {
            lemma_none_between(hi, hi);
            assert(past@ =~= hi.push(0));
        }
        let r = bytes_le(self.meta.smallest_key.as_slice(), t.start.as_slice()) && bytes_le(
            t.end.as_slice(),
            past.as_slice(),
        );
        proof {
            if r {
                assert forall|k: Seq<u8>| #[trigger] t@.covers(k) implies self.covers(k) by {
                    lemma_lex_order(lo, t.start@, k);
                    lemma_lex_order(k, t.end@, past@);
                    lemma_none_between(hi, k);
                    lemma_lex_trichotomy(hi, k);
                    lemma_lex_order(past@, k, past@);
                }
            } else {
                assert(t@.covers(t.start@));
                if self.covers(t.start@) {
                    lemma_lex_trichotomy(past@, t.end@);
                    lemma_lex_order(t.start@, hi, past@);
                    assert(t@.covers(past@));
                    assert(!self.covers(past@)) by {
                        lemma_lex_order(hi, past@, hi);
                    }
                }
            }
        }
        r
    }

    /// Whether a table that was read holds what its metadata says.
    pub fn is_as_announced(&self) -> (r: bool)
        requires
            self.reader.wf(),
        ensures
            r == self.wf(),
    {
        let entries = &self.reader.entries;
        let ghost es = self.reader.entries();
        let n: usize = entries.len();
        if self.meta.num_entries != n as u64 {
            return false;
        }
        if n > 0 {
            proof {
                assert(is_internal(es[0].0) && is_internal(es[n - 1].0));
            }
            let (first, _, _) = decode_internal_key(entries[0].0.as_slice());
            let (last, _, _) = decode_internal_key(entries[n - 1].0.as_slice());
            if !bytes_le(self.meta.smallest_key.as_slice(), first) || !bytes_le(
                last,
                self.meta.largest_key.as_slice(),
            ) {
                assert(!self.covers(user_of(es[0].0)) || !self.covers(user_of(es[n - 1].0)));
                return false;
            }
            assert forall|i: int| 0 <= i < es.len() implies self.covers(
                user_of((#[trigger] es[i]).0),
            ) by {
                lemma_user_ascends(es, 0, i);
                lemma_user_ascends(es, i, n - 1);
                lemma_lex_order(self.meta.smallest_key@, user_of(es[0].0), user_of(es[i].0));
                lemma_lex_order(user_of(es[i].0), user_of(es[n - 1].0), self.meta.largest_key@);
            }
        }
        let tombstones = self.reader.range_tombstones();
        let ghost ts = self.reader.tombstones();
        let mut i: usize = 0;
        while i < tombstones.len()
            invariant
                i <= tombstones@.len() == ts.len(),
                ts == self.reader.tombstones(),
                forall|j: int| 0 <= j < ts.len() ==> (#[trigger] tombstones@[j])@ == ts[j]@,
                forall|j: int, k: Seq<u8>|
                    0 <= j < i && #[trigger] ts[j]@.covers(k) ==> self.covers(k),
            decreases tombstones@.len() - i,
        {
            assert(tombstones@[i as int]@ == ts[i as int]@);
            if !self.spans(&tombstones[i]) {
                return false;
            }
            i += 1;
        }
        true
    }
}

} // verus!
