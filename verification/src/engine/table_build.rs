//! Making tables out of entries and range tombstones.

use super::block::pairs;
use super::block::sorted_entries;
use super::block_entry::Pair;
use super::internal_key::decode_internal_key;
use super::internal_key::user_of;
use super::memtable::lemma_user_ascends;
use super::range_tombstone::holds;
use super::range_tombstone::lemma_sorted_holds_same;
use super::range_tombstone::tombstone_views;
use super::range_tombstone::RangeTombstone;
use super::range_tombstone::TombstoneView;
use super::sstable::LiveSst;
use super::sstable::SsTableMeta;
use super::sstable::SsTableReader;
use crate::bytes::bytes_lt;
use crate::bytes::copy_bytes;
use crate::bytes::lemma_lex_order;
use crate::bytes::lex_le;
use crate::bytes::lex_lt;
use crate::ordered::is_sort_dedup;
use vstd::prelude::*;

verus! {

/// The lesser of a key, if there is one yet, and another.
pub open spec fn lesser(a: Option<Seq<u8>>, b: Seq<u8>) -> Option<Seq<u8>> {
    match a {
        Some(x) => if lex_lt(b, x) {
            Some(b)
        } else {
            Some(x)
        },
        None => Some(b),
    }
}

/// The greater of a key, if there is one yet, and another.
pub open spec fn greater(a: Option<Seq<u8>>, b: Seq<u8>) -> Option<Seq<u8>> {
    match a {
        Some(x) => if lex_lt(x, b) {
            Some(b)
        } else {
            Some(x)
        },
        None => Some(b),
    }
}

/// The least user key among entries in order and starts of tombstones.
pub open spec fn least_key(es: Seq<Pair>, rts: Seq<TombstoneView>) -> Option<Seq<u8>>
    decreases rts.len(),
{
    if rts.len() > 0 {
        lesser(least_key(es, rts.drop_last()), rts.last().start)
    } else if es.len() > 0 {
        Some(user_of(es[0].0))
    } else {
        None
    }
}

/// The greatest user key among entries in order and ends of tombstones.
pub open spec fn greatest_key(es: Seq<Pair>, rts: Seq<TombstoneView>) -> Option<Seq<u8>>
    decreases rts.len(),
{
    if rts.len() > 0 {
        greater(greatest_key(es, rts.drop_last()), rts.last().end)
    } else if es.len() > 0 {
        Some(user_of(es.last().0))
    } else {
        None
    }
}

/// The range of a table has its entries and tombstones in it.
proof fn lemma_key_range(es: Seq<Pair>, rts: Seq<TombstoneView>)
    requires
        sorted_entries(es),
    ensures
        least_key(es, rts) is Some <==> es.len() > 0 || rts.len() > 0,
        greatest_key(es, rts) is Some <==> es.len() > 0 || rts.len() > 0,
        forall|i: int|
            0 <= i < es.len() ==> lex_le(least_key(es, rts)->0, user_of((#[trigger] es[i]).0))
                && lex_le(user_of(es[i].0), greatest_key(es, rts)->0),
        forall|i: int|
            0 <= i < rts.len() ==> lex_le(least_key(es, rts)->0, (#[trigger] rts[i]).start)
                && lex_le(rts[i].end, greatest_key(es, rts)->0),
    decreases rts.len(),
{
    if rts.len() > 0 {
        let p = rts.drop_last();
        lemma_key_range(es, p);
        let lo = least_key(es, rts)->0;
        let hi = greatest_key(es, rts)->0;
        let lo0 = least_key(es, p);
        let hi0 = greatest_key(es, p);
        let t = rts.last();
        lemma_lex_order(t.start, t.start, t.start);
        lemma_lex_order(t.end, t.end, t.end);
        if lo0 is Some {
            lemma_lex_order(lo0->0, t.start, lo0->0);
            lemma_lex_order(t.start, lo0->0, t.start);
            lemma_lex_order(hi0->0, t.end, hi0->0);
            lemma_lex_order(t.end, hi0->0, t.end);
        }
        assert forall|i: int| 0 <= i < es.len() implies lex_le(
            lo,
            user_of((#[trigger] es[i]).0),
        ) && lex_le(user_of(es[i].0), hi) by {
            lemma_lex_order(lo, lo0->0, user_of(es[i].0));
            lemma_lex_order(user_of(es[i].0), hi0->0, hi);
        }
        assert forall|i: int| 0 <= i < rts.len() implies lex_le(lo, (#[trigger] rts[i]).start)
            && lex_le(rts[i].end, hi) by {
            if i < p.len() {
                assert(p[i] == rts[i]);
                lemma_lex_order(lo, lo0->0, rts[i].start);
                lemma_lex_order(rts[i].end, hi0->0, hi);
            }
        }
    } else {
        assert forall|i: int| 0 <= i < es.len() implies lex_le(
            least_key(es, rts)->0,
            user_of((#[trigger] es[i]).0),
        ) && lex_le(user_of(es[i].0), greatest_key(es, rts)->0) by {
            lemma_user_ascends(es, 0, i);
            lemma_user_ascends(es, i, es.len() - 1);
        }
    }
}

/// `t` is a table of these entries and tombstones; its range spans both.
pub open spec fn is_table_of(t: LiveSst, es: Seq<Pair>, rts: Seq<RangeTombstone>) -> bool {
    &&& t.wf()
    &&& t.meta.num_entries == es.len()
    &&& Some(t.meta.smallest_key@) == least_key(es, tombstone_views(rts))
    &&& Some(t.meta.largest_key@) == greatest_key(es, tombstone_views(rts))
    &&& t.reader.entries() == es
    &&& is_sort_dedup(rts, t.reader.tombstones())
}

/// A table of these entries and tombstones, as it is on disk under this id
/// with this size. Its range spans the entries and the tombstones. `None`
/// where there is nothing to hold.
pub fn build_table(
    entries: Vec<(Vec<u8>, Vec<u8>)>,
    tombstones: Vec<RangeTombstone>,
    file_id: u64,
    file_size: u64,
) -> (r: Option<LiveSst>)
    requires
        sorted_entries(pairs(entries@)),
    ensures
        r is Some <==> entries@.len() > 0 || tombstones@.len() > 0,
        r matches Some(t) ==> is_table_of(t, pairs(entries@), tombstones@) && t.meta.file_id == file_id
            && t.meta.file_size == file_size,
{
    let ghost es = pairs(entries@);
    let ghost ts = tombstone_views(tombstones@);
    let n: usize = entries.len();
    let mut lo: Option<Vec<u8>> = None;
    let mut hi: Option<Vec<u8>> = None;
    assert(ts.take(0) =~= Seq::<TombstoneView>::empty());
    if n > 0 {
        proof {
            assert(es[0].0 == entries@[0].0@);
            assert(es.last().0 == entries@[n - 1].0@);
            assert(es[n - 1] == es.last());
        }
        let (first, _, _) = decode_internal_key(entries[0].0.as_slice());
        lo = Some(copy_bytes(first));
        let (last, _, _) = decode_internal_key(entries[n - 1].0.as_slice());
        hi = Some(copy_bytes(last));
    }
    let mut i: usize = 0;
    while i < tombstones.len()
        invariant
            i <= tombstones@.len(),
            ts == tombstone_views(tombstones@),
            lo is Some <==> least_key(es, ts.take(i as int)) is Some,
            lo matches Some(k) ==> least_key(es, ts.take(i as int)) == Some(k@),
            hi is Some <==> greatest_key(es, ts.take(i as int)) is Some,
            hi matches Some(k) ==> greatest_key(es, ts.take(i as int)) == Some(k@),
        decreases tombstones@.len() - i,
    {
        proof {
            assert(ts.take(i + 1).drop_last() =~= ts.take(i as int));
            assert(ts.take(i + 1).last() == tombstones@[i as int]@);
        }
        let t = &tombstones[i];
        let below = match &lo {
            Some(x) => bytes_lt(t.start.as_slice(), x.as_slice()),
            None => true,
        };
        if below {
            lo = Some(copy_bytes(t.start.as_slice()));
        }
        let above = match &hi {
            Some(x) => bytes_lt(x.as_slice(), t.end.as_slice()),
            None => true,
        };
        if above {
            hi = Some(copy_bytes(t.end.as_slice()));
        }
        i += 1;
    }
    proof {
        assert(ts.take(i as int) =~= ts);
        lemma_key_range(es, ts);
    }
    let smallest_key = match lo {
        Some(x) => x,
        None => return None,
    };
    let largest_key = match hi {
        Some(x) => x,
        None => return None,
    };
    let ghost rts = tombstones@;
    let reader = SsTableReader::new(entries, tombstones);
    let meta = SsTableMeta {
        file_id,
        smallest_key,
        largest_key,
        file_size,
        num_entries: n as u64,
    };
    let table = LiveSst::new(meta, reader);
    proof {
        lemma_sorted_holds_same(rts, reader.tombstones());
        assert forall|i: int| 0 <= i < table.reader.entries().len() implies table.covers(
            user_of((#[trigger] table.reader.entries()[i]).0),
        ) by {
            assert(es[i] == table.reader.entries()[i]);
        }
        assert forall|i: int, k: Seq<u8>|
            0 <= i < table.reader.tombstones().len() && #[trigger] (
            table.reader.tombstones()[i])@.covers(k) implies table.covers(k) by {
            let v = table.reader.tombstones()[i]@;
            assert(holds(table.reader.tombstones(), v));
            assert(holds(rts, v));
            let j = choose|j: int| 0 <= j < rts.len() && (#[trigger] rts[j])@ == v;
            assert(ts[j] == v);
            lemma_lex_order(table.meta.smallest_key@, v.start, k);
            lemma_lex_order(k, v.end, table.meta.largest_key@);
        }
    }
    Some(table)
}

/// The range of a table is no wider than it has to be: its least key is that of
/// an entry or the start of a tombstone, its greatest that of an entry or the
/// end of a tombstone, and all of them lie within.
pub proof fn lemma_range_spans_what_is_there(es: Seq<Pair>, rts: Seq<TombstoneView>)
    requires
        sorted_entries(es),
    ensures
        least_key(es, rts) is Some <==> es.len() > 0 || rts.len() > 0,
        greatest_key(es, rts) is Some <==> es.len() > 0 || rts.len() > 0,
        least_key(es, rts) matches Some(lo) ==> {
            &&& (exists|i: int| 0 <= i < es.len() && user_of((#[trigger] es[i]).0) == lo) || (
            exists|i: int| 0 <= i < rts.len() && (#[trigger] rts[i]).start == lo)
            &&& forall|i: int| 0 <= i < es.len() ==> !lex_lt(user_of((#[trigger] es[i]).0), lo)
            &&& forall|i: int| 0 <= i < rts.len() ==> !lex_lt((#[trigger] rts[i]).start, lo)
        },
        greatest_key(es, rts) matches Some(hi) ==> {
            &&& (exists|i: int| 0 <= i < es.len() && user_of((#[trigger] es[i]).0) == hi) || (
            exists|i: int| 0 <= i < rts.len() && (#[trigger] rts[i]).end == hi)
            &&& forall|i: int| 0 <= i < es.len() ==> !lex_lt(hi, user_of((#[trigger] es[i]).0))
            &&& forall|i: int| 0 <= i < rts.len() ==> !lex_lt(hi, (#[trigger] rts[i]).end)
        },
{
    lemma_key_range(es, rts);
    lemma_ends_are_there(es, rts);
    if least_key(es, rts) is Some {
        let (lo, hi) = (least_key(es, rts)->0, greatest_key(es, rts)->0);
        assert forall|i: int| 0 <= i < es.len() implies !lex_lt(user_of((#[trigger] es[i]).0), lo)
            && !lex_lt(hi, user_of(es[i].0)) by {
            let u = user_of(es[i].0);
            lemma_lex_order(lo, u, lo);
            lemma_lex_order(u, hi, u);
        }
        assert forall|i: int| 0 <= i < rts.len() implies !lex_lt((#[trigger] rts[i]).start, lo)
            && !lex_lt(hi, rts[i].end) by {
            lemma_lex_order(lo, rts[i].start, lo);
            lemma_lex_order(rts[i].end, hi, rts[i].end);
        }
    }
}

proof fn lemma_ends_are_there(es: Seq<Pair>, rts: Seq<TombstoneView>)
    ensures
        least_key(es, rts) matches Some(lo) ==> (exists|i: int|
            0 <= i < es.len() && user_of((#[trigger] es[i]).0) == lo) || (exists|i: int|
            0 <= i < rts.len() && (#[trigger] rts[i]).start == lo),
        greatest_key(es, rts) matches Some(hi) ==> (exists|i: int|
            0 <= i < es.len() && user_of((#[trigger] es[i]).0) == hi) || (exists|i: int|
            0 <= i < rts.len() && (#[trigger] rts[i]).end == hi),
    decreases rts.len(),
{
    if rts.len() > 0 {
        let p = rts.drop_last();
        let n = rts.len() - 1;
        lemma_ends_are_there(es, p);
        assert(rts[n] == rts.last());
        assert forall|i: int| 0 <= i < p.len() implies #[trigger] p[i] == rts[i] by {}
        if least_key(es, rts) == least_key(es, p) && (exists|i: int|
            0 <= i < p.len() && (#[trigger] p[i]).start == least_key(es, p)->0) {
            let i = choose|i: int|
                0 <= i < p.len() && (#[trigger] p[i]).start == least_key(es, p)->0;
            assert(rts[i].start == least_key(es, rts)->0);
        }
        if greatest_key(es, rts) == greatest_key(es, p) && (exists|i: int|
            0 <= i < p.len() && (#[trigger] p[i]).end == greatest_key(es, p)->0) {
            let i = choose|i: int|
                0 <= i < p.len() && (#[trigger] p[i]).end == greatest_key(es, p)->0;
            assert(rts[i].end == greatest_key(es, rts)->0);
        }
    } else if es.len() > 0 {
        assert(user_of(es[0].0) == least_key(es, rts)->0);
        assert(user_of(es[es.len() - 1].0) == greatest_key(es, rts)->0);
    }
}

} // verus!
