//! What a compaction makes of the entries and tombstones of its inputs.
//!
//! The inputs are merged into one sorted run; versions that range tombstones
//! shadow, and versions that no snapshot needs, are dropped; the compaction
//! filter and the merge operator have their say.

use super::block::pairs;
use super::block::sorted_entries;
use super::block_entry::Pair;
use super::hooks::byte_strings;
use super::hooks::opt_bytes;
use super::hooks::CompactionDecision;
use super::hooks::CompactionFilter;
use super::hooks::DecisionView;
use super::hooks::MergeOperator;
use super::internal_key::decode_internal_key;
use super::internal_key::encode_internal_key;
use super::internal_key::ik_lt;
use super::internal_key::internal_key;
use super::internal_key::internal_key_lt;
use super::internal_key::is_internal;
use super::internal_key::lemma_internal_total_order;
use super::internal_key::seq_of;
use super::internal_key::type_of;
use super::internal_key::user_key_of;
use super::internal_key::user_of;
use super::internal_key::VALUE_TYPE_DELETION;
use super::internal_key::VALUE_TYPE_MERGE;
use super::internal_key::VALUE_TYPE_VALUE;
use super::memtable::lemma_user_ascends;
use super::range_tombstone::copy_tombstones;
use super::range_tombstone::lemma_same_views;
use super::range_tombstone::lemma_sorted_covers_same;
use super::range_tombstone::max_covering;
use super::range_tombstone::tombstone_views;
use super::range_tombstone::RangeTombstone;
use super::range_tombstone::RangeTombstoneSet;
use super::range_tombstone::TombstoneView;
use super::versions::chain;
use super::versions::found;
use super::versions::lemma_chain_decides;
use super::versions::lemma_chain_ends;
use super::versions::lemma_chain_push;
use super::versions::visible;
use crate::bytes::bytes_eq;
use crate::bytes::copy_bytes;
use crate::bytes::lemma_lex_order;
use crate::ordered::first_ranked;
use crate::ordered::is_sort_dedup;
use crate::ordered::sort_dedup;
use crate::ordered::Ranked;
use vstd::prelude::*;

verus! {

/// A list of owned entries.
pub type Entries = Vec<(Vec<u8>, Vec<u8>)>;

/// All keys are internal keys.
pub open spec fn internal_keys(es: Seq<Pair>) -> bool {
    forall|i: int| 0 <= i < es.len() ==> is_internal((#[trigger] es[i]).0)
}

// ── Merging the inputs ───────────────────────────────────────────

impl Ranked for (Vec<u8>, Vec<u8>) {
    type Rank = Seq<u8>;

    open spec fn rank(&self) -> Seq<u8> {
        self.0@
    }

    open spec fn rank_ok(r: Seq<u8>) -> bool {
        is_internal(r)
    }

    open spec fn rank_lt(a: Seq<u8>, b: Seq<u8>) -> bool {
        ik_lt(a, b)
    }

    proof fn lemma_rank_order(a: Seq<u8>, b: Seq<u8>, c: Seq<u8>) {
        lemma_internal_total_order(a, b, c);
    }

    fn ranks_before(&self, other: &Self) -> (r: bool) {
        internal_key_lt(self.0.as_slice(), other.0.as_slice())
    }
}

/// The value of the first entry with this key.
pub open spec fn first_value(es: Seq<Pair>, k: Seq<u8>) -> Option<Seq<u8>>
    decreases es.len(),
{
    if es.len() == 0 {
        None
    } else if es[0].0 == k {
        Some(es[0].1)
    } else {
        first_value(es.skip(1), k)
    }
}

/// `merged` is `es` in the order of the internal keys; of the entries with one
/// key the first stays.
pub open spec fn is_merged(es: Seq<Pair>, merged: Seq<Pair>) -> bool {
    &&& sorted_entries(merged)
    &&& forall|k: Seq<u8>| #[trigger] first_value(merged, k) == first_value(es, k)
}

proof fn lemma_first_value(v: Seq<(Vec<u8>, Vec<u8>)>, k: Seq<u8>)
    ensures
        first_value(pairs(v), k) == match first_ranked(v, k) {
            Some(e) => Some(e.1@),
            None => None,
        },
    decreases v.len(),
{
    if v.len() > 0 {
        assert(pairs(v).skip(1) =~= pairs(v.skip(1)));
        lemma_first_value(v.skip(1), k);
    }
}

/// Sort entries by internal key, which puts the newer versions of a user key
/// first, and drop repetitions of a key.
pub fn merge_entries(entries: Entries) -> (r: Entries)
    requires
        internal_keys(pairs(entries@)),
    ensures
        is_merged(pairs(entries@), pairs(r@)),
{
    let ghost v = entries@;
    proof {
        assert forall|i: int| 0 <= i < v.len() implies is_internal((#[trigger] v[i]).rank()) by {
            assert(is_internal(pairs(v)[i].0));
        }
    }
    let r = sort_dedup(entries);
    proof {
        let es = pairs(r@);
        assert forall|i: int| 0 <= i < es.len() implies is_internal((#[trigger] es[i]).0) by {
            assert(is_internal(r@[i].rank()));
        }
        assert forall|i: int, j: int| 0 <= i < j < es.len() implies ik_lt(
            (#[trigger] es[i]).0,
            (#[trigger] es[j]).0,
        ) by {
            assert(ik_lt(r@[i].rank(), r@[j].rank()));
        }
        assert forall|k: Seq<u8>| #[trigger] first_value(es, k) == first_value(pairs(v), k) by {
            lemma_first_value(r@, k);
            lemma_first_value(v, k);
            assert(first_ranked(r@, k) == first_ranked(v, k));
        }
    }
    r
}

// ── Shadowed entries ─────────────────────────────────────────────

/// A tombstone newer than the entry, at or below `pin_seq`, covers its user
/// key: no snapshot from `pin_seq` on sees the entry.
pub open spec fn shadowed(p: Pair, rts: Seq<RangeTombstone>, pin_seq: u64) -> bool {
    max_covering(rts, user_of(p.0), pin_seq) > seq_of(p.0)
}

/// The entries that no tombstone at or below `pin_seq` shadows.
pub open spec fn unshadowed(es: Seq<Pair>, rts: Seq<RangeTombstone>, pin_seq: u64) -> Seq<Pair>
    decreases es.len(),
{
    if es.len() == 0 {
        es
    } else if shadowed(es.last(), rts, pin_seq) {
        unshadowed(es.drop_last(), rts, pin_seq)
    } else {
        unshadowed(es.drop_last(), rts, pin_seq).push(es.last())
    }
}

/// Drop the entries that a tombstone at or below `pin_seq` shadows. What a
/// newer tombstone deletes, the snapshot at `pin_seq` still sees.
pub fn drop_shadowed(entries: Entries, rts: &Vec<RangeTombstone>, pin_seq: u64) -> (r: Entries)
    requires
        internal_keys(pairs(entries@)),
    ensures
        pairs(r@) == unshadowed(pairs(entries@), rts@, pin_seq),
{
    let ghost es = pairs(entries@);
    let copy = copy_tombstones(rts.as_slice());
    let ghost c = copy@;
    let set = RangeTombstoneSet::from_vec(copy);
    let mut out: Entries = Vec::new();
    assert(es.take(0) =~= Seq::<Pair>::empty());
    assert(pairs(out@) =~= Seq::<Pair>::empty());
    for e in it: entries
        invariant
            set.wf(),
            is_sort_dedup(c, set.items()),
            tombstone_views(c) == tombstone_views(rts@),
            internal_keys(es),
            es == pairs(it.seq()),
            pairs(out@) == unshadowed(es.take(it.index()), rts@, pin_seq),
    {
        let ghost i = it.index();
        proof {
            assert(es[i] == (e.0@, e.1@));
            assert(es.take(i + 1).drop_last() =~= es.take(i));
            assert(es.take(i + 1).last() == es[i]);
            assert(is_internal(es[i].0));
        }
        let (uk, seq, _) = decode_internal_key(e.0.as_slice());
        let rt_seq: u64 = set.max_covering_seq(uk, pin_seq);
        proof {
            lemma_sorted_covers_same(c, set.items(), uk@, pin_seq);
            lemma_same_views(c, rts@, uk@, pin_seq);
        }
        if rt_seq <= seq {
            let ghost before = out@;
            out.push(e);
            assert(pairs(out@) =~= pairs(before).push(es[i]));
        }
    }
    assert(es.take(es.len() as int) =~= es);
    out
}

/// What no tombstone shadows stays in order.
pub proof fn lemma_unshadowed_sorted(
    es: Seq<Pair>,
    rts: Seq<RangeTombstone>,
    pin_seq: u64,
)
    requires
        sorted_entries(es),
    ensures
        sorted_entries(unshadowed(es, rts, pin_seq)),
        forall|i: int|
            0 <= i < unshadowed(es, rts, pin_seq).len() ==> es.contains(
                #[trigger] unshadowed(es, rts, pin_seq)[i],
            ),
    decreases es.len(),
{
    if es.len() > 0 {
        let front = es.drop_last();
        lemma_unshadowed_sorted(front, rts, pin_seq);
        let u = unshadowed(front, rts, pin_seq);
        lemma_sorted_onto(es, u);
    }
}

/// A sorted run whose entries all come from before the last entry stays sorted
/// with that entry at its end.
proof fn lemma_sorted_onto(es: Seq<Pair>, u: Seq<Pair>)
    requires
        sorted_entries(es),
        es.len() > 0,
        sorted_entries(u),
        forall|i: int| 0 <= i < u.len() ==> es.drop_last().contains(#[trigger] u[i]),
    ensures
        sorted_entries(u.push(es.last())),
        forall|i: int|
            0 <= i < u.push(es.last()).len() ==> es.contains(#[trigger] u.push(es.last())[i]),
        forall|i: int| 0 <= i < u.len() ==> es.contains(#[trigger] u[i]),
{
    let front = es.drop_last();
    let w = u.push(es.last());
    assert(es[es.len() - 1] == es.last());
    assert forall|i: int| 0 <= i < u.len() implies es.contains(#[trigger] u[i]) by {
        let j = choose|j: int| 0 <= j < front.len() && front[j] == u[i];
        assert(es[j] == u[i]);
    }
    assert forall|i: int, j: int| 0 <= i < j < w.len() implies ik_lt(
        (#[trigger] w[i]).0,
        (#[trigger] w[j]).0,
    ) by {
        assert(w[i] == u[i]);
        if j < u.len() {
            assert(w[j] == u[j]);
        } else {
            let a = choose|a: int| 0 <= a < front.len() && front[a] == u[i];
            assert(es[a] == u[i]);
            assert(ik_lt(es[a].0, es[es.len() - 1].0));
        }
    }
    assert forall|i: int| 0 <= i < w.len() implies is_internal((#[trigger] w[i]).0) by {
        if i < u.len() {
            assert(w[i] == u[i]);
        } else {
            assert(w[i] == es[es.len() - 1]);
        }
    }
    assert forall|i: int| 0 <= i < w.len() implies es.contains(#[trigger] w[i]) by {
        if i < u.len() {
            assert(w[i] == u[i]);
        } else {
            assert(w[i] == es[es.len() - 1]);
        }
    }
}

// ── Versions that no snapshot needs ──────────────────────────────

/// A newer version of the user key of entry `i` is at or below `pin_seq`, and
/// ends the chain of merge operands.
pub open spec fn outlived(es: Seq<Pair>, i: int, pin_seq: u64) -> bool {
    exists|j: int|
        0 <= j < i && user_of((#[trigger] es[j]).0) == user_of(es[i].0) && seq_of(es[j].0)
            <= pin_seq && type_of(es[j].0) != VALUE_TYPE_MERGE
}

/// Entry `i` has to stay: it is newer than `pin_seq`, or it is the version
/// that a read at `pin_seq` needs.
pub open spec fn needed(es: Seq<Pair>, i: int, pin_seq: u64) -> bool {
    seq_of(es[i].0) > pin_seq || !outlived(es, i, pin_seq)
}

/// The entries that a read at `pin_seq` or later may need.
pub open spec fn collected(es: Seq<Pair>, pin_seq: u64) -> Seq<Pair>
    decreases es.len(),
{
    if es.len() == 0 {
        es
    } else if needed(es, es.len() - 1, pin_seq) {
        collected(es.drop_last(), pin_seq).push(es.last())
    } else {
        collected(es.drop_last(), pin_seq)
    }
}

/// In a sorted run a user key that differs from the one before is new.
proof fn lemma_new_group(es: Seq<Pair>, i: int)
    requires
        sorted_entries(es),
        0 < i < es.len(),
        user_of(es[i - 1].0) != user_of(es[i].0),
    ensures
        forall|j: int| 0 <= j < i ==> user_of((#[trigger] es[j]).0) != user_of(es[i].0),
{
    assert forall|j: int| 0 <= j < i implies user_of((#[trigger] es[j]).0) != user_of(
        es[i].0,
    ) by {
        lemma_user_ascends(es, j, i - 1);
        lemma_user_ascends(es, i - 1, i);
        lemma_lex_order(user_of(es[j].0), user_of(es[i - 1].0), user_of(es[i].0));
        lemma_lex_order(user_of(es[i - 1].0), user_of(es[i].0), user_of(es[j].0));
        lemma_lex_order(user_of(es[i].0), user_of(es[i - 1].0), user_of(es[j].0));
    }
}

/// Drop every version that no live snapshot and no current reader can
/// observe. The entries are in internal-key order, newest version first within
/// a user key.
///
/// Entries newer than `pin_seq` stay. Of those at or below it the first stays,
/// which is the version that the oldest live snapshot reads; a merge operand
/// needs what it is layered on, so the chain stays up to and with the first
/// value or deletion. Without a snapshot `pin_seq` is `u64::MAX`.
pub fn gc_old_versions(entries: Entries, pin_seq: u64) -> (r: Entries)
    requires
        sorted_entries(pairs(entries@)),
    ensures
        pairs(r@) == collected(pairs(entries@), pin_seq),
{
    let ghost es = pairs(entries@);
    let mut out: Entries = Vec::new();
    let mut current_user_key: Vec<u8> = Vec::new();
    let mut started = false;
    let mut chain_terminated = false;
    assert(es.take(0) =~= Seq::<Pair>::empty());
    assert(pairs(out@) =~= Seq::<Pair>::empty());
    for e in it: entries
        invariant
            sorted_entries(es),
            es == pairs(it.seq()),
            pairs(out@) == collected(es.take(it.index()), pin_seq),
            started <==> it.index() > 0,
            started ==> current_user_key@ == user_of(es[it.index() - 1].0),
            started ==> chain_terminated == exists|j: int|
                0 <= j < it.index() && user_of((#[trigger] es[j]).0) == current_user_key@
                    && seq_of(es[j].0) <= pin_seq && type_of(es[j].0) != VALUE_TYPE_MERGE,
    {
        let ghost i = it.index();
        let ghost t = es.take(i + 1);
        proof {
            assert(es[i] == (e.0@, e.1@));
            assert(t.drop_last() =~= es.take(i));
            assert(t.last() == es[i]);
            assert(is_internal(es[i].0));
            assert forall|j: int| 0 <= j <= i implies t[j] == es[j] by {}
        }
        let (uk, seq, vt) = decode_internal_key(e.0.as_slice());
        if !started || !bytes_eq(uk, current_user_key.as_slice()) {
            proof {
                if started {
                    lemma_new_group(es, i);
                }
            }
            current_user_key = copy_bytes(uk);
            started = true;
            chain_terminated = false;
        }
        proof {
            assert(chain_terminated == outlived(t, i, pin_seq)) by {
                if outlived(t, i, pin_seq) {
                    let j = choose|j: int|
                        0 <= j < i && user_of((#[trigger] t[j]).0) == user_of(t[i].0) && seq_of(
                            t[j].0,
                        ) <= pin_seq && type_of(t[j].0) != VALUE_TYPE_MERGE;
                    assert(user_of(es[j].0) == current_user_key@);
                }
                if chain_terminated {
                    let j = choose|j: int|
                        0 <= j < i && user_of((#[trigger] es[j]).0) == current_user_key@
                            && seq_of(es[j].0) <= pin_seq && type_of(es[j].0)
                            != VALUE_TYPE_MERGE;
                    assert(user_of(t[j].0) == user_of(t[i].0));
                }
            }
        }
        let ghost before = out@;
        let ghost was = chain_terminated;
        let keep = seq > pin_seq || !chain_terminated;
        if seq <= pin_seq && vt != VALUE_TYPE_MERGE {
            chain_terminated = true;
        }
        proof {
            if seq <= pin_seq && vt != VALUE_TYPE_MERGE {
                assert(user_of(es[i].0) == current_user_key@);
            }
            if exists|j: int|
                0 <= j < i + 1 && user_of((#[trigger] es[j]).0) == current_user_key@ && seq_of(
                    es[j].0,
                ) <= pin_seq && type_of(es[j].0) != VALUE_TYPE_MERGE {
                let j = choose|j: int|
                    0 <= j < i + 1 && user_of((#[trigger] es[j]).0) == current_user_key@
                        && seq_of(es[j].0) <= pin_seq && type_of(es[j].0) != VALUE_TYPE_MERGE;
                if j < i {
                    assert(user_of(t[j].0) == user_of(t[i].0));
                    assert(was);
                }
            }
            if was {
                let j = choose|j: int|
                    0 <= j < i && user_of((#[trigger] t[j]).0) == user_of(t[i].0) && seq_of(
                        t[j].0,
                    ) <= pin_seq && type_of(t[j].0) != VALUE_TYPE_MERGE;
                assert(user_of(es[j].0) == current_user_key@);
            }
        }
        if keep {
            out.push(e);
            assert(pairs(out@) =~= pairs(before).push(es[i]));
        }
    }
    assert(es.take(es.len() as int) =~= es);
    out
}

/// Collecting old versions changes no read at `pin_seq` or later: lookups find
/// the same, and merge chains stay whole.
pub proof fn lemma_collecting_keeps_reads(
    es: Seq<Pair>,
    pin_seq: u64,
    user_key: Seq<u8>,
    snapshot_seq: u64,
)
    requires
        pin_seq <= snapshot_seq,
    ensures
        chain(collected(es, pin_seq), user_key, snapshot_seq) == chain(es, user_key, snapshot_seq),
        found(collected(es, pin_seq), user_key, snapshot_seq) == found(es, user_key, snapshot_seq),
    decreases es.len(),
{
    if es.len() > 0 {
        let front = es.drop_last();
        let p = es.last();
        let i = es.len() - 1;
        lemma_collecting_keeps_reads(front, pin_seq, user_key, snapshot_seq);
        assert(front.push(p) =~= es);
        lemma_chain_push(front, p, user_key, snapshot_seq);
        if needed(es, i, pin_seq) {
            lemma_chain_push(collected(front, pin_seq), p, user_key, snapshot_seq);
        } else if visible(p, user_key, snapshot_seq) {
            let j = choose|j: int|
                0 <= j < i && user_of((#[trigger] es[j]).0) == user_of(es[i].0) && seq_of(es[j].0)
                    <= pin_seq && type_of(es[j].0) != VALUE_TYPE_MERGE;
            assert(front[j] == es[j]);
            lemma_chain_ends(front, j, user_key, snapshot_seq);
        }
    }
    lemma_chain_decides(collected(es, pin_seq), es, user_key, snapshot_seq);
}

/// What is needed stays in order.
pub proof fn lemma_collected_sorted(es: Seq<Pair>, pin_seq: u64)
    requires
        sorted_entries(es),
    ensures
        sorted_entries(collected(es, pin_seq)),
        forall|i: int|
            0 <= i < collected(es, pin_seq).len() ==> es.contains(
                #[trigger] collected(es, pin_seq)[i],
            ),
    decreases es.len(),
{
    if es.len() > 0 {
        let front = es.drop_last();
        lemma_collected_sorted(front, pin_seq);
        lemma_sorted_onto(es, collected(front, pin_seq));
    }
}

// ── The compaction filter ────────────────────────────────────────

/// What a decision makes of an entry. A removed value becomes a deletion at
/// the same sequence number, so that no older version resurfaces.
pub open spec fn decided(p: Pair, d: DecisionView) -> Pair {
    match d {
        DecisionView::Keep => p,
        DecisionView::Change(v) => (p.0, v),
        DecisionView::Remove => (
            internal_key(user_of(p.0), seq_of(p.0), VALUE_TYPE_DELETION),
            Seq::<u8>::empty(),
        ),
    }
}

/// `out` is what the filter may make of `p`: deletions and merge operands pass
/// as they are.
pub open spec fn may_become<F: CompactionFilter>(
    filter: F,
    level: nat,
    p: Pair,
    out: Pair,
) -> bool {
    if type_of(p.0) != VALUE_TYPE_VALUE {
        out == p
    } else {
        exists|d: DecisionView| #[trigger]
            filter.filter_may(level, user_of(p.0), p.1, d) && out == decided(p, d)
    }
}

/// `out` is what the filter may make of the entries, one by one.
pub open spec fn may_filter<F: CompactionFilter>(
    filter: F,
    level: nat,
    es: Seq<Pair>,
    out: Seq<Pair>,
) -> bool {
    &&& out.len() == es.len()
    &&& forall|i: int|
        0 <= i < es.len() ==> may_become(filter, level, #[trigger] es[i], out[i])
}

/// Do with an entry what a decision says.
pub fn apply_decision(entry: (Vec<u8>, Vec<u8>), decision: CompactionDecision) -> (r: (
    Vec<u8>,
    Vec<u8>,
))
    requires
        is_internal(entry.0@),
    ensures
        (r.0@, r.1@) == decided((entry.0@, entry.1@), decision@),
{
    match decision {
        CompactionDecision::Keep => entry,
        CompactionDecision::Change(new_value) => (entry.0, new_value),
        CompactionDecision::Remove => {
            let (uk, seq, _) = decode_internal_key(entry.0.as_slice());
            let tombstone_key = encode_internal_key(uk, seq, VALUE_TYPE_DELETION);
            let none: Vec<u8> = Vec::new();
            assert(none@ =~= Seq::<u8>::empty());
            (tombstone_key, none)
        },
    }
}

/// Run the filter over every value and do what it decides. Deletions and merge
/// operands pass without the filter being asked.
pub fn apply_compaction_filter<F: CompactionFilter>(
    entries: Entries,
    filter: &F,
    level: usize,
) -> (r: Entries)
    requires
        internal_keys(pairs(entries@)),
    ensures
        may_filter(*filter, level as nat, pairs(entries@), pairs(r@)),
{
    let ghost es = pairs(entries@);
    let mut out: Entries = Vec::new();
    for e in it: entries
        invariant
            internal_keys(es),
            es == pairs(it.seq()),
            out@.len() == it.index(),
            forall|i: int|
                0 <= i < it.index() ==> may_become(
                    *filter,
                    level as nat,
                    #[trigger] es[i],
                    pairs(out@)[i],
                ),
    {
        let ghost i = it.index();
        let ghost before = out@;
        proof {
            assert(es[i] == (e.0@, e.1@));
            assert(is_internal(es[i].0));
        }
        let (uk, _, vt) = decode_internal_key(e.0.as_slice());
        if vt != VALUE_TYPE_VALUE {
            out.push(e);
        } else {
            let decision = filter.filter(level, uk, e.1.as_slice());
            let ghost d = decision@;
            let changed = apply_decision(e, decision);
            proof {
                assert(filter.filter_may(level as nat, user_of(es[i].0), es[i].1, d));
                assert((changed.0@, changed.1@) == decided(es[i], d));
            }
            out.push(changed);
        }
        proof {
            assert forall|j: int| 0 <= j < i + 1 implies may_become(
                *filter,
                level as nat,
                #[trigger] es[j],
                pairs(out@)[j],
            ) by {
                if j < i {
                    assert(pairs(out@)[j] == pairs(before)[j]);
                }
            }
        }
    }
    out
}

/// `out` is what the filter may leave of the tombstones.
pub open spec fn may_keep_ranges<F: CompactionFilter>(
    filter: F,
    level: nat,
    rts: Seq<TombstoneView>,
    out: Seq<TombstoneView>,
) -> bool
    decreases rts.len(),
{
    if rts.len() == 0 {
        out.len() == 0
    } else {
        let t = rts.last();
        exists|d: DecisionView| #[trigger]
            filter.filter_range_may(level, t.start, t.end, d) && if d is Remove {
                may_keep_ranges(filter, level, rts.drop_last(), out)
            } else {
                out.len() > 0 && out.last() == rts.last() && may_keep_ranges(
                    filter,
                    level,
                    rts.drop_last(),
                    out.drop_last(),
                )
            }
    }
}

/// Run the filter over the tombstones, and drop those that it removes.
pub fn filter_tombstones<F: CompactionFilter>(
    rts: Vec<RangeTombstone>,
    filter: &F,
    level: usize,
) -> (r: Vec<RangeTombstone>)
    ensures
        may_keep_ranges(*filter, level as nat, tombstone_views(rts@), tombstone_views(r@)),
{
    let ghost all = tombstone_views(rts@);
    let mut out: Vec<RangeTombstone> = Vec::new();
    for t in it: rts
        invariant
            all == tombstone_views(it.seq()),
            may_keep_ranges(*filter, level as nat, all.take(it.index()), tombstone_views(out@)),
    {
        let ghost i = it.index();
        let ghost before = tombstone_views(out@);
        let ghost next = all.take(i + 1);
        proof {
            assert(t@ == all[i]);
            assert(next.drop_last() =~= all.take(i));
            assert(next.last() == t@);
        }
        let decision = filter.filter_range_delete(level, t.start.as_slice(), t.end.as_slice());
        let ghost d = decision@;
        assert(filter.filter_range_may(level as nat, next.last().start, next.last().end, d));
        match decision {
            CompactionDecision::Remove => {},
            _ => {
                out.push(t);
                assert(tombstone_views(out@).drop_last() =~= before);
            },
        }
    }
    assert(all.take(all.len() as int) =~= all);
    out
}

// ── Merge chains ─────────────────────────────────────────────────

/// How many entries at the front are merge operands.
pub open spec fn operand_count(es: Seq<Pair>) -> nat
    decreases es.len(),
{
    if es.len() == 0 || type_of(es[0].0) != VALUE_TYPE_MERGE {
        0
    } else {
        1 + operand_count(es.skip(1))
    }
}

/// The values of the first `n` entries, last to first: of merge operands,
/// oldest first.
pub open spec fn operands_oldest_first(es: Seq<Pair>, n: nat) -> Seq<Seq<u8>> {
    Seq::new(n, |i: int| es[n - 1 - i].1)
}

/// The value or the deletion that ends the chain of operands.
pub open spec fn terminator(group: Seq<Pair>) -> Option<Pair> {
    let n = operand_count(group) as int;
    if n < group.len() && (type_of(group[n].0) == VALUE_TYPE_VALUE || type_of(group[n].0)
        == VALUE_TYPE_DELETION) {
        Some(group[n])
    } else {
        None
    }
}

/// The base value that a terminator gives to the operands.
pub open spec fn base_of(p: Pair) -> Option<Seq<u8>> {
    if type_of(p.0) == VALUE_TYPE_VALUE {
        Some(p.1)
    } else {
        None
    }
}

/// Folding one more operand onto `acc` may give `result`: what failed stays
/// failed.
pub open spec fn may_fold_on<M: MergeOperator>(
    op: M,
    key: Seq<u8>,
    acc: Option<Seq<u8>>,
    operand: Seq<u8>,
    result: Option<Seq<u8>>,
) -> bool {
    match acc {
        Some(a) => op.partial_may(key, a, operand, result),
        None => result is None,
    }
}

/// Folding `operands` pairwise, oldest first, may give `result`; `None` where
/// a pair cannot be combined.
pub open spec fn may_fold<M: MergeOperator>(
    op: M,
    key: Seq<u8>,
    operands: Seq<Seq<u8>>,
    result: Option<Seq<u8>>,
) -> bool
    decreases operands.len(),
{
    if operands.len() <= 1 {
        operands.len() == 1 && result == Some(operands[0])
    } else {
        exists|acc: Option<Seq<u8>>| #[trigger]
            may_fold_on(op, key, acc, operands.last(), result) && may_fold(
                op,
                key,
                operands.drop_last(),
                acc,
            )
    }
}

/// `out` is what the operator may make of the versions of one user key, newest
/// first.
///
/// Operands on a value or a deletion become one value, at the sequence number
/// of the newest operand, in place of all versions.
/// Operands without a terminator become one operand, if all can be folded.
/// What the operator rejects stays as it is.
pub open spec fn may_collapse<M: MergeOperator>(
    op: M,
    key: Seq<u8>,
    group: Seq<Pair>,
    out: Seq<Pair>,
) -> bool {
    let n = operand_count(group);
    if n == 0 {
        out == group
    } else {
        match terminator(group) {
            Some(t) => exists|r: Option<Seq<u8>>| #[trigger]
                op.full_may(key, base_of(t), operands_oldest_first(group, n), r) && match r {
                    Some(v) => out == seq![
                        (internal_key(key, seq_of(group[0].0), VALUE_TYPE_VALUE), v),
                    ],
                    None => out == group,
                },
            None => if n == 1 {
                out == group
            } else {
                exists|r: Option<Seq<u8>>| #[trigger]
                    may_fold(op, key, operands_oldest_first(group, n), r) && match r {
                        Some(v) => out == seq![
                            (internal_key(key, seq_of(group[0].0), VALUE_TYPE_MERGE), v),
                        ],
                        None => out == group,
                    }
            },
        }
    }
}

/// `out` is what the operator may make of the entries, user key by user key.
pub open spec fn may_collapse_all<M: MergeOperator>(op: M, es: Seq<Pair>, out: Seq<Pair>) -> bool
    decreases es.len(),
{
    if es.len() == 0 {
        out.len() == 0
    } else {
        let key = user_of(es.last().0);
        exists|start: int, n: int|
            0 <= start < es.len() && 0 <= n <= out.len() && #[trigger] is_last_group(
                es,
                start,
            ) && #[trigger] may_collapse(op, key, es.skip(start), out.skip(n))
                && may_collapse_all(op, es.take(start), out.take(n))
    }
}

/// The entries from `start` on are the versions of the last user key.
pub open spec fn is_last_group(es: Seq<Pair>, start: int) -> bool {
    &&& 0 <= start < es.len()
    &&& forall|i: int|
        start <= i < es.len() ==> user_of((#[trigger] es[i]).0) == user_of(es.last().0)
    &&& start > 0 ==> user_of(es[start - 1].0) != user_of(es.last().0)
}

/// The entries at the front that count as operands are operands, and the next is
/// none.
pub proof fn lemma_operand_count(es: Seq<Pair>)
    ensures
        operand_count(es) <= es.len(),
        forall|i: int|
            0 <= i < operand_count(es) ==> type_of((#[trigger] es[i]).0) == VALUE_TYPE_MERGE,
        operand_count(es) < es.len() ==> type_of(es[operand_count(es) as int].0)
            != VALUE_TYPE_MERGE,
    decreases es.len(),
{
    if es.len() > 0 && type_of(es[0].0) == VALUE_TYPE_MERGE {
        let t = es.skip(1);
        lemma_operand_count(t);
        assert forall|i: int| 0 <= i < operand_count(es) implies type_of((#[trigger] es[i]).0)
            == VALUE_TYPE_MERGE by {
            if i > 0 {
                assert(t[i - 1] == es[i]);
            }
        }
        if operand_count(es) < es.len() {
            assert(t[operand_count(t) as int] == es[operand_count(es) as int]);
        }
    }
}

proof fn lemma_operand_count_is(es: Seq<Pair>, n: int)
    requires
        0 <= n <= es.len(),
        forall|i: int| 0 <= i < n ==> type_of((#[trigger] es[i]).0) == VALUE_TYPE_MERGE,
        n < es.len() ==> type_of(es[n].0) != VALUE_TYPE_MERGE,
    ensures
        operand_count(es) == n,
    decreases n,
{
    if n > 0 {
        let t = es.skip(1);
        assert(type_of(es[0].0) == VALUE_TYPE_MERGE);
        assert forall|i: int| 0 <= i < n - 1 implies type_of((#[trigger] t[i]).0)
            == VALUE_TYPE_MERGE by {
            assert(t[i] == es[i + 1]);
        }
        if n < es.len() {
            assert(t[n - 1] == es[n]);
        }
        lemma_operand_count_is(t, n - 1);
    }
}

/// Copies of the entries `from..to`, appended to `out`.
fn append_copies(out: &mut Entries, entries: &Entries, from: usize, to: usize)
    requires
        from <= to <= entries@.len(),
    ensures
        pairs(final(out)@) == pairs(old(out)@) + pairs(entries@).subrange(from as int, to as int),
{
    let ghost es = pairs(entries@);
    let ghost out0 = pairs(out@);
    let mut i: usize = from;
    assert(out0 + es.subrange(from as int, from as int) =~= out0);
    while i < to
        invariant
            from <= i <= to <= entries@.len(),
            es == pairs(entries@),
            out0 == pairs(old(out)@),
            pairs(out@) == out0 + es.subrange(from as int, i as int),
        decreases to - i,
    {
        let ghost before = out@;
        let copy = (
            copy_bytes(entries[i].0.as_slice()),
            copy_bytes(entries[i].1.as_slice()),
        );
        assert((copy.0@, copy.1@) == es[i as int]);
        out.push(copy);
        assert(pairs(out@) =~= pairs(before).push(es[i as int]));
        assert(out0 + es.subrange(from as int, i + 1) =~= (out0 + es.subrange(
            from as int,
            i as int,
        )).push(es[i as int]));
        i += 1;
    }
}

/// The values of the entries `from..from + n`, last to first.
fn collect_operands(entries: &Entries, from: usize, n: usize) -> (r: Vec<Vec<u8>>)
    requires
        from + n <= entries@.len(),
    ensures
        byte_strings(r@) == operands_oldest_first(pairs(entries@).skip(from as int), n as nat),
{
    let mut r: Vec<Vec<u8>> = Vec::new();
    let mut i: usize = n;
    let len: usize = entries.len();
    while i > 0
        invariant
            i <= n,
            from + n <= len,
            len == entries@.len(),
            r@.len() == n - i,
            forall|j: int|
                0 <= j < r@.len() ==> (#[trigger] r@[j])@ == pairs(entries@)[from + n - 1 - j].1,
        decreases i,
    {
        i -= 1;
        r.push(copy_bytes(entries[from + i].1.as_slice()));
    }
    assert(byte_strings(r@) =~= operands_oldest_first(pairs(entries@).skip(from as int), n as nat));
    r
}

/// Fold operands pairwise, oldest first; `None` where a pair cannot be
/// combined.
pub fn fold_operands<M: MergeOperator>(op: &M, key: &[u8], operands: &Vec<Vec<u8>>) -> (r: Option<
    Vec<u8>,
>)
    requires
        operands@.len() > 0,
    ensures
        may_fold(*op, key@, byte_strings(operands@), opt_bytes(r)),
{
    let ghost all = byte_strings(operands@);
    let mut acc = copy_bytes(operands[0].as_slice());
    let mut i: usize = 1;
    assert(all.take(1).len() == 1);
    assert(may_fold(*op, key@, all.take(1), Some(acc@)));
    while i < operands.len()
        invariant
            1 <= i <= operands@.len(),
            all == byte_strings(operands@),
            may_fold(*op, key@, all.take(i as int), Some(acc@)),
        decreases operands@.len() - i,
    {
        let ghost a: Option<Seq<u8>> = Some(acc@);
        let ghost next = all.take(i + 1);
        proof {
            assert(next.drop_last() =~= all.take(i as int));
            assert(next.last() == operands@[i as int]@);
        }
        match op.partial_merge(key, acc.as_slice(), operands[i].as_slice()) {
            Some(folded) => {
                assert(may_fold_on(*op, key@, a, next.last(), Some(folded@)));
                assert(may_fold(*op, key@, next, Some(folded@)));
                acc = folded;
            },
            None => {
                proof {
                    assert(may_fold_on(*op, key@, a, next.last(), None::<Seq<u8>>));
                    assert(may_fold(*op, key@, next, None::<Seq<u8>>));
                    lemma_fold_fails(*op, key@, all, i + 1);
                }
                return None;
            },
        }
        i += 1;
    }
    assert(all.take(i as int) =~= all);
    Some(acc)
}

/// A fold that failed stays failed.
proof fn lemma_fold_fails<M: MergeOperator>(op: M, key: Seq<u8>, all: Seq<Seq<u8>>, n: int)
    requires
        2 <= n <= all.len(),
        may_fold(op, key, all.take(n), None),
    ensures
        may_fold(op, key, all, None),
    decreases all.len() - n,
{
    if n == all.len() {
        assert(all.take(n) =~= all);
    } else {
        let next = all.take(n + 1);
        assert(next.drop_last() =~= all.take(n));
        let none: Option<Seq<u8>> = None;
        assert(may_fold_on(op, key, none, next.last(), none));
        assert(may_fold(op, key, next, none));
        lemma_fold_fails(op, key, all, n + 1);
    }
}

/// Append what the operator makes of the versions `start..end` of one user
/// key.
fn collapse_group<M: MergeOperator>(
    entries: &Entries,
    start: usize,
    end: usize,
    op: &M,
    out: &mut Entries,
) -> (made: Ghost<Seq<Pair>>)
    requires
        start < end <= entries@.len(),
        internal_keys(pairs(entries@)),
        forall|i: int|
            start <= i < end ==> user_of((#[trigger] pairs(entries@)[i]).0) == user_of(
                pairs(entries@)[start as int].0,
            ),
    ensures
        pairs(final(out)@) == pairs(old(out)@) + made@,
        may_collapse(
            *op,
            user_of(pairs(entries@)[start as int].0),
            pairs(entries@).subrange(start as int, end as int),
            made@,
        ),
{
    let ghost es = pairs(entries@);
    let ghost group = es.subrange(start as int, end as int);
    let ghost key = user_of(es[start as int].0);
    let ghost out0 = pairs(out@);
    let mut n: usize = 0;
    let mut ended = false;
    let mut end_type: u8 = 0;
    while start + n < end && !ended
        invariant
            start + n <= end <= entries@.len(),
            es == pairs(entries@),
            internal_keys(es),
            group == es.subrange(start as int, end as int),
            forall|i: int| 0 <= i < n ==> type_of((#[trigger] group[i]).0) == VALUE_TYPE_MERGE,
            ended ==> start + n < end && type_of(group[n as int].0) == end_type && end_type
                != VALUE_TYPE_MERGE,
        decreases
                    end - start - n,
                    if ended {
                        0int
                    } else {
                        1int
                    },
    {
        assert(is_internal(es[start + n].0));
        assert(es[start + n].0 == entries@[start + n].0@);
        assert(group[n as int] == es[start + n]);
        let (_, _, vt) = decode_internal_key(entries[start + n].0.as_slice());
        if vt == VALUE_TYPE_MERGE {
            n += 1;
        } else {
            end_type = vt;
            ended = true;
        }
    }
    proof {
        lemma_operand_count_is(group, n as int);
        assert(group[0] == es[start as int]);
    }
    if n == 0 {
        append_copies(out, entries, start, end);
        return Ghost(group);
    }
    assert(is_internal(es[start as int].0));
    assert(es[start as int].0 == entries@[start as int].0@);
    let (uk, newest_seq, _) = decode_internal_key(entries[start].0.as_slice());
    let operands = collect_operands(entries, start, n);
    proof {
        assert(operands_oldest_first(es.skip(start as int), n as nat) =~= operands_oldest_first(
            group,
            n as nat,
        ));
    }
    if ended && (end_type == VALUE_TYPE_VALUE || end_type == VALUE_TYPE_DELETION) {
        assert(group[n as int] == es[start + n]);
        let base: Option<&[u8]> = if end_type == VALUE_TYPE_VALUE {
            Some(entries[start + n].1.as_slice())
        } else {
            None
        };
        let merged = op.full_merge(uk, base, &operands);
        let ghost r = opt_bytes(merged);
        assert(op.full_may(key, base_of(group[n as int]), operands_oldest_first(group, n as nat), r));
        match merged {
            Some(collapsed) => {
                let new_key = encode_internal_key(uk, newest_seq, VALUE_TYPE_VALUE);
                let ghost head = (new_key@, collapsed@);
                out.push((new_key, collapsed));
                let ghost made = seq![head];
                assert(pairs(out@) =~= out0 + made);
                Ghost(made)
            },
            None => {
                append_copies(out, entries, start, end);
                Ghost(group)
            },
        }
    } else {
        if n == 1 {
            append_copies(out, entries, start, end);
            return Ghost(group);
        }
        let folded = fold_operands(op, uk, &operands);
        let ghost r = opt_bytes(folded);
        assert(may_fold(*op, key, operands_oldest_first(group, n as nat), r));
        match folded {
            Some(acc) => {
                let new_key = encode_internal_key(uk, newest_seq, VALUE_TYPE_MERGE);
                let ghost head = (new_key@, acc@);
                out.push((new_key, acc));
                let ghost made = seq![head];
                assert(pairs(out@) =~= out0 + made);
                Ghost(made)
            },
            None => {
                append_copies(out, entries, start, end);
                Ghost(group)
            },
        }
    }
}

/// Walk the entries user key by user key and let the operator collapse the
/// merge chains. Anything that it rejects stays as it is, so a failing merge
/// never loses data.
pub fn collapse_merge_chains<M: MergeOperator>(entries: Entries, op: &M) -> (r: Entries)
    requires
        internal_keys(pairs(entries@)),
    ensures
        may_collapse_all(*op, pairs(entries@), pairs(r@)),
{
    let ghost es = pairs(entries@);
    let mut out: Entries = Vec::new();
    let mut i: usize = 0;
    assert(pairs(out@) =~= Seq::<Pair>::empty());
    while i < entries.len()
        invariant
            i <= entries@.len(),
            es == pairs(entries@),
            internal_keys(es),
            may_collapse_all(*op, es.take(i as int), pairs(out@)),
            0 < i < es.len() ==> user_of(es[i - 1].0) != user_of(es[i as int].0),
        decreases entries@.len() - i,
    {
        let start: usize = i;
        let mut end: usize = i + 1;
        assert(is_internal(es[start as int].0));
        assert(es[start as int].0 == entries@[start as int].0@);
        let uk = user_key_of(entries[start].0.as_slice());
        let mut same = true;
        while end < entries.len() && same
            invariant
                start < end <= entries@.len(),
                es == pairs(entries@),
                internal_keys(es),
                uk@ == user_of(es[start as int].0),
                forall|j: int| start <= j < end ==> user_of((#[trigger] es[j]).0) == uk@,
                !same ==> end < es.len() && user_of(es[end as int].0) != uk@,
            decreases
                    entries@.len() - end,
                    if same {
                        1int
                    } else {
                        0int
                    },
        {
            assert(is_internal(es[end as int].0));
            assert(es[end as int].0 == entries@[end as int].0@);
            if bytes_eq(user_key_of(entries[end].0.as_slice()), uk) {
                end += 1;
            } else {
                same = false;
            }
        }
        let ghost before = pairs(out@);
        let Ghost(made) = collapse_group(&entries, start, end, op, &mut out);
        proof {
            let t = es.take(end as int);
            let n = before.len() as int;
            assert(t.last() == es[end - 1]);
            assert(t.skip(start as int) =~= es.subrange(start as int, end as int));
            assert(t.take(start as int) =~= es.take(start as int));
            assert(pairs(out@).skip(n) =~= made);
            assert(pairs(out@).take(n) =~= before);
            assert(is_last_group(t, start as int));
            assert(may_collapse(*op, user_of(t.last().0), t.skip(start as int), pairs(out@).skip(n)));
            assert(may_collapse_all(*op, t, pairs(out@)));
        }
        i = end;
    }
    assert(es.take(i as int) =~= es);
    out
}

} // verus!
