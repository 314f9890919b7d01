//! Which entries a compaction carries on: exactly those that some reader at or
//! after the oldest live snapshot may need.

use super::block::sorted_entries;
use super::block_entry::Pair;
use super::compaction::compacts;
use super::compaction::lemma_first_value_in;
use super::compaction::lemma_merged_members;
use super::compaction::lemma_unshadowed_drops;
use super::compaction::may_compact;
use super::compaction::one_value;
use super::compaction_merge::collected;
use super::compaction_merge::first_value;
use super::compaction_merge::is_merged;
use super::compaction_merge::lemma_collected_sorted;
use super::compaction_merge::lemma_unshadowed_sorted;
use super::compaction_merge::needed;
use super::compaction_merge::outlived;
use super::compaction_merge::shadowed;
use super::compaction_merge::unshadowed;
use super::hooks::CompactionFilter;
use super::hooks::MergeOperator;
use super::internal_key::ik_lt;
use super::internal_key::is_internal;
use super::internal_key::lemma_internal_order;
use super::internal_key::lemma_internal_total_order;
use super::internal_key::seq_of;
use super::internal_key::type_of;
use super::internal_key::user_of;
use super::internal_key::VALUE_TYPE_MERGE;
use super::range_tombstone::lemma_max_covering;
use super::range_tombstone::max_covering;
use super::range_tombstone::tombstone_views;
use super::range_tombstone::RangeTombstone;
use super::range_tombstone::TombstoneView;
use crate::bytes::lemma_lex_irreflexive;
use vstd::prelude::*;

verus! {

/// A tombstone that every snapshot from `pin_seq` on sees deletes the entry.
pub open spec fn is_deleted(rts: Seq<TombstoneView>, pin_seq: u64, p: Pair) -> bool {
    exists|t: TombstoneView| #[trigger]
        rts.contains(t) && t.covers(user_of(p.0)) && seq_of(p.0) < t.seq <= pin_seq
}

/// A value or a deletion that every snapshot from `pin_seq` on sees comes
/// before the entry, so that none of them reads it.
pub open spec fn is_outlived(es: Seq<Pair>, pin_seq: u64, p: Pair) -> bool {
    exists|q: Pair| #[trigger]
        es.contains(q) && user_of(q.0) == user_of(p.0) && type_of(q.0) != VALUE_TYPE_MERGE
            && seq_of(q.0) <= pin_seq && ik_lt(q.0, p.0)
}

/// The entries that tombstones shadow are those that one deletes for every
/// reader.
pub proof fn lemma_shadowed_is_deleted(
    rts: Seq<RangeTombstone>,
    pin_seq: u64,
    p: Pair,
)
    ensures
        shadowed(p, rts, pin_seq) == is_deleted(tombstone_views(rts), pin_seq, p),
{
    let key = user_of(p.0);
    let views = tombstone_views(rts);
    lemma_max_covering(rts, key, pin_seq);
    if is_deleted(views, pin_seq, p) {
        let t = choose|t: TombstoneView| #[trigger]
            views.contains(t) && t.covers(key) && seq_of(p.0) < t.seq <= pin_seq;
        let k = choose|k: int| 0 <= k < views.len() && views[k] == t;
        assert(rts[k]@ == t && rts[k]@.covers(key));
    }
    if shadowed(p, rts, pin_seq) {
        let k = choose|k: int|
            0 <= k < rts.len() && (#[trigger] rts[k])@.covers(key) && rts[k].seq <= pin_seq
                && rts[k].seq == max_covering(rts, key, pin_seq);
        assert(views[k] == rts[k]@);
        assert(views.contains(rts[k]@));
    }
}

/// Collecting drops the versions at or below `pin_seq` that are outlived, and
/// nothing else.
pub proof fn lemma_collects_what_is_outlived(es: Seq<Pair>, pin_seq: u64, p: Pair)
    requires
        sorted_entries(es),
    ensures
        collected(es, pin_seq).contains(p) == (es.contains(p) && (seq_of(p.0) > pin_seq
            || !is_outlived(es, pin_seq, p))),
    decreases es.len(),
{
    let c = collected(es, pin_seq);
    lemma_collected_sorted(es, pin_seq);
    if c.contains(p) {
        let i = choose|i: int| 0 <= i < c.len() && c[i] == p;
        assert(es.contains(c[i]));
    }
    if es.len() > 0 && es.contains(p) {
        let front = es.drop_last();
        let fc = collected(front, pin_seq);
        let n = es.len() - 1;
        let last = es.last();
        let i = choose|i: int| 0 <= i < es.len() && es[i] == p;
        assert(sorted_entries(front));
        assert(es[n] == last);
        lemma_collects_what_is_outlived(front, pin_seq, p);
        // What outlives an entry stands before it.
        assert forall|j: int|
            0 <= j < es.len() && user_of((#[trigger] es[j]).0) == user_of(p.0) && ik_lt(
                es[j].0,
                p.0,
            ) implies j < i by {
            lemma_internal_total_order(es[j].0, es[i].0, es[i].0);
            if i < j {
                assert(ik_lt(es[i].0, es[j].0));
            }
        }
        if i < n {
            assert(front[i] == p);
            assert(front.contains(p));
            assert(is_outlived(front, pin_seq, p) == is_outlived(es, pin_seq, p)) by {
                if is_outlived(front, pin_seq, p) {
                    let q = choose|q: Pair| #[trigger]
                        front.contains(q) && user_of(q.0) == user_of(p.0) && type_of(q.0)
                            != VALUE_TYPE_MERGE && seq_of(q.0) <= pin_seq && ik_lt(q.0, p.0);
                    let j = choose|j: int| 0 <= j < front.len() && front[j] == q;
                    assert(es[j] == q);
                    assert(es.contains(q));
                }
                if is_outlived(es, pin_seq, p) {
                    let q = choose|q: Pair| #[trigger]
                        es.contains(q) && user_of(q.0) == user_of(p.0) && type_of(q.0)
                            != VALUE_TYPE_MERGE && seq_of(q.0) <= pin_seq && ik_lt(q.0, p.0);
                    let j = choose|j: int| 0 <= j < es.len() && es[j] == q;
                    assert(user_of(es[j].0) == user_of(p.0));
                    assert(front[j] == q);
                    assert(front.contains(q));
                }
            }
            assert(c.contains(p) == fc.contains(p)) by {
                if fc.contains(p) {
                    let a = choose|a: int| 0 <= a < fc.len() && fc[a] == p;
                    assert(c[a] == p);
                }
                if c.contains(p) {
                    let a = choose|a: int| 0 <= a < c.len() && c[a] == p;
                    if a < fc.len() {
                        assert(fc[a] == p);
                    } else {
                        assert(last == p);
                        lemma_internal_total_order(es[i].0, es[n].0, es[n].0);
                        assert(ik_lt(es[i].0, es[n].0));
                    }
                }
            }
        } else {
            assert(outlived(es, n, pin_seq) == is_outlived(es, pin_seq, p)) by {
                if outlived(es, n, pin_seq) {
                    let j = choose|j: int|
                        0 <= j < n && user_of((#[trigger] es[j]).0) == user_of(es[n].0) && seq_of(
                            es[j].0,
                        ) <= pin_seq && type_of(es[j].0) != VALUE_TYPE_MERGE;
                    assert(es.contains(es[j]) && ik_lt(es[j].0, es[n].0));
                }
                if is_outlived(es, pin_seq, p) {
                    let q = choose|q: Pair| #[trigger]
                        es.contains(q) && user_of(q.0) == user_of(p.0) && type_of(q.0)
                            != VALUE_TYPE_MERGE && seq_of(q.0) <= pin_seq && ik_lt(q.0, p.0);
                    let j = choose|j: int| 0 <= j < es.len() && es[j] == q;
                    assert(user_of(es[j].0) == user_of(p.0));
                }
            }
            assert(!fc.contains(p)) by {
                if fc.contains(p) {
                    let a = choose|a: int| 0 <= a < fc.len() && fc[a] == p;
                    lemma_collected_sorted(front, pin_seq);
                    assert(front.contains(fc[a]));
                    let b = choose|b: int| 0 <= b < front.len() && front[b] == p;
                    assert(es[b] == p);
                    assert(ik_lt(es[b].0, es[n].0));
                    lemma_internal_total_order(es[b].0, es[n].0, es[n].0);
                }
            }
            if needed(es, n, pin_seq) {
                assert(c[fc.len() as int] == p);
            } else {
                assert(c == fc);
            }
        }
    }
}

/// A reader at or after the snapshot at `pin_seq` may need the entry: no
/// tombstone deletes it and nothing outlives it for all of them.
pub open spec fn is_needed(
    inputs: Seq<Pair>,
    input_rts: Seq<TombstoneView>,
    pin_seq: u64,
    p: Pair,
) -> bool {
    &&& inputs.contains(p)
    &&& !is_deleted(input_rts, pin_seq, p)
    &&& seq_of(p.0) > pin_seq || !is_outlived(inputs, pin_seq, p)
}

/// A compaction on which neither filter nor operator has a say carries on the
/// entries that a reader at or after the oldest live snapshot may need, and no
/// others: those that no tombstone deletes and nothing outlives for all of
/// them.
pub proof fn lemma_compaction_carries_on_what_is_needed<F: CompactionFilter, M: MergeOperator>(
    inputs: Seq<Pair>,
    input_rts: Seq<TombstoneView>,
    level: nat,
    pin_seq: u64,
    filter: Option<&F>,
    op: Option<&M>,
    out: Seq<Pair>,
    out_rts: Seq<TombstoneView>,
    p: Pair,
)
    requires
        may_compact(inputs, input_rts, level, pin_seq, filter, op, out, out_rts),
        one_value(inputs),
        pin_seq != u64::MAX || filter is None && op is None,
    ensures
        out.contains(p) == is_needed(inputs, input_rts, pin_seq, p),
{
    let (merged, rts, kept) = choose|merged: Seq<Pair>, rts: Seq<RangeTombstone>, kept: Seq<Pair>|
     #[trigger]
        compacts(
            inputs,
            input_rts,
            level,
            pin_seq,
            filter,
            op,
            merged,
            rts,
            kept,
            out,
            out_rts,
        );
    let u = unshadowed(merged, rts, pin_seq);
    assert(out == collected(u, pin_seq));
    assert(tombstone_views(rts) == input_rts);
    lemma_unshadowed_sorted(merged, rts, pin_seq);
    lemma_collects_what_is_outlived(u, pin_seq, p);
    lemma_unshadowed_drops(merged, rts, pin_seq, p);
    lemma_merged_members(inputs, merged, p);
    lemma_shadowed_is_deleted(rts, pin_seq, p);
    // What a tombstone deletes outlives nothing that the tombstone leaves.
    if inputs.contains(p) && !is_deleted(input_rts, pin_seq, p) && seq_of(p.0) <= pin_seq {
        if is_outlived(u, pin_seq, p) {
            let q = choose|q: Pair| #[trigger]
                u.contains(q) && user_of(q.0) == user_of(p.0) && type_of(q.0) != VALUE_TYPE_MERGE
                    && seq_of(q.0) <= pin_seq && ik_lt(q.0, p.0);
            lemma_unshadowed_drops(merged, rts, pin_seq, q);
            lemma_merged_members(inputs, merged, q);
            assert(inputs.contains(q));
        }
        if is_outlived(inputs, pin_seq, p) {
            let q = choose|q: Pair| #[trigger]
                inputs.contains(q) && user_of(q.0) == user_of(p.0) && type_of(q.0)
                    != VALUE_TYPE_MERGE && seq_of(q.0) <= pin_seq && ik_lt(q.0, p.0);
            lemma_merged_members(inputs, merged, q);
            lemma_unshadowed_drops(merged, rts, pin_seq, q);
            lemma_shadowed_is_deleted(rts, pin_seq, q);
            let a = choose|a: int| 0 <= a < merged.len() && merged[a] == q;
            let b = choose|b: int| 0 <= b < merged.len() && merged[b] == p;
            assert(is_internal(merged[a].0) && is_internal(merged[b].0));
            lemma_internal_order(q.0, p.0);
            lemma_lex_irreflexive(user_of(p.0));
            if is_deleted(input_rts, pin_seq, q) {
                let t = choose|t: TombstoneView| #[trigger]
                    input_rts.contains(t) && t.covers(user_of(q.0)) && seq_of(q.0) < t.seq
                        <= pin_seq;
                assert(is_deleted(input_rts, pin_seq, p));
            }
            assert(u.contains(q));
        }
    }
}

/// Merging keeps of the entries with one key the first, and orders them.
pub proof fn lemma_merging_keeps_the_first(es: Seq<Pair>, merged: Seq<Pair>, i: int)
    requires
        is_merged(es, merged),
        0 <= i < es.len(),
        forall|j: int| 0 <= j < i ==> (#[trigger] es[j]).0 != es[i].0,
    ensures
        merged.contains(es[i]),
        sorted_entries(merged),
{
    lemma_first_is(es, i);
    lemma_first_value_in(merged, es[i].0);
    assert(first_value(merged, es[i].0)
        == first_value(es, es[i].0));
}

proof fn lemma_first_is(es: Seq<Pair>, i: int)
    requires
        0 <= i < es.len(),
        forall|j: int| 0 <= j < i ==> (#[trigger] es[j]).0 != es[i].0,
    ensures
        first_value(es, es[i].0) == Some(es[i].1),
    decreases i,
{
    if i > 0 {
        let t = es.skip(1);
        assert(es[0].0 != es[i].0);
        assert forall|j: int| 0 <= j < i - 1 implies (#[trigger] t[j]).0 != t[i - 1].0 by {
            assert(t[j] == es[j + 1]);
        }
        lemma_first_is(t, i - 1);
    }
}

} // verus!
