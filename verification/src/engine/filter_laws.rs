//! What a compaction filter decides is done: of every value that a compaction
//! carries on, and of every range tombstone, with a merge operator or without.

use super::block::sorted_entries;
use super::block_entry::Pair;
use super::compaction::compacts;
use super::compaction::lemma_collected_drops;
use super::compaction::lemma_collected_one_terminator;
use super::compaction::lemma_filtered_sorted;
use super::compaction::lemma_merged_members;
use super::compaction::lemma_unshadowed_drops;
use super::compaction::may_compact;
use super::compaction::one_terminator;
use super::compaction::one_value;
use super::compaction_merge::collected;
use super::compaction_merge::decided;
use super::compaction_merge::is_merged;
use super::compaction_merge::lemma_collected_sorted;
use super::compaction_merge::lemma_unshadowed_sorted;
use super::compaction_merge::may_become;
use super::compaction_merge::may_collapse_all;
use super::compaction_merge::may_filter;
use super::compaction_merge::may_keep_ranges;
use super::compaction_merge::operand_count;
use super::compaction_merge::shadowed;
use super::compaction_merge::unshadowed;
use super::hooks::CompactionFilter;
use super::hooks::DecisionView;
use super::hooks::MergeOperator;
use super::internal_key::ik_lt;
use super::internal_key::is_internal;
use super::internal_key::lemma_decode_encoded;
use super::internal_key::lemma_internal_order;
use super::internal_key::lemma_internal_total_order;
use super::internal_key::seq_of;
use super::internal_key::type_of;
use super::internal_key::user_of;
use super::internal_key::VALUE_TYPE_DELETION;
use super::internal_key::VALUE_TYPE_MERGE;
use super::internal_key::VALUE_TYPE_VALUE;
use super::merge_laws::lemma_collapsed_key;
use super::merge_laws::of;
use super::merge_laws::of_key;
use super::range_tombstone::lemma_max_covering;
use super::range_tombstone::max_covering;
use super::range_tombstone::tombstone_views;
use super::range_tombstone::RangeTombstone;
use super::range_tombstone::TombstoneView;
use crate::bytes::lemma_lex_irreflexive;
use vstd::prelude::*;

verus! {

// ── Tombstones ───────────────────────────────────────────────────

proof fn lemma_last_or_before(s: Seq<TombstoneView>, t: TombstoneView)
    requires
        s.len() > 0,
    ensures
        s.contains(t) == (s.last() == t || s.drop_last().contains(t)),
{
    let d = s.drop_last();
    if s.contains(t) {
        let i = choose|i: int| 0 <= i < s.len() && s[i] == t;
        if i < d.len() {
            assert(d[i] == t);
        }
    }
    if d.contains(t) {
        let i = choose|i: int| 0 <= i < d.len() && d[i] == t;
        assert(s[i] == t);
    }
    assert(s[s.len() - 1] == s.last());
}

proof fn lemma_kept_ranges<F: CompactionFilter>(
    f: F,
    level: nat,
    rts: Seq<TombstoneView>,
    out: Seq<TombstoneView>,
    t: TombstoneView,
)
    requires
        may_keep_ranges(f, level, rts, out),
    ensures
        out.contains(t) ==> rts.contains(t) && exists|d: DecisionView| #[trigger]
            f.filter_range_may(level, t.start, t.end, d) && !(d is Remove),
        rts.contains(t) && !out.contains(t) ==> f.filter_range_may(
            level,
            t.start,
            t.end,
            DecisionView::Remove,
        ),
    decreases rts.len(),
{
    if rts.len() > 0 {
        let last = rts.last();
        let front = rts.drop_last();
        let d = choose|d: DecisionView| #[trigger]
            f.filter_range_may(level, last.start, last.end, d) && if d is Remove {
                may_keep_ranges(f, level, front, out)
            } else {
                out.len() > 0 && out.last() == rts.last() && may_keep_ranges(
                    f,
                    level,
                    front,
                    out.drop_last(),
                )
            };
        lemma_last_or_before(rts, t);
        if d is Remove {
            lemma_kept_ranges(f, level, front, out, t);
        } else {
            lemma_kept_ranges(f, level, front, out.drop_last(), t);
            lemma_last_or_before(out, t);
        }
    }
}

/// The tombstone is carried on only if it is one of the inputs' and the filter
/// did not remove it, and is left out only if the filter removed it.
pub open spec fn is_range_decided<F: CompactionFilter>(
    f: F,
    level: nat,
    input_rts: Seq<TombstoneView>,
    out_rts: Seq<TombstoneView>,
    t: TombstoneView,
) -> bool {
    &&& out_rts.contains(t) ==> input_rts.contains(t) && exists|d: DecisionView| #[trigger]
        f.filter_range_may(level, t.start, t.end, d) && !(d is Remove)
    &&& input_rts.contains(t) && !out_rts.contains(t) ==> f.filter_range_may(
        level,
        t.start,
        t.end,
        DecisionView::Remove,
    )
}

/// Without live snapshots the filter has its say on the range tombstones, with
/// a merge operator and without. What is carried on is one of the inputs' and
/// the filter did not remove it; what is not, the filter removed.
pub proof fn lemma_filter_decides_on_tombstones<F: CompactionFilter, M: MergeOperator>(
    inputs: Seq<Pair>,
    input_rts: Seq<TombstoneView>,
    level: nat,
    f: &F,
    op: Option<&M>,
    out: Seq<Pair>,
    out_rts: Seq<TombstoneView>,
    t: TombstoneView,
)
    requires
        may_compact(inputs, input_rts, level, u64::MAX, Some(f), op, out, out_rts),
    ensures
        is_range_decided(*f, level, input_rts, out_rts, t),
        (forall|d: DecisionView| #[trigger]
            f.filter_range_may(level, t.start, t.end, d) ==> d is Remove) ==> !out_rts.contains(t),
{
    let max = u64::MAX;
    let (merged, rts, kept) = choose|merged: Seq<Pair>, rts: Seq<RangeTombstone>, kept: Seq<Pair>|
     #[trigger]
        compacts(
            inputs,
            input_rts,
            level,
            max,
            Some(f),
            op,
            merged,
            rts,
            kept,
            out,
            out_rts,
        );
    lemma_kept_ranges(*f, level, input_rts, tombstone_views(rts), t);
    assert(out_rts.contains(t) == tombstone_views(rts).contains(t));
}

// ── Entries ──────────────────────────────────────────────────────

/// `q` is `p` after a decision. What is removed leaves a deletion behind, so
/// that no older version is seen again.
pub open spec fn done(p: Pair, d: DecisionView, q: Pair) -> bool {
    match d {
        DecisionView::Keep => q == p,
        DecisionView::Change(v) => q.0 == p.0 && q.1 == v,
        DecisionView::Remove => {
            &&& is_internal(q.0)
            &&& user_of(q.0) == user_of(p.0)
            &&& seq_of(q.0) == seq_of(p.0)
            &&& type_of(q.0) == VALUE_TYPE_DELETION
            &&& q.1.len() == 0
        },
    }
}

/// The filter may have made `q` of `p`: it is asked of values, and of nothing
/// else.
pub open spec fn became<F: CompactionFilter>(f: F, level: nat, p: Pair, q: Pair) -> bool {
    if type_of(p.0) == VALUE_TYPE_VALUE {
        exists|d: DecisionView| #[trigger]
            f.filter_may(level, user_of(p.0), p.1, d) && done(p, d, q)
    } else {
        q == p
    }
}

/// The filter can decide nothing else of a value.
pub open spec fn always<F: CompactionFilter>(f: F, level: nat, p: Pair, d: DecisionView) -> bool {
    forall|e: DecisionView| #[trigger] f.filter_may(level, user_of(p.0), p.1, e) ==> e == d
}

/// A tombstone is newer than the entry and covers its key.
pub open spec fn is_hidden(rts: Seq<TombstoneView>, p: Pair) -> bool {
    exists|t: TombstoneView| #[trigger]
        rts.contains(t) && t.covers(user_of(p.0)) && t.seq > seq_of(p.0)
}

/// A reader needs the entry: no tombstone that is carried on is newer, and no
/// newer version is a value or a deletion.
pub open spec fn stays(inputs: Seq<Pair>, rts: Seq<TombstoneView>, p: Pair) -> bool {
    &&& inputs.contains(p)
    &&& !is_hidden(rts, p)
    &&& !exists|q: Pair| #[trigger]
        inputs.contains(q) && user_of(q.0) == user_of(p.0) && type_of(q.0) != VALUE_TYPE_MERGE
            && ik_lt(q.0, p.0)
}

/// `kept` is what the filter may have made of the entries that a reader needs,
/// of each of them, and of no other.
pub open spec fn filtered<F: CompactionFilter>(
    f: F,
    level: nat,
    inputs: Seq<Pair>,
    rts: Seq<TombstoneView>,
    kept: Seq<Pair>,
) -> bool {
    &&& forall|p: Pair| #[trigger]
        stays(inputs, rts, p) ==> exists|q: Pair| #[trigger]
            kept.contains(q) && became(f, level, p, q)
    &&& forall|q: Pair| #[trigger]
        kept.contains(q) ==> exists|p: Pair| #[trigger]
            stays(inputs, rts, p) && became(f, level, p, q)
}

proof fn lemma_became<F: CompactionFilter>(f: F, level: nat, p: Pair, q: Pair)
    requires
        may_become(f, level, p, q),
    ensures
        became(f, level, p, q),
{
    if type_of(p.0) == VALUE_TYPE_VALUE {
        let d = choose|d: DecisionView| #[trigger]
            f.filter_may(level, user_of(p.0), p.1, d) && q == decided(p, d);
        lemma_decode_encoded(user_of(p.0), seq_of(p.0), VALUE_TYPE_DELETION);
        assert(done(p, d, q));
    }
}

/// What is neither shadowed nor outlived is what a reader needs.
proof fn lemma_needed_stays(
    inputs: Seq<Pair>,
    merged: Seq<Pair>,
    rts: Seq<RangeTombstone>,
    views: Seq<TombstoneView>,
    p: Pair,
)
    requires
        is_merged(inputs, merged),
        one_value(inputs),
        forall|t: TombstoneView| #[trigger] views.contains(t) == tombstone_views(rts).contains(t),
    ensures
        collected(unshadowed(merged, rts, u64::MAX), u64::MAX).contains(p) == stays(
            inputs,
            views,
            p,
        ),
{
    let max = u64::MAX;
    let u = unshadowed(merged, rts, max);
    let c = collected(u, max);
    let key = user_of(p.0);
    lemma_unshadowed_sorted(merged, rts, max);
    lemma_collected_sorted(u, max);
    lemma_merged_members(inputs, merged, p);
    lemma_unshadowed_drops(merged, rts, max, p);
    lemma_max_covering(rts, key, max);
    let hidden = is_hidden(views, p);
    assert(hidden == shadowed(p, rts, max)) by {
        if hidden {
            let t = choose|t: TombstoneView| #[trigger]
                views.contains(t) && t.covers(key) && t.seq > seq_of(p.0);
            assert(tombstone_views(rts).contains(t));
            let k = choose|k: int|
                0 <= k < tombstone_views(rts).len() && tombstone_views(rts)[k] == t;
            assert(rts[k]@ == t && rts[k]@.covers(key));
        }
        if shadowed(p, rts, max) {
            let k = choose|k: int|
                0 <= k < rts.len() && (#[trigger] rts[k])@.covers(key) && rts[k].seq <= max
                    && rts[k].seq == max_covering(rts, key, max);
            assert(tombstone_views(rts)[k] == rts[k]@);
            assert(views.contains(rts[k]@));
        }
    }
    if c.contains(p) {
        let i = choose|i: int| 0 <= i < c.len() && c[i] == p;
        assert(u.contains(c[i]));
        if exists|q: Pair| #[trigger]
            inputs.contains(q) && user_of(q.0) == key && type_of(q.0) != VALUE_TYPE_MERGE && ik_lt(
                q.0,
                p.0,
            ) {
            let q = choose|q: Pair| #[trigger]
                inputs.contains(q) && user_of(q.0) == key && type_of(q.0) != VALUE_TYPE_MERGE
                    && ik_lt(q.0, p.0);
            lemma_merged_members(inputs, merged, q);
            lemma_unshadowed_drops(merged, rts, max, q);
            let a = choose|a: int| 0 <= a < merged.len() && merged[a] == q;
            let b = choose|b: int| 0 <= b < merged.len() && merged[b] == p;
            assert(is_internal(merged[a].0) && is_internal(merged[b].0));
            lemma_internal_order(q.0, p.0);
            lemma_lex_irreflexive(key);
            assert(u.contains(q));
            lemma_collected_none_newer(u, q, p);
        }
    }
    if stays(inputs, views, p) && !c.contains(p) {
        lemma_collected_drops(u, max, p);
        let q = choose|q: Pair| #[trigger]
            c.contains(q) && user_of(q.0) == user_of(p.0) && seq_of(q.0) <= max && type_of(q.0)
                != VALUE_TYPE_MERGE && ik_lt(q.0, p.0);
        let i = choose|i: int| 0 <= i < c.len() && c[i] == q;
        assert(u.contains(c[i]));
        lemma_unshadowed_drops(merged, rts, max, q);
        lemma_merged_members(inputs, merged, q);
        assert(inputs.contains(q));
    }
}

/// Without live snapshots nothing stays below a value or a deletion.
proof fn lemma_collected_none_newer(u: Seq<Pair>, q: Pair, p: Pair)
    requires
        sorted_entries(u),
        u.contains(q),
        user_of(q.0) == user_of(p.0),
        type_of(q.0) != VALUE_TYPE_MERGE,
        ik_lt(q.0, p.0),
        is_internal(q.0),
        is_internal(p.0),
    ensures
        !collected(u, u64::MAX).contains(p),
{
    let max = u64::MAX;
    let c = collected(u, max);
    lemma_collected_sorted(u, max);
    lemma_collected_one_terminator(u);
    if c.contains(p) {
        let x = if c.contains(q) {
            q
        } else {
            lemma_collected_drops(u, max, q);
            choose|j: Pair| #[trigger]
                c.contains(j) && user_of(j.0) == user_of(q.0) && seq_of(j.0) <= max && type_of(j.0)
                    != VALUE_TYPE_MERGE && ik_lt(j.0, q.0)
        };
        let a = choose|a: int| 0 <= a < c.len() && c[a] == x;
        let b = choose|b: int| 0 <= b < c.len() && c[b] == p;
        assert(is_internal(c[a].0));
        lemma_internal_total_order(x.0, q.0, p.0);
        lemma_internal_total_order(x.0, p.0, p.0);
        if b < a {
            assert(ik_lt(c[b].0, c[a].0));
        } else if a < b {
            assert(user_of(c[a].0) == user_of(c[b].0));
        }
    }
}

/// Without live snapshots a compaction carries on what the filter makes of the
/// entries that a reader needs, one for one, and the merge operator works on
/// what the filter left. The filter is asked of every value among them, and does
/// not touch operands and deletions.
pub proof fn lemma_filter_decides_on_entries<F: CompactionFilter, M: MergeOperator>(
    inputs: Seq<Pair>,
    input_rts: Seq<TombstoneView>,
    level: nat,
    f: &F,
    op: Option<&M>,
    out: Seq<Pair>,
    out_rts: Seq<TombstoneView>,
) -> (kept: Seq<Pair>)
    requires
        one_value(inputs),
        may_compact(inputs, input_rts, level, u64::MAX, Some(f), op, out, out_rts),
    ensures
        sorted_entries(kept),
        one_terminator(kept),
        filtered(*f, level, inputs, out_rts, kept),
        match op {
            Some(o) => may_collapse_all(*o, kept, out),
            None => out == kept,
        },
{
    let max = u64::MAX;
    let (merged, rts, kept) = choose|merged: Seq<Pair>, rts: Seq<RangeTombstone>, kept: Seq<Pair>|
     #[trigger]
        compacts(
            inputs,
            input_rts,
            level,
            max,
            Some(f),
            op,
            merged,
            rts,
            kept,
            out,
            out_rts,
        );
    let u = unshadowed(merged, rts, max);
    let c = collected(u, max);
    lemma_unshadowed_sorted(merged, rts, max);
    lemma_collected_sorted(u, max);
    lemma_collected_one_terminator(u);
    assert(may_filter(*f, level, c, kept));
    lemma_filtered_sorted(*f, level, c, kept);
    assert forall|p: Pair| #[trigger] stays(inputs, out_rts, p) implies exists|q: Pair| #[trigger]
        kept.contains(q) && became(*f, level, p, q) by {
        lemma_needed_stays(inputs, merged, rts, out_rts, p);
        let i = choose|i: int| 0 <= i < c.len() && c[i] == p;
        assert(may_become(*f, level, c[i], kept[i]));
        lemma_became(*f, level, p, kept[i]);
        assert(kept.contains(kept[i]));
    }
    assert forall|q: Pair| #[trigger] kept.contains(q) implies exists|p: Pair| #[trigger]
        stays(inputs, out_rts, p) && became(*f, level, p, q) by {
        let i = choose|i: int| 0 <= i < kept.len() && kept[i] == q;
        assert(may_become(*f, level, c[i], kept[i]));
        lemma_became(*f, level, c[i], q);
        assert(c.contains(c[i]));
        lemma_needed_stays(inputs, merged, rts, out_rts, c[i]);
        assert(stays(inputs, out_rts, c[i]));
    }
    assert forall|i: int, j: int|
        0 <= i < j < kept.len() && user_of((#[trigger] kept[i]).0) == user_of(
            (#[trigger] kept[j]).0,
        ) implies type_of(kept[i].0) == VALUE_TYPE_MERGE by {
        assert(may_become(*f, level, c[i], kept[i]) && may_become(*f, level, c[j], kept[j]));
        lemma_became(*f, level, c[i], kept[i]);
        lemma_became(*f, level, c[j], kept[j]);
        lemma_became_key(*f, level, c[i], kept[i]);
        lemma_became_key(*f, level, c[j], kept[j]);
    }
    kept
}

/// The output has of the key of `p` what the filter decided of `p`, and nothing
/// else; or nothing at all, where a range tombstone that is carried on is newer.
pub open spec fn is_decided<F: CompactionFilter>(
    f: F,
    level: nat,
    out: Seq<Pair>,
    out_rts: Seq<TombstoneView>,
    p: Pair,
) -> bool {
    if is_hidden(out_rts, p) {
        forall|q: Pair| #[trigger] out.contains(q) ==> user_of(q.0) != user_of(p.0)
    } else {
        exists|d: DecisionView, made: Pair|
            f.filter_may(level, user_of(p.0), p.1, d) && #[trigger] done(p, d, made) && forall|
                q: Pair,
            | #[trigger]
                out.contains(q) && user_of(q.0) == user_of(p.0) <==> q == made
    }
}

/// Of a key whose newest version is a value the output has what the filter
/// decided of that value, and nothing else, whatever the merge operator; unless
/// a range tombstone that is carried on is newer, and then it has nothing. So a
/// value that the filter can only remove is no value in the output, and one
/// that it can only change has the new value there.
pub proof fn lemma_filter_decides_on_newest_values<F: CompactionFilter, M: MergeOperator>(
    inputs: Seq<Pair>,
    input_rts: Seq<TombstoneView>,
    level: nat,
    f: &F,
    op: Option<&M>,
    out: Seq<Pair>,
    out_rts: Seq<TombstoneView>,
    p: Pair,
)
    requires
        one_value(inputs),
        may_compact(inputs, input_rts, level, u64::MAX, Some(f), op, out, out_rts),
        is_newest_value(inputs, p),
    ensures
        is_decided(*f, level, out, out_rts, p),
        always(*f, level, p, DecisionView::Remove) ==> forall|q: Pair| #[trigger]
            out.contains(q) && user_of(q.0) == user_of(p.0) ==> type_of(q.0) == VALUE_TYPE_DELETION,
        forall|v: Seq<u8>| #[trigger]
            always(*f, level, p, DecisionView::Change(v)) ==> is_hidden(out_rts, p) || out.contains(
                (p.0, v),
            ),
{
    let u = user_of(p.0);
    let kept = lemma_filter_decides_on_entries(inputs, input_rts, level, f, op, out, out_rts);
    lemma_inputs_internal(inputs, input_rts, level, f, op, out, out_rts);
    if is_hidden(out_rts, p) {
        lemma_newest_hidden(*f, level, inputs, out_rts, kept, p);
        lemma_none_left(op, kept, out, u);
    } else {
        let x = lemma_newest_kept(*f, level, inputs, out_rts, kept, p);
        lemma_one_left(op, kept, out, u, x);
        let d = choose|d: DecisionView| #[trigger] f.filter_may(level, u, p.1, d) && done(p, d, x);
        assert(done(p, d, x));
        assert(out.contains(x));
        assert forall|v: Seq<u8>| #[trigger]
            always(*f, level, p, DecisionView::Change(v)) implies out.contains((p.0, v)) by {
            assert(d == DecisionView::Change(v));
            assert(x == (p.0, v));
        }
    }
}

proof fn lemma_inputs_internal<F: CompactionFilter, M: MergeOperator>(
    inputs: Seq<Pair>,
    input_rts: Seq<TombstoneView>,
    level: nat,
    f: &F,
    op: Option<&M>,
    out: Seq<Pair>,
    out_rts: Seq<TombstoneView>,
)
    requires
        one_value(inputs),
        may_compact(inputs, input_rts, level, u64::MAX, Some(f), op, out, out_rts),
    ensures
        forall|q: Pair| #[trigger] inputs.contains(q) ==> is_internal(q.0),
{
    let max = u64::MAX;
    let (merged, rts, kept) = choose|merged: Seq<Pair>, rts: Seq<RangeTombstone>, kept: Seq<Pair>|
     #[trigger]
        compacts(
            inputs,
            input_rts,
            level,
            max,
            Some(f),
            op,
            merged,
            rts,
            kept,
            out,
            out_rts,
        );
    assert forall|q: Pair| #[trigger] inputs.contains(q) implies is_internal(q.0) by {
        lemma_merged_members(inputs, merged, q);
        let i = choose|i: int| 0 <= i < merged.len() && merged[i] == q;
        assert(is_internal(merged[i].0));
    }
}

/// A value that is the newest version of its key.
pub open spec fn is_newest_value(inputs: Seq<Pair>, p: Pair) -> bool {
    &&& inputs.contains(p)
    &&& type_of(p.0) == VALUE_TYPE_VALUE
    &&& forall|q: Pair| #[trigger]
        inputs.contains(q) && user_of(q.0) == user_of(p.0) && q != p ==> ik_lt(p.0, q.0)
}

proof fn lemma_newest_hidden<F: CompactionFilter>(
    f: F,
    level: nat,
    inputs: Seq<Pair>,
    rts: Seq<TombstoneView>,
    kept: Seq<Pair>,
    p: Pair,
)
    requires
        filtered(f, level, inputs, rts, kept),
        is_newest_value(inputs, p),
        is_hidden(rts, p),
    ensures
        forall|q: Pair| #[trigger] kept.contains(q) ==> user_of(q.0) != user_of(p.0),
{
    assert forall|q: Pair| #[trigger] kept.contains(q) implies user_of(q.0) != user_of(p.0) by {
        let x = choose|x: Pair| #[trigger] stays(inputs, rts, x) && became(f, level, x, q);
        lemma_became_key(f, level, x, q);
        if user_of(x.0) == user_of(p.0) && x != p {
            assert(inputs.contains(p) && ik_lt(p.0, x.0));
        }
    }
}

proof fn lemma_newest_kept<F: CompactionFilter>(
    f: F,
    level: nat,
    inputs: Seq<Pair>,
    rts: Seq<TombstoneView>,
    kept: Seq<Pair>,
    p: Pair,
) -> (x: Pair)
    requires
        filtered(f, level, inputs, rts, kept),
        one_terminator(kept),
        forall|q: Pair| #[trigger] inputs.contains(q) ==> is_internal(q.0),
        is_newest_value(inputs, p),
        !is_hidden(rts, p),
    ensures
        kept.contains(x),
        became(f, level, p, x),
        user_of(x.0) == user_of(p.0),
        type_of(x.0) != VALUE_TYPE_MERGE,
        forall|q: Pair| #[trigger] kept.contains(q) && user_of(q.0) == user_of(p.0) ==> q == x,
{
    let u = user_of(p.0);
    assert forall|q: Pair| #[trigger] inputs.contains(q) && user_of(q.0) == u implies !ik_lt(
        q.0,
        p.0,
    ) by {
        lemma_internal_total_order(p.0, q.0, p.0);
    }
    assert(stays(inputs, rts, p));
    let x = choose|x: Pair| #[trigger] kept.contains(x) && became(f, level, p, x);
    lemma_became_key(f, level, p, x);
    assert forall|q: Pair| #[trigger] kept.contains(q) && user_of(q.0) == u implies q == x by {
        let y = choose|y: Pair| #[trigger] stays(inputs, rts, y) && became(f, level, y, q);
        lemma_became_key(f, level, y, q);
        if y != p {
            assert(inputs.contains(p) && ik_lt(p.0, y.0));
        }
        let a = choose|a: int| 0 <= a < kept.len() && kept[a] == q;
        let b = choose|b: int| 0 <= b < kept.len() && kept[b] == x;
        if a < b {
            assert(type_of(kept[a].0) == VALUE_TYPE_MERGE);
        } else if b < a {
            assert(type_of(kept[b].0) == VALUE_TYPE_MERGE);
        }
    }
    x
}

/// What the operator makes of a key that has nothing is nothing.
proof fn lemma_none_left<M: MergeOperator>(
    op: Option<&M>,
    kept: Seq<Pair>,
    out: Seq<Pair>,
    u: Seq<u8>,
)
    requires
        sorted_entries(kept),
        match op {
            Some(o) => may_collapse_all(*o, kept, out),
            None => out == kept,
        },
        forall|q: Pair| #[trigger] kept.contains(q) ==> user_of(q.0) != u,
    ensures
        forall|q: Pair| #[trigger] out.contains(q) ==> user_of(q.0) != u,
{
    if let Some(o) = op {
        let (group, made) = lemma_collapsed_key(*o, kept, out, u);
        if group.len() > 0 {
            assert(group.contains(group[0]));
            assert(of(group).contains(group[0]));
            assert(of_key(kept, u).contains(group[0]));
        }
        assert forall|q: Pair| #[trigger] out.contains(q) implies user_of(q.0) != u by {
            if user_of(q.0) == u {
                assert(of_key(out, u).contains(q));
                assert(of(made).contains(q));
            }
        }
    }
}

/// What the operator makes of a single value or deletion is that.
proof fn lemma_one_left<M: MergeOperator>(
    op: Option<&M>,
    kept: Seq<Pair>,
    out: Seq<Pair>,
    u: Seq<u8>,
    x: Pair,
)
    requires
        sorted_entries(kept),
        match op {
            Some(o) => may_collapse_all(*o, kept, out),
            None => out == kept,
        },
        kept.contains(x),
        user_of(x.0) == u,
        type_of(x.0) != VALUE_TYPE_MERGE,
        forall|q: Pair| #[trigger] kept.contains(q) && user_of(q.0) == u ==> q == x,
    ensures
        forall|q: Pair| #[trigger] out.contains(q) && user_of(q.0) == u <==> q == x,
{
    if let Some(o) = op {
        let (group, made) = lemma_collapsed_key(*o, kept, out, u);
        assert(of_key(kept, u).contains(x));
        assert(of(group).contains(x));
        let i = choose|i: int| 0 <= i < group.len() && group[i] == x;
        assert(group.contains(group[0]));
        assert(of(group).contains(group[0]));
        assert(of_key(kept, u).contains(group[0]));
        assert(group[0] == x);
        assert(operand_count(group) == 0);
        assert(made == group);
        assert forall|q: Pair| #[trigger] out.contains(q) && user_of(q.0) == u <==> q == x by {
            assert(of_key(out, u).contains(q) == of_key(kept, u).contains(q));
        }
    }
}

/// What the filter makes of an entry is a version of the same key with the same
/// sequence number.
proof fn lemma_became_key<F: CompactionFilter>(f: F, level: nat, p: Pair, q: Pair)
    requires
        became(f, level, p, q),
    ensures
        user_of(q.0) == user_of(p.0),
        seq_of(q.0) == seq_of(p.0),
        type_of(p.0) == VALUE_TYPE_VALUE ==> type_of(q.0) != VALUE_TYPE_MERGE,
{
    if type_of(p.0) == VALUE_TYPE_VALUE {
        let d = choose|d: DecisionView| #[trigger]
            f.filter_may(level, user_of(p.0), p.1, d) && done(p, d, q);
    }
}

} // verus!
