//! One compaction: from the tables that go in to the entries and tombstones
//! that come out, and to the edits of the version.

use super::block::pairs;
use super::block::sorted_entries;
use super::block_entry::Pair;
use super::compaction_merge::apply_compaction_filter;
use super::compaction_merge::collapse_merge_chains;
use super::compaction_merge::collected;
use super::compaction_merge::decided;
use super::compaction_merge::drop_shadowed;
use super::compaction_merge::filter_tombstones;
use super::compaction_merge::first_value;
use super::compaction_merge::gc_old_versions;
use super::compaction_merge::internal_keys;
use super::compaction_merge::is_last_group;
use super::compaction_merge::is_merged;
use super::compaction_merge::lemma_collected_sorted;
use super::compaction_merge::lemma_operand_count;
use super::compaction_merge::lemma_unshadowed_sorted;
use super::compaction_merge::may_become;
use super::compaction_merge::may_collapse;
use super::compaction_merge::may_collapse_all;
use super::compaction_merge::may_filter;
use super::compaction_merge::may_fold;
use super::compaction_merge::may_keep_ranges;
use super::compaction_merge::merge_entries;
use super::compaction_merge::needed;
use super::compaction_merge::operand_count;
use super::compaction_merge::outlived;
use super::compaction_merge::shadowed;
use super::compaction_merge::terminator;
use super::compaction_merge::unshadowed;
use super::compaction_merge::Entries;
use super::filter_laws::is_decided;
use super::filter_laws::is_newest_value;
use super::filter_laws::is_range_decided;
use super::filter_laws::lemma_filter_decides_on_newest_values;
use super::filter_laws::lemma_filter_decides_on_tombstones;
use super::gc_laws::is_needed;
use super::gc_laws::lemma_compaction_carries_on_what_is_needed;
use super::hooks::CompactionFilter;
use super::hooks::DecisionView;
use super::hooks::MergeOperator;
use super::internal_key::ik_lt;
use super::internal_key::internal_key;
use super::internal_key::is_internal;
use super::internal_key::lemma_decode_encoded;
use super::internal_key::lemma_internal_order;
use super::internal_key::lemma_internal_total_order;
use super::internal_key::seq_of;
use super::internal_key::type_of;
use super::internal_key::user_of;
use super::internal_key::VALUE_TYPE_DELETION;
use super::internal_key::VALUE_TYPE_MERGE;
use super::internal_key::VALUE_TYPE_VALUE;
use super::memtable::lemma_user_ascends;
use super::merge_laws::keeps_merged_read;
use super::merge_laws::lemma_compaction_changes_no_merged_read;
use super::merge_laws::may_lie_below;
use super::range_tombstone::lemma_max_covering;
use super::range_tombstone::max_covering;
use super::range_tombstone::tombstone_views;
use super::range_tombstone::RangeTombstone;
use super::range_tombstone::TombstoneView;
use super::sstable::LiveSst;
use super::versions::lemma_one_value;
use super::versions::visible;
use crate::bytes::bytes_lt;
use crate::bytes::lemma_lex_order;
use crate::bytes::lemma_lex_trichotomy;
use crate::bytes::lex_lt;
use crate::error::ErrorKind;
use crate::ordered::first_ranked;
use crate::ordered::lemma_first_ranked_found;
use crate::ordered::sort_dedup;
use crate::ordered::Ranked;
use std::sync::Arc;
use vstd::prelude::*;

verus! {

// ── What the inputs hold ─────────────────────────────────────────

/// The entries of the tables, one table after the other.
pub open spec fn all_entries(files: Seq<Arc<LiveSst>>) -> Seq<Pair>
    decreases files.len(),
{
    if files.len() == 0 {
        Seq::empty()
    } else {
        all_entries(files.drop_last()) + files.last().reader.entries()
    }
}

/// The range tombstones of the tables, one table after the other.
pub open spec fn all_tombstones(files: Seq<Arc<LiveSst>>) -> Seq<TombstoneView>
    decreases files.len(),
{
    if files.len() == 0 {
        Seq::empty()
    } else {
        all_tombstones(files.drop_last()) + tombstone_views(files.last().reader.tombstones())
    }
}

/// The tables are well formed.
pub open spec fn all_wf(files: Seq<Arc<LiveSst>>) -> bool {
    forall|i: int| 0 <= i < files.len() ==> (#[trigger] files[i]).reader.wf()
}

proof fn lemma_all_internal(files: Seq<Arc<LiveSst>>)
    requires
        all_wf(files),
    ensures
        internal_keys(all_entries(files)),
    decreases files.len(),
{
    if files.len() > 0 {
        let front = files.drop_last();
        assert forall|i: int| 0 <= i < front.len() implies (#[trigger] front[i]).reader.wf() by {
            assert(front[i] == files[i]);
        }
        lemma_all_internal(front);
        let last = files.last().reader;
        assert(files[files.len() - 1].reader.wf());
        last.lemma_sorted();
        let es = all_entries(files);
        let n = all_entries(front).len();
        assert forall|i: int| 0 <= i < es.len() implies is_internal((#[trigger] es[i]).0) by {
            if i < n {
                assert(es[i] == all_entries(front)[i]);
            } else {
                assert(es[i] == last.entries()[i - n]);
            }
        }
    }
}

/// Read the entries and the tombstones of the tables.
fn read_inputs(files: &Vec<Arc<LiveSst>>, entries: &mut Entries, rts: &mut Vec<RangeTombstone>)
    ensures
        pairs(final(entries)@) == pairs(old(entries)@) + all_entries(files@),
        tombstone_views(final(rts)@) == tombstone_views(old(rts)@) + all_tombstones(files@),
{
    let ghost es0 = pairs(entries@);
    let ghost rts0 = tombstone_views(rts@);
    let mut i: usize = 0;
    proof {
        assert(files@.take(0) =~= Seq::<Arc<LiveSst>>::empty());
        assert(es0 + Seq::<Pair>::empty() =~= es0);
        assert(rts0 + Seq::<TombstoneView>::empty() =~= rts0);
    }
    while i < files.len()
        invariant
            i <= files@.len(),
            es0 == pairs(old(entries)@),
            rts0 == tombstone_views(old(rts)@),
            pairs(entries@) == es0 + all_entries(files@.take(i as int)),
            tombstone_views(rts@) == rts0 + all_tombstones(files@.take(i as int)),
        decreases files@.len() - i,
    {
        let mut more = files[i].reader.iter_internal();
        let mut more_rts = files[i].reader.range_tombstones();
        let ghost e = more@;
        let ghost t = more_rts@;
        let ghost e0 = entries@;
        let ghost t0 = rts@;
        entries.append(&mut more);
        rts.append(&mut more_rts);
        proof {
            assert(pairs(entries@) =~= pairs(e0) + pairs(e));
            assert(tombstone_views(rts@) =~= tombstone_views(t0) + tombstone_views(t));
            assert(tombstone_views(t) =~= tombstone_views(files@[i as int].reader.tombstones()));
            let next = files@.take(i + 1);
            assert(next.drop_last() =~= files@.take(i as int));
            assert(next.last() == files@[i as int]);
            assert(es0 + all_entries(next) =~= (es0 + all_entries(files@.take(i as int)))
                + files@[i as int].reader.entries());
            assert(rts0 + all_tombstones(next) =~= (rts0 + all_tombstones(files@.take(i as int)))
                + tombstone_views(files@[i as int].reader.tombstones()));
        }
        i += 1;
    }
    assert(files@.take(i as int) =~= files@);
}

// ── Tombstones that are carried on ───────────────────────────────

/// The order of the tombstones of a table that compaction writes: by start,
/// then by end, then the oldest first.
pub open spec fn carried_before(a: TombstoneView, b: TombstoneView) -> bool {
    ||| lex_lt(a.start, b.start)
    ||| a.start == b.start && lex_lt(a.end, b.end)
    ||| a.start == b.start && a.end == b.end && a.seq < b.seq
}

/// `r` is `s` in order, without repetitions.
pub open spec fn is_carried(s: Seq<TombstoneView>, r: Seq<TombstoneView>) -> bool {
    &&& forall|i: int, j: int|
        0 <= i < j < r.len() ==> carried_before(#[trigger] r[i], #[trigger] r[j])
    &&& forall|v: TombstoneView| #[trigger] r.contains(v) == s.contains(v)
}

/// A tombstone in the order of [`carried_before`].
pub struct CarriedTombstone(pub RangeTombstone);

impl Ranked for CarriedTombstone {
    type Rank = TombstoneView;

    open spec fn rank(&self) -> TombstoneView {
        self.0@
    }

    open spec fn rank_ok(r: TombstoneView) -> bool {
        true
    }

    open spec fn rank_lt(a: TombstoneView, b: TombstoneView) -> bool {
        carried_before(a, b)
    }

    proof fn lemma_rank_order(a: TombstoneView, b: TombstoneView, c: TombstoneView) {
        lemma_lex_order(a.start, b.start, c.start);
        lemma_lex_order(b.start, a.start, c.start);
        lemma_lex_order(a.end, b.end, c.end);
        lemma_lex_order(b.end, a.end, c.end);
    }

    fn ranks_before(&self, other: &Self) -> (r: bool) {
        proof {
            lemma_lex_trichotomy(self.0.start@, other.0.start@);
            lemma_lex_trichotomy(self.0.end@, other.0.end@);
        }
        if bytes_lt(self.0.start.as_slice(), other.0.start.as_slice()) {
            true
        } else if bytes_lt(other.0.start.as_slice(), self.0.start.as_slice()) {
            false
        } else if bytes_lt(self.0.end.as_slice(), other.0.end.as_slice()) {
            true
        } else if bytes_lt(other.0.end.as_slice(), self.0.end.as_slice()) {
            false
        } else {
            self.0.seq < other.0.seq
        }
    }
}

proof fn lemma_carried_members(c: Seq<CarriedTombstone>, s: Seq<TombstoneView>, v: TombstoneView)
    requires
        s.len() == c.len(),
        forall|i: int| 0 <= i < c.len() ==> (#[trigger] c[i]).0@ == s[i],
    ensures
        s.contains(v) == (first_ranked(c, v) is Some),
{
    lemma_first_ranked_found(c, v);
    match first_ranked(c, v) {
        Some(x) => {
            let i = choose|i: int| 0 <= i < c.len() && c[i] == x;
            assert(s[i] == v);
        },
        None => {
            if s.contains(v) {
                let i = choose|i: int| 0 <= i < s.len() && s[i] == v;
                assert(c[i].rank() == v);
            }
        },
    }
}

/// Put tombstones in the order in which a table carries them on, and drop
/// repetitions: one tombstone may come from several inputs.
pub fn carry_tombstones(rts: Vec<RangeTombstone>) -> (r: Vec<RangeTombstone>)
    ensures
        is_carried(tombstone_views(rts@), tombstone_views(r@)),
{
    let ghost s = tombstone_views(rts@);
    let mut wrapped: Vec<CarriedTombstone> = Vec::new();
    for t in it: rts
        invariant
            s == tombstone_views(it.seq()),
            wrapped@.len() == it.index(),
            forall|j: int| 0 <= j < it.index() ==> (#[trigger] wrapped@[j]).0@ == s[j],
    {
        wrapped.push(CarriedTombstone(t));
    }
    let ghost w = wrapped@;
    let sorted = sort_dedup(wrapped);
    let ghost z = sorted@;
    let mut r: Vec<RangeTombstone> = Vec::new();
    for t in it: sorted
        invariant
            z == it.seq(),
            r@.len() == it.index(),
            forall|j: int| 0 <= j < it.index() ==> (#[trigger] r@[j])@ == z[j].0@,
    {
        r.push(t.0);
    }
    proof {
        let v = tombstone_views(r@);
        assert forall|i: int, j: int| 0 <= i < j < v.len() implies carried_before(
            #[trigger] v[i],
            #[trigger] v[j],
        ) by {
            assert(CarriedTombstone::rank_lt(z[i].rank(), z[j].rank()));
        }
        assert forall|x: TombstoneView| #[trigger] v.contains(x) == s.contains(x) by {
            lemma_carried_members(z, v, x);
            lemma_carried_members(w, s, x);
            assert(first_ranked(z, x) == first_ranked(w, x));
        }
    }
    r
}

// ── The compaction ───────────────────────────────────────────────

/// What a compaction writes: entries in order, and the tombstones that every
/// output table carries.
pub struct CompactionOutput {
    pub entries: Entries,
    pub tombstones: Vec<RangeTombstone>,
}

/// The steps of a compaction: `merged` are the entries of the inputs in order;
/// `rts` the tombstones that the filter left; `kept` the entries after
/// shadowing, collecting and filtering; `out` and `out_rts` what is written.
/// Filter and operator have a say only where no snapshot is live.
pub open spec fn compacts<F: CompactionFilter, M: MergeOperator>(
    inputs: Seq<Pair>,
    input_rts: Seq<TombstoneView>,
    level: nat,
    pin_seq: u64,
    filter: Option<&F>,
    op: Option<&M>,
    merged: Seq<Pair>,
    rts: Seq<RangeTombstone>,
    kept: Seq<Pair>,
    out: Seq<Pair>,
    out_rts: Seq<TombstoneView>,
) -> bool {
    &&& is_merged(inputs, merged)
    &&& match filter {
        Some(f) if pin_seq == u64::MAX => {
            &&& may_keep_ranges(*f, level, input_rts, tombstone_views(rts))
            &&& may_filter(*f, level, collected(unshadowed(merged, rts, pin_seq), pin_seq), kept)
        },
        _ => {
            &&& tombstone_views(rts) == input_rts
            &&& kept == collected(unshadowed(merged, rts, pin_seq), pin_seq)
        },
    }
    &&& match op {
        Some(o) if pin_seq == u64::MAX => may_collapse_all(*o, kept, out),
        _ => out == kept,
    }
    &&& is_carried(tombstone_views(rts), out_rts)
}

/// `out` and `out_rts` are what a compaction of the inputs may write.
pub open spec fn may_compact<F: CompactionFilter, M: MergeOperator>(
    inputs: Seq<Pair>,
    input_rts: Seq<TombstoneView>,
    level: nat,
    pin_seq: u64,
    filter: Option<&F>,
    op: Option<&M>,
    out: Seq<Pair>,
    out_rts: Seq<TombstoneView>,
) -> bool {
    exists|merged: Seq<Pair>, rts: Seq<RangeTombstone>, kept: Seq<Pair>| #[trigger]
        compacts(
            inputs,
            input_rts,
            level,
            pin_seq,
            filter,
            op,
            merged,
            rts,
            kept,
            out,
            out_rts,
        )
}

/// Of the versions of one user key all but the last are merge operands.
pub open spec fn one_terminator(es: Seq<Pair>) -> bool {
    forall|i: int, j: int|
        0 <= i < j < es.len() && user_of((#[trigger] es[i]).0) == user_of((#[trigger] es[j]).0)
            ==> type_of(es[i].0) == VALUE_TYPE_MERGE
}

/// Without a live snapshot a user key keeps its merge operands and the one
/// version that they are layered on.
pub proof fn lemma_collected_one_terminator(es: Seq<Pair>)
    requires
        sorted_entries(es),
    ensures
        one_terminator(collected(es, u64::MAX)),
    decreases es.len(),
{
    if es.len() > 0 {
        let front = es.drop_last();
        let c = collected(front, u64::MAX);
        lemma_collected_one_terminator(front);
        lemma_collected_sorted(front, u64::MAX);
        if needed(es, es.len() - 1, u64::MAX) {
            let w = c.push(es.last());
            assert forall|i: int, j: int|
                0 <= i < j < w.len() && user_of((#[trigger] w[i]).0) == user_of(
                    (#[trigger] w[j]).0,
                ) implies type_of(w[i].0) == VALUE_TYPE_MERGE by {
                assert(w[i] == c[i]);
                if j < c.len() {
                    assert(w[j] == c[j]);
                } else {
                    let a = choose|a: int| 0 <= a < front.len() && front[a] == c[i];
                    assert(es[a] == c[i]);
                    assert(!outlived(es, es.len() - 1, u64::MAX));
                }
            }
        }
    }
}

/// What the filter may make of an entry is a version of the same user key with
/// the same sequence number.
proof fn lemma_may_become<F: CompactionFilter>(filter: F, level: nat, p: Pair, out: Pair)
    requires
        is_internal(p.0),
        may_become(filter, level, p, out),
    ensures
        is_internal(out.0),
        user_of(out.0) == user_of(p.0),
        seq_of(out.0) == seq_of(p.0),
        type_of(p.0) != VALUE_TYPE_VALUE ==> out == p,
        type_of(p.0) == VALUE_TYPE_VALUE ==> type_of(out.0) == VALUE_TYPE_VALUE || type_of(out.0)
            == VALUE_TYPE_DELETION,
{
    if type_of(p.0) == VALUE_TYPE_VALUE {
        let d = choose|d: DecisionView| #[trigger]
            filter.filter_may(level, user_of(p.0), p.1, d) && out == decided(p, d);
        lemma_decode_encoded(user_of(p.0), seq_of(p.0), VALUE_TYPE_DELETION);
    }
}

/// The filter keeps the entries in order.
pub proof fn lemma_filtered_sorted<F: CompactionFilter>(
    filter: F,
    level: nat,
    es: Seq<Pair>,
    out: Seq<Pair>,
)
    requires
        sorted_entries(es),
        one_terminator(es),
        may_filter(filter, level, es, out),
    ensures
        sorted_entries(out),
{
    assert forall|i: int| 0 <= i < out.len() implies is_internal((#[trigger] out[i]).0) by {
        lemma_may_become(filter, level, es[i], out[i]);
    }
    assert forall|i: int, j: int| 0 <= i < j < out.len() implies ik_lt(
        (#[trigger] out[i]).0,
        (#[trigger] out[j]).0,
    ) by {
        lemma_may_become(filter, level, es[i], out[i]);
        lemma_may_become(filter, level, es[j], out[j]);
        assert(ik_lt(es[i].0, es[j].0));
        lemma_internal_order(es[i].0, es[j].0);
        lemma_internal_order(out[i].0, out[j].0);
    }
}

/// What the operator makes of the versions of one user key is in order, and
/// of that user key.
pub proof fn lemma_collapsed_group<M: MergeOperator>(
    op: M,
    key: Seq<u8>,
    group: Seq<Pair>,
    made: Seq<Pair>,
)
    requires
        sorted_entries(group),
        group.len() > 0,
        forall|i: int| 0 <= i < group.len() ==> user_of((#[trigger] group[i]).0) == key,
        may_collapse(op, key, group, made),
    ensures
        sorted_entries(made),
        forall|i: int| 0 <= i < made.len() ==> user_of((#[trigger] made[i]).0) == key,
{
    let n = operand_count(group);
    lemma_operand_count(group);
    if made != group {
        assert(n > 0);
        match terminator(group) {
            Some(t) => {
                let r = choose|r: Option<Seq<u8>>| #[trigger]
                    op.full_may(
                        key,
                        super::compaction_merge::base_of(t),
                        super::compaction_merge::operands_oldest_first(group, n),
                        r,
                    ) && match r {
                        Some(v) => made == seq![
                            (internal_key(key, seq_of(group[0].0), VALUE_TYPE_VALUE), v),
                        ],
                        None => made == group,
                    };
                lemma_decode_encoded(key, seq_of(group[0].0), VALUE_TYPE_VALUE);
                assert(made.len() == 1);
            },
            None => {
                let r = choose|r: Option<Seq<u8>>| #[trigger]
                    may_fold(op, key, super::compaction_merge::operands_oldest_first(group, n), r)
                        && match r {
                        Some(v) => made == seq![
                            (internal_key(key, seq_of(group[0].0), VALUE_TYPE_MERGE), v),
                        ],
                        None => made == group,
                    };
                lemma_decode_encoded(key, seq_of(group[0].0), VALUE_TYPE_MERGE);
                assert(made.len() == 1);
            },
        }
    }
}

/// The operator keeps the entries in order, and adds no user key.
pub proof fn lemma_collapsed_sorted<M: MergeOperator>(op: M, es: Seq<Pair>, out: Seq<Pair>)
    requires
        sorted_entries(es),
        may_collapse_all(op, es, out),
    ensures
        sorted_entries(out),
        forall|i: int|
            0 <= i < out.len() ==> exists|j: int|
                0 <= j < es.len() && user_of((#[trigger] out[i]).0) == user_of(
                    (#[trigger] es[j]).0,
                ),
    decreases es.len(),
{
    if es.len() > 0 {
        let key = user_of(es.last().0);
        let (start, n) = choose|start: int, n: int|
            0 <= start < es.len() && 0 <= n <= out.len() && #[trigger] is_last_group(es, start)
                && #[trigger] may_collapse(op, key, es.skip(start), out.skip(n))
                && may_collapse_all(op, es.take(start), out.take(n));
        let front = es.take(start);
        let group = es.skip(start);
        let made = out.skip(n);
        let head = out.take(n);
        assert(sorted_entries(front));
        assert forall|i: int| 0 <= i < group.len() implies is_internal((#[trigger] group[i]).0)
            && user_of(group[i].0) == key by {
            assert(group[i] == es[start + i]);
        }
        assert forall|i: int, j: int| 0 <= i < j < group.len() implies ik_lt(
            (#[trigger] group[i]).0,
            (#[trigger] group[j]).0,
        ) by {
            assert(group[i] == es[start + i] && group[j] == es[start + j]);
        }
        lemma_collapsed_sorted(op, front, head);
        lemma_collapsed_group(op, key, group, made);
        assert forall|i: int| 0 <= i < head.len() implies exists|j: int|
            0 <= j < start && user_of((#[trigger] head[i]).0) == user_of((#[trigger] es[j]).0) by {
            let j = choose|j: int|
                0 <= j < front.len() && user_of(head[i].0) == user_of((#[trigger] front[j]).0);
            assert(front[j] == es[j]);
        }
        assert forall|i: int| 0 <= i < out.len() implies is_internal((#[trigger] out[i]).0) by {
            if i < n {
                assert(out[i] == head[i]);
            } else {
                assert(out[i] == made[i - n]);
            }
        }
        assert forall|i: int, j: int| 0 <= i < j < out.len() implies ik_lt(
            (#[trigger] out[i]).0,
            (#[trigger] out[j]).0,
        ) by {
            if j < n {
                assert(out[i] == head[i] && out[j] == head[j]);
            } else if i >= n {
                assert(out[i] == made[i - n] && out[j] == made[j - n]);
            } else {
                assert(out[i] == head[i] && out[j] == made[j - n]);
                let a = choose|a: int|
                    0 <= a < start && user_of(head[i].0) == user_of((#[trigger] es[a]).0);
                lemma_user_ascends(es, a, start - 1);
                lemma_user_ascends(es, start - 1, es.len() - 1);
                let u = user_of(es[a].0);
                let v = user_of(es[start - 1].0);
                lemma_lex_order(u, v, key);
                lemma_lex_order(v, key, u);
                lemma_internal_order(out[i].0, out[j].0);
            }
        }
        assert forall|i: int| 0 <= i < out.len() implies exists|j: int|
            0 <= j < es.len() && user_of((#[trigger] out[i]).0) == user_of(
                (#[trigger] es[j]).0,
            ) by {
            if i < n {
                assert(out[i] == head[i]);
                let j = choose|j: int|
                    0 <= j < start && user_of(head[i].0) == user_of((#[trigger] es[j]).0);
                assert(user_of(out[i].0) == user_of(es[j].0));
            } else {
                assert(out[i] == made[i - n]);
                assert(user_of(out[i].0) == user_of(es[es.len() - 1].0));
            }
        }
    }
}

/// Merge the inputs and drop what no reader needs.
///
/// `files` are the tables of the input level followed by those of the output
/// level that they overlap. `pin_seq` is the sequence number of the oldest
/// live snapshot, `u64::MAX` where there is none. The result is in order, so
/// it can be written as tables.
pub fn compact<F: CompactionFilter, M: MergeOperator>(
    files: &Vec<Arc<LiveSst>>,
    target_level: usize,
    pin_seq: u64,
    filter: Option<&F>,
    op: Option<&M>,
) -> (r: CompactionOutput)
    requires
        all_wf(files@),
    ensures
        may_compact(
            all_entries(files@),
            all_tombstones(files@),
            target_level as nat,
            pin_seq,
            filter,
            op,
            pairs(r.entries@),
            tombstone_views(r.tombstones@),
        ),
        sorted_entries(pairs(r.entries@)),
        filter matches Some(f) ==> pin_seq == u64::MAX && one_value(all_entries(files@))
            ==> forall|p: Pair| #[trigger]
            is_newest_value(all_entries(files@), p) ==> is_decided(
                *f,
                target_level as nat,
                pairs(r.entries@),
                tombstone_views(r.tombstones@),
                p,
            ),
        filter matches Some(f) ==> pin_seq == u64::MAX ==> forall|t: TombstoneView| #[trigger]
            is_range_decided(
                *f,
                target_level as nat,
                all_tombstones(files@),
                tombstone_views(r.tombstones@),
                t,
            ),
        op matches Some(o) ==> filter is None && pin_seq == u64::MAX && one_value(
            all_entries(files@),
        ) ==> forall|
            key: Seq<u8>,
            older: Set<Pair>,
            h: u64,
            read: Result<Option<Seq<u8>>, ErrorKind>,
        | #[trigger]
            keeps_merged_read(
                all_entries(files@),
                all_tombstones(files@),
                *o,
                pairs(r.entries@),
                key,
                older,
                h,
                read,
            ),
        (pin_seq != u64::MAX || filter is None && op is None) && one_value(all_entries(files@))
            ==> forall|p: Pair| #[trigger]
            pairs(r.entries@).contains(p) == is_needed(
                all_entries(files@),
                all_tombstones(files@),
                pin_seq,
                p,
            ),
{
    let mut entries: Entries = Vec::new();
    let mut rts: Vec<RangeTombstone> = Vec::new();
    proof {
        assert(pairs(entries@) =~= Seq::<Pair>::empty());
        assert(tombstone_views(rts@) =~= Seq::<TombstoneView>::empty());
    }
    read_inputs(files, &mut entries, &mut rts);
    proof {
        assert(pairs(entries@) =~= all_entries(files@));
        assert(tombstone_views(rts@) =~= all_tombstones(files@));
        lemma_all_internal(files@);
    }
    let entries = merge_entries(entries);
    let ghost merged = pairs(entries@);
    let no_snapshot = pin_seq == u64::MAX;
    // The filter sees the tombstones before they shadow anything, so that
    // dropping one does not take with it what it would have shadowed.
    let rts = match filter {
        Some(f) if no_snapshot => filter_tombstones(rts, f, target_level),
        _ => rts,
    };
    let ghost kept_rts = rts@;
    let entries = drop_shadowed(entries, &rts, pin_seq);
    proof {
        lemma_unshadowed_sorted(merged, kept_rts, pin_seq);
    }
    let entries = gc_old_versions(entries, pin_seq);
    let ghost needed_es = pairs(entries@);
    proof {
        lemma_collected_sorted(unshadowed(merged, kept_rts, pin_seq), pin_seq);
        if no_snapshot {
            lemma_collected_one_terminator(unshadowed(merged, kept_rts, pin_seq));
        }
    }
    let entries = match filter {
        Some(f) if no_snapshot => apply_compaction_filter(entries, f, target_level),
        _ => entries,
    };
    let ghost kept = pairs(entries@);
    proof {
        if let Some(f) = filter {
            if no_snapshot {
                lemma_filtered_sorted(*f, target_level as nat, needed_es, kept);
            }
        }
        assert(sorted_entries(kept));
    }
    let entries = match op {
        Some(o) if no_snapshot => collapse_merge_chains(entries, o),
        _ => entries,
    };
    proof {
        if let Some(o) = op {
            if no_snapshot {
                lemma_collapsed_sorted(*o, kept, pairs(entries@));
            }
        }
    }
    let tombstones = carry_tombstones(rts);
    proof {
        assert(compacts(
            all_entries(files@),
            all_tombstones(files@),
            target_level as nat,
            pin_seq,
            filter,
            op,
            merged,
            kept_rts,
            kept,
            pairs(entries@),
            tombstone_views(tombstones@),
        ));
    }
    proof {
        lemma_filter_has_its_say(
            all_entries(files@),
            all_tombstones(files@),
            target_level as nat,
            pin_seq,
            filter,
            op,
            pairs(entries@),
            tombstone_views(tombstones@),
        );
    }
    CompactionOutput { entries, tombstones }
}

/// What the filter decided was done, and what no filter or operator touches is
/// what readers need.
proof fn lemma_filter_has_its_say<F: CompactionFilter, M: MergeOperator>(
    inputs: Seq<Pair>,
    input_rts: Seq<TombstoneView>,
    level: nat,
    pin_seq: u64,
    filter: Option<&F>,
    op: Option<&M>,
    out: Seq<Pair>,
    out_rts: Seq<TombstoneView>,
)
    requires
        may_compact(inputs, input_rts, level, pin_seq, filter, op, out, out_rts),
    ensures
        filter matches Some(f) ==> pin_seq == u64::MAX && one_value(inputs) ==> forall|p: Pair|
            #[trigger]
            is_newest_value(inputs, p) ==> is_decided(*f, level, out, out_rts, p),
        filter matches Some(f) ==> pin_seq == u64::MAX ==> forall|t: TombstoneView| #[trigger]
            is_range_decided(*f, level, input_rts, out_rts, t),
        op matches Some(o) ==> filter is None && pin_seq == u64::MAX && one_value(inputs) ==> forall|
            key: Seq<u8>,
            older: Set<Pair>,
            h: u64,
            read: Result<Option<Seq<u8>>, ErrorKind>,
        | #[trigger]
            keeps_merged_read(inputs, input_rts, *o, out, key, older, h, read),
        (pin_seq != u64::MAX || filter is None && op is None) && one_value(inputs) ==> forall|
            p: Pair,
        | #[trigger]
            out.contains(p) == is_needed(inputs, input_rts, pin_seq, p),
{
    if op is Some && filter is None && pin_seq == u64::MAX && one_value(inputs) {
        let o = op->0;
        let none: Option<&F> = None;
        assert(filter == none);
        assert forall|
            key: Seq<u8>,
            older: Set<Pair>,
            h: u64,
            read: Result<Option<Seq<u8>>, ErrorKind>,
        | #[trigger]
            keeps_merged_read(inputs, input_rts, *o, out, key, older, h, read) by {
            if may_lie_below(inputs, input_rts, *o, key, older, h) {
                lemma_compaction_changes_no_merged_read::<F, M>(
                    inputs,
                    input_rts,
                    level,
                    o,
                    out,
                    out_rts,
                    key,
                    older,
                    h,
                    read,
                );
            }
        }
    }
    if pin_seq == u64::MAX && filter is Some {
        let f = filter->0;
        if one_value(inputs) {
            assert forall|p: Pair| #[trigger] is_newest_value(inputs, p) implies is_decided(
                *f,
                level,
                out,
                out_rts,
                p,
            ) by {
                lemma_filter_decides_on_newest_values(
                    inputs,
                    input_rts,
                    level,
                    f,
                    op,
                    out,
                    out_rts,
                    p,
                );
            }
        }
        assert forall|t: TombstoneView| #[trigger]
            is_range_decided(*f, level, input_rts, out_rts, t) by {
            lemma_filter_decides_on_tombstones(inputs, input_rts, level, f, op, out, out_rts, t);
        }
    }
    if (pin_seq != u64::MAX || filter is None && op is None) && one_value(inputs) {
        assert forall|p: Pair| #[trigger] out.contains(p) == is_needed(
            inputs,
            input_rts,
            pin_seq,
            p,
        ) by {
            lemma_compaction_carries_on_what_is_needed(
                inputs,
                input_rts,
                level,
                pin_seq,
                filter,
                op,
                out,
                out_rts,
                p,
            );
        }
    }
}

// ── What a compaction may drop ───────────────────────────────────

/// An entry of a merged run is the first of its key among the inputs.
pub proof fn lemma_first_value_in(es: Seq<Pair>, k: Seq<u8>)
    ensures
        match first_value(es, k) {
            Some(v) => es.contains((k, v)),
            None => forall|i: int| 0 <= i < es.len() ==> (#[trigger] es[i]).0 != k,
        },
    decreases es.len(),
{
    if es.len() > 0 {
        let rest = es.skip(1);
        if es[0].0 == k {
            assert(es[0] == (k, es[0].1));
        } else {
            lemma_first_value_in(rest, k);
            match first_value(rest, k) {
                Some(v) => {
                    let i = choose|i: int| 0 <= i < rest.len() && rest[i] == (k, v);
                    assert(es[i + 1] == (k, v));
                },
                None => {
                    assert forall|i: int| 0 <= i < es.len() implies (#[trigger] es[i]).0 != k by {
                        if i > 0 {
                            assert(rest[i - 1] == es[i]);
                        }
                    }
                },
            }
        }
    }
}

/// Merging drops nothing but repetitions of a key, and adds nothing.
pub proof fn lemma_merged_members(es: Seq<Pair>, merged: Seq<Pair>, p: Pair)
    requires
        is_merged(es, merged),
    ensures
        merged.contains(p) ==> es.contains(p),
        es.contains(p) && one_value(es) ==> merged.contains(p),
{
    lemma_first_value_in(es, p.0);
    lemma_first_value_in(merged, p.0);
    assert(first_value(merged, p.0) == first_value(es, p.0));
    if merged.contains(p) {
        let i = choose|i: int| 0 <= i < merged.len() && merged[i] == p;
        let v = first_value(merged, p.0)->0;
        let j = choose|j: int| 0 <= j < merged.len() && merged[j] == (p.0, v);
        lemma_one_value(merged, i, j);
    }
    if es.contains(p) && one_value(es) {
        let i = choose|i: int| 0 <= i < es.len() && es[i] == p;
        let v = first_value(es, p.0)->0;
        let j = choose|j: int| 0 <= j < es.len() && es[j] == (p.0, v);
        assert(es[i].0 == es[j].0);
        assert(p == (p.0, v));
    }
}

/// Entries with one key have one value: a sequence number is given to one
/// write.
pub open spec fn one_value(es: Seq<Pair>) -> bool {
    forall|i: int, j: int|
        0 <= i < es.len() && 0 <= j < es.len() && (#[trigger] es[i]).0 == (#[trigger] es[j]).0
            ==> es[i].1 == es[j].1
}

/// What a tombstone shadows is dropped, and nothing else.
pub proof fn lemma_unshadowed_drops(
    es: Seq<Pair>,
    rts: Seq<RangeTombstone>,
    pin_seq: u64,
    p: Pair,
)
    ensures
        unshadowed(es, rts, pin_seq).contains(p) == (es.contains(p) && !shadowed(p, rts, pin_seq)),
    decreases es.len(),
{
    if es.len() > 0 {
        let front = es.drop_last();
        lemma_unshadowed_drops(front, rts, pin_seq, p);
        let u = unshadowed(front, rts, pin_seq);
        if es.contains(p) {
            let i = choose|i: int| 0 <= i < es.len() && es[i] == p;
            if i < front.len() {
                assert(front[i] == p);
            }
        }
        if front.contains(p) {
            let i = choose|i: int| 0 <= i < front.len() && front[i] == p;
            assert(es[i] == p);
        }
        assert(es[es.len() - 1] == es.last());
        if !shadowed(es.last(), rts, pin_seq) {
            let w = u.push(es.last());
            assert(w[u.len() as int] == es.last());
            if u.contains(p) {
                let i = choose|i: int| 0 <= i < u.len() && u[i] == p;
                assert(w[i] == p);
            }
            if w.contains(p) {
                let i = choose|i: int| 0 <= i < w.len() && w[i] == p;
                if i < u.len() {
                    assert(u[i] == p);
                }
            }
        }
    }
}

/// What is collected as unneeded has a newer version at or below `pin_seq`
/// that stays.
pub proof fn lemma_collected_drops(es: Seq<Pair>, pin_seq: u64, p: Pair)
    requires
        sorted_entries(es),
        es.contains(p),
        !collected(es, pin_seq).contains(p),
    ensures
        exists|j: Pair| #[trigger]
            collected(es, pin_seq).contains(j) && user_of(j.0) == user_of(p.0) && seq_of(j.0)
                <= pin_seq && type_of(j.0) != VALUE_TYPE_MERGE && ik_lt(j.0, p.0),
    decreases es.len(),
{
    let front = es.drop_last();
    let c = collected(front, pin_seq);
    let w = collected(es, pin_seq);
    assert(sorted_entries(front));
    assert forall|j: Pair| #[trigger] c.contains(j) implies w.contains(j) by {
        let a = choose|a: int| 0 <= a < c.len() && c[a] == j;
        assert(w[a] == j);
    }
    let i = choose|i: int| 0 <= i < es.len() && es[i] == p;
    if i < front.len() {
        assert(front[i] == p);
        lemma_collected_drops(front, pin_seq, p);
    } else {
        assert(!needed(es, i, pin_seq)) by {
            if needed(es, i, pin_seq) {
                assert(w[c.len() as int] == p);
            }
        }
        let a = choose|a: int|
            0 <= a < i && user_of((#[trigger] es[a]).0) == user_of(es[i].0) && seq_of(es[a].0)
                <= pin_seq && type_of(es[a].0) != VALUE_TYPE_MERGE;
        let q = es[a];
        assert(front[a] == q);
        assert(ik_lt(q.0, p.0));
        if !c.contains(q) {
            lemma_collected_drops(front, pin_seq, q);
            let j = choose|j: Pair| #[trigger]
                c.contains(j) && user_of(j.0) == user_of(q.0) && seq_of(j.0) <= pin_seq && type_of(
                    j.0,
                ) != VALUE_TYPE_MERGE && ik_lt(j.0, q.0);
            lemma_collected_sorted(front, pin_seq);
            let b = choose|b: int| 0 <= b < c.len() && c[b] == j;
            assert(is_internal(c[b].0));
            assert(is_internal(es[a].0));
            assert(is_internal(es[i].0));
            lemma_internal_total_order(j.0, q.0, p.0);
            assert(w.contains(j));
        } else {
            assert(w.contains(q));
        }
    }
}

/// A compaction on which neither filter nor operator has a say drops no
/// version that a read of `key` at `snapshot_seq` needs, for every snapshot at
/// or after the oldest live one: what is gone is deleted by a tombstone that is
/// carried on, or a newer version stays that is no merge operand. It adds
/// nothing, and carries all tombstones on.
pub proof fn lemma_compaction_drops_unneeded<F: CompactionFilter, M: MergeOperator>(
    inputs: Seq<Pair>,
    input_rts: Seq<TombstoneView>,
    level: nat,
    pin_seq: u64,
    filter: Option<&F>,
    op: Option<&M>,
    out: Seq<Pair>,
    out_rts: Seq<TombstoneView>,
    key: Seq<u8>,
    snapshot_seq: u64,
    p: Pair,
)
    requires
        may_compact(inputs, input_rts, level, pin_seq, filter, op, out, out_rts),
        pin_seq == u64::MAX ==> filter is None && op is None,
        one_value(inputs),
        pin_seq <= snapshot_seq,
    ensures
        out.contains(p) ==> inputs.contains(p),
        forall|t: TombstoneView| #[trigger] out_rts.contains(t) == input_rts.contains(t),
        inputs.contains(p) && visible(p, key, snapshot_seq) && !out.contains(p) ==> {
            ||| exists|t: TombstoneView| #[trigger]
                out_rts.contains(t) && t.covers(key) && t.seq <= snapshot_seq && t.seq > seq_of(p.0)
            ||| exists|j: Pair| #[trigger]
                out.contains(j) && visible(j, key, snapshot_seq) && type_of(j.0)
                    != VALUE_TYPE_MERGE && ik_lt(j.0, p.0)
        },
{
    let (merged, rts, kept) = choose|merged: Seq<Pair>, rts: Seq<RangeTombstone>, kept: Seq<Pair>|
     #[trigger]
        compacts(
            inputs,
            input_rts,
            level,
            pin_seq,
            filter,
            op,
            merged,
            rts,
            kept,
            out,
            out_rts,
        );
    let u = unshadowed(merged, rts, pin_seq);
    assert(out == collected(u, pin_seq));
    assert(tombstone_views(rts) == input_rts);
    lemma_merged_members(inputs, merged, p);
    lemma_unshadowed_sorted(merged, rts, pin_seq);
    lemma_collected_sorted(u, pin_seq);
    lemma_unshadowed_drops(merged, rts, pin_seq, p);
    if out.contains(p) {
        let i = choose|i: int| 0 <= i < out.len() && out[i] == p;
        assert(u.contains(out[i]));
    }
    if inputs.contains(p) && visible(p, key, snapshot_seq) && !out.contains(p) {
        assert(merged.contains(p));
        if shadowed(p, rts, pin_seq) {
            lemma_max_covering(rts, key, pin_seq);
            let i = choose|i: int|
                0 <= i < rts.len() && (#[trigger] rts[i])@.covers(key) && rts[i].seq <= pin_seq
                    && rts[i].seq == max_covering(rts, key, pin_seq);
            assert(input_rts[i] == rts[i]@);
            assert(input_rts.contains(rts[i]@));
            assert(out_rts.contains(rts[i]@));
        } else {
            lemma_collected_drops(u, pin_seq, p);
        }
    }
}

} // verus!
