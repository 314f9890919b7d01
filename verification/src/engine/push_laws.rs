//! From the steps of a compaction to what it does to the tree.
//!
//! A compaction picks tables, merges them, cuts the result into tables, and
//! edits the version. The laws here lead from what each step ensures to what
//! the laws on reads and on the order of age require.

use super::age_laws::in_age_order;
use super::age_laws::left;
use super::age_laws::lemma_age_order_serves_lookups;
use super::age_laws::lemma_compaction_keeps_age_order;
use super::age_laws::lemma_overlapping;
use super::age_laws::lemma_place;
use super::age_laws::place;
use super::age_laws::Push;
use super::block::sorted_entries;
use super::block_entry::Pair;
use super::compaction::all_entries;
use super::compaction::all_tombstones;
use super::compaction_laws::has_table;
use super::compaction_laws::hold;
use super::compaction_laws::lemma_all_entries;
use super::compaction_laws::lemma_all_tombstones;
use super::compaction_laws::lemma_compaction_keeps_reads;
use super::compaction_laws::replaced;
use super::compaction_laws::table_at;
use super::compaction_laws::Merged;
use super::compaction_output::cuts_at;
use super::compaction_output::is_chunk;
use super::compaction_output::is_chunks;
use super::compaction_output::is_group_start;
use super::compaction_output::is_plan;
use super::compaction_output::lemma_between;
use super::compaction_output::starts_group;
use super::compaction_pick::additions;
use super::compaction_pick::edits_of;
use super::compaction_pick::first_idle;
use super::compaction_pick::level_pick;
use super::compaction_pick::removals;
use super::hooks::CompactionFilter;
use super::hooks::MergeOperator;
use super::internal_key::seq_of;
use super::internal_key::user_of;
use super::lookup::in_layers;
use super::lookup::walk;
use super::lookup::walk_chain;
use super::manifest::edited;
use super::manifest::without_table;
use super::manifest::Version;
use super::manifest::VersionEdit;
use super::manifest::VersionView;
use super::manifest_record::MAX_LEVELS;
use super::range_tombstone::holds;
use super::range_tombstone::TombstoneView;
use super::read_view::ReadView;
use super::scan::outcome_of;
use super::sstable::LiveSst;
use std::sync::Arc;
use vstd::prelude::*;

verus! {

// ── Picking ──────────────────────────────────────────────────────

proof fn lemma_first_idle(files: Seq<Arc<LiveSst>>, busy: Set<u64>)
    ensures
        first_idle(files, busy) matches Some(f) ==> files.contains(f),
    decreases files.len(),
{
    if files.len() > 0 {
        if busy.contains(files[0].meta.file_id) {
            lemma_first_idle(files.skip(1), busy);
            if let Some(f) = first_idle(files.skip(1), busy) {
                let i = choose|i: int| 0 <= i < files.skip(1).len() && files.skip(1)[i] == f;
                assert(files[i + 1] == f);
            }
        } else {
            assert(files[0] == first_idle(files, busy)->0);
        }
    }
}

/// What is picked of a level can be pushed down: of level 0 all tables go.
pub proof fn lemma_level_pick_is_picked(
    v: ReadView,
    level: int,
    busy: Set<u64>,
    outputs: Seq<Arc<LiveSst>>,
)
    requires
        v.version.wf(),
        0 <= level,
        level_pick(v.version@.levels, level, busy) is Some,
    ensures
        ({
            let p = level_pick(v.version@.levels, level, busy)->0;
            (Push { l: level, inputs: p.inputs, overlaps: p.overlaps, outputs }).picked(v)
        }),
{
    let levels = v.version@.levels;
    let p = level_pick(levels, level, busy)->0;
    let x = Push { l: level, inputs: p.inputs, overlaps: p.overlaps, outputs };
    assert(v.version.levels@.len() == MAX_LEVELS);
    assert(levels[level] == v.version.levels@[level]@);
    assert(levels[level + 1] == v.version.levels@[level + 1]@);
    if level > 0 {
        lemma_first_idle(levels[level], busy);
    } else {
        assert forall|k: int| 0 <= k < x.inputs.len() implies v.version.levels@[0]@.contains(
            #[trigger] x.inputs[k],
        ) by {
            assert(v.version.levels@[0]@[k] == x.inputs[k]);
        }
        assert forall|i: int| 0 <= i < v.version.levels@[0]@.len() implies x.inputs.contains(
            #[trigger] v.version.levels@[0]@[i],
        ) by {
            assert(x.inputs[i] == v.version.levels@[0]@[i]);
        }
    }
}

// ── Cutting ──────────────────────────────────────────────────────

/// The ranges follow each other from 0 to `end`, and no user key is cut in two.
pub open spec fn tiles_to(es: Seq<Pair>, cs: Seq<(usize, usize)>, end: int) -> bool {
    &&& cs.len() == 0 ==> end == 0
    &&& cs.len() > 0 ==> cs[0].0 == 0 && cs.last().1 == end
    &&& forall|k: int| 0 <= k < cs.len() ==> (#[trigger] cs[k]).0 <= cs[k].1
    &&& forall|k: int| 0 <= k < cs.len() - 1 ==> (#[trigger] cs[k]).1 == cs[k + 1].0
    &&& forall|k: int|
        0 < k < cs.len() ==> 0 < (#[trigger] cs[k]).0 < es.len() && starts_group(
            es,
            cs[k].0 as int,
        )
}

/// The ranges of all workers, one worker after the other.
pub open spec fn flat(r: Seq<Vec<(usize, usize)>>) -> Seq<(usize, usize)>
    decreases r.len(),
{
    if r.len() == 0 {
        Seq::empty()
    } else {
        flat(r.drop_last()) + r.last()@
    }
}

proof fn lemma_tiles_on(
    es: Seq<Pair>,
    cs: Seq<(usize, usize)>,
    from: int,
    to: int,
    target: u64,
    more: Seq<(usize, usize)>,
)
    requires
        tiles_to(es, cs, from),
        is_chunks(es, from, to, target, more),
        to <= es.len(),
        from == 0 || 0 < from < es.len() && starts_group(es, from) || from == to,
        from == 0 ==> cs.len() == 0,
    ensures
        tiles_to(es, cs + more, to),
{
    let all = cs + more;
    assert forall|k: int| 0 <= k < all.len() implies (#[trigger] all[k]).0 <= all[k].1 by {
        if k >= cs.len() {
            assert(all[k] == more[k - cs.len()]);
        } else {
            assert(all[k] == cs[k]);
        }
    }
    assert forall|k: int| 0 <= k < all.len() - 1 implies (#[trigger] all[k]).1 == all[k + 1].0 by {
        if k >= cs.len() {
            assert(all[k] == more[k - cs.len()]);
            assert(all[k + 1] == more[k + 1 - cs.len()]);
        } else if k + 1 < cs.len() {
            assert(all[k] == cs[k] && all[k + 1] == cs[k + 1]);
        } else {
            assert(all[k] == cs.last());
            assert(all[k + 1] == more[0]);
        }
    }
    assert forall|k: int| 0 < k < all.len() implies 0 < (#[trigger] all[k]).0 < es.len()
        && starts_group(es, all[k].0 as int) by {
        if k < cs.len() {
            assert(all[k] == cs[k]);
        } else {
            let m = k - cs.len();
            assert(all[k] == more[m]);
            assert(is_chunk(es, more[m].0 as int, more[m].1 as int, to, target));
            if m > 0 {
                assert(more[m - 1].1 == more[m].0);
                assert(is_chunk(es, more[m - 1].0 as int, more[m - 1].1 as int, to, target));
                assert(cuts_at(es, more[m - 1].0 as int, more[m - 1].1 as int, target));
            } else {
                assert(more[0].0 == from);
            }
        }
    }
    if more.len() > 0 {
        assert(all.last() == more.last());
        if cs.len() > 0 {
            assert(all[0] == cs[0]);
        } else {
            assert(all[0] == more[0]);
        }
    } else {
        assert(all =~= cs);
    }
}

proof fn lemma_plan_prefix(
    es: Seq<Pair>,
    workers: nat,
    target: u64,
    b: Seq<usize>,
    r: Seq<Vec<(usize, usize)>>,
    n: int,
)
    requires
        workers > 1,
        is_plan(es, workers, target, b, r),
        forall|i: int, j: int| 0 <= i < j <= workers ==> (#[trigger] b[i]) <= (#[trigger] b[j]),
        0 <= n <= workers,
    ensures
        tiles_to(es, flat(r.take(n)), b[n] as int),
        b[n] == 0 ==> flat(r.take(n)).len() == 0,
    decreases n,
{
    if n == 0 {
        assert(r.take(0).len() == 0);
    } else {
        lemma_plan_prefix(es, workers, target, b, r, n - 1);
        assert(r.take(n).drop_last() =~= r.take(n - 1));
        assert(r.take(n).last() == r[n - 1]);
        assert(is_chunks(es, b[n - 1] as int, b[n - 1 + 1] as int, target, r[n - 1]@));
        assert(b[n - 1] <= b[n]);
        if n < workers {
            assert(b[n] <= b[workers as int]);
        }
        if n - 1 > 0 {
            assert(is_group_start(
                es,
                b[n - 1] as int,
                (n - 1) * (super::compaction_output::group_count(es) as int / workers as int),
            ));
        }
        lemma_tiles_on(
            es,
            flat(r.take(n - 1)),
            b[n - 1] as int,
            b[n] as int,
            target,
            r[n - 1]@,
        );
    }
}

/// How a result is cut: into ranges that follow each other, with no user key
/// in two of them.
pub proof fn lemma_plan_tiles(
    es: Seq<Pair>,
    workers: nat,
    target: u64,
    b: Seq<usize>,
    r: Seq<Vec<(usize, usize)>>,
)
    requires
        workers >= 1,
        workers > 1 ==> super::compaction_output::group_count(es) >= workers,
        is_plan(es, workers, target, b, r),
    ensures
        tiles_to(es, flat(r), es.len() as int),
{
    if workers == 1 {
        assert(r.drop_last().len() == 0);
        assert(flat(r.drop_last()) =~= Seq::<(usize, usize)>::empty());
        assert(r.last() == r[0]);
        lemma_tiles_on(es, Seq::empty(), 0, es.len() as int, target, r[0]@);
        assert(flat(r) =~= Seq::<(usize, usize)>::empty() + r[0]@);
    } else {
        super::compaction_output::lemma_splits_ascend(es, workers, b);
        lemma_plan_prefix(es, workers, target, b, r, workers as int);
        assert(r.take(workers as int) =~= r);
    }
}

pub proof fn lemma_tiles_ascend(es: Seq<Pair>, cs: Seq<(usize, usize)>, end: int, i: int, j: int)
    requires
        tiles_to(es, cs, end),
        0 <= i < j < cs.len(),
    ensures
        cs[i].1 <= cs[j].0,
    decreases j - i,
{
    assert(cs[j - 1].1 == cs[j - 1 + 1].0);
    if i < j - 1 {
        lemma_tiles_ascend(es, cs, end, i, j - 1);
        assert(cs[j - 1].0 <= cs[j - 1].1);
    }
}

/// Every place is in one of the ranges.
proof fn lemma_tile_of(es: Seq<Pair>, cs: Seq<(usize, usize)>, end: int, i: int) -> (k: int)
    requires
        tiles_to(es, cs, end),
        0 <= i < end,
    ensures
        0 <= k < cs.len(),
        cs[k].0 <= i < cs[k].1,
    decreases cs.len(),
{
    let n = cs.len() - 1;
    if i >= cs[n].0 {
        assert(cs.last() == cs[n]);
        n
    } else {
        let front = cs.drop_last();
        assert(n > 0);
        assert(cs[n - 1].1 == cs[n - 1 + 1].0);
        assert(front.last() == cs[n - 1]);
        assert forall|k: int| 0 <= k < front.len() implies (#[trigger] front[k]).0
            <= front[k].1 by {
            assert(front[k] == cs[k]);
        }
        assert forall|k: int| 0 <= k < front.len() - 1 implies (#[trigger] front[k]).1 == front[k
            + 1].0 by {
            assert(front[k] == cs[k] && front[k + 1] == cs[k + 1]);
        }
        assert forall|k: int| 0 < k < front.len() implies 0 < (#[trigger] front[k]).0 < es.len()
            && starts_group(es, front[k].0 as int) by {
            assert(front[k] == cs[k]);
        }
        assert(front[0] == cs[0]);
        let k = lemma_tile_of(es, front, cs[n].0 as int, i);
        assert(front[k] == cs[k]);
        k
    }
}

/// The tables are those of the ranges: each holds the entries of its range, and
/// the tombstones.
pub open spec fn written(
    es: Seq<Pair>,
    rts: Seq<TombstoneView>,
    cs: Seq<(usize, usize)>,
    outputs: Seq<Arc<LiveSst>>,
) -> bool {
    &&& outputs.len() == cs.len()
    &&& forall|k: int|
        0 <= k < cs.len() ==> (#[trigger] outputs[k]).reader.entries() == es.subrange(
            cs[k].0 as int,
            cs[k].1 as int,
        )
    &&& forall|k: int, tv: TombstoneView|
        0 <= k < cs.len() ==> (#[trigger] holds(outputs[k].reader.tombstones(), tv)
            == rts.contains(tv))
}

/// No range reaches beyond the end.
pub proof fn lemma_tiles_within(es: Seq<Pair>, cs: Seq<(usize, usize)>, end: int, k: int)
    requires
        tiles_to(es, cs, end),
        0 <= k < cs.len(),
    ensures
        cs[k].0 <= cs[k].1 <= end,
{
    let n = cs.len() - 1;
    assert(cs[n] == cs.last());
    assert(cs[n].0 <= cs[n].1);
    if k < n {
        lemma_tiles_ascend(es, cs, end, k, n);
    }
}

proof fn lemma_written_entries(
    es: Seq<Pair>,
    rts: Seq<TombstoneView>,
    cs: Seq<(usize, usize)>,
    outputs: Seq<Arc<LiveSst>>,
    p: Pair,
)
    requires
        tiles_to(es, cs, es.len() as int),
        written(es, rts, cs, outputs),
    ensures
        all_entries(outputs).contains(p) == es.contains(p),
{
    let end = es.len() as int;
    lemma_all_entries(outputs, p);
    if all_entries(outputs).contains(p) {
        let k = choose|k: int|
            0 <= k < outputs.len() && (#[trigger] outputs[k]).reader.entries().contains(p);
        let run = outputs[k].reader.entries();
        let i = choose|i: int| 0 <= i < run.len() && run[i] == p;
        lemma_tiles_within(es, cs, end, k);
        assert(es[cs[k].0 + i] == p);
    }
    if es.contains(p) {
        let i = choose|i: int| 0 <= i < es.len() && es[i] == p;
        let k = lemma_tile_of(es, cs, end, i);
        let run = outputs[k].reader.entries();
        lemma_tiles_within(es, cs, end, k);
        assert(run[i - cs[k].0] == p);
        assert(outputs[k].reader.entries().contains(p));
    }
}

proof fn lemma_written_tombstones(
    es: Seq<Pair>,
    rts: Seq<TombstoneView>,
    cs: Seq<(usize, usize)>,
    outputs: Seq<Arc<LiveSst>>,
    tv: TombstoneView,
)
    requires
        written(es, rts, cs, outputs),
        cs.len() > 0 || rts.len() == 0,
    ensures
        all_tombstones(outputs).contains(tv) == rts.contains(tv),
{
    lemma_all_tombstones(outputs, tv);
    if all_tombstones(outputs).contains(tv) {
        let (k, i) = choose|k: int, i: int|
            0 <= k < outputs.len() && 0 <= i < outputs[k].reader.tombstones().len() && (
            #[trigger] outputs[k].reader.tombstones()[i])@ == tv;
        assert(holds(outputs[k].reader.tombstones(), tv));
    }
    if rts.contains(tv) {
        assert(holds(outputs[0].reader.tombstones(), tv));
        let ts = outputs[0].reader.tombstones();
        let i = choose|i: int| 0 <= i < ts.len() && (#[trigger] ts[i])@ == tv;
        assert(outputs[0].reader.tombstones()[i]@ == tv);
    }
}

pub proof fn lemma_written_apart(
    es: Seq<Pair>,
    rts: Seq<TombstoneView>,
    cs: Seq<(usize, usize)>,
    outputs: Seq<Arc<LiveSst>>,
    lo: int,
    hi: int,
    a: Pair,
    b: Pair,
)
    requires
        sorted_entries(es),
        tiles_to(es, cs, es.len() as int),
        written(es, rts, cs, outputs),
        0 <= lo < hi < outputs.len(),
        outputs[lo].reader.entries().contains(a),
        outputs[hi].reader.entries().contains(b),
    ensures
        user_of(a.0) != user_of(b.0),
{
    let end = es.len() as int;
    let ra = outputs[lo].reader.entries();
    let rb = outputs[hi].reader.entries();
    let m = choose|m: int| 0 <= m < ra.len() && ra[m] == a;
    let n = choose|n: int| 0 <= n < rb.len() && rb[n] == b;
    lemma_tiles_within(es, cs, end, lo);
    lemma_tiles_within(es, cs, end, hi);
    lemma_tiles_ascend(es, cs, end, lo, hi);
    let i = cs[lo].0 + m;
    let j = cs[hi].0 + n;
    assert(es[i] == a);
    assert(es[j] == b);
    let g = cs[hi].0 as int;
    assert(starts_group(es, g));
    if user_of(a.0) == user_of(b.0) {
        lemma_between(es, i, g - 1, g, j);
    }
}

/// Tables of ranges that tile a result hold the result between them, and no
/// two of them hold versions of one key.
pub proof fn lemma_written_holds(
    es: Seq<Pair>,
    rts: Seq<TombstoneView>,
    cs: Seq<(usize, usize)>,
    x: Push,
    key: Seq<u8>,
)
    requires
        sorted_entries(es),
        tiles_to(es, cs, es.len() as int),
        written(es, rts, cs, x.outputs),
        cs.len() > 0 || rts.len() == 0,
    ensures
        hold(x.outputs, es, rts),
        x.apart(key),
{
    assert forall|p: Pair| #[trigger] all_entries(x.outputs).contains(p) == es.contains(p) by {
        lemma_written_entries(es, rts, cs, x.outputs, p);
    }
    assert forall|tv: TombstoneView| #[trigger]
        all_tombstones(x.outputs).contains(tv) == rts.contains(tv) by {
        lemma_written_tombstones(es, rts, cs, x.outputs, tv);
    }
    assert forall|i: int, j: int, p: Pair, q: Pair|
        #![trigger x.outputs[i].reader.entries().contains(p), x.outputs[j].reader.entries().contains(q)]
        0 <= i < x.outputs.len() && 0 <= j < x.outputs.len()
            && x.outputs[i].reader.entries().contains(p)
            && x.outputs[j].reader.entries().contains(q) && user_of(p.0) == key && user_of(q.0)
            == key implies i == j by {
        if i < j {
            lemma_written_apart(es, rts, cs, x.outputs, i, j, p, q);
        } else if j < i {
            lemma_written_apart(es, rts, cs, x.outputs, j, i, q, p);
        }
    }
}

// ── Editing ──────────────────────────────────────────────────────

/// No two tables of a version have one id.
pub open spec fn unique_ids(v: Version) -> bool {
    forall|l: int, i: int, t: Arc<LiveSst>, m: int, j: int, u: Arc<LiveSst>|
        #![trigger table_at(v, l, i, t), table_at(v, m, j, u)]
        table_at(v, l, i, t) && table_at(v, m, j, u) && t.meta.file_id == u.meta.file_id ==> l == m
            && i == j
}

/// One of the tables has the id.
pub open spec fn names(files: Seq<Arc<LiveSst>>, id: u64) -> bool {
    exists|k: int| 0 <= k < files.len() && (#[trigger] files[k]).meta.file_id == id
}

/// The tables whose ids none of `files` has.
pub open spec fn unnamed(s: Seq<Arc<LiveSst>>, files: Seq<Arc<LiveSst>>) -> Seq<Arc<LiveSst>>
    decreases s.len(),
{
    if s.len() == 0 {
        s
    } else if names(files, s.last().meta.file_id) {
        unnamed(s.drop_last(), files)
    } else {
        unnamed(s.drop_last(), files).push(s.last())
    }
}

proof fn lemma_names_push(files: Seq<Arc<LiveSst>>, f: Arc<LiveSst>, id: u64)
    ensures
        names(files.push(f), id) == (names(files, id) || f.meta.file_id == id),
{
    let all = files.push(f);
    if names(files, id) {
        let k = choose|k: int| 0 <= k < files.len() && (#[trigger] files[k]).meta.file_id == id;
        assert(all[k].meta.file_id == id);
    }
    if f.meta.file_id == id {
        assert(all[files.len() as int].meta.file_id == id);
    }
    if names(all, id) {
        let k = choose|k: int| 0 <= k < all.len() && (#[trigger] all[k]).meta.file_id == id;
        if k < files.len() {
            assert(files[k].meta.file_id == id);
        }
    }
}

proof fn lemma_unnamed_push(s: Seq<Arc<LiveSst>>, files: Seq<Arc<LiveSst>>, f: Arc<LiveSst>)
    ensures
        unnamed(s, files.push(f)) == without_table(unnamed(s, files), f.meta.file_id),
    decreases s.len(),
{
    if s.len() > 0 {
        let front = s.drop_last();
        lemma_unnamed_push(front, files, f);
        lemma_names_push(files, f, s.last().meta.file_id);
        let u = unnamed(front, files);
        if !names(files, s.last().meta.file_id) {
            assert(u.push(s.last()).drop_last() =~= u);
        }
    }
}

proof fn lemma_unnamed_all(s: Seq<Arc<LiveSst>>)
    ensures
        unnamed(s, Seq::empty()) == s,
    decreases s.len(),
{
    if s.len() > 0 {
        lemma_unnamed_all(s.drop_last());
        assert(s.drop_last().push(s.last()) =~= s);
    }
}

proof fn lemma_unnamed_left(s: Seq<Arc<LiveSst>>, files: Seq<Arc<LiveSst>>)
    requires
        forall|i: int|
            0 <= i < s.len() ==> names(files, (#[trigger] s[i]).meta.file_id) == files.contains(
                s[i],
            ),
    ensures
        unnamed(s, files) == left(s, files),
    decreases s.len(),
{
    if s.len() > 0 {
        let front = s.drop_last();
        assert forall|i: int| 0 <= i < front.len() implies names(
            files,
            (#[trigger] front[i]).meta.file_id,
        ) == files.contains(front[i]) by {
            assert(front[i] == s[i]);
        }
        lemma_unnamed_left(front, files);
        assert(s[s.len() - 1] == s.last());
    }
}

proof fn lemma_edited_concat(v: VersionView, a: Seq<VersionEdit>, b: Seq<VersionEdit>)
    ensures
        edited(v, a + b) == edited(edited(v, a), b),
    decreases b.len(),
{
    if b.len() == 0 {
        assert(a + b =~= a);
    } else {
        assert((a + b).drop_last() =~= a + b.drop_last());
        assert((a + b).last() == b.last());
        lemma_edited_concat(v, a, b.drop_last());
    }
}

proof fn lemma_removals(v: VersionView, level: usize, files: Seq<Arc<LiveSst>>)
    requires
        level < v.levels.len(),
    ensures
        edited(v, removals(level, files)).levels == v.levels.update(
            level as int,
            unnamed(v.levels[level as int], files),
        ),
    decreases files.len(),
{
    let es = removals(level, files);
    let l = level as int;
    if files.len() == 0 {
        assert(es =~= Seq::<VersionEdit>::empty());
        assert(files =~= Seq::<Arc<LiveSst>>::empty());
        lemma_unnamed_all(v.levels[l]);
        assert(v.levels.update(l, v.levels[l]) =~= v.levels);
    } else {
        let front = files.drop_last();
        lemma_removals(v, level, front);
        assert(es.drop_last() =~= removals(level, front));
        assert(front.push(files.last()) =~= files);
        lemma_unnamed_push(v.levels[l], front, files.last());
        let w = edited(v, removals(level, front));
        assert(w.levels[l] == unnamed(v.levels[l], front));
        assert(edited(v, es).levels =~= v.levels.update(l, unnamed(v.levels[l], files)));
    }
}

proof fn lemma_additions(v: VersionView, level: usize, files: Seq<Arc<LiveSst>>)
    requires
        level < v.levels.len(),
    ensures
        edited(v, additions(level, files)).levels == v.levels.update(
            level as int,
            v.levels[level as int] + files,
        ),
    decreases files.len(),
{
    let es = additions(level, files);
    let l = level as int;
    if files.len() == 0 {
        assert(es =~= Seq::<VersionEdit>::empty());
        assert(v.levels[l] + files =~= v.levels[l]);
        assert(v.levels.update(l, v.levels[l]) =~= v.levels);
    } else {
        let front = files.drop_last();
        lemma_additions(v, level, front);
        assert(es.drop_last() =~= additions(level, front));
        assert((v.levels[l] + front).push(files.last()) =~= v.levels[l] + files);
        assert(edited(v, es).levels =~= v.levels.update(l, v.levels[l] + files));
    }
}

/// The tables of a level that go in are named by their ids alone.
proof fn lemma_named_are_taken(v: ReadView, x: Push, k: int)
    requires
        unique_ids(v.version),
        x.picked(v),
        k == x.l || k == x.l + 1,
    ensures
        forall|i: int|
            0 <= i < v.version.levels@[k]@.len() ==> names(
                x.taken(k),
                (#[trigger] v.version.levels@[k]@[i]).meta.file_id,
            ) == x.taken(k).contains(v.version.levels@[k]@[i]),
{
    let s = v.version.levels@[k]@;
    let files = x.taken(k);
    assert forall|i: int| 0 <= i < s.len() implies names(
        files,
        (#[trigger] s[i]).meta.file_id,
    ) == files.contains(s[i]) by {
        if files.contains(s[i]) {
            let n = choose|n: int| 0 <= n < files.len() && files[n] == s[i];
            assert(files[n].meta.file_id == s[i].meta.file_id);
        }
        if names(files, s[i].meta.file_id) {
            let n = choose|n: int|
                0 <= n < files.len() && (#[trigger] files[n]).meta.file_id == s[i].meta.file_id;
            if k == x.l {
                assert(v.version.levels@[x.l]@.contains(x.inputs[n]));
            } else {
                assert(x.overlaps.contains(files[n]));
                lemma_overlapping(
                    s,
                    super::compaction_pick::min_key(x.inputs),
                    super::compaction_pick::max_key(x.inputs),
                    files[n],
                );
            }
            let j = choose|j: int| 0 <= j < s.len() && s[j] == files[n];
            assert(table_at(v.version, k, i, s[i]));
            assert(table_at(v.version, k, j, s[j]));
            assert(i == j);
            assert(files.contains(s[i]));
        }
    }
}

/// The edits of a compaction do what the compaction is to do: what went in is
/// gone, what came out is there, and nothing else has changed.
pub proof fn lemma_edits_do_it(x: Push, v0: ReadView, v1: ReadView)
    requires
        v0.version.wf(),
        v1.version.wf(),
        unique_ids(v0.version),
        x.picked(v0),
        v1.active == v0.active,
        v1.frozen == v0.frozen,
        v1.version@ == edited(
            v0.version@,
            edits_of(x.l as usize, (x.l + 1) as usize, x.inputs, x.overlaps, x.outputs),
        ),
    ensures
        x.done(v0, v1),
{
    let v = v0.version@;
    let l = x.l;
    let a = removals(l as usize, x.inputs);
    let b = removals((l + 1) as usize, x.overlaps);
    let c = additions((l + 1) as usize, x.outputs);
    lemma_edited_concat(v, a + b, c);
    lemma_edited_concat(v, a, b);
    lemma_removals(v, l as usize, x.inputs);
    let va = edited(v, a);
    lemma_removals(va, (l + 1) as usize, x.overlaps);
    let vb = edited(va, b);
    lemma_additions(vb, (l + 1) as usize, x.outputs);
    lemma_named_are_taken(v0, x, l);
    lemma_named_are_taken(v0, x, l + 1);
    assert(v.levels[l] == v0.version.levels@[l]@);
    assert(v.levels[l + 1] == v0.version.levels@[l + 1]@);
    lemma_unnamed_left(v.levels[l], x.inputs);
    lemma_unnamed_left(v.levels[l + 1], x.overlaps);
    let levels = v1.version@.levels;
    assert forall|k: int| 0 <= k < v0.version.levels@.len() implies (
    #[trigger] v1.version.levels@[k])@ == left(v0.version.levels@[k]@, x.taken(k)) + if k == l + 1 {
        x.outputs
    } else {
        Seq::empty()
    } by {
        assert(levels[k] == v1.version.levels@[k]@);
        assert(v.levels[k] == v0.version.levels@[k]@);
        if k != l && k != l + 1 {
            lemma_left_all(v.levels[k]);
            assert(levels[k] == v.levels[k]);
            assert(v.levels[k] + Seq::empty() =~= v.levels[k]);
        } else if k == l {
            assert(levels[l] == unnamed(v.levels[l], x.inputs));
            assert(levels[l] + Seq::empty() =~= levels[l]);
        }
    }
}

proof fn lemma_left_all(s: Seq<Arc<LiveSst>>)
    ensures
        left(s, Seq::empty()) == s,
    decreases s.len(),
{
    if s.len() > 0 {
        lemma_left_all(s.drop_last());
        assert(s.drop_last().push(s.last()) =~= s);
    }
}

/// Every table that is not among `files` is left.
proof fn lemma_is_left(s: Seq<Arc<LiveSst>>, files: Seq<Arc<LiveSst>>, i: int) -> (j: int)
    requires
        0 <= i < s.len(),
        !files.contains(s[i]),
    ensures
        0 <= j < left(s, files).len(),
        left(s, files)[j] == s[i],
    decreases s.len(),
{
    let front = s.drop_last();
    if i == s.len() - 1 {
        left(front, files).len() as int
    } else {
        assert(front[i] == s[i]);
        lemma_is_left(front, files, i)
    }
}

/// A compaction that is done replaced the tables that went in by those that
/// came out.
pub proof fn lemma_done_replaced(x: Push, v0: ReadView, v1: ReadView)
    requires
        unique_ids(v0.version),
        x.picked(v0),
        x.done(v0, v1),
    ensures
        replaced(v0, v1, x.inputs + x.overlaps, x.outputs),
{
    let files = x.inputs + x.overlaps;
    let a = v0.version;
    let b = v1.version;
    assert forall|k: int| 0 <= k < files.len() implies has_table(a, #[trigger] files[k]) by {
        lemma_stands(x, v0, k);
    }
    assert forall|t: Arc<LiveSst>| #[trigger]
        has_table(b, t) == ((has_table(a, t) && !files.contains(t)) || x.outputs.contains(t)) by {
        if has_table(b, t) {
            let (k, i) = choose|k: int, i: int| #[trigger] table_at(b, k, i, t);
            let s = a.levels@[k]@;
            let kept = left(s, x.taken(k));
            if i < kept.len() {
                lemma_place(s, x.taken(k), i);
                let j = place(s, x.taken(k), i);
                assert(b.levels@[k]@[i] == kept[i]);
                assert(table_at(a, k, j, t));
                if files.contains(t) {
                    let n = choose|n: int| 0 <= n < files.len() && files[n] == t;
                    let (m, h) = lemma_stands(x, v0, n);
                    assert(m == k);
                }
            } else {
                assert(k == x.l + 1) by {
                    if k != x.l + 1 {
                        assert(b.levels@[k]@ == kept + Seq::empty());
                    }
                }
                assert(x.outputs[i - kept.len()] == t);
            }
        }
        if has_table(a, t) && !files.contains(t) {
            let (k, i) = choose|k: int, i: int| #[trigger] table_at(a, k, i, t);
            let s = a.levels@[k]@;
            if x.taken(k).contains(t) {
                let n = choose|n: int| 0 <= n < x.taken(k).len() && x.taken(k)[n] == t;
                if k == x.l {
                    assert(files[n] == t);
                } else {
                    assert(files[x.inputs.len() + n] == t);
                }
            }
            let j = lemma_is_left(s, x.taken(k), i);
            assert(b.levels@[k]@[j] == t);
            assert(table_at(b, k, j, t));
        }
        if x.outputs.contains(t) {
            let o = choose|o: int| 0 <= o < x.outputs.len() && x.outputs[o] == t;
            let k = x.l + 1;
            let n = left(a.levels@[k]@, x.taken(k)).len() + o;
            assert(b.levels@[k]@[n] == t);
            assert(table_at(b, k, n, t));
        }
    }
}

proof fn lemma_stands(x: Push, v0: ReadView, n: int) -> (r: (int, int))
    requires
        x.picked(v0),
        0 <= n < (x.inputs + x.overlaps).len(),
    ensures
        table_at(v0.version, r.0, r.1, (x.inputs + x.overlaps)[n]),
        x.taken(r.0).contains((x.inputs + x.overlaps)[n]),
{
    let t = (x.inputs + x.overlaps)[n];
    if n < x.inputs.len() {
        assert(t == x.inputs[n]);
        let s = v0.version.levels@[x.l]@;
        assert(s.contains(x.inputs[n]));
        let i = choose|i: int| 0 <= i < s.len() && s[i] == t;
        (x.l, i)
    } else {
        assert(t == x.overlaps[n - x.inputs.len()]);
        let s = v0.version.levels@[x.l + 1]@;
        assert(x.overlaps.contains(t));
        lemma_overlapping(
            s,
            super::compaction_pick::min_key(x.inputs),
            super::compaction_pick::max_key(x.inputs),
            t,
        );
        let i = choose|i: int| 0 <= i < s.len() && s[i] == t;
        (x.l + 1, i)
    }
}

// ── All together ─────────────────────────────────────────────────

/// A compaction of a database in order of age changes no lookup at a snapshot
/// that it minds, with and without a merge operator, and leaves the database in
/// order of age. Sequence numbers start at 1, and each was given to one write.
pub proof fn lemma_pushing_down_changes_no_read<F: CompactionFilter, M: MergeOperator>(
    c: Merged<'_, F, M>,
    x: Push,
    v0: ReadView,
    v1: ReadView,
    key: Seq<u8>,
    snapshot_seq: u64,
)
    requires
        v0.wf(),
        v1.wf(),
        unique_ids(v0.version),
        in_age_order(v0, key),
        forall|p: Pair| #[trigger] in_layers(v0.layers(key), p) ==> seq_of(p.0) > 0,
        c.plain(),
        c.minds(snapshot_seq),
        c.files == x.inputs + x.overlaps,
        c.outputs == x.outputs,
        x.picked(v0),
        x.done(v0, v1),
        x.apart(key),
    ensures
        walk(v1.layers(key), key, snapshot_seq, 0) == walk(v0.layers(key), key, snapshot_seq, 0),
        outcome_of(walk_chain(v1.layers(key), key, snapshot_seq, 0)) == outcome_of(
            walk_chain(v0.layers(key), key, snapshot_seq, 0),
        ),
        in_age_order(v1, key),
{
    lemma_done_replaced(x, v0, v1);
    lemma_compaction_keeps_age_order(c, x, v0, v1, key);
    lemma_age_order_serves_lookups(v0, key);
    lemma_age_order_serves_lookups(v1, key);
    lemma_compaction_keeps_reads(c, v0, v1, key, snapshot_seq);
}

proof fn lemma_unnamed_holds(s: Seq<Arc<LiveSst>>, files: Seq<Arc<LiveSst>>, t: Arc<LiveSst>)
    ensures
        unnamed(s, files).contains(t) <==> s.contains(t) && !names(files, t.meta.file_id),
    decreases s.len(),
{
    if s.len() > 0 {
        let d = s.drop_last();
        let u = unnamed(d, files);
        lemma_unnamed_holds(d, files, t);
        assert(s[s.len() - 1] == s.last());
        if s.contains(t) {
            let i = choose|i: int| 0 <= i < s.len() && s[i] == t;
            if i < d.len() {
                assert(d[i] == t);
            }
        }
        if d.contains(t) {
            let i = choose|i: int| 0 <= i < d.len() && d[i] == t;
            assert(s[i] == t);
        }
        let w = u.push(s.last());
        assert(w[u.len() as int] == s.last());
        if u.contains(t) {
            let i = choose|i: int| 0 <= i < u.len() && u[i] == t;
            assert(w[i] == t);
        }
        if w.contains(t) {
            let i = choose|i: int| 0 <= i < w.len() && w[i] == t;
            if i < u.len() {
                assert(u[i] == t);
            }
        }
    }
}

/// The edits of a compaction take the inputs out of their levels and put the
/// outputs into the output level, whichever levels those are; every other table
/// stays where it is.
pub proof fn lemma_edits_swap_inputs_for_outputs(
    v: VersionView,
    level: usize,
    target_level: usize,
    inputs: Seq<Arc<LiveSst>>,
    overlaps: Seq<Arc<LiveSst>>,
    outputs: Seq<Arc<LiveSst>>,
    k: int,
    t: Arc<LiveSst>,
)
    requires
        level < v.levels.len(),
        target_level < v.levels.len(),
        0 <= k < v.levels.len(),
    ensures
        edited(v, edits_of(level, target_level, inputs, overlaps, outputs)).levels[k].contains(t)
            <==> {
            ||| v.levels[k].contains(t) && !(k == level && names(inputs, t.meta.file_id)) && !(k
                == target_level && names(overlaps, t.meta.file_id))
            ||| k == target_level && outputs.contains(t)
        },
{
    let a = removals(level, inputs);
    let b = removals(target_level, overlaps);
    let c = additions(target_level, outputs);
    lemma_edited_concat(v, a + b, c);
    lemma_edited_concat(v, a, b);
    lemma_removals(v, level, inputs);
    let va = edited(v, a);
    lemma_removals(va, target_level, overlaps);
    let vb = edited(va, b);
    lemma_additions(vb, target_level, outputs);
    lemma_unnamed_holds(v.levels[k], inputs, t);
    lemma_unnamed_holds(va.levels[k], overlaps, t);
    let s = vb.levels[k];
    let w = s + outputs;
    if s.contains(t) {
        let i = choose|i: int| 0 <= i < s.len() && s[i] == t;
        assert(w[i] == t);
    }
    if outputs.contains(t) {
        let i = choose|i: int| 0 <= i < outputs.len() && outputs[i] == t;
        assert(w[s.len() + i] == t);
    }
    if w.contains(t) {
        let i = choose|i: int| 0 <= i < w.len() && w[i] == t;
        if i < s.len() {
            assert(s[i] == t);
        } else {
            assert(outputs[i - s.len()] == t);
        }
    }
}

/// Dropping tables takes them out of level 0 and leaves every other table where
/// it is.
pub proof fn lemma_dropping_takes_out_of_level_zero(
    v: VersionView,
    files: Seq<Arc<LiveSst>>,
    k: int,
    t: Arc<LiveSst>,
)
    requires
        0 <= k < v.levels.len(),
    ensures
        edited(v, removals(0, files)).levels[k].contains(t) <==> v.levels[k].contains(t) && !(k == 0
            && names(files, t.meta.file_id)),
{
    lemma_removals(v, 0, files);
    lemma_unnamed_holds(v.levels[k], files, t);
}

} // verus!
