//! What the picks of compactions are for: levels are kept to their sizes, a
//! pool to its limit, and a range is pushed down table by table.

use super::age_laws::lemma_overlapping;
use super::compaction_pick::any_busy;
use super::compaction_pick::by_age;
use super::compaction_pick::fifo_len;
use super::compaction_pick::fifo_pick;
use super::compaction_pick::first_idle;
use super::compaction_pick::first_reached;
use super::compaction_pick::is_next_job;
use super::compaction_pick::is_range_job;
use super::compaction_pick::lemma_by_age_size;
use super::compaction_pick::level_pick;
use super::compaction_pick::leveled_pick;
use super::compaction_pick::max_key;
use super::compaction_pick::min_key;
use super::compaction_pick::overlapping;
use super::compaction_pick::oversized_level;
use super::compaction_pick::put_in;
use super::compaction_pick::range_pick;
use super::compaction_pick::range_step;
use super::compaction_pick::reached;
use super::compaction_pick::target_size;
use super::compaction_pick::tier_len;
use super::compaction_pick::universal_pick;
use super::compaction_pick::CompactionJob;
use super::compaction_pick::CompactionStyle;
use super::compaction_pick::LevelOptions;
use super::compaction_pick::PickedView;
use super::compaction_pick::UniversalCompactionOptions;
use super::manifest::lemma_tables_size_part;
use super::manifest::tables_size;
use super::manifest::Version;
use super::manifest_record::MAX_LEVELS;
use super::sstable::LiveSst;
use crate::bytes::lemma_lex_order;
use crate::bytes::lex_le;
use crate::bytes::lex_lt;
use std::sync::Arc;
use vstd::arithmetic::power::lemma_pow0;
use vstd::arithmetic::power::lemma_pow1;
use vstd::arithmetic::power::pow;
use vstd::prelude::*;

verus! {

// ── Sizes ────────────────────────────────────────────────────────

/// The bytes of tables, added up one by one.
pub open spec fn bytes_of(files: Seq<Arc<LiveSst>>) -> int {
    files.fold_left(0int, |sum: int, f: Arc<LiveSst>| sum + f.meta.file_size)
}

/// The size of tables is the sum of their sizes.
pub proof fn lemma_tables_size_is_sum(files: Seq<Arc<LiveSst>>)
    ensures
        tables_size(files) == bytes_of(files),
    decreases files.len(),
{
    if files.len() > 0 {
        lemma_tables_size_is_sum(files.drop_last());
    }
}

/// How large a level may be: the base size, multiplied once for every level
/// below the first, as far as 64 bits go.
pub open spec fn level_cap(level: int, opts: LevelOptions) -> int {
    let cap = opts.level_base_bytes * pow(
        opts.level_size_multiplier as int,
        (level - 1) as nat,
    );
    if cap > u64::MAX {
        u64::MAX as int
    } else {
        cap
    }
}

/// Each level may be larger than the one above by the multiplier.
pub proof fn lemma_target_grows_by_multiplier(level: nat, opts: LevelOptions)
    requires
        level >= 1,
    ensures
        target_size(level, opts) == level_cap(level as int, opts),
    decreases level,
{
    let b = opts.level_base_bytes as int;
    let m = opts.level_size_multiplier as int;
    if level == 1 {
        lemma_pow0(m);
        assert(b * pow(m, 0) == b) by (nonlinear_arith)
            requires
                pow(m, 0) == 1,
        ;
    } else {
        let n = (level - 1) as nat;
        lemma_target_grows_by_multiplier(n, opts);
        let p = pow(m, (n - 1) as nat);
        vstd::arithmetic::power::lemma_pow_adds(m, 1, (n - 1) as nat);
        lemma_pow1(m);
        assert(pow(m, n) == m * p);
        let t = target_size(n, opts) as int;
        assert(b * (m * p) == (b * p) * m) by (nonlinear_arith);
        if b * p > u64::MAX {
            if m == 0 {
                assert((b * p) * m == 0) by (nonlinear_arith)
                    requires
                        m == 0,
                ;
                assert(t * m == 0) by (nonlinear_arith)
                    requires
                        m == 0,
                ;
            } else {
                assert((b * p) * m >= b * p) by (nonlinear_arith)
                    requires
                        m >= 1,
                        b * p > 0,
                ;
                assert(t * m >= t) by (nonlinear_arith)
                    requires
                        m >= 1,
                        t >= 0,
                ;
            }
        }
    }
}

// ── Ranges ───────────────────────────────────────────────────────

/// `lo` and `hi` are the least and the greatest key of the tables.
pub open spec fn is_hull(files: Seq<Arc<LiveSst>>, lo: Seq<u8>, hi: Seq<u8>) -> bool {
    &&& exists|i: int| 0 <= i < files.len() && (#[trigger] files[i]).meta.smallest_key@ == lo
    &&& exists|i: int| 0 <= i < files.len() && (#[trigger] files[i]).meta.largest_key@ == hi
    &&& forall|i: int|
        0 <= i < files.len() ==> lex_le(lo, (#[trigger] files[i]).meta.smallest_key@) && lex_le(
            files[i].meta.largest_key@,
            hi,
        )
}

/// The tables with a key range that meets the one from `lo` to `hi`, both included.
pub open spec fn lies_in(lo: Seq<u8>, hi: Seq<u8>) -> spec_fn(Arc<LiveSst>) -> bool {
    |f: Arc<LiveSst>| lex_le(f.meta.smallest_key@, hi) && lex_le(lo, f.meta.largest_key@)
}

/// What is picked together: the inputs, and of the next level exactly the
/// tables with a key between the least and the greatest of the inputs.
pub open spec fn goes_together(p: PickedView, next: Seq<Arc<LiveSst>>) -> bool {
    exists|lo: Seq<u8>, hi: Seq<u8>| #[trigger]
        is_hull(p.inputs, lo, hi) && p.overlaps == next.filter(
            lies_in(lo, hi),
        )
}

proof fn lemma_hull(files: Seq<Arc<LiveSst>>)
    requires
        files.len() > 0,
    ensures
        is_hull(files, min_key(files), max_key(files)),
    decreases files.len(),
{
    let (lo, hi) = (min_key(files), max_key(files));
    if files.len() == 1 {
        assert(files[0].meta.smallest_key@ == lo && files[0].meta.largest_key@ == hi);
    } else {
        let front = files.drop_last();
        let last = files.last();
        lemma_hull(front);
        let (a, b) = (min_key(front), max_key(front));
        assert(files[files.len() - 1] == last);
        let i = choose|i: int| 0 <= i < front.len() && (#[trigger] front[i]).meta.smallest_key@ == a;
        let j = choose|j: int| 0 <= j < front.len() && (#[trigger] front[j]).meta.largest_key@ == b;
        assert(files[i] == front[i] && files[j] == front[j]);
        assert forall|n: int| 0 <= n < files.len() implies lex_le(
            lo,
            (#[trigger] files[n]).meta.smallest_key@,
        ) && lex_le(files[n].meta.largest_key@, hi) by {
            lemma_lex_order(last.meta.smallest_key@, a, last.meta.smallest_key@);
            lemma_lex_order(a, last.meta.smallest_key@, a);
            lemma_lex_order(b, last.meta.largest_key@, b);
            lemma_lex_order(last.meta.largest_key@, b, last.meta.largest_key@);
            if n < front.len() {
                assert(front[n] == files[n]);
                lemma_lex_order(lo, a, files[n].meta.smallest_key@);
                lemma_lex_order(files[n].meta.largest_key@, b, hi);
            }
        }
    }
}

proof fn lemma_overlapping_filter(files: Seq<Arc<LiveSst>>, lo: Seq<u8>, hi: Seq<u8>)
    ensures
        overlapping(files, lo, hi) == files.filter(
            lies_in(lo, hi),
        ),
    decreases files.len(),
{
    reveal(Seq::filter);
    if files.len() > 0 {
        lemma_overlapping_filter(files.drop_last(), lo, hi);
    }
}

proof fn lemma_goes_together(inputs: Seq<Arc<LiveSst>>, next: Seq<Arc<LiveSst>>)
    requires
        inputs.len() > 0,
    ensures
        goes_together(
            PickedView { inputs, overlaps: overlapping(next, min_key(inputs), max_key(inputs)) },
            next,
        ),
{
    lemma_hull(inputs);
    lemma_overlapping_filter(next, min_key(inputs), max_key(inputs));
    let p = PickedView {
        inputs,
        overlaps: overlapping(next, min_key(inputs), max_key(inputs)),
    };
    assert(is_hull(p.inputs, min_key(inputs), max_key(inputs)));
}

// ── Levels ───────────────────────────────────────────────────────

/// Table `i` is the first that is not being compacted.
pub open spec fn is_first_idle(files: Seq<Arc<LiveSst>>, busy: Set<u64>, i: int) -> bool {
    &&& 0 <= i < files.len()
    &&& !busy.contains(files[i].meta.file_id)
    &&& forall|j: int| 0 <= j < i ==> busy.contains((#[trigger] files[j]).meta.file_id)
}

/// All of the tables are free to be compacted.
pub open spec fn all_idle(files: Seq<Arc<LiveSst>>, busy: Set<u64>) -> bool {
    forall|i: int| 0 <= i < files.len() ==> !busy.contains((#[trigger] files[i]).meta.file_id)
}

proof fn lemma_first_idle_at(files: Seq<Arc<LiveSst>>, busy: Set<u64>) -> (i: int)
    ensures
        first_idle(files, busy) is Some ==> is_first_idle(files, busy, i) && first_idle(files, busy)
            == Some(files[i]),
        first_idle(files, busy) is None ==> forall|j: int|
            0 <= j < files.len() ==> busy.contains((#[trigger] files[j]).meta.file_id),
    decreases files.len(),
{
    if files.len() == 0 || !busy.contains(files[0].meta.file_id) {
        0
    } else {
        let rest = files.skip(1);
        let k = lemma_first_idle_at(rest, busy);
        if first_idle(files, busy) is Some {
            assert(rest[k] == files[k + 1]);
            assert forall|j: int| 0 <= j < k + 1 implies busy.contains(
                (#[trigger] files[j]).meta.file_id,
            ) by {
                if j > 0 {
                    assert(rest[j - 1] == files[j]);
                }
            }
        } else {
            assert forall|j: int| 0 <= j < files.len() implies busy.contains(
                (#[trigger] files[j]).meta.file_id,
            ) by {
                if j > 0 {
                    assert(rest[j - 1] == files[j]);
                }
            }
        }
        k + 1
    }
}

/// What is compacted of a level that has tables: of level 0 all of it, below it
/// the first table that is free. With it go the tables of the next level that
/// lie in its range. All of them are free, and nothing is picked only where one
/// of them is not.
pub proof fn lemma_level_pick_takes_free_tables(
    levels: Seq<Seq<Arc<LiveSst>>>,
    level: int,
    busy: Set<u64>,
)
    requires
        levels.len() == MAX_LEVELS,
        0 <= level < MAX_LEVELS - 1,
    ensures
        level_pick(levels, level, busy) matches Some(p) ==> {
            &&& level == 0 ==> p.inputs == levels[0] && levels[0].len() > 0
            &&& level > 0 ==> exists|i: int| #[trigger]
                is_first_idle(levels[level], busy, i) && p.inputs == seq![levels[level][i]]
            &&& goes_together(p, levels[level + 1])
            &&& all_idle(p.overlaps, busy)
        },
        level_pick(levels, level, busy) is None ==> {
            ||| levels[level].len() == 0
            ||| level > 0 && forall|j: int|
                0 <= j < levels[level].len() ==> busy.contains(
                    (#[trigger] levels[level][j]).meta.file_id,
                )
            ||| exists|j: int|
                0 <= j < levels[level + 1].len() && busy.contains(
                    (#[trigger] levels[level + 1][j]).meta.file_id,
                )
        },
{
    let files = levels[level];
    let next = levels[level + 1];
    if files.len() > 0 {
        let i = lemma_first_idle_at(files, busy);
        let inputs = if level == 0 {
            files
        } else {
            seq![files[i]]
        };
        if level == 0 || first_idle(files, busy) is Some {
            lemma_goes_together(inputs, next);
            let o = overlapping(next, min_key(inputs), max_key(inputs));
            if any_busy(o, busy) {
                let k = choose|k: int|
                    0 <= k < o.len() && busy.contains((#[trigger] o[k]).meta.file_id);
                lemma_overlapping(
                    next,
                    min_key(inputs),
                    max_key(inputs),
                    o[k],
                );
                assert(o.contains(o[k]));
                let j = choose|j: int| 0 <= j < next.len() && next[j] == o[k];
                assert(busy.contains(next[j].meta.file_id));
            }
        }
    }
}

proof fn lemma_oversized(v: Version, from: int, opts: LevelOptions)
    requires
        v.wf(),
        1 <= from <= MAX_LEVELS - 1,
    ensures
        oversized_level(v, from, opts) matches Some(l) ==> from <= l < MAX_LEVELS - 1 && bytes_of(
            v.levels@[l]@,
        ) > level_cap(l, opts) && forall|k: int|
            from <= k < l ==> bytes_of((#[trigger] v.levels@[k])@) <= level_cap(k, opts),
        oversized_level(v, from, opts) is None ==> forall|k: int|
            from <= k < MAX_LEVELS - 1 ==> bytes_of((#[trigger] v.levels@[k])@) <= level_cap(
                k,
                opts,
            ),
    decreases MAX_LEVELS - from,
{
    if from < MAX_LEVELS - 1 {
        lemma_tables_size_is_sum(v.levels@[from]@);
        lemma_target_grows_by_multiplier(from as nat, opts);
        lemma_oversized(v, from + 1, opts);
    }
}

/// Levels are held to their sizes. While level 0 has too many tables it goes
/// first, and whole. Otherwise the first level that is larger than it may be
/// gives down a table; the levels above it are no larger than they may be.
pub proof fn lemma_leveled_pick_relieves_first_full_level(
    v: Version,
    opts: LevelOptions,
    busy: Set<u64>,
)
    requires
        v.wf(),
    ensures
        leveled_pick(v, opts, busy) matches Some((l, p)) ==> {
            let files = v.levels@[l]@;
            &&& 0 <= l < MAX_LEVELS - 1
            &&& l == 0 <==> v.levels@[0]@.len() >= opts.l0_compaction_trigger
            &&& l == 0 ==> p.inputs == files && files.len() > 0 && all_idle(files, busy)
            &&& l > 0 ==> bytes_of(files) > level_cap(l, opts) && exists|i: int| #[trigger]
                is_first_idle(files, busy, i) && p.inputs == seq![files[i]]
            &&& forall|k: int|
                1 <= k < l ==> bytes_of((#[trigger] v.levels@[k])@) <= level_cap(k, opts)
            &&& goes_together(p, v.levels@[l + 1]@)
            &&& all_idle(p.overlaps, busy)
        },
        leveled_pick(v, opts, busy) is None && busy == Set::<u64>::empty() ==> if v.levels@[0]@.len()
            >= opts.l0_compaction_trigger {
            v.levels@[0]@.len() == 0
        } else {
            forall|k: int|
                1 <= k < MAX_LEVELS - 1 ==> bytes_of((#[trigger] v.levels@[k])@) <= level_cap(
                    k,
                    opts,
                )
        },
{
    let levels = v@.levels;
    assert(levels.len() == MAX_LEVELS);
    assert forall|k: int| 0 <= k < MAX_LEVELS implies #[trigger] levels[k] == v.levels@[k]@ by {}
    if v.levels@[0]@.len() >= opts.l0_compaction_trigger {
        assert(levels[0] == v.levels@[0]@ && levels[1] == v.levels@[1]@);
        lemma_level_pick_takes_free_tables(levels, 0, busy);
    } else {
        lemma_oversized(v, 1, opts);
        if let Some(l) = oversized_level(v, 1, opts) {
            assert(levels[l] == v.levels@[l]@ && levels[l + 1] == v.levels@[l + 1]@);
            lemma_level_pick_takes_free_tables(levels, l, busy);
            lemma_cap_not_negative(l, opts);
            if level_pick(levels, l, busy) is None && busy == Set::<u64>::empty() {
                assert(levels[l].len() == 0);
                assert(bytes_of(levels[l]) == 0) by {
                    lemma_tables_size_is_sum(levels[l]);
                }
            }
        }
    }
}

proof fn lemma_cap_not_negative(level: int, opts: LevelOptions)
    requires
        level >= 1,
    ensures
        level_cap(level, opts) >= 0,
{
    lemma_target_grows_by_multiplier(level as nat, opts);
}

// ── A range ──────────────────────────────────────────────────────

/// The table has a key range that meets `[start, end)`: it does not end before
/// the start, and starts before the end.
pub open spec fn reaches(f: Arc<LiveSst>, start: Option<Seq<u8>>, end: Option<Seq<u8>>) -> bool {
    &&& start is Some ==> lex_le(start->0, f.meta.largest_key@)
    &&& end is Some ==> lex_lt(f.meta.smallest_key@, end->0)
}

proof fn lemma_reached(files: Seq<Arc<LiveSst>>, start: Option<Seq<u8>>, end: Option<Seq<u8>>)
    ensures
        reached(files, start, end) == files.filter(|f: Arc<LiveSst>| reaches(f, start, end)),
        reached(files, start, end).len() == 0 <==> forall|i: int|
            0 <= i < files.len() ==> !reaches(#[trigger] files[i], start, end),
    decreases files.len(),
{
    reveal(Seq::filter);
    if files.len() > 0 {
        let front = files.drop_last();
        lemma_reached(front, start, end);
        let f = files.last();
        if let Some(s) = start {
            lemma_lex_order(s, f.meta.largest_key@, s);
            lemma_lex_order(f.meta.largest_key@, s, s);
        }
        assert(files[files.len() - 1] == f);
        if reached(files, start, end).len() == 0 {
            assert forall|i: int| 0 <= i < files.len() implies !reaches(
                #[trigger] files[i],
                start,
                end,
            ) by {
                if i < front.len() {
                    assert(front[i] == files[i]);
                }
            }
        } else if !reaches(f, start, end) {
            let i = choose|i: int| 0 <= i < front.len() && reaches(#[trigger] front[i], start, end);
            assert(files[i] == front[i]);
        }
    }
}

/// Table `i` is the first that meets the range.
pub open spec fn is_first_reaching(
    files: Seq<Arc<LiveSst>>,
    start: Option<Seq<u8>>,
    end: Option<Seq<u8>>,
    i: int,
) -> bool {
    &&& 0 <= i < files.len()
    &&& reaches(files[i], start, end)
    &&& forall|j: int| 0 <= j < i ==> !reaches(#[trigger] files[j], start, end)
}

proof fn lemma_first_reached(
    files: Seq<Arc<LiveSst>>,
    start: Option<Seq<u8>>,
    end: Option<Seq<u8>>,
) -> (i: int)
    ensures
        first_reached(files, start, end).len() > 0 ==> is_first_reaching(files, start, end, i)
            && first_reached(files, start, end) == seq![files[i]],
        first_reached(files, start, end).len() == 0 ==> forall|j: int|
            0 <= j < files.len() ==> !reaches(#[trigger] files[j], start, end),
    decreases files.len(),
{
    if files.len() == 0 {
        0
    } else {
        let f = files[0];
        if let Some(s) = start {
            lemma_lex_order(s, f.meta.largest_key@, s);
            lemma_lex_order(f.meta.largest_key@, s, s);
        }
        if reaches(f, start, end) {
            0
        } else {
            let rest = files.skip(1);
            let k = lemma_first_reached(rest, start, end);
            assert forall|j: int|
                0 <= j < files.len() && (j <= k || first_reached(files, start, end).len()
                    == 0) implies !reaches(#[trigger] files[j], start, end) by {
                if j > 0 {
                    assert(rest[j - 1] == files[j]);
                }
            }
            if first_reached(files, start, end).len() > 0 {
                assert(rest[k] == files[k + 1]);
            }
            k + 1
        }
    }
}

/// A compaction of a range takes from a level what meets the range, as long as
/// there is any: of level 0 all such tables, below it the first. With them go
/// the tables of the next level that lie in their range.
pub proof fn lemma_range_pick_takes_what_meets_the_range(
    levels: Seq<Seq<Arc<LiveSst>>>,
    level: int,
    start: Option<Seq<u8>>,
    end: Option<Seq<u8>>,
)
    requires
        0 <= level < levels.len() - 1,
    ensures
        range_pick(levels, level, start, end) is None <==> forall|i: int|
            0 <= i < levels[level].len() ==> !reaches(#[trigger] levels[level][i], start, end),
        range_pick(levels, level, start, end) matches Some(p) ==> {
            &&& p.inputs.len() > 0
            &&& forall|i: int| 0 <= i < p.inputs.len() ==> reaches(#[trigger] p.inputs[i], start, end)
            &&& level == 0 ==> p.inputs == levels[0].filter(
                |f: Arc<LiveSst>| reaches(f, start, end),
            )
            &&& level > 0 ==> exists|i: int| #[trigger]
                is_first_reaching(levels[level], start, end, i) && p.inputs == seq![
                    levels[level][i],
                ]
            &&& goes_together(p, levels[level + 1])
        },
{
    let files = levels[level];
    lemma_reached(files, start, end);
    let i = lemma_first_reached(files, start, end);
    if level == 0 {
        let r = reached(files, start, end);
        if r.len() > 0 {
            lemma_goes_together(r, levels[1]);
            assert forall|k: int| 0 <= k < r.len() implies reaches(#[trigger] r[k], start, end) by {
                files.lemma_filter_pred(|f: Arc<LiveSst>| reaches(f, start, end), k);
            }
        }
    } else {
        let r = first_reached(files, start, end);
        if r.len() > 0 {
            lemma_goes_together(r, levels[level + 1]);
        }
    }
}

/// A compaction of a range looks at every level above the last, and leaves a
/// level below 0 only when nothing more is pushed down from it.
pub proof fn lemma_range_steps_visit_every_level(level: usize, pushed: bool)
    requires
        level + 1 < MAX_LEVELS,
    ensures
        level > 0 && pushed ==> range_step(level, pushed) == Some(level),
        range_step(level, pushed) matches Some(l) ==> level <= l <= level + 1 && l + 1 < MAX_LEVELS,
        level == 0 || !pushed ==> match range_step(level, pushed) {
            Some(l) => l == level + 1,
            None => level + 1 == MAX_LEVELS - 1,
        },
{
}

// ── By age ───────────────────────────────────────────────────────

/// The tables are those of `files`, in the order of their ids.
pub open spec fn is_by_age(
    files: Seq<Arc<LiveSst>>,
    aged: Seq<Arc<LiveSst>>,
    newest_first: bool,
) -> bool {
    &&& aged.to_multiset() == files.to_multiset()
    &&& forall|i: int, j: int|
        0 <= i < j < aged.len() ==> if newest_first {
            (#[trigger] aged[i]).meta.file_id >= (#[trigger] aged[j]).meta.file_id
        } else {
            aged[i].meta.file_id <= aged[j].meta.file_id
        }
}

proof fn lemma_put_in_order(s: Seq<Arc<LiveSst>>, f: Arc<LiveSst>, newest_first: bool)
    requires
        is_by_age(s, s, newest_first),
    ensures
        is_by_age(s.push(f), put_in(s, f, newest_first), newest_first),
        put_in(s, f, newest_first).len() == s.len() + 1,
    decreases s.len(),
{
    broadcast use vstd::seq_lib::group_to_multiset_ensures;

    let r = put_in(s, f, newest_first);
    if s.len() == 0 {
        assert(s.push(f) =~= seq![f]);
    } else {
        let d = s.drop_last();
        let l = s.last();
        assert(s =~= d.push(l));
        assert(s[s.len() - 1] == l);
        let later = if newest_first {
            l.meta.file_id < f.meta.file_id
        } else {
            l.meta.file_id > f.meta.file_id
        };
        assert forall|i: int, j: int| 0 <= i < j < d.len() implies if newest_first {
            (#[trigger] d[i]).meta.file_id >= (#[trigger] d[j]).meta.file_id
        } else {
            d[i].meta.file_id <= d[j].meta.file_id
        } by {
            assert(d[i] == s[i] && d[j] == s[j]);
        }
        if later {
            lemma_put_in_order(d, f, newest_first);
            let q = put_in(d, f, newest_first);
            assert(r == q.push(l));
            assert(d.push(f).to_multiset() == d.to_multiset().insert(f));
            assert(d.push(l).to_multiset() == d.to_multiset().insert(l));
            assert(s.push(f).to_multiset() == s.to_multiset().insert(f));
            assert(q.push(l).to_multiset() == q.to_multiset().insert(l));
            assert(r.to_multiset() =~= s.push(f).to_multiset());
            assert forall|i: int, j: int| 0 <= i < j < r.len() implies if newest_first {
                (#[trigger] r[i]).meta.file_id >= (#[trigger] r[j]).meta.file_id
            } else {
                r[i].meta.file_id <= r[j].meta.file_id
            } by {
                if j == r.len() - 1 {
                    assert(r[i] == q[i]);
                    assert(q.to_multiset().count(q[i]) > 0) by {
                        assert(q.contains(q[i]));
                    }
                    assert(d.push(f).to_multiset().count(q[i]) > 0);
                    assert(d.push(f).contains(q[i]));
                    let k = choose|k: int| 0 <= k < d.push(f).len() && d.push(f)[k] == q[i];
                    if k < d.len() {
                        assert(d[k] == s[k]);
                        assert(s[k] == q[i]);
                        assert(s[s.len() - 1] == l);
                    }
                } else {
                    assert(r[i] == q[i] && r[j] == q[j]);
                }
            }
        } else {
            assert(r == s.push(f));
            assert forall|i: int, j: int| 0 <= i < j < r.len() implies if newest_first {
                (#[trigger] r[i]).meta.file_id >= (#[trigger] r[j]).meta.file_id
            } else {
                r[i].meta.file_id <= r[j].meta.file_id
            } by {
                if j == r.len() - 1 && i < s.len() - 1 {
                    assert(r[i] == s[i]);
                    assert(s[i].meta.file_id == s[i].meta.file_id);
                    if newest_first {
                        assert(s[i].meta.file_id >= s[s.len() - 1].meta.file_id);
                    } else {
                        assert(s[i].meta.file_id <= s[s.len() - 1].meta.file_id);
                    }
                } else if j < r.len() - 1 {
                    assert(r[i] == s[i] && r[j] == s[j]);
                }
            }
        }
    }
}

/// Ordering tables by age loses none and adds none, and younger tables have
/// larger ids.
pub proof fn lemma_by_age_orders(files: Seq<Arc<LiveSst>>, newest_first: bool)
    ensures
        is_by_age(files, by_age(files, newest_first), newest_first),
    decreases files.len(),
{
    broadcast use vstd::seq_lib::group_to_multiset_ensures;

    if files.len() > 0 {
        let d = files.drop_last();
        let a = by_age(d, newest_first);
        lemma_by_age_orders(d, newest_first);
        lemma_put_in_order(a, files.last(), newest_first);
        assert(files =~= d.push(files.last()));
        assert(files.to_multiset() =~= a.push(files.last()).to_multiset());
    }
}

// ── First in, first out ──────────────────────────────────────────

proof fn lemma_fifo_len_is(files: Seq<Arc<LiveSst>>, n: nat, limit: u64)
    requires
        n < files.len(),
        n > 0 ==> bytes_of(files.skip(n - 1)) > limit,
    ensures
        ({
            let m = fifo_len(files, n, bytes_of(files.skip(n as int)), limit);
            &&& n <= m < files.len()
            &&& m + 1 == files.len() || bytes_of(files.skip(m as int)) <= limit
            &&& m > 0 ==> bytes_of(files.skip(m - 1)) > limit
        }),
    decreases files.len() - n,
{
    if !(n + 1 >= files.len() || bytes_of(files.skip(n as int)) <= limit) {
        lemma_skip_bytes(files, n as int);
        lemma_fifo_len_is(files, n + 1, limit);
    }
}

/// What is left without one more table.
proof fn lemma_skip_bytes(files: Seq<Arc<LiveSst>>, n: int)
    requires
        0 <= n < files.len(),
    ensures
        bytes_of(files.skip(n)) == files[n].meta.file_size + bytes_of(files.skip(n + 1)),
{
    let s = files.skip(n);
    lemma_tables_size_is_sum(s);
    lemma_tables_size_is_sum(files.skip(n + 1));
    lemma_size_front(s);
    assert(s.skip(1) =~= files.skip(n + 1));
}

proof fn lemma_size_front(s: Seq<Arc<LiveSst>>)
    requires
        s.len() > 0,
    ensures
        tables_size(s) == s[0].meta.file_size + tables_size(s.skip(1)),
    decreases s.len(),
{
    if s.len() == 1 {
        assert(s.skip(1) =~= Seq::<Arc<LiveSst>>::empty());
        assert(s.drop_last() =~= Seq::<Arc<LiveSst>>::empty());
    } else {
        lemma_size_front(s.drop_last());
        assert(s.drop_last().skip(1) =~= s.skip(1).drop_last());
    }
}

/// `kept` is what is left of the pool when `dropped` goes, and it is older than
/// none of it: the oldest tables go, no more of them than have to for the pool
/// to be within its limit, and never the last.
pub open spec fn cuts_down(
    files: Seq<Arc<LiveSst>>,
    dropped: Seq<Arc<LiveSst>>,
    kept: Seq<Arc<LiveSst>>,
    limit: u64,
) -> bool {
    &&& is_by_age(files, dropped + kept, false)
    &&& kept.len() > 0
    &&& bytes_of(kept) <= limit || kept.len() == 1
    &&& dropped.len() > 0 ==> bytes_of(kept) + dropped.last().meta.file_size > limit
}

/// The pool is cut down to its limit, oldest tables first. Without a limit
/// nothing goes.
pub proof fn lemma_fifo_cuts_down_to_the_limit(files: Seq<Arc<LiveSst>>, limit: u64)
    requires
        files.len() > 0,
    ensures
        limit == 0 ==> fifo_pick(files, limit).len() == 0,
        limit > 0 ==> exists|kept: Seq<Arc<LiveSst>>| #[trigger]
            cuts_down(files, fifo_pick(files, limit), kept, limit),
{
    if limit > 0 {
        let aged = by_age(files, false);
        lemma_by_age_orders(files, false);
        lemma_by_age_size(files, false);
        lemma_tables_size_is_sum(aged);
        assert(aged.skip(0) =~= aged);
        lemma_fifo_len_is(aged, 0, limit);
        let m = fifo_len(aged, 0, tables_size(files) as int, limit) as int;
        let kept = aged.skip(m);
        assert(fifo_pick(files, limit) =~= aged.take(m));
        assert(aged.take(m) + kept =~= aged);
        if m > 0 {
            lemma_skip_bytes(aged, m - 1);
            assert(aged.take(m).last() == aged[m - 1]);
        }
        assert(cuts_down(files, fifo_pick(files, limit), kept, limit));
    }
}

// ── Universal ────────────────────────────────────────────────────

/// The newest `n` tables are of similar size, and no more are: each is no
/// larger, by more than the ratio, than those before it together.
pub open spec fn is_tier(
    aged: Seq<Arc<LiveSst>>,
    n: int,
    ratio: int,
    width: int,
) -> bool {
    &&& 1 <= n <= aged.len()
    &&& n <= width
    &&& forall|i: int|
        1 <= i < n ==> bytes_of(#[trigger] aged.take(i)) * (100 + ratio) / 100
            >= aged[i].meta.file_size
    &&& n < aged.len() && n < width ==> bytes_of(aged.take(n)) * (100 + ratio) / 100
        < aged[n].meta.file_size
}

proof fn lemma_tier(aged: Seq<Arc<LiveSst>>, n: nat, ratio: nat, width: nat)
    requires
        n <= aged.len(),
        n <= width,
        width >= 1,
        aged.len() > 0,
        forall|i: int|
            1 <= i < n ==> bytes_of(#[trigger] aged.take(i)) * (100 + ratio) / 100
                >= aged[i].meta.file_size,
    ensures
        is_tier(
            aged,
            tier_len(aged, n, tables_size(aged.take(n as int)), ratio, width) as int,
            ratio as int,
            width as int,
        ),
    decreases aged.len() - n,
{
    let total = tables_size(aged.take(n as int));
    lemma_tables_size_is_sum(aged.take(n as int));
    if n >= width || n >= aged.len() {
    } else if n == 0 || total * (100 + ratio) / 100 >= aged[n as int].meta.file_size {
        lemma_tables_size_part(aged, n as int);
        lemma_tier(aged, n + 1, ratio, width);
    }
}

/// How many tables are merged at most: the limit, but one at least.
pub open spec fn widest(o: UniversalCompactionOptions) -> int {
    if o.max_merge_width > 1 {
        o.max_merge_width as int
    } else {
        1
    }
}

/// The tables are large against the oldest: all but it have so many percent of
/// its bytes.
pub open spec fn is_amplified(aged: Seq<Arc<LiveSst>>, percent: int) -> bool {
    &&& aged.last().meta.file_size > 0
    &&& bytes_of(aged.drop_last()) * 100 / aged.last().meta.file_size as int >= percent
}

/// The newest tables of similar size are merged where they are enough, and
/// everything where the tables are large against the oldest; the order is that
/// of their age, newest first.
pub proof fn lemma_universal_pick_merges_similar_tables(
    files: Seq<Arc<LiveSst>>,
    o: UniversalCompactionOptions,
)
    ensures
        files.len() < 2 ==> universal_pick(files, o) is None,
        files.len() >= 2 ==> exists|aged: Seq<Arc<LiveSst>>, n: int|
            #![trigger is_by_age(files, aged, true), is_tier(
                aged,
                n,
                o.size_ratio as int,
                widest(o),
            )]
            {
                &&& is_by_age(files, aged, true)
                &&& is_tier(
                    aged,
                    n,
                    o.size_ratio as int,
                    widest(o),
                )
                &&& universal_pick(files, o) == if n >= 2 && n >= o.min_merge_width {
                    Some(aged.take(n))
                } else if is_amplified(aged, o.max_size_amplification_percent as int) {
                    Some(aged)
                } else {
                    None
                }
            },
{
    if files.len() >= 2 {
        let aged = by_age(files, true);
        lemma_by_age_orders(files, true);
        lemma_by_age_size(files, true);
        let width = widest(o) as nat;
        assert(aged.take(0) =~= Seq::<Arc<LiveSst>>::empty());
        assert(tables_size(aged.take(0)) == 0);
        lemma_tier(aged, 0, o.size_ratio as nat, width);
        lemma_tables_size_is_sum(aged.drop_last());
        let n = tier_len(aged, 0, 0, o.size_ratio as nat, width) as int;
        assert(is_by_age(files, aged, true) && is_tier(
            aged,
            n,
            o.size_ratio as int,
            widest(o),
        ));
    }
}

// ── Jobs ─────────────────────────────────────────────────────────

/// Every style has its own jobs: by levels, tables go down one level; in a
/// pool, they stay in level 0 or are dropped, and only while nothing is being
/// compacted.
pub proof fn lemma_job_follows_the_style(
    v: Version,
    style: CompactionStyle,
    level_opts: LevelOptions,
    universal: UniversalCompactionOptions,
    fifo_limit: u64,
    busy: Set<u64>,
    job: Option<CompactionJob>,
)
    requires
        v.wf(),
        is_next_job(v, style, level_opts, universal, fifo_limit, busy, job),
    ensures
        job matches Some(CompactionJob::Merge { level, target_level, picked }) ==> match style {
            CompactionStyle::Level => target_level == level + 1 && target_level < MAX_LEVELS
                && leveled_pick(v, level_opts, busy) == Some((level as int, picked@)),
            CompactionStyle::Universal => level == 0 && target_level == 0 && busy.len() == 0
                && universal_pick(v.levels@[0]@, universal) == Some(picked.inputs@)
                && picked.overlaps@.len() == 0,
            CompactionStyle::Fifo => false,
        },
        job matches Some(CompactionJob::Discard { files }) ==> style == CompactionStyle::Fifo
            && busy.len() == 0 && files@.len() > 0 && files@ == fifo_pick(
            v.levels@[0]@,
            fifo_limit,
        ),
        job is None && busy.len() == 0 ==> match style {
            CompactionStyle::Level => leveled_pick(v, level_opts, busy) is None,
            CompactionStyle::Universal => universal_pick(v.levels@[0]@, universal) is None,
            CompactionStyle::Fifo => fifo_pick(v.levels@[0]@, fifo_limit).len() == 0,
        },
{
    lemma_leveled_pick_relieves_first_full_level(v, level_opts, busy);
}

/// A compaction that a caller asks for has something to do exactly where there
/// is something: by levels, where a table of the level meets the range; in a
/// pool that is merged, where there are two tables at least.
pub proof fn lemma_range_job_does_what_there_is(
    v: Version,
    style: CompactionStyle,
    fifo_limit: u64,
    level: int,
    start: Option<Seq<u8>>,
    end: Option<Seq<u8>>,
    job: Option<CompactionJob>,
)
    requires
        v.wf(),
        0 <= level < MAX_LEVELS - 1,
        is_range_job(v, style, fifo_limit, level, start, end, job),
    ensures
        match style {
            CompactionStyle::Level => {
                &&& job is None <==> forall|i: int|
                    0 <= i < v.levels@[level]@.len() ==> !reaches(
                        #[trigger] v.levels@[level]@[i],
                        start,
                        end,
                    )
                &&& job is Some ==> (job->0 matches CompactionJob::Merge {
                    level: l,
                    target_level,
                    picked,
                } && l == level && target_level == level + 1 && picked.inputs@.len() > 0
                    && goes_together(picked@, v.levels@[level + 1]@) && forall|i: int|
                    0 <= i < picked.inputs@.len() ==> reaches(
                        #[trigger] picked.inputs@[i],
                        start,
                        end,
                    ) && v.levels@[level]@.contains(picked.inputs@[i]))
            },
            CompactionStyle::Universal => {
                &&& job is None <==> v.levels@[0]@.len() < 2
                &&& job is Some ==> (job->0 matches CompactionJob::Merge {
                    level: l,
                    target_level,
                    picked,
                } && l == 0 && target_level == 0 && picked.inputs@ == v.levels@[0]@
                    && picked.overlaps@.len() == 0)
            },
            CompactionStyle::Fifo => {
                &&& job is None <==> fifo_pick(v.levels@[0]@, fifo_limit).len() == 0
                &&& job is Some ==> (job->0 matches CompactionJob::Discard { files } && files@
                    == fifo_pick(v.levels@[0]@, fifo_limit))
            },
        },
{
    let levels = v@.levels;
    assert(levels.len() == MAX_LEVELS);
    assert(levels[level] == v.levels@[level]@ && levels[level + 1] == v.levels@[level + 1]@);
    assert(levels[0] == v.levels@[0]@);
    lemma_range_pick_takes_what_meets_the_range(levels, level, start, end);
    if style == CompactionStyle::Level {
        if let Some(p) = range_pick(levels, level, start, end) {
            assert forall|i: int| 0 <= i < p.inputs.len() implies levels[level].contains(
                #[trigger] p.inputs[i],
            ) by {
                if level == 0 {
                    let pred = |f: Arc<LiveSst>| reaches(f, start, end);
                    levels[0].lemma_filter_contains_rev(pred, p.inputs[i]);
                } else {
                    let k = choose|k: int| #[trigger]
                        is_first_reaching(levels[level], start, end, k) && p.inputs == seq![
                            levels[level][k],
                        ];
                    assert(levels[level][k] == p.inputs[i]);
                }
            }
        }
    }
}

// ── When something is picked ─────────────────────────────────────

/// The level can give down `p`: all of level 0, or the first free table of a
/// level below, with the tables of the next level that go with it, all of them
/// free.
pub open spec fn can_go(
    levels: Seq<Seq<Arc<LiveSst>>>,
    level: int,
    busy: Set<u64>,
    p: PickedView,
) -> bool {
    &&& if level == 0 {
        p.inputs == levels[0] && levels[0].len() > 0
    } else {
        exists|i: int| #[trigger]
            is_first_idle(levels[level], busy, i) && p.inputs == seq![levels[level][i]]
    }
    &&& goes_together(p, levels[level + 1])
    &&& all_idle(p.overlaps, busy)
}

/// The least and the greatest key are the only ones that are.
proof fn lemma_hull_is_one(
    files: Seq<Arc<LiveSst>>,
    lo: Seq<u8>,
    hi: Seq<u8>,
    a: Seq<u8>,
    b: Seq<u8>,
)
    requires
        is_hull(files, lo, hi),
        is_hull(files, a, b),
    ensures
        lo == a,
        hi == b,
{
    let i = choose|i: int| 0 <= i < files.len() && (#[trigger] files[i]).meta.smallest_key@ == lo;
    let j = choose|j: int| 0 <= j < files.len() && (#[trigger] files[j]).meta.smallest_key@ == a;
    let k = choose|k: int| 0 <= k < files.len() && (#[trigger] files[k]).meta.largest_key@ == hi;
    let l = choose|l: int| 0 <= l < files.len() && (#[trigger] files[l]).meta.largest_key@ == b;
    assert(lex_le(a, files[i].meta.smallest_key@) && lex_le(lo, files[j].meta.smallest_key@));
    assert(lex_le(files[k].meta.largest_key@, b) && lex_le(files[l].meta.largest_key@, hi));
    lemma_lex_order(lo, a, lo);
    lemma_lex_order(hi, b, hi);
}

/// A level gives something down exactly where it can, and then that.
pub proof fn lemma_a_level_gives_what_it_can(
    levels: Seq<Seq<Arc<LiveSst>>>,
    level: int,
    busy: Set<u64>,
    p: PickedView,
)
    requires
        levels.len() == MAX_LEVELS,
        0 <= level < MAX_LEVELS - 1,
    ensures
        level_pick(levels, level, busy) == Some(p) <==> can_go(levels, level, busy, p),
{
    let files = levels[level];
    let next = levels[level + 1];
    if level_pick(levels, level, busy) == Some(p) {
        lemma_level_pick_takes_free_tables(levels, level, busy);
    }
    if can_go(levels, level, busy, p) {
        if level > 0 {
            let i = choose|i: int| #[trigger]
                is_first_idle(files, busy, i) && p.inputs == seq![files[i]];
            let j = lemma_first_idle_at(files, busy);
            if first_idle(files, busy) is None {
                assert(busy.contains(files[i].meta.file_id));
            } else if i < j {
                assert(busy.contains(files[i].meta.file_id));
            } else if j < i {
                assert(busy.contains(files[j].meta.file_id));
            }
            assert(first_idle(files, busy) == Some(files[i]));
        }
        let (lo, hi) = choose|lo: Seq<u8>, hi: Seq<u8>| #[trigger]
            is_hull(p.inputs, lo, hi) && p.overlaps == next.filter(lies_in(lo, hi));
        lemma_hull(p.inputs);
        lemma_hull_is_one(p.inputs, lo, hi, min_key(p.inputs), max_key(p.inputs));
        lemma_overlapping_filter(next, lo, hi);
        assert(p.overlaps == overlapping(next, min_key(p.inputs), max_key(p.inputs)));
        assert(!any_busy(p.overlaps, busy));
    }
}

/// The level is the one whose turn it is: level 0 while it has too many tables,
/// otherwise the first that is larger than it may be.
pub open spec fn has_its_turn(v: Version, opts: LevelOptions, l: int) -> bool {
    if v.levels@[0]@.len() >= opts.l0_compaction_trigger {
        l == 0
    } else {
        &&& 1 <= l < MAX_LEVELS - 1
        &&& bytes_of(v.levels@[l]@) > level_cap(l, opts)
        &&& forall|k: int|
            1 <= k < l ==> bytes_of((#[trigger] v.levels@[k])@) <= level_cap(k, opts)
    }
}

/// The level has its turn and can give down `p`; level 0 waits until all of its
/// tables are free.
pub open spec fn can_give(
    v: Version,
    opts: LevelOptions,
    busy: Set<u64>,
    l: int,
    p: PickedView,
) -> bool {
    &&& has_its_turn(v, opts, l)
    &&& can_go(v@.levels, l, busy, p)
    &&& l == 0 ==> all_idle(v.levels@[0]@, busy)
}

/// A compaction by levels is done exactly where the level whose turn it is can
/// give something down, and then of that; level 0 waits until all of its tables
/// are free.
pub proof fn lemma_leveled_pick_happens_where_it_can(
    v: Version,
    opts: LevelOptions,
    busy: Set<u64>,
    l: int,
    p: PickedView,
)
    requires
        v.wf(),
    ensures
        leveled_pick(v, opts, busy) == Some((l, p)) <==> can_give(v, opts, busy, l, p),
{
    let levels = v@.levels;
    assert(levels.len() == MAX_LEVELS);
    assert(levels[0] == v.levels@[0]@);
    lemma_leveled_pick_relieves_first_full_level(v, opts, busy);
    lemma_oversized(v, 1, opts);
    if leveled_pick(v, opts, busy) == Some((l, p)) {
        assert(has_its_turn(v, opts, l));
        lemma_a_level_gives_what_it_can(levels, l, busy, p);
    }
    if can_give(v, opts, busy, l, p) {
        lemma_a_level_gives_what_it_can(levels, l, busy, p);
        if v.levels@[0]@.len() >= opts.l0_compaction_trigger {
            assert(!any_busy(levels[0], busy));
        } else {
            match oversized_level(v, 1, opts) {
                Some(m) => {
                    if m < l {
                        assert(bytes_of(v.levels@[m]@) <= level_cap(m, opts));
                    } else if l < m {
                        assert(bytes_of(v.levels@[l]@) <= level_cap(l, opts));
                    }
                },
                None => {
                    assert(bytes_of(v.levels@[l]@) <= level_cap(l, opts));
                },
            }
        }
    }
}

} // verus!
