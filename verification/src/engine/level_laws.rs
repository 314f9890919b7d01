//! The tables of a level below 0 follow one another.

use super::age_laws::left;
use super::age_laws::lemma_overlapping;
use super::age_laws::lemma_place;
use super::age_laws::lemma_place_ascends;
use super::age_laws::lemma_within_range;
use super::age_laws::place;
use super::age_laws::Push;
use super::block::sorted_entries;
use super::block_entry::Pair;
use super::compaction::all_entries;
use super::compaction_laws::lemma_all_entries;
use super::compaction_pick::max_key;
use super::compaction_pick::meets;
use super::compaction_pick::min_key;
use super::internal_key::ik_lt;
use super::internal_key::user_of;
use super::push_laws::lemma_tiles_ascend;
use super::push_laws::lemma_tiles_within;
use super::push_laws::lemma_written_apart;
use super::push_laws::tiles_to;
use super::push_laws::written;
use super::read_view::files_wf;
use super::read_view::ReadView;
use super::scan_laws::lemma_by_key_holds;
use super::scan_laws::lemma_put_holds;
use super::scan_laws::lemma_with_points_holds;
use super::sstable::LiveSst;
use super::table_build::greatest_key;
use super::table_build::least_key;
use super::view_iter::by_key;
use super::view_iter::level_run;
use super::view_iter::put_by_key;
use super::view_iter::with_points;
use crate::bytes::lemma_lex_order;
use crate::bytes::lex_le;
use crate::bytes::lex_lt;
use std::sync::Arc;
use vstd::prelude::*;

verus! {

/// The range of `a` ends before the range of `b` starts.
pub open spec fn before(a: Arc<LiveSst>, b: Arc<LiveSst>) -> bool {
    lex_lt(a.meta.largest_key@, b.meta.smallest_key@)
}

/// The range of a table has keys in it.
pub open spec fn upright(t: Arc<LiveSst>) -> bool {
    lex_le(t.meta.smallest_key@, t.meta.largest_key@)
}

/// No two tables have a key in common in their ranges.
pub open spec fn spread(files: Seq<Arc<LiveSst>>) -> bool {
    &&& forall|i: int| 0 <= i < files.len() ==> upright(#[trigger] files[i])
    &&& forall|i: int, j: int|
        0 <= i < j < files.len() ==> before(#[trigger] files[i], #[trigger] files[j]) || before(
            files[j],
            files[i],
        )
}

/// The levels below 0 have no two tables with a key in common in their ranges.
pub open spec fn levels_spread(v: ReadView) -> bool {
    forall|l: int| 1 <= l < v.version.levels@.len() ==> spread((#[trigger] v.version.levels@[l])@)
}

// ── In line ──────────────────────────────────────────────────────

/// The ranges of the tables follow one another.
pub open spec fn lined(s: Seq<Arc<LiveSst>>) -> bool {
    &&& forall|i: int| 0 <= i < s.len() ==> upright(#[trigger] s[i])
    &&& forall|i: int, j: int| 0 <= i < j < s.len() ==> before(#[trigger] s[i], #[trigger] s[j])
}

proof fn lemma_orders(a: Arc<LiveSst>, b: Arc<LiveSst>)
    requires
        upright(a),
        upright(b),
    ensures
        before(a, b) ==> lex_lt(a.meta.smallest_key@, b.meta.smallest_key@),
        before(a, b) ==> !lex_lt(b.meta.smallest_key@, a.meta.smallest_key@),
{
    lemma_lex_order(a.meta.smallest_key@, a.meta.largest_key@, b.meta.smallest_key@);
    lemma_lex_order(a.meta.smallest_key@, b.meta.smallest_key@, a.meta.smallest_key@);
}

proof fn lemma_put_lined(s: Seq<Arc<LiveSst>>, f: Arc<LiveSst>)
    requires
        lined(s),
        upright(f),
        forall|i: int| 0 <= i < s.len() ==> before(#[trigger] s[i], f) || before(f, s[i]),
    ensures
        lined(put_by_key(s, f)),
    decreases s.len(),
{
    if s.len() > 0 {
        let d = s.drop_last();
        let last = s.last();
        assert(s[s.len() - 1] == last);
        lemma_orders(last, f);
        lemma_orders(f, last);
        if lex_lt(f.meta.smallest_key@, last.meta.smallest_key@) {
            assert forall|i: int| 0 <= i < d.len() implies before(#[trigger] d[i], f) || before(
                f,
                d[i],
            ) by {
                assert(d[i] == s[i]);
            }
            assert forall|i: int| 0 <= i < d.len() implies upright(#[trigger] d[i]) by {
                assert(d[i] == s[i]);
            }
            assert forall|i: int, j: int| 0 <= i < j < d.len() implies before(
                #[trigger] d[i],
                #[trigger] d[j],
            ) by {
                assert(d[i] == s[i] && d[j] == s[j]);
            }
            lemma_put_lined(d, f);
            let r = put_by_key(d, f);
            assert forall|i: int| 0 <= i < r.len() implies before(#[trigger] r[i], last) by {
                lemma_put_holds(d, f, r[i]);
                assert(r.contains(r[i]));
                if r[i] != f {
                    let j = choose|j: int| 0 <= j < d.len() && d[j] == r[i];
                    assert(s[j] == r[i]);
                }
            }
        } else {
            assert forall|i: int| 0 <= i < s.len() implies before(#[trigger] s[i], f) by {
                lemma_orders(s[i], last);
                lemma_orders(f, s[i]);
                if before(f, s[i]) && i < s.len() - 1 {
                    assert(before(s[i], s[s.len() - 1]));
                    lemma_lex_order(
                        f.meta.smallest_key@,
                        s[i].meta.smallest_key@,
                        last.meta.smallest_key@,
                    );
                }
            }
        }
    }
}

/// Tables whose ranges have no key in common are lined up by their keys.
proof fn lemma_lined(files: Seq<Arc<LiveSst>>)
    requires
        spread(files),
    ensures
        lined(by_key(with_points(files))),
    decreases files.len(),
{
    if files.len() > 0 {
        let front = files.drop_last();
        let last = files.last();
        assert(files[files.len() - 1] == last);
        assert forall|i: int| 0 <= i < front.len() implies upright(#[trigger] front[i]) by {
            assert(front[i] == files[i]);
        }
        assert forall|i: int, j: int| 0 <= i < j < front.len() implies before(
            #[trigger] front[i],
            #[trigger] front[j],
        ) || before(front[j], front[i]) by {
            assert(front[i] == files[i] && front[j] == files[j]);
        }
        lemma_lined(front);
        if last.meta.num_entries > 0 {
            let w = with_points(front);
            let s = by_key(w);
            assert(w.push(last).drop_last() =~= w);
            assert(by_key(with_points(files)) == put_by_key(s, last));
            assert forall|i: int| 0 <= i < s.len() implies before(#[trigger] s[i], last) || before(
                last,
                s[i],
            ) by {
                assert(s.contains(s[i]));
                lemma_by_key_holds(w, s[i]);
                lemma_with_points_holds(front, s[i]);
                let j = choose|j: int| 0 <= j < front.len() && front[j] == s[i];
                assert(files[j] == s[i]);
            }
            lemma_put_lined(s, last);
        }
    }
}

/// The entries of tables in line are sorted.
pub proof fn lemma_lined_sorted(s: Seq<Arc<LiveSst>>)
    requires
        lined(s),
        files_wf(s),
    ensures
        sorted_entries(all_entries(s)),
    decreases s.len(),
{
    if s.len() > 0 {
        let front = s.drop_last();
        let last = s.last();
        let n = s.len() - 1;
        assert(s[n] == last);
        assert forall|i: int| 0 <= i < front.len() implies upright(#[trigger] front[i])
            && front[i].wf() by {
            assert(front[i] == s[i]);
            assert(s[i].wf());
        }
        assert forall|i: int, j: int| 0 <= i < j < front.len() implies before(
            #[trigger] front[i],
            #[trigger] front[j],
        ) by {
            assert(front[i] == s[i] && front[j] == s[j]);
        }
        lemma_lined_sorted(front);
        last.reader.lemma_sorted();
        let a = all_entries(front);
        let b = last.reader.entries();
        let all = a + b;
        assert forall|i: int, j: int| 0 <= i < j < all.len() implies ik_lt(
            (#[trigger] all[i]).0,
            (#[trigger] all[j]).0,
        ) by {
            let k = a.len() as int;
            if j < k {
                assert(all[i] == a[i] && all[j] == a[j]);
            } else {
                assert(all[j] == b[j - k]);
                if i < k {
                    let p = a[i];
                    assert(all[i] == p);
                    assert(a.contains(p));
                    lemma_all_entries(front, p);
                    let t = choose|t: int|
                        0 <= t < front.len() && (#[trigger] front[t]).reader.entries().contains(p);
                    let es = front[t].reader.entries();
                    let m = choose|m: int| 0 <= m < es.len() && es[m] == p;
                    assert(front[t].wf());
                    assert(front[t].covers(user_of(es[m].0)));
                    assert(last.covers(user_of(b[j - k].0)));
                    assert(before(s[t], s[n]));
                    let (x, y) = (user_of(p.0), user_of(b[j - k].0));
                    lemma_lex_order(x, s[t].meta.largest_key@, last.meta.smallest_key@);
                    lemma_lex_order(x, last.meta.smallest_key@, y);
                    assert(lex_lt(x, y));
                } else {
                    assert(all[i] == b[i - k]);
                }
            }
        }
        assert forall|i: int| 0 <= i < all.len() implies super::internal_key::is_internal(
            (#[trigger] all[i]).0,
        ) by {
            if i < a.len() {
                assert(all[i] == a[i]);
            } else {
                assert(all[i] == b[i - a.len()]);
            }
        }
    }
}

/// A level whose tables have no key in common in their ranges is one sorted
/// run.
pub proof fn lemma_spread_level_is_a_run(files: Seq<Arc<LiveSst>>)
    requires
        files_wf(files),
        spread(files),
    ensures
        sorted_entries(level_run(files)),
{
    let s = by_key(with_points(files));
    lemma_lined(files);
    assert forall|i: int| 0 <= i < s.len() implies (#[trigger] s[i]).wf() by {
        assert(s.contains(s[i]));
        lemma_by_key_holds(with_points(files), s[i]);
        lemma_with_points_holds(files, s[i]);
        let j = choose|j: int| 0 <= j < files.len() && files[j] == s[i];
        assert(files[j].wf());
    }
    lemma_lined_sorted(s);
}

// ── What changes a level ─────────────────────────────────────────

/// A table whose range meets no other can be added.
pub proof fn lemma_adding_keeps_level_spread(files: Seq<Arc<LiveSst>>, t: Arc<LiveSst>)
    requires
        spread(files),
        upright(t),
        forall|i: int|
            0 <= i < files.len() ==> !meets(
                #[trigger] files[i],
                t.meta.smallest_key@,
                t.meta.largest_key@,
            ),
    ensures
        spread(files.push(t)),
{
    let after = files.push(t);
    assert forall|i: int, j: int| 0 <= i < j < after.len() implies before(
        #[trigger] after[i],
        #[trigger] after[j],
    ) || before(after[j], after[i]) by {
        if j < files.len() {
            assert(after[i] == files[i] && after[j] == files[j]);
        } else {
            let f = files[i];
            assert(after[i] == f);
            lemma_lex_order(f.meta.smallest_key@, t.meta.largest_key@, f.meta.smallest_key@);
            lemma_lex_order(t.meta.smallest_key@, f.meta.largest_key@, t.meta.smallest_key@);
        }
    }
    assert forall|i: int| 0 <= i < after.len() implies upright(#[trigger] after[i]) by {
        if i < files.len() {
            assert(after[i] == files[i]);
        }
    }
}

/// The range of every table that comes out lies between keys that were in the
/// ranges of tables that went in.
pub open spec fn within_inputs(x: Push) -> bool {
    forall|k: int|
        0 <= k < x.outputs.len() ==> in_ranges(
            x.inputs + x.overlaps,
            (#[trigger] x.outputs[k]).meta.smallest_key@,
        ) && in_ranges(x.inputs + x.overlaps, x.outputs[k].meta.largest_key@)
}

/// The range of one of the tables has the key in it.
pub open spec fn in_ranges(files: Seq<Arc<LiveSst>>, key: Seq<u8>) -> bool {
    exists|m: int| 0 <= m < files.len() && (#[trigger] files[m]).covers(key)
}

/// A table that stays is apart from what goes in as a whole: all of it comes
/// before the table, or all of it after.
proof fn lemma_one_side(x: Push, v0: ReadView, i: int, key: Seq<u8>)
    requires
        x.picked(v0),
        spread(v0.version.levels@[x.l + 1]@),
        0 <= i < v0.version.levels@[x.l + 1]@.len(),
        !x.overlaps.contains(v0.version.levels@[x.l + 1]@[i]),
        in_ranges(x.inputs + x.overlaps, key),
    ensures
        ({
            let u = v0.version.levels@[x.l + 1]@[i];
            &&& lex_lt(u.meta.largest_key@, min_key(x.inputs)) ==> lex_lt(
                u.meta.largest_key@,
                key,
            )
            &&& lex_lt(max_key(x.inputs), u.meta.smallest_key@) ==> lex_lt(
                key,
                u.meta.smallest_key@,
            )
            &&& lex_lt(u.meta.largest_key@, min_key(x.inputs)) || lex_lt(
                max_key(x.inputs),
                u.meta.smallest_key@,
            )
        }),
{
    let files = v0.version.levels@[x.l + 1]@;
    let u = files[i];
    let (lo, hi) = (min_key(x.inputs), max_key(x.inputs));
    let all = x.inputs + x.overlaps;
    assert(files.contains(u));
    lemma_overlapping(files, lo, hi, u);
    assert(!meets(u, lo, hi));
    assert(upright(files[i]));
    lemma_lex_order(u.meta.smallest_key@, hi, u.meta.smallest_key@);
    lemma_lex_order(lo, u.meta.largest_key@, lo);
    let m = choose|m: int| 0 <= m < all.len() && (#[trigger] all[m]).covers(key);
    if m < x.inputs.len() {
        assert(all[m] == x.inputs[m]);
        lemma_within_range(x.inputs, m, key);
        lemma_lex_order(u.meta.largest_key@, lo, key);
        lemma_lex_order(key, hi, u.meta.smallest_key@);
    } else {
        let o = all[m];
        assert(o == x.overlaps[m - x.inputs.len()]);
        assert(x.overlaps.contains(o));
        lemma_overlapping(files, lo, hi, o);
        let j = choose|j: int| 0 <= j < files.len() && files[j] == o;
        assert(i != j);
        assert(before(files[i], files[j]) || before(files[j], files[i]));
        assert(upright(files[j]));
        if lex_lt(u.meta.largest_key@, lo) {
            if before(o, u) {
                lemma_lex_order(lo, o.meta.largest_key@, u.meta.smallest_key@);
                lemma_lex_order(lo, u.meta.smallest_key@, u.meta.largest_key@);
                lemma_lex_order(u.meta.largest_key@, lo, u.meta.largest_key@);
            }
            lemma_lex_order(u.meta.largest_key@, o.meta.smallest_key@, key);
        }
        if lex_lt(hi, u.meta.smallest_key@) {
            if before(u, o) {
                lemma_lex_order(u.meta.smallest_key@, u.meta.largest_key@, o.meta.smallest_key@);
                lemma_lex_order(u.meta.smallest_key@, o.meta.smallest_key@, hi);
                lemma_lex_order(hi, u.meta.smallest_key@, hi);
            }
            lemma_lex_order(key, o.meta.largest_key@, u.meta.smallest_key@);
        }
    }
}

/// A compaction leaves the levels below 0 without tables that have a key in
/// common in their ranges, where what comes out is such.
pub proof fn lemma_compaction_keeps_levels_spread(x: Push, v0: ReadView, v1: ReadView)
    requires
        levels_spread(v0),
        x.picked(v0),
        x.done(v0, v1),
        spread(x.outputs),
        within_inputs(x),
    ensures
        levels_spread(v1),
{
    assert forall|l: int| 1 <= l < v1.version.levels@.len() implies spread(
        (#[trigger] v1.version.levels@[l])@,
    ) by {
        let files = v0.version.levels@[l]@;
        let taken = x.taken(l);
        let kept = left(files, taken);
        let n = kept.len() as int;
        let after = v1.version.levels@[l]@;
        assert(spread(v0.version.levels@[l]@));
        assert(after == kept + if l == x.l + 1 {
            x.outputs
        } else {
            Seq::empty()
        });
        assert forall|i: int| 0 <= i < after.len() implies upright(#[trigger] after[i]) by {
            if i < n {
                lemma_place(files, taken, i);
                assert(after[i] == files[place(files, taken, i)]);
            } else {
                assert(after[i] == x.outputs[i - n]);
            }
        }
        assert forall|i: int, j: int| 0 <= i < j < after.len() implies before(
            #[trigger] after[i],
            #[trigger] after[j],
        ) || before(after[j], after[i]) by {
            if j < n {
                lemma_place(files, taken, i);
                lemma_place(files, taken, j);
                lemma_place_ascends(files, taken, i, j);
                assert(after[i] == files[place(files, taken, i)]);
                assert(after[j] == files[place(files, taken, j)]);
            } else if i < n {
                let o = after[j];
                assert(o == x.outputs[j - n]);
                lemma_place(files, taken, i);
                let m = place(files, taken, i);
                assert(after[i] == files[m]);
                lemma_one_side(x, v0, m, o.meta.smallest_key@);
                lemma_one_side(x, v0, m, o.meta.largest_key@);
            } else {
                assert(after[i] == x.outputs[i - n] && after[j] == x.outputs[j - n]);
            }
        }
    }
}

/// The range of a table without tombstones is that of its entries.
pub open spec fn ranges_fit(outputs: Seq<Arc<LiveSst>>) -> bool {
    forall|k: int|
        0 <= k < outputs.len() ==> {
            let t = #[trigger] outputs[k];
            &&& Some(t.meta.smallest_key@) == least_key(t.reader.entries(), Seq::empty())
            &&& Some(t.meta.largest_key@) == greatest_key(t.reader.entries(), Seq::empty())
        }
}

/// The ends of a table that comes out.
proof fn lemma_ends(es: Seq<Pair>, cs: Seq<(usize, usize)>, outputs: Seq<Arc<LiveSst>>, k: int)
    requires
        tiles_to(es, cs, es.len() as int),
        written(es, Seq::empty(), cs, outputs),
        ranges_fit(outputs),
        0 <= k < outputs.len(),
    ensures
        0 <= cs[k].0 < cs[k].1 <= es.len(),
        outputs[k].meta.smallest_key@ == user_of(es[cs[k].0 as int].0),
        outputs[k].meta.largest_key@ == user_of(es[cs[k].1 - 1].0),
        outputs[k].reader.entries() == es.subrange(cs[k].0 as int, cs[k].1 as int),
{
    let t = outputs[k];
    lemma_tiles_within(es, cs, es.len() as int, k);
    assert(t.reader.entries() == es.subrange(cs[k].0 as int, cs[k].1 as int));
    assert(Some(t.meta.smallest_key@) == least_key(t.reader.entries(), Seq::empty()));
}

/// The user keys of sorted entries ascend.
proof fn lemma_users_ascend(es: Seq<Pair>, i: int, j: int)
    requires
        sorted_entries(es),
        0 <= i <= j < es.len(),
    ensures
        lex_le(user_of(es[i].0), user_of(es[j].0)),
{
    if i < j {
        assert(ik_lt(es[i].0, es[j].0));
    }
}

/// Of two tables that come out, the first comes before the second.
proof fn lemma_outputs_follow(
    es: Seq<Pair>,
    cs: Seq<(usize, usize)>,
    outputs: Seq<Arc<LiveSst>>,
    i: int,
    j: int,
)
    requires
        sorted_entries(es),
        tiles_to(es, cs, es.len() as int),
        written(es, Seq::empty(), cs, outputs),
        ranges_fit(outputs),
        0 <= i < j < outputs.len(),
    ensures
        before(outputs[i], outputs[j]),
{
    lemma_ends(es, cs, outputs, i);
    lemma_ends(es, cs, outputs, j);
    lemma_tiles_ascend(es, cs, es.len() as int, i, j);
    let a = outputs[i].reader.entries();
    let b = outputs[j].reader.entries();
    assert(a[a.len() - 1] == es[cs[i].1 - 1]);
    assert(b[0] == es[cs[j].0 as int]);
    assert(a.contains(a[a.len() - 1]) && b.contains(b[0]));
    lemma_written_apart(es, Seq::empty(), cs, outputs, i, j, a[a.len() - 1], b[0]);
    lemma_users_ascend(es, cs[i].1 - 1, cs[j].0 as int);
}

/// A result without range tombstones is written to tables that have no key in
/// common in their ranges.
pub proof fn lemma_written_is_spread(es: Seq<Pair>, cs: Seq<(usize, usize)>, x: Push)
    requires
        sorted_entries(es),
        tiles_to(es, cs, es.len() as int),
        written(es, Seq::empty(), cs, x.outputs),
        ranges_fit(x.outputs),
        forall|p: Pair| #[trigger]
            es.contains(p) ==> in_ranges(x.inputs + x.overlaps, user_of(p.0)),
    ensures
        spread(x.outputs),
        within_inputs(x),
{
    let all = x.inputs + x.overlaps;
    assert forall|k: int| 0 <= k < x.outputs.len() implies upright(#[trigger] x.outputs[k])
        && in_ranges(all, x.outputs[k].meta.smallest_key@) && in_ranges(
        all,
        x.outputs[k].meta.largest_key@,
    ) by {
        lemma_ends(es, cs, x.outputs, k);
        lemma_users_ascend(es, cs[k].0 as int, cs[k].1 - 1);
        assert(es.contains(es[cs[k].0 as int]));
        assert(es.contains(es[cs[k].1 - 1]));
    }
    assert forall|i: int, j: int| 0 <= i < j < x.outputs.len() implies before(
        #[trigger] x.outputs[i],
        #[trigger] x.outputs[j],
    ) || before(x.outputs[j], x.outputs[i]) by {
        lemma_outputs_follow(es, cs, x.outputs, i, j);
    }
}

} // verus!
