//! Iterators over a read view.

use super::age_laws::stands_in;
use super::age_laws::Source;
use super::block::sorted_entries;
use super::block_entry::Pair;
use super::compaction::all_entries;
use super::compaction_laws::has_table;
use super::compaction_laws::in_memory;
use super::compaction_laws::in_tables;
use super::compaction_laws::table_at;
use super::hooks::MergeOperator;
use super::internal_key::seq_of;
use super::internal_key::type_of;
use super::internal_key::VALUE_TYPE_MERGE;
use super::iterator::LarkIterator;
use super::level_iter::LevelConcatIter;
use super::level_iter::LevelIter;
use super::level_iter::MemtableLevelIter;
use super::level_iter::SsTableLevelIter;
use super::level_laws::before;
use super::level_laws::lemma_lined_sorted;
use super::level_laws::lined;
use super::level_laws::upright;
use super::manifest::Version;
use super::merging_iter::any_holds;
use super::merging_iter::levels_wf;
use super::merging_iter::run_holds;
use super::merging_iter::runs_of;
use super::merging_iter::MergingIter;
use super::range_tombstone::holds;
use super::range_tombstone::lemma_sorted_holds_same;
use super::range_tombstone::RangeTombstone;
use super::range_tombstone::RangeTombstoneSet;
use super::range_tombstone::TombstoneView;
use super::read_view::files_wf;
use super::read_view::ReadView;
use super::scan_laws::lemma_level_run_holds;
use super::sstable::share;
use super::sstable::LiveSst;
use crate::bytes::bytes_le;
use crate::bytes::bytes_lt;
use crate::bytes::lemma_lex_order;
use crate::bytes::lex_lt;
use std::sync::Arc;
use vstd::prelude::*;

verus! {

// ── The tables of a level in order ───────────────────────────────

/// The tables that have entries. A table that holds nothing but tombstones
/// reaches over others and has nothing to iterate over.
pub open spec fn with_points(files: Seq<Arc<LiveSst>>) -> Seq<Arc<LiveSst>>
    decreases files.len(),
{
    if files.len() == 0 {
        files
    } else if files.last().meta.num_entries > 0 {
        with_points(files.drop_last()).push(files.last())
    } else {
        with_points(files.drop_last())
    }
}

/// `s` with `f` put in order of the smallest keys, behind those that have the
/// same.
pub open spec fn put_by_key(s: Seq<Arc<LiveSst>>, f: Arc<LiveSst>) -> Seq<Arc<LiveSst>>
    decreases s.len(),
{
    if s.len() == 0 {
        seq![f]
    } else if lex_lt(f.meta.smallest_key@, s.last().meta.smallest_key@) {
        put_by_key(s.drop_last(), f).push(s.last())
    } else {
        s.push(f)
    }
}

/// The tables in the order of their smallest keys.
pub open spec fn by_key(files: Seq<Arc<LiveSst>>) -> Seq<Arc<LiveSst>>
    decreases files.len(),
{
    if files.len() == 0 {
        files
    } else {
        put_by_key(by_key(files.drop_last()), files.last())
    }
}

/// The entries of a level, table after table.
pub open spec fn level_run(files: Seq<Arc<LiveSst>>) -> Seq<Pair> {
    all_entries(by_key(with_points(files)))
}

proof fn lemma_put_by_key(s: Seq<Arc<LiveSst>>, f: Arc<LiveSst>, at: int)
    requires
        0 <= at <= s.len(),
        forall|i: int|
            at <= i < s.len() ==> lex_lt(
                f.meta.smallest_key@,
                (#[trigger] s[i]).meta.smallest_key@,
            ),
        at > 0 ==> !lex_lt(f.meta.smallest_key@, s[at - 1].meta.smallest_key@),
    ensures
        put_by_key(s, f) == s.insert(at, f),
    decreases s.len(),
{
    if s.len() == 0 {
        assert(s.insert(0, f) =~= seq![f]);
    } else if at == s.len() {
        assert(s.insert(at, f) =~= s.push(f));
    } else {
        let d = s.drop_last();
        assert(s.last() == s[s.len() - 1]);
        assert forall|i: int| at <= i < d.len() implies lex_lt(
            f.meta.smallest_key@,
            (#[trigger] d[i]).meta.smallest_key@,
        ) by {
            assert(d[i] == s[i]);
        }
        lemma_put_by_key(d, f, at);
        assert(s.insert(at, f) =~= d.insert(at, f).push(s.last()));
    }
}

/// The tables of a level that have entries, in the order of their keys.
fn ordered_tables(files: &Vec<Arc<LiveSst>>) -> (r: Vec<Arc<LiveSst>>)
    requires
        files_wf(files@),
    ensures
        r@ == by_key(with_points(files@)),
        files_wf(r@),
{
    let mut r: Vec<Arc<LiveSst>> = Vec::new();
    let mut i: usize = 0;
    assert(files@.take(0) =~= Seq::<Arc<LiveSst>>::empty());
    while i < files.len()
        invariant
            i <= files@.len(),
            files_wf(files@),
            files_wf(r@),
            r@ == by_key(with_points(files@.take(i as int))),
        decreases files@.len() - i,
    {
        proof {
            let t = files@.take(i + 1);
            assert(t.drop_last() =~= files@.take(i as int));
            assert(t.last() == files@[i as int]);
            assert(files@[i as int].wf());
        }
        if files[i].meta.num_entries > 0 {
            let mut at: usize = r.len();
            let mut moving = at > 0;
            while moving
                invariant
                    i < files@.len(),
                    at <= r@.len(),
                    moving ==> at > 0,
                    forall|j: int|
                        at <= j < r@.len() ==> lex_lt(
                            files@[i as int].meta.smallest_key@,
                            (#[trigger] r@[j]).meta.smallest_key@,
                        ),
                    !moving && at > 0 ==> !lex_lt(
                        files@[i as int].meta.smallest_key@,
                        r@[at - 1].meta.smallest_key@,
                    ),
                decreases
                        at,
                        if moving {
                            1int
                        } else {
                            0int
                        },
            {
                if bytes_lt(
                    files[i].meta.smallest_key.as_slice(),
                    r[at - 1].meta.smallest_key.as_slice(),
                ) {
                    at -= 1;
                    moving = at > 0;
                } else {
                    moving = false;
                }
            }
            proof {
                lemma_put_by_key(r@, files@[i as int], at as int);
                let t = files@.take(i + 1);
                let p = with_points(files@.take(i as int)).push(files@[i as int]);
                assert(with_points(t) == p);
                assert(p.drop_last() =~= with_points(files@.take(i as int)));
            }
            let ghost r0 = r@;
            r.insert(at, share(&files[i]));
            proof {
                assert forall|j: int| 0 <= j < r@.len() implies (#[trigger] r@[j]).wf() by {
                    if j < at {
                        assert(r@[j] == r0[j]);
                    } else if j > at {
                        assert(r@[j] == r0[j - 1]);
                    }
                }
            }
        }
        i += 1;
    }
    assert(files@.take(i as int) =~= files@);
    r
}

// ── Sources ──────────────────────────────────────────────────────

impl ReadView {
    /// A memtable or a table has the entry.
    pub open spec fn meets(&self, p: Pair) -> bool {
        in_memory(*self, p) || in_tables(self.version, p)
    }

    /// `all` are the entries of all sources, in order.
    pub open spec fn is_all(&self, all: Seq<Pair>) -> bool {
        &&& sorted_entries(all)
        &&& forall|p: Pair| #[trigger] all.contains(p) == self.meets(p)
    }

    /// The entries are as the engine writes them: they have a sequence number
    /// that was given out, and one of the known types.
    pub open spec fn proper(&self) -> bool {
        forall|p: Pair| #[trigger]
            self.meets(p) ==> seq_of(p.0) > 0 && type_of(p.0) <= VALUE_TYPE_MERGE
    }

    /// The view can be scanned: sources that have an internal key in common
    /// agree on it, and the entries are as the engine writes them. A merge
    /// operand stands in one source only, since each that is met counts.
    pub open spec fn scannable(&self) -> bool {
        &&& forall|p: Pair, q: Pair| #[trigger]
            self.meets(p) && #[trigger] self.meets(q) && p.0 == q.0 ==> p == q
        &&& forall|s: Source, z: Source, p: Pair| #[trigger]
            stands_in(*self, s, p) && #[trigger] stands_in(*self, z, p) && type_of(p.0)
                == VALUE_TYPE_MERGE ==> s == z
        &&& self.proper()
    }

    /// Some source has a tombstone that says `v`.
    pub open spec fn deletes(&self, v: TombstoneView) -> bool {
        ||| holds(self.active.tombstones(), v)
        ||| exists|i: int|
            0 <= i < self.frozen@.len() && #[trigger] holds(self.frozen@[i].tombstones(), v)
        ||| exists|l: int, i: int| #[trigger] self.table_deletes(l, i, v)
    }

    /// Table `i` of level `l` has a tombstone that says `v`.
    pub open spec fn table_deletes(&self, l: int, i: int, v: TombstoneView) -> bool {
        0 <= l < self.version.levels@.len() && 0 <= i < self.version.levels@[l]@.len() && holds(
            self.version.levels@[l]@[i].reader.tombstones(),
            v,
        )
    }
}

proof fn lemma_holds_append(a: Seq<RangeTombstone>, b: Seq<RangeTombstone>, v: TombstoneView)
    ensures
        holds(a + b, v) == (holds(a, v) || holds(b, v)),
{
    let s = a + b;
    if holds(a, v) {
        let i = choose|i: int| 0 <= i < a.len() && (#[trigger] a[i])@ == v;
        assert(s[i]@ == v);
    }
    if holds(b, v) {
        let i = choose|i: int| 0 <= i < b.len() && (#[trigger] b[i])@ == v;
        assert(s[a.len() + i]@ == v);
    }
    if holds(s, v) {
        let i = choose|i: int| 0 <= i < s.len() && (#[trigger] s[i])@ == v;
        if i < a.len() {
            assert(a[i]@ == v);
        } else {
            assert(b[i - a.len()]@ == v);
        }
    }
}

/// Append tombstones.
fn append_tombstones(out: &mut Vec<RangeTombstone>, more: Vec<RangeTombstone>)
    ensures
        forall|v: TombstoneView| #[trigger]
            holds(final(out)@, v) == (holds(old(out)@, v) || holds(more@, v)),
{
    let ghost a = out@;
    let ghost b = more@;
    let mut more = more;
    out.append(&mut more);
    proof {
        assert(out@ =~= a + b);
        assert forall|v: TombstoneView| #[trigger] holds(out@, v) == (holds(a, v) || holds(b, v)) by {
            lemma_holds_append(a, b, v);
        }
    }
}

/// Copies hold what the originals hold.
proof fn lemma_copies_hold(a: Seq<RangeTombstone>, b: Seq<RangeTombstone>)
    requires
        a.len() == b.len(),
        forall|i: int| 0 <= i < a.len() ==> (#[trigger] a[i])@ == b[i]@,
    ensures
        forall|v: TombstoneView| #[trigger] holds(a, v) == holds(b, v),
{
    assert forall|v: TombstoneView| #[trigger] holds(a, v) == holds(b, v) by {
        if holds(a, v) {
            let i = choose|i: int| 0 <= i < a.len() && (#[trigger] a[i])@ == v;
            assert(b[i]@ == v);
        }
        if holds(b, v) {
            let i = choose|i: int| 0 <= i < b.len() && (#[trigger] b[i])@ == v;
            assert(a[i]@ == v);
        }
    }
}

/// Append the tombstones of tables.
fn append_table_tombstones(out: &mut Vec<RangeTombstone>, files: &Vec<Arc<LiveSst>>)
    ensures
        forall|v: TombstoneView| #[trigger]
            holds(final(out)@, v) == (holds(old(out)@, v) || exists|i: int|
                0 <= i < files@.len() && #[trigger] holds(files@[i].reader.tombstones(), v)),
{
    let ghost out0 = out@;
    let mut i: usize = 0;
    while i < files.len()
        invariant
            i <= files@.len(),
            out0 == old(out)@,
            forall|v: TombstoneView| #[trigger]
                holds(out@, v) == (holds(out0, v) || exists|j: int|
                    0 <= j < i && #[trigger] holds(files@[j].reader.tombstones(), v)),
        decreases files@.len() - i,
    {
        let ghost out1 = out@;
        let more = files[i].reader.range_tombstones();
        proof {
            lemma_copies_hold(more@, files@[i as int].reader.tombstones());
        }
        append_tombstones(out, more);
        proof {
            assert forall|v: TombstoneView| #[trigger]
                holds(out@, v) == (holds(out0, v) || exists|j: int|
                    0 <= j < i + 1 && #[trigger] holds(files@[j].reader.tombstones(), v)) by {
                assert(holds(out1, v) == (holds(out0, v) || exists|j: int|
                    0 <= j < i && #[trigger] holds(files@[j].reader.tombstones(), v)));
                assert(holds(out@, v) == (holds(out1, v) || holds(
                    files@[i as int].reader.tombstones(),
                    v,
                )));
                if exists|j: int|
                    0 <= j < i + 1 && #[trigger] holds(files@[j].reader.tombstones(), v) {
                    let j = choose|j: int|
                        0 <= j < i + 1 && #[trigger] holds(files@[j].reader.tombstones(), v);
                    if j < i {
                        assert(0 <= j < i && holds(files@[j].reader.tombstones(), v));
                    }
                }
            }
        }
        i += 1;
    }
}

/// The tombstones of all sources, indexed.
fn collect_tombstones(view: &ReadView) -> (r: RangeTombstoneSet)
    requires
        view.wf(),
    ensures
        r.wf(),
        forall|v: TombstoneView| #[trigger] holds(r.items(), v) == view.deletes(v),
{
    let mut out: Vec<RangeTombstone> = Vec::new();
    let active = view.active.clone_range_tombstones();
    proof {
        lemma_copies_hold(active@, view.active.tombstones());
    }
    append_tombstones(&mut out, active);
    let ghost out0 = out@;
    assert(forall|v: TombstoneView| #[trigger]
        holds(out0, v) == holds(view.active.tombstones(), v));
    let mut i: usize = 0;
    while i < view.frozen.len()
        invariant
            i <= view.frozen@.len(),
            forall|v: TombstoneView| #[trigger]
                holds(out@, v) == (holds(out0, v) || exists|j: int|
                    0 <= j < i && #[trigger] holds(view.frozen@[j].tombstones(), v)),
        decreases view.frozen@.len() - i,
    {
        let ghost out1 = out@;
        let more = view.frozen[i].clone_range_tombstones();
        proof {
            lemma_copies_hold(more@, view.frozen@[i as int].tombstones());
        }
        append_tombstones(&mut out, more);
        proof {
            assert forall|v: TombstoneView| #[trigger]
                holds(out@, v) == (holds(out0, v) || exists|j: int|
                    0 <= j < i + 1 && #[trigger] holds(view.frozen@[j].tombstones(), v)) by {
                assert(holds(out1, v) == (holds(out0, v) || exists|j: int|
                    0 <= j < i && #[trigger] holds(view.frozen@[j].tombstones(), v)));
                assert(holds(out@, v) == (holds(out1, v) || holds(
                    view.frozen@[i as int].tombstones(),
                    v,
                )));
                if exists|j: int|
                    0 <= j < i + 1 && #[trigger] holds(view.frozen@[j].tombstones(), v) {
                    let j = choose|j: int|
                        0 <= j < i + 1 && #[trigger] holds(view.frozen@[j].tombstones(), v);
                    if j < i {
                        assert(0 <= j < i && holds(view.frozen@[j].tombstones(), v));
                    }
                }
            }
        }
        i += 1;
    }
    let ghost out2 = out@;
    let mut l: usize = 0;
    while l < view.version.levels.len()
        invariant
            l <= view.version.levels@.len(),
            forall|v: TombstoneView| #[trigger]
                holds(out@, v) == (holds(out2, v) || exists|k: int, j: int|
                    k < l && #[trigger] view.table_deletes(k, j, v)),
        decreases view.version.levels@.len() - l,
    {
        let ghost out1 = out@;
        append_table_tombstones(&mut out, &view.version.levels[l]);
        proof {
            assert forall|v: TombstoneView| #[trigger]
                holds(out@, v) == (holds(out2, v) || exists|k: int, j: int|
                    k < l + 1 && #[trigger] view.table_deletes(k, j, v)) by {
                let files = view.version.levels@[l as int]@;
                assert(holds(out1, v) == (holds(out2, v) || exists|k: int, j: int|
                    k < l && #[trigger] view.table_deletes(k, j, v)));
                if exists|j: int|
                    0 <= j < files.len() && #[trigger] holds(files[j].reader.tombstones(), v) {
                    let j = choose|j: int|
                        0 <= j < files.len() && #[trigger] holds(files[j].reader.tombstones(), v);
                    assert(view.table_deletes(l as int, j, v));
                }
                if exists|k: int, j: int| k < l && #[trigger] view.table_deletes(k, j, v) {
                    let (k, j) = choose|k: int, j: int|
                        k < l && #[trigger] view.table_deletes(k, j, v);
                    assert(k < l + 1 && view.table_deletes(k, j, v));
                }
                if exists|k: int, j: int| k < l + 1 && #[trigger] view.table_deletes(k, j, v) {
                    let (k, j) = choose|k: int, j: int|
                        k < l + 1 && #[trigger] view.table_deletes(k, j, v);
                    if k < l {
                        assert(k < l && view.table_deletes(k, j, v));
                    } else {
                        assert(holds(files[j].reader.tombstones(), v));
                    }
                }
            }
        }
        l += 1;
    }
    let ghost whole = out@;
    let r = RangeTombstoneSet::from_vec(out);
    proof {
        lemma_sorted_holds_same(whole, r.items());
        assert forall|v: TombstoneView| #[trigger] holds(r.items(), v) == view.deletes(v) by {
            assert(holds(whole, v) == (holds(out2, v) || exists|k: int, j: int|
                k < l && #[trigger] view.table_deletes(k, j, v)));
            assert(holds(out2, v) == (holds(out0, v) || exists|j: int|
                0 <= j < i && #[trigger] holds(view.frozen@[j].tombstones(), v)));
            if exists|k: int, j: int| #[trigger] view.table_deletes(k, j, v) {
                let (k, j) = choose|k: int, j: int| #[trigger] view.table_deletes(k, j, v);
                assert(k < l && view.table_deletes(k, j, v));
            }
        }
    }
    r
}

/// One of the cursors goes over the entry.
pub open spec fn held(levels: Seq<LevelIter<'_>>, p: Pair) -> bool {
    any_holds(runs_of(levels), p)
}

/// Table `i` of level `l` has the entry.
pub open spec fn table_has(v: Version, l: int, i: int, p: Pair) -> bool {
    0 <= l < v.levels@.len() && 0 <= i < v.levels@[l]@.len()
        && v.levels@[l]@[i].reader.entries().contains(p)
}

proof fn lemma_table_has(v: Version, p: Pair)
    ensures
        in_tables(v, p) == exists|l: int, i: int|
            0 <= l < v.levels@.len() && #[trigger] table_has(v, l, i, p),
{
    if in_tables(v, p) {
        let t = choose|t: Arc<LiveSst>| #[trigger]
            has_table(v, t) && t.reader.entries().contains(p);
        let (l, i) = choose|l: int, i: int| #[trigger] table_at(v, l, i, t);
        assert(table_has(v, l, i, p));
    }
    if exists|l: int, i: int| 0 <= l < v.levels@.len() && #[trigger] table_has(v, l, i, p) {
        let (l, i) = choose|l: int, i: int|
            0 <= l < v.levels@.len() && #[trigger] table_has(v, l, i, p);
        let t = v.levels@[l]@[i];
        assert(table_at(v, l, i, t));
        assert(has_table(v, t));
    }
}

/// With one cursor more, what it goes over is held as well.
proof fn lemma_held_push(before: Seq<LevelIter<'_>>, after: Seq<LevelIter<'_>>, p: Pair)
    requires
        after.len() == before.len() + 1,
        after.drop_last() == before,
    ensures
        held(after, p) == (held(before, p) || after.last().run().contains(p)),
{
    let (a, b) = (runs_of(before), runs_of(after));
    let n = before.len() as int;
    assert forall|i: int| 0 <= i < n implies a[i] == b[i] by {
        assert(after.drop_last()[i] == after[i]);
    }
    if held(before, p) {
        let i = choose|i: int| #[trigger] run_holds(a, i, p);
        assert(run_holds(b, i, p));
    }
    if after.last().run().contains(p) {
        assert(run_holds(b, n, p));
    }
    if held(after, p) {
        let i = choose|i: int| #[trigger] run_holds(b, i, p);
        if i < n {
            assert(run_holds(a, i, p));
        }
    }
}

/// Whether the ranges of the tables follow one another.
fn in_line(files: &Vec<Arc<LiveSst>>) -> (r: bool)
    ensures
        r == lined(files@),
{
    let mut i: usize = 0;
    while i < files.len()
        invariant
            i <= files@.len(),
            lined(files@.take(i as int)),
        decreases files@.len() - i,
    {
        let ghost s = files@.take(i as int);
        let ghost t = files@.take(i + 1);
        let f = &files[i];
        if !bytes_le(f.meta.smallest_key.as_slice(), f.meta.largest_key.as_slice()) {
            assert(!upright(files@[i as int]));
            return false;
        }
        if i > 0 && !bytes_lt(
            files[i - 1].meta.largest_key.as_slice(),
            f.meta.smallest_key.as_slice(),
        ) {
            assert(!before(files@[i - 1], files@[i as int]));
            return false;
        }
        proof {
            assert forall|k: int| 0 <= k < t.len() implies upright(#[trigger] t[k]) by {
                if k < i {
                    assert(s[k] == t[k]);
                }
            }
            assert forall|j: int, k: int| 0 <= j < k < t.len() implies before(
                #[trigger] t[j],
                #[trigger] t[k],
            ) by {
                if k < i {
                    assert(s[j] == t[j] && s[k] == t[k]);
                } else if j < i - 1 {
                    let m = i - 1;
                    assert(s[j] == t[j] && s[m] == files@[m]);
                    assert(before(s[j], s[m]) && upright(s[m]));
                    let x = files@[m];
                    lemma_lex_order(
                        t[j].meta.largest_key@,
                        x.meta.smallest_key@,
                        x.meta.largest_key@,
                    );
                    lemma_lex_order(
                        t[j].meta.largest_key@,
                        x.meta.largest_key@,
                        t[k].meta.smallest_key@,
                    );
                }
            }
        }
        i += 1;
    }
    assert(files@.take(i as int) =~= files@);
    true
}

/// Add cursors over the tables of a level. Tables that follow one another are
/// gone over one after the other, with one cursor; where two reach over each
/// other, as those of level 0 may, each has its own.
fn push_tables<'a>(levels: &mut Vec<LevelIter<'a>>, files: &Vec<Arc<LiveSst>>, one_cursor: bool)
    requires
        levels_wf(old(levels)@),
        files_wf(files@),
    ensures
        levels_wf(final(levels)@),
        forall|p: Pair| #[trigger]
            held(final(levels)@, p) == (held(old(levels)@, p) || exists|i: int|
                0 <= i < files@.len() && (#[trigger] files@[i]).reader.entries().contains(p)),
{
    let ghost start = levels@;
    if one_cursor {
        let tables = ordered_tables(files);
        if in_line(&tables) {
            proof {
                lemma_lined_sorted(tables@);
            }
            levels.push(LevelIter::LevelConcat(LevelConcatIter::new(tables)));
            proof {
                assert forall|p: Pair| #[trigger] held(levels@, p) == (held(start, p) || exists|
                    i: int,
                |
                    0 <= i < files@.len() && (
                    #[trigger] files@[i]).reader.entries().contains(p)) by {
                    assert(levels@.drop_last() =~= start);
                    lemma_held_push(start, levels@, p);
                    lemma_level_run_holds(files@, p);
                }
            }
            return;
        }
    }
    let mut i: usize = files.len();
    while i > 0
        invariant
            i <= files@.len(),
            files_wf(files@),
            levels_wf(levels@),
            forall|p: Pair| #[trigger]
                held(levels@, p) == (held(start, p) || exists|j: int|
                    i <= j < files@.len() && (#[trigger] files@[j]).reader.entries().contains(p)),
        decreases i,
    {
        i -= 1;
        assert(files@[i as int].wf());
        let ghost before = levels@;
        levels.push(LevelIter::SsTable(SsTableLevelIter::new(share(&files[i]))));
        proof {
            assert forall|p: Pair| #[trigger] held(levels@, p) == (held(start, p) || exists|j: int|
                i <= j < files@.len() && (#[trigger] files@[j]).reader.entries().contains(p)) by {
                assert(levels@.drop_last() =~= before);
                lemma_held_push(before, levels@, p);
                assert(held(before, p) == (held(start, p) || exists|j: int|
                    i + 1 <= j < files@.len() && (#[trigger] files@[j]).reader.entries().contains(
                        p,
                    )));
                if files@[i as int].reader.entries().contains(p) {
                    assert(i <= i < files@.len());
                }
            }
        }
    }
}

impl ReadView {
    /// An iterator over the view at a snapshot, without a position. Merge
    /// chains have a value only with a merge operator.
    pub fn new_iter<'a, M: MergeOperator>(
        &'a self,
        snapshot_seq: u64,
        merge_operator: Option<&'a M>,
    ) -> (r: LarkIterator<'a, M>)
        requires
            self.wf(),
            self.scannable(),
        ensures
            r.wf(),
            self.is_all(r.scan().all),
            forall|v: TombstoneView| #[trigger] holds(r.scan().rts, v) == self.deletes(v),
            r.scan().snapshot_seq == snapshot_seq,
            r.scan().merges == (merge_operator is Some),
            r.op() == merge_operator,
            r.current() is None,
            r.err() is None,
            !r.terminal(),
    {
        let mut levels: Vec<LevelIter<'a>> = Vec::new();
        levels.push(LevelIter::Memtable(MemtableLevelIter::new(&self.active)));
        proof {
            let first = seq![self.active.entries()];
            assert(runs_of(levels@) =~= first);
            assert forall|p: Pair| #[trigger] held(
                levels@,
                p,
            ) == self.active.entries().contains(p) by {
                if held(levels@, p) {
                    let n = choose|n: int| #[trigger] run_holds(first, n, p);
                    assert(first[n].contains(p));
                }
                if self.active.entries().contains(p) {
                    assert(run_holds(first, 0, p));
                }
            }
        }
        let mut i: usize = self.frozen.len();
        while i > 0
            invariant
                self.wf(),
                i <= self.frozen@.len(),
                levels_wf(levels@),
                forall|p: Pair| #[trigger]
                    held(levels@, p) == (self.active.entries().contains(p) || exists|j: int|
                        i <= j < self.frozen@.len() && (
                        #[trigger] self.frozen@[j]).entries().contains(p)),
            decreases i,
        {
            i -= 1;
            assert(self.frozen@[i as int].wf());
            let ghost before = levels@;
            levels.push(LevelIter::Memtable(MemtableLevelIter::new(&self.frozen[i])));
            proof {
                assert forall|p: Pair| #[trigger] held(levels@, p) == (
                self.active.entries().contains(p) || exists|j: int|
                    i <= j < self.frozen@.len() && (
                    #[trigger] self.frozen@[j]).entries().contains(p)) by {
                    assert(levels@.drop_last() =~= before);
                    lemma_held_push(before, levels@, p);
                    assert(held(before, p) == (self.active.entries().contains(p) || exists|j: int|
                        i + 1 <= j < self.frozen@.len() && (
                        #[trigger] self.frozen@[j]).entries().contains(p)));
                    if self.frozen@[i as int].entries().contains(p) {
                        assert(i <= i < self.frozen@.len());
                    }
                }
            }
        }
        let ghost memory = levels@;
        let mut level: usize = 0;
        assert forall|p: Pair| held(memory, p) == in_memory(*self, p) by {}
        while level < self.version.levels.len()
            invariant
                self.wf(),
                level <= self.version.levels@.len(),
                levels_wf(levels@),
                forall|p: Pair| held(memory, p) == in_memory(*self, p),
                forall|p: Pair| #[trigger]
                    held(levels@, p) == (held(memory, p) || exists|l: int, i: int|
                        0 <= l < level && #[trigger] table_has(self.version, l, i, p)),
            decreases self.version.levels@.len() - level,
        {
            assert(files_wf(self.version.levels@[level as int]@));
            let ghost before = levels@;
            push_tables(&mut levels, &self.version.levels[level], level > 0);
            proof {
                assert forall|p: Pair| #[trigger] held(levels@, p) == (held(memory, p) || exists|
                    l: int,
                    i: int,
                |
                    0 <= l < level + 1 && #[trigger] table_has(self.version, l, i, p)) by {
                    let files = self.version.levels@[level as int]@;
                    assert(held(before, p) == (held(memory, p) || exists|l: int, i: int|
                        0 <= l < level && #[trigger] table_has(self.version, l, i, p)));
                    if exists|i: int|
                        0 <= i < files.len() && (#[trigger] files[i]).reader.entries().contains(
                            p,
                        ) {
                        let i = choose|i: int|
                            0 <= i < files.len() && (#[trigger] files[i]).reader.entries().contains(
                                p,
                            );
                        assert(table_has(self.version, level as int, i, p));
                    }
                    if exists|l: int, i: int|
                        0 <= l < level + 1 && #[trigger] table_has(self.version, l, i, p) {
                        let (l, i) = choose|l: int, i: int|
                            0 <= l < level + 1 && #[trigger] table_has(self.version, l, i, p);
                        if l < level {
                            assert(0 <= l < level && table_has(self.version, l, i, p));
                        } else {
                            assert(files[i].reader.entries().contains(p));
                        }
                    }
                }
            }
            level += 1;
        }
        let ghost runs = runs_of(levels@);
        proof {
            assert forall|p: Pair| #[trigger] any_holds(runs, p) == self.meets(p) by {
                assert(held(levels@, p) == any_holds(runs, p));
                lemma_table_has(self.version, p);
                assert(held(memory, p) == in_memory(*self, p));
            }
            assert forall|l: int| 0 <= l < runs.len() implies sorted_entries(
                #[trigger] runs[l],
            ) by {
                assert(levels@[l].wf());
                levels@[l].lemma_run();
            }
            assert forall|l: int, m: int, p: Pair, q: Pair| #[trigger]
                run_holds(runs, l, p) && #[trigger] run_holds(runs, m, q) && p.0 == q.0 implies p
                == q by {
                assert(any_holds(runs, p) && any_holds(runs, q));
                assert(self.meets(p) && self.meets(q));
            }
        }
        let inner = MergingIter::new(levels);
        let range_tombstones = collect_tombstones(self);
        proof {
            inner.lemma_all();
            let all = inner.all();
            assert forall|i: int| 0 <= i < all.len() implies seq_of((#[trigger] all[i]).0) > 0
                && type_of(all[i].0) <= VALUE_TYPE_MERGE by {
                assert(all.contains(all[i]));
                assert(any_holds(runs, all[i]));
                assert(self.meets(all[i]));
            }
        }
        LarkIterator::over(inner, range_tombstones, snapshot_seq, merge_operator)
    }
}

} // verus!
