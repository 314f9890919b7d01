//! What a compaction does to reads.

use super::block_entry::Pair;
use super::chain_laws::lemma_rewriting_keeps_chains;
use super::compaction::all_entries;
use super::compaction::all_tombstones;
use super::compaction::lemma_compaction_drops_unneeded;
use super::compaction::may_compact;
use super::compaction::one_value;
use super::hooks::CompactionFilter;
use super::hooks::MergeOperator;
use super::internal_key::ik_lt;
use super::internal_key::seq_of;
use super::internal_key::type_of;
use super::internal_key::user_of;
use super::internal_key::VALUE_TYPE_MERGE;
use super::lookup::aged;
use super::lookup::deletes_at;
use super::lookup::in_layers;
use super::lookup::in_run;
use super::lookup::in_set;
use super::lookup::lemma_rewriting_keeps_lookups;
use super::lookup::reads_alike;
use super::lookup::walk;
use super::lookup::walk_chain;
use super::manifest::Version;
use super::range_tombstone::holds;
use super::range_tombstone::tombstone_views;
use super::range_tombstone::RangeTombstone;
use super::range_tombstone::TombstoneView;
use super::read_view::covering_rts;
use super::read_view::covering_runs;
use super::read_view::files_wf;
use super::read_view::lemma_layer_at;
use super::read_view::ReadView;
use super::scan::outcome_of;
use super::sstable::LiveSst;
use super::versions::visible;
use std::sync::Arc;
use vstd::prelude::*;

verus! {

// ── Where a view holds what ──────────────────────────────────────

/// Table `i` of level `l` is `t`.
pub open spec fn table_at(v: Version, l: int, i: int, t: Arc<LiveSst>) -> bool {
    0 <= l < v.levels@.len() && 0 <= i < v.levels@[l]@.len() && v.levels@[l]@[i] == t
}

/// The version has the table.
pub open spec fn has_table(v: Version, t: Arc<LiveSst>) -> bool {
    exists|l: int, i: int| #[trigger] table_at(v, l, i, t)
}

/// A memtable of the view holds the entry.
pub open spec fn in_memory(v: ReadView, p: Pair) -> bool {
    ||| v.active.entries().contains(p)
    ||| exists|i: int|
        0 <= i < v.frozen@.len() && (#[trigger] v.frozen@[i]).entries().contains(p)
}

/// A memtable of the view holds the tombstone.
pub open spec fn rt_in_memory(v: ReadView, t: RangeTombstone) -> bool {
    ||| v.active.tombstones().contains(t)
    ||| exists|i: int|
        0 <= i < v.frozen@.len() && (#[trigger] v.frozen@[i]).tombstones().contains(t)
}

/// A table of the version holds the entry.
pub open spec fn in_tables(v: Version, p: Pair) -> bool {
    exists|t: Arc<LiveSst>| #[trigger] has_table(v, t) && t.reader.entries().contains(p)
}

/// A table of the version holds the tombstone.
pub open spec fn rt_in_tables(v: Version, rt: RangeTombstone) -> bool {
    exists|t: Arc<LiveSst>| #[trigger] has_table(v, t) && t.reader.tombstones().contains(rt)
}

pub proof fn lemma_covering_run_at(files: Seq<Arc<LiveSst>>, key: Seq<u8>, r: int) -> (i: int)
    requires
        0 <= r < covering_runs(files, key).len(),
    ensures
        0 <= i < files.len(),
        covering_runs(files, key)[r] == files[i].reader.entries(),
    decreases files.len(),
{
    let rest = covering_runs(files.skip(1), key);
    if files[0].meta.num_entries != 0 && files[0].covers(key) {
        if r == 0 {
            0
        } else {
            assert(covering_runs(files, key)[r] == rest[r - 1]);
            let i = lemma_covering_run_at(files.skip(1), key, r - 1);
            i + 1
        }
    } else {
        let i = lemma_covering_run_at(files.skip(1), key, r);
        i + 1
    }
}

proof fn lemma_run_of(files: Seq<Arc<LiveSst>>, key: Seq<u8>, i: int) -> (r: int)
    requires
        0 <= i < files.len(),
        files[i].meta.num_entries != 0,
        files[i].covers(key),
    ensures
        0 <= r < covering_runs(files, key).len(),
        covering_runs(files, key)[r] == files[i].reader.entries(),
    decreases files.len(),
{
    let rest = covering_runs(files.skip(1), key);
    if i == 0 {
        0
    } else {
        let r = lemma_run_of(files.skip(1), key, i - 1);
        if files[0].meta.num_entries != 0 && files[0].covers(key) {
            assert(covering_runs(files, key)[r + 1] == rest[r]);
            r + 1
        } else {
            r
        }
    }
}

pub proof fn lemma_covering_set_at(files: Seq<Arc<LiveSst>>, key: Seq<u8>, r: int) -> (i: int)
    requires
        0 <= r < covering_rts(files, key).len(),
    ensures
        0 <= i < files.len(),
        covering_rts(files, key)[r] == files[i].reader.tombstones(),
    decreases files.len(),
{
    let rest = covering_rts(files.skip(1), key);
    if files[0].covers(key) {
        if r == 0 {
            0
        } else {
            assert(covering_rts(files, key)[r] == rest[r - 1]);
            let i = lemma_covering_set_at(files.skip(1), key, r - 1);
            i + 1
        }
    } else {
        let i = lemma_covering_set_at(files.skip(1), key, r);
        i + 1
    }
}

proof fn lemma_set_of(files: Seq<Arc<LiveSst>>, key: Seq<u8>, i: int) -> (r: int)
    requires
        0 <= i < files.len(),
        files[i].covers(key),
    ensures
        0 <= r < covering_rts(files, key).len(),
        covering_rts(files, key)[r] == files[i].reader.tombstones(),
    decreases files.len(),
{
    let rest = covering_rts(files.skip(1), key);
    if i == 0 {
        0
    } else {
        let r = lemma_set_of(files.skip(1), key, i - 1);
        if files[0].covers(key) {
            assert(covering_rts(files, key)[r + 1] == rest[r]);
            r + 1
        } else {
            r
        }
    }
}

/// The layer of a table: those of level 0 have one each, the newest first; the
/// deeper levels have one each.
pub open spec fn layer_of(v: ReadView, l: int, i: int) -> int {
    let f = v.frozen@.len() as int;
    let l0 = v.version.levels@[0]@.len() as int;
    if l == 0 {
        f + l0 - i
    } else {
        l + f + l0
    }
}

/// A version that a table holds is in the table's layer.
pub proof fn lemma_table_run(
    v: ReadView,
    key: Seq<u8>,
    l: int,
    i: int,
    t: Arc<LiveSst>,
    p: Pair,
) -> (r: int)
    requires
        v.wf(),
        table_at(v.version, l, i, t),
        t.reader.entries().contains(p),
        user_of(p.0) == key,
    ensures
        in_run(v.layers(key), layer_of(v, l, i), r, p),
        v.layers(key)[layer_of(v, l, i)].runs[r] == t.reader.entries(),
{
    let n = layer_of(v, l, i);
    assert(files_wf(v.version.levels@[l]@));
    assert(v.version.levels@[l]@[i].wf());
    let x = choose|x: int| 0 <= x < t.reader.entries().len() && t.reader.entries()[x] == p;
    assert(t.covers(user_of(t.reader.entries()[x].0)));
    lemma_layer_at(v, key, 0);
    lemma_layer_at(v, key, n);
    if l == 0 {
        0
    } else {
        lemma_run_of(v.version.levels@[l]@, key, i)
    }
}

/// A covering tombstone that a table holds is in the table's layer.
pub proof fn lemma_table_set(
    v: ReadView,
    key: Seq<u8>,
    l: int,
    i: int,
    t: Arc<LiveSst>,
    rt: RangeTombstone,
) -> (r: int)
    requires
        v.wf(),
        table_at(v.version, l, i, t),
        t.reader.tombstones().contains(rt),
        rt@.covers(key),
    ensures
        in_set(v.layers(key), layer_of(v, l, i), r, rt),
{
    let n = layer_of(v, l, i);
    assert(files_wf(v.version.levels@[l]@));
    assert(v.version.levels@[l]@[i].wf());
    let x = choose|x: int| 0 <= x < t.reader.tombstones().len() && t.reader.tombstones()[x] == rt;
    assert(t.reader.tombstones()[x]@.covers(key));
    assert(t.covers(key));
    lemma_layer_at(v, key, 0);
    lemma_layer_at(v, key, n);
    if l == 0 {
        0
    } else {
        lemma_set_of(v.version.levels@[l]@, key, i)
    }
}

/// The layers hold the versions of a key that the memtables and tables hold.
pub proof fn lemma_in_layers(v: ReadView, key: Seq<u8>, p: Pair)
    requires
        v.wf(),
        user_of(p.0) == key,
    ensures
        in_layers(v.layers(key), p) == (in_memory(v, p) || in_tables(v.version, p)),
{
    let ls = v.layers(key);
    let f = v.frozen@.len() as int;
    let l0 = v.version.levels@[0]@;
    lemma_layer_at(v, key, 0);
    if in_layers(ls, p) {
        let (n, r) = choose|n: int, r: int| #[trigger] in_run(ls, n, r, p);
        lemma_layer_at(v, key, n);
        if n == 0 {
            assert(v.active.entries().contains(p));
        } else if n < 1 + f {
            assert(v.frozen@[f - n].entries().contains(p));
        } else if n < 1 + f + l0.len() {
            let t = l0[f + l0.len() - n];
            assert(table_at(v.version, 0, f + l0.len() - n, t));
            assert(has_table(v.version, t));
        } else {
            let l = n - f - l0.len();
            let files = v.version.levels@[l]@;
            let i = lemma_covering_run_at(files, key, r);
            assert(table_at(v.version, l, i, files[i]));
            assert(has_table(v.version, files[i]));
        }
    }
    if v.active.entries().contains(p) {
        assert(in_run(ls, 0, 0, p));
    } else if in_memory(v, p) {
        let i = choose|i: int|
            0 <= i < v.frozen@.len() && (#[trigger] v.frozen@[i]).entries().contains(p);
        lemma_layer_at(v, key, f - i);
        assert(in_run(ls, f - i, 0, p));
    }
    if in_tables(v.version, p) {
        let t = choose|t: Arc<LiveSst>| #[trigger]
            has_table(v.version, t) && t.reader.entries().contains(p);
        let (l, i) = choose|l: int, i: int| #[trigger] table_at(v.version, l, i, t);
        let r = lemma_table_run(v, key, l, i, t, p);
    }
}

/// The layers hold the tombstones over a key that the memtables and tables
/// hold.
pub proof fn lemma_in_sets(v: ReadView, key: Seq<u8>, rt: RangeTombstone)
    requires
        v.wf(),
        rt@.covers(key),
    ensures
        (exists|n: int, r: int| #[trigger] in_set(v.layers(key), n, r, rt)) == (rt_in_memory(v, rt)
            || rt_in_tables(v.version, rt)),
{
    let ls = v.layers(key);
    let f = v.frozen@.len() as int;
    let l0 = v.version.levels@[0]@;
    lemma_layer_at(v, key, 0);
    if exists|n: int, r: int| #[trigger] in_set(ls, n, r, rt) {
        let (n, r) = choose|n: int, r: int| #[trigger] in_set(ls, n, r, rt);
        lemma_layer_at(v, key, n);
        if n == 0 {
            assert(v.active.tombstones().contains(rt));
        } else if n < 1 + f {
            assert(v.frozen@[f - n].tombstones().contains(rt));
        } else if n < 1 + f + l0.len() {
            let t = l0[f + l0.len() - n];
            assert(table_at(v.version, 0, f + l0.len() - n, t));
            assert(has_table(v.version, t));
        } else {
            let l = n - f - l0.len();
            let files = v.version.levels@[l]@;
            let i = lemma_covering_set_at(files, key, r);
            assert(table_at(v.version, l, i, files[i]));
            assert(has_table(v.version, files[i]));
        }
    }
    if v.active.tombstones().contains(rt) {
        assert(in_set(ls, 0, 0, rt));
    } else if rt_in_memory(v, rt) {
        let i = choose|i: int|
            0 <= i < v.frozen@.len() && (#[trigger] v.frozen@[i]).tombstones().contains(rt);
        lemma_layer_at(v, key, f - i);
        assert(in_set(ls, f - i, 0, rt));
    }
    if rt_in_tables(v.version, rt) {
        let t = choose|t: Arc<LiveSst>| #[trigger]
            has_table(v.version, t) && t.reader.tombstones().contains(rt);
        let (l, i) = choose|l: int, i: int| #[trigger] table_at(v.version, l, i, t);
        let r = lemma_table_set(v, key, l, i, t, rt);
    }
}

pub proof fn lemma_all_entries(files: Seq<Arc<LiveSst>>, p: Pair)
    ensures
        all_entries(files).contains(p) == exists|k: int|
            0 <= k < files.len() && (#[trigger] files[k]).reader.entries().contains(p),
    decreases files.len(),
{
    if files.len() > 0 {
        let front = files.drop_last();
        let a = all_entries(front);
        let b = files.last().reader.entries();
        lemma_all_entries(front, p);
        if (a + b).contains(p) {
            let x = choose|x: int| 0 <= x < (a + b).len() && (a + b)[x] == p;
            if x < a.len() {
                assert(a[x] == p);
                let k = choose|k: int|
                    0 <= k < front.len() && (#[trigger] front[k]).reader.entries().contains(p);
                assert(files[k] == front[k]);
            } else {
                assert(b[x - a.len()] == p);
                assert(files[files.len() - 1].reader.entries().contains(p));
            }
        }
        if exists|k: int|
            0 <= k < files.len() && (#[trigger] files[k]).reader.entries().contains(p) {
            let k = choose|k: int|
                0 <= k < files.len() && (#[trigger] files[k]).reader.entries().contains(p);
            if k < front.len() {
                assert(front[k].reader.entries().contains(p));
                let x = choose|x: int| 0 <= x < a.len() && a[x] == p;
                assert((a + b)[x] == p);
            } else {
                let x = choose|x: int| 0 <= x < b.len() && b[x] == p;
                assert((a + b)[a.len() + x] == p);
            }
        }
    }
}

pub proof fn lemma_all_tombstones(files: Seq<Arc<LiveSst>>, tv: TombstoneView)
    ensures
        all_tombstones(files).contains(tv) == exists|k: int, x: int|
            0 <= k < files.len() && 0 <= x < files[k].reader.tombstones().len() && (
            #[trigger] files[k].reader.tombstones()[x])@ == tv,
    decreases files.len(),
{
    if files.len() > 0 {
        let front = files.drop_last();
        let a = all_tombstones(front);
        let ts = files.last().reader.tombstones();
        let b = tombstone_views(ts);
        lemma_all_tombstones(front, tv);
        if (a + b).contains(tv) {
            let x = choose|x: int| 0 <= x < (a + b).len() && (a + b)[x] == tv;
            if x < a.len() {
                assert(a[x] == tv);
                let (k, y) = choose|k: int, y: int|
                    0 <= k < front.len() && 0 <= y < front[k].reader.tombstones().len() && (
                    #[trigger] front[k].reader.tombstones()[y])@ == tv;
                assert(files[k].reader.tombstones()[y]@ == tv);
            } else {
                assert(b[x - a.len()] == tv);
                assert(files[files.len() - 1].reader.tombstones()[x - a.len()]@ == tv);
            }
        }
        if exists|k: int, x: int|
            0 <= k < files.len() && 0 <= x < files[k].reader.tombstones().len() && (
            #[trigger] files[k].reader.tombstones()[x])@ == tv {
            let (k, x) = choose|k: int, x: int|
                0 <= k < files.len() && 0 <= x < files[k].reader.tombstones().len() && (
                #[trigger] files[k].reader.tombstones()[x])@ == tv;
            if k < front.len() {
                assert(front[k].reader.tombstones()[x]@ == tv);
                let y = choose|y: int| 0 <= y < a.len() && a[y] == tv;
                assert((a + b)[y] == tv);
            } else {
                assert(b[x] == tv);
                assert((a + b)[a.len() + x] == tv);
            }
        }
    }
}

// ── Reads across a compaction ────────────────────────────────────

/// `v1` is `v0` with the tables `files` replaced by the tables `outputs`.
pub open spec fn replaced(
    v0: ReadView,
    v1: ReadView,
    files: Seq<Arc<LiveSst>>,
    outputs: Seq<Arc<LiveSst>>,
) -> bool {
    &&& v1.active == v0.active
    &&& v1.frozen == v0.frozen
    &&& forall|k: int| 0 <= k < files.len() ==> has_table(v0.version, #[trigger] files[k])
    &&& forall|t: Arc<LiveSst>| #[trigger]
        has_table(v1.version, t) == ((has_table(v0.version, t) && !files.contains(t))
            || outputs.contains(t))
}

/// The tables hold these entries and tombstones, and no others. Each of them
/// has all tombstones.
pub open spec fn hold(
    tables: Seq<Arc<LiveSst>>,
    out: Seq<Pair>,
    out_rts: Seq<TombstoneView>,
) -> bool {
    &&& forall|p: Pair| #[trigger] all_entries(tables).contains(p) == out.contains(p)
    &&& forall|tv: TombstoneView| #[trigger]
        all_tombstones(tables).contains(tv) == out_rts.contains(tv)
    &&& forall|k: int, tv: TombstoneView|
        0 <= k < tables.len() && out_rts.contains(tv) ==> #[trigger] holds(
            tables[k].reader.tombstones(),
            tv,
        )
}

/// The compaction at hand.
pub struct Merged<'a, F: CompactionFilter, M: MergeOperator> {
    pub files: Seq<Arc<LiveSst>>,
    pub outputs: Seq<Arc<LiveSst>>,
    pub level: nat,
    pub pin_seq: u64,
    pub filter: Option<&'a F>,
    pub op: Option<&'a M>,
    pub out: Seq<Pair>,
    pub out_rts: Seq<TombstoneView>,
}

impl<'a, F: CompactionFilter, M: MergeOperator> Merged<'a, F, M> {
    /// The compaction made `out` and `out_rts` of the input tables, without
    /// filter and operator having a say, and the output tables hold that.
    /// Every sequence number was given to one write.
    pub open spec fn plain(self) -> bool {
        &&& may_compact(
            all_entries(self.files),
            all_tombstones(self.files),
            self.level,
            self.pin_seq,
            self.filter,
            self.op,
            self.out,
            self.out_rts,
        )
        &&& self.pin_seq == u64::MAX ==> self.filter is None && self.op is None
        &&& one_value(all_entries(self.files))
        &&& hold(self.outputs, self.out, self.out_rts)
    }

    /// A read at `snapshot_seq` is not older than the oldest snapshot that the
    /// compaction minded; where it minded none, the read sees everything.
    pub open spec fn minds(self, snapshot_seq: u64) -> bool {
        self.pin_seq <= snapshot_seq || self.all_seen(snapshot_seq)
    }

    /// A read at `snapshot_seq` sees all versions and range deletions of the
    /// inputs.
    pub open spec fn all_seen(self, snapshot_seq: u64) -> bool {
        &&& forall|i: int|
            0 <= i < all_tombstones(self.files).len() ==> (#[trigger] all_tombstones(
                self.files,
            )[i]).seq <= snapshot_seq
        &&& forall|i: int|
            0 <= i < all_entries(self.files).len() ==> seq_of(
                (#[trigger] all_entries(self.files)[i]).0,
            ) <= snapshot_seq
    }
}

/// What the compaction leaves out, a read at `snapshot_seq` can do without.
proof fn lemma_leaves_out<F: CompactionFilter, M: MergeOperator>(
    c: Merged<'_, F, M>,
    key: Seq<u8>,
    snapshot_seq: u64,
    p: Pair,
)
    requires
        c.plain(),
        c.minds(snapshot_seq),
    ensures
        c.out.contains(p) ==> all_entries(c.files).contains(p),
        forall|t: TombstoneView| #[trigger]
            c.out_rts.contains(t) == all_tombstones(c.files).contains(t),
        all_entries(c.files).contains(p) && visible(p, key, snapshot_seq) && !c.out.contains(p) ==> {
            ||| exists|t: TombstoneView| #[trigger]
                c.out_rts.contains(t) && t.covers(key) && t.seq <= snapshot_seq && t.seq > seq_of(
                    p.0,
                )
            ||| exists|j: Pair| #[trigger]
                c.out.contains(j) && visible(j, key, snapshot_seq) && type_of(j.0)
                    != VALUE_TYPE_MERGE && ik_lt(j.0, p.0)
        },
{
    let s = if c.pin_seq <= snapshot_seq {
        snapshot_seq
    } else {
        u64::MAX
    };
    let es = all_entries(c.files);
    let rts = all_tombstones(c.files);
    lemma_compaction_drops_unneeded(
        es,
        rts,
        c.level,
        c.pin_seq,
        c.filter,
        c.op,
        c.out,
        c.out_rts,
        key,
        s,
        p,
    );
    if es.contains(p) && visible(p, key, snapshot_seq) && !c.out.contains(p) {
        assert(visible(p, key, s));
        if exists|t: TombstoneView| #[trigger]
            c.out_rts.contains(t) && t.covers(key) && t.seq <= s && t.seq > seq_of(p.0) {
            let t = choose|t: TombstoneView| #[trigger]
                c.out_rts.contains(t) && t.covers(key) && t.seq <= s && t.seq > seq_of(p.0);
            assert(rts.contains(t));
            let i = choose|i: int| 0 <= i < rts.len() && rts[i] == t;
            assert(c.pin_seq > snapshot_seq ==> rts[i].seq <= snapshot_seq);
        } else {
            let j = choose|j: Pair| #[trigger]
                c.out.contains(j) && visible(j, key, s) && type_of(j.0) != VALUE_TYPE_MERGE && ik_lt(
                    j.0,
                    p.0,
                );
            lemma_compaction_drops_unneeded(
                es,
                rts,
                c.level,
                c.pin_seq,
                c.filter,
                c.op,
                c.out,
                c.out_rts,
                key,
                s,
                j,
            );
            let i = choose|i: int| 0 <= i < es.len() && es[i] == j;
            assert(c.pin_seq > snapshot_seq ==> seq_of(es[i].0) <= snapshot_seq);
            assert(visible(j, key, snapshot_seq));
        }
    }
}

/// A compaction adds no version, and carries all tombstones on.
pub proof fn lemma_adds_nothing<F: CompactionFilter, M: MergeOperator>(c: Merged<'_, F, M>, p: Pair)
    requires
        c.plain(),
    ensures
        c.out.contains(p) ==> all_entries(c.files).contains(p),
        forall|t: TombstoneView| #[trigger]
            c.out_rts.contains(t) == all_tombstones(c.files).contains(t),
{
    lemma_compaction_drops_unneeded(
        all_entries(c.files),
        all_tombstones(c.files),
        c.level,
        c.pin_seq,
        c.filter,
        c.op,
        c.out,
        c.out_rts,
        user_of(p.0),
        u64::MAX,
        p,
    );
}

/// What the output tables hold, the version holds after the compaction.
proof fn lemma_output_holds<F: CompactionFilter, M: MergeOperator>(
    c: Merged<'_, F, M>,
    v0: ReadView,
    v1: ReadView,
)
    requires
        c.plain(),
        replaced(v0, v1, c.files, c.outputs),
    ensures
        forall|p: Pair| #[trigger] c.out.contains(p) ==> in_tables(v1.version, p),
        forall|tv: TombstoneView| #[trigger]
            c.out_rts.contains(tv) ==> exists|rt: RangeTombstone| #[trigger]
                rt_in_tables(v1.version, rt) && rt@ == tv,
{
    assert forall|p: Pair| #[trigger] c.out.contains(p) implies in_tables(v1.version, p) by {
        assert(all_entries(c.outputs).contains(p));
        lemma_all_entries(c.outputs, p);
        let k = choose|k: int|
            0 <= k < c.outputs.len() && (#[trigger] c.outputs[k]).reader.entries().contains(p);
        assert(c.outputs.contains(c.outputs[k]));
        assert(has_table(v1.version, c.outputs[k]));
    }
    assert forall|tv: TombstoneView| #[trigger] c.out_rts.contains(tv) implies exists|
        rt: RangeTombstone,
    | #[trigger] rt_in_tables(v1.version, rt) && rt@ == tv by {
        assert(all_tombstones(c.outputs).contains(tv));
        lemma_all_tombstones(c.outputs, tv);
        let (k, x) = choose|k: int, x: int|
            0 <= k < c.outputs.len() && 0 <= x < c.outputs[k].reader.tombstones().len() && (
            #[trigger] c.outputs[k].reader.tombstones()[x])@ == tv;
        let rt = c.outputs[k].reader.tombstones()[x];
        assert(c.outputs.contains(c.outputs[k]));
        assert(has_table(v1.version, c.outputs[k]));
        assert(c.outputs[k].reader.tombstones().contains(rt));
        assert(rt_in_tables(v1.version, rt));
    }
}

proof fn lemma_compacted_deletes<F: CompactionFilter, M: MergeOperator>(
    c: Merged<'_, F, M>,
    v0: ReadView,
    v1: ReadView,
    key: Seq<u8>,
    snapshot_seq: u64,
    seq: u64,
)
    requires
        v0.wf(),
        v1.wf(),
        c.plain(),
        c.minds(snapshot_seq),
        replaced(v0, v1, c.files, c.outputs),
    ensures
        deletes_at(v0.layers(key), key, snapshot_seq, seq) == deletes_at(
            v1.layers(key),
            key,
            snapshot_seq,
            seq,
        ),
{
    let any: Pair = (Seq::empty(), Seq::empty());
    lemma_leaves_out(c, key, snapshot_seq, any);
    lemma_output_holds(c, v0, v1);
    if deletes_at(v0.layers(key), key, snapshot_seq, seq) {
        let (n, r, rt) = choose|n: int, r: int, rt: RangeTombstone| #[trigger]
            in_set(v0.layers(key), n, r, rt) && rt@.covers(key) && rt.seq <= snapshot_seq && rt.seq
                == seq;
        lemma_in_sets(v0, key, rt);
        if rt_in_memory(v0, rt) {
            lemma_in_sets(v1, key, rt);
            assert(rt_in_memory(v1, rt));
            let (a, b) = choose|a: int, b: int| #[trigger] in_set(v1.layers(key), a, b, rt);
            assert(in_set(v1.layers(key), a, b, rt));
        } else {
            let t = choose|t: Arc<LiveSst>| #[trigger]
                has_table(v0.version, t) && t.reader.tombstones().contains(rt);
            if c.files.contains(t) {
                let k = choose|k: int| 0 <= k < c.files.len() && c.files[k] == t;
                let x = choose|x: int|
                    0 <= x < t.reader.tombstones().len() && t.reader.tombstones()[x] == rt;
                assert(c.files[k].reader.tombstones()[x]@ == rt@);
                lemma_all_tombstones(c.files, rt@);
                assert(c.out_rts.contains(rt@));
                let u = choose|u: RangeTombstone| #[trigger]
                    rt_in_tables(v1.version, u) && u@ == rt@;
                lemma_in_sets(v1, key, u);
                let (a, b) = choose|a: int, b: int| #[trigger] in_set(v1.layers(key), a, b, u);
                assert(in_set(v1.layers(key), a, b, u));
                assert(u@.seq == rt@.seq);
            } else {
                assert(has_table(v1.version, t));
                assert(rt_in_tables(v1.version, rt));
                lemma_in_sets(v1, key, rt);
                let (a, b) = choose|a: int, b: int| #[trigger] in_set(v1.layers(key), a, b, rt);
                assert(in_set(v1.layers(key), a, b, rt));
            }
        }
    }
    if deletes_at(v1.layers(key), key, snapshot_seq, seq) {
        let (n, r, rt) = choose|n: int, r: int, rt: RangeTombstone| #[trigger]
            in_set(v1.layers(key), n, r, rt) && rt@.covers(key) && rt.seq <= snapshot_seq && rt.seq
                == seq;
        lemma_in_sets(v1, key, rt);
        if rt_in_memory(v1, rt) {
            lemma_in_sets(v0, key, rt);
            assert(rt_in_memory(v0, rt));
            let (a, b) = choose|a: int, b: int| #[trigger] in_set(v0.layers(key), a, b, rt);
            assert(in_set(v0.layers(key), a, b, rt));
        } else {
            let t = choose|t: Arc<LiveSst>| #[trigger]
                has_table(v1.version, t) && t.reader.tombstones().contains(rt);
            if c.outputs.contains(t) {
                let k = choose|k: int| 0 <= k < c.outputs.len() && c.outputs[k] == t;
                let x = choose|x: int|
                    0 <= x < t.reader.tombstones().len() && t.reader.tombstones()[x] == rt;
                assert(c.outputs[k].reader.tombstones()[x]@ == rt@);
                lemma_all_tombstones(c.outputs, rt@);
                assert(c.out_rts.contains(rt@));
                lemma_all_tombstones(c.files, rt@);
                let (a, b) = choose|a: int, b: int|
                    0 <= a < c.files.len() && 0 <= b < c.files[a].reader.tombstones().len() && (
                    #[trigger] c.files[a].reader.tombstones()[b])@ == rt@;
                let u = c.files[a].reader.tombstones()[b];
                assert(has_table(v0.version, c.files[a]));
                assert(c.files[a].reader.tombstones().contains(u));
                assert(rt_in_tables(v0.version, u));
                lemma_in_sets(v0, key, u);
                let (d, e) = choose|d: int, e: int| #[trigger] in_set(v0.layers(key), d, e, u);
                assert(in_set(v0.layers(key), d, e, u));
                assert(u@.seq == rt@.seq);
            } else {
                assert(has_table(v0.version, t));
                assert(rt_in_tables(v0.version, rt));
                lemma_in_sets(v0, key, rt);
                let (a, b) = choose|a: int, b: int| #[trigger] in_set(v0.layers(key), a, b, rt);
                assert(in_set(v0.layers(key), a, b, rt));
            }
        }
    }
}

/// A compaction never hides a key, and never brings one back: a lookup at a
/// snapshot that the compaction minds says after it what it said before, for
/// views whose layers are in the order of their age. With a merge operator, the
/// base value and the operands are the same.
pub proof fn lemma_compaction_keeps_reads<F: CompactionFilter, M: MergeOperator>(
    c: Merged<'_, F, M>,
    v0: ReadView,
    v1: ReadView,
    key: Seq<u8>,
    snapshot_seq: u64,
)
    requires
        v0.wf(),
        v1.wf(),
        aged(v0.layers(key), key),
        aged(v1.layers(key), key),
        forall|p: Pair| #[trigger] in_layers(v0.layers(key), p) ==> seq_of(p.0) > 0,
        c.plain(),
        c.minds(snapshot_seq),
        replaced(v0, v1, c.files, c.outputs),
    ensures
        walk(v1.layers(key), key, snapshot_seq, 0) == walk(v0.layers(key), key, snapshot_seq, 0),
        outcome_of(walk_chain(v1.layers(key), key, snapshot_seq, 0)) == outcome_of(
            walk_chain(v0.layers(key), key, snapshot_seq, 0),
        ),
{
    let before = v0.layers(key);
    let after = v1.layers(key);
    lemma_output_holds(c, v0, v1);
    assert forall|p: Pair| #[trigger]
        in_layers(after, p) && visible(p, key, snapshot_seq) implies in_layers(before, p) by {
        lemma_in_layers(v1, key, p);
        lemma_in_layers(v0, key, p);
        if !in_memory(v0, p) {
            assert(!in_memory(v1, p));
            let t = choose|t: Arc<LiveSst>| #[trigger]
                has_table(v1.version, t) && t.reader.entries().contains(p);
            if c.outputs.contains(t) {
                let k = choose|k: int| 0 <= k < c.outputs.len() && c.outputs[k] == t;
                assert(c.outputs[k].reader.entries().contains(p));
                lemma_all_entries(c.outputs, p);
                assert(c.out.contains(p));
                lemma_leaves_out(c, key, snapshot_seq, p);
                lemma_all_entries(c.files, p);
                let a = choose|a: int|
                    0 <= a < c.files.len() && (#[trigger] c.files[a]).reader.entries().contains(p);
                assert(has_table(v0.version, c.files[a]));
            } else {
                assert(has_table(v0.version, t));
            }
            assert(in_tables(v0.version, p));
        }
    }
    assert forall|seq: u64| #[trigger]
        deletes_at(before, key, snapshot_seq, seq) == deletes_at(
            after,
            key,
            snapshot_seq,
            seq,
        ) by {
        lemma_compacted_deletes(c, v0, v1, key, snapshot_seq, seq);
    }
    assert forall|q: Pair| #[trigger]
        in_layers(before, q) && visible(q, key, snapshot_seq) && !in_layers(after, q) implies {
        ||| exists|seq: u64| #[trigger]
            deletes_at(after, key, snapshot_seq, seq) && seq > seq_of(q.0)
        ||| exists|j: Pair| #[trigger]
            in_layers(after, j) && visible(j, key, snapshot_seq) && type_of(j.0) != VALUE_TYPE_MERGE
                && ik_lt(j.0, q.0)
    } by {
        lemma_in_layers(v0, key, q);
        lemma_in_layers(v1, key, q);
        assert(!in_memory(v0, q)) by {
            if in_memory(v0, q) {
                assert(in_memory(v1, q));
            }
        }
        let t = choose|t: Arc<LiveSst>| #[trigger]
            has_table(v0.version, t) && t.reader.entries().contains(q);
        assert(c.files.contains(t)) by {
            if !c.files.contains(t) {
                assert(has_table(v1.version, t));
                assert(in_tables(v1.version, q));
            }
        }
        let k = choose|k: int| 0 <= k < c.files.len() && c.files[k] == t;
        assert(c.files[k].reader.entries().contains(q));
        lemma_all_entries(c.files, q);
        assert(!c.out.contains(q));
        lemma_leaves_out(c, key, snapshot_seq, q);
        if exists|tv: TombstoneView| #[trigger]
            c.out_rts.contains(tv) && tv.covers(key) && tv.seq <= snapshot_seq && tv.seq > seq_of(
                q.0,
            ) {
            let tv = choose|tv: TombstoneView| #[trigger]
                c.out_rts.contains(tv) && tv.covers(key) && tv.seq <= snapshot_seq && tv.seq
                    > seq_of(q.0);
            let rt = choose|rt: RangeTombstone| #[trigger]
                rt_in_tables(v1.version, rt) && rt@ == tv;
            lemma_in_sets(v1, key, rt);
            let (a, b) = choose|a: int, b: int| #[trigger] in_set(after, a, b, rt);
            assert(in_set(after, a, b, rt) && rt@.covers(key) && rt.seq <= snapshot_seq);
            assert(deletes_at(after, key, snapshot_seq, rt.seq));
        } else {
            let j = choose|j: Pair| #[trigger]
                c.out.contains(j) && visible(j, key, snapshot_seq) && type_of(j.0)
                    != VALUE_TYPE_MERGE && ik_lt(j.0, q.0);
            lemma_in_layers(v1, key, j);
            assert(in_tables(v1.version, j));
            assert(in_layers(after, j));
        }
    }
    assert(reads_alike(before, after, key, snapshot_seq));
    lemma_rewriting_keeps_lookups(before, after, key, snapshot_seq);
    lemma_rewriting_keeps_chains(before, after, key, snapshot_seq);
}

} // verus!
