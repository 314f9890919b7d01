//! A copy of the tables of a database, opened as a database of its own, reads
//! as its source did.

use super::compaction_laws::table_at;
use super::engine_laws::flushed;
use super::engine_laws::lemma_dropping_empty_keeps_reads;
use super::engine_laws::lemma_flush_keeps_reads;
use super::engine_laws::lemma_sealing_keeps_reads;
use super::engine_laws::lemma_tables_hold_everything;
use super::lark_engine::holds_data;
use super::lookup::walk;
use super::lookup::walk_chain;
use super::manifest::table_metas;
use super::manifest::Version;
use super::read_view::lemma_layer_at;
use super::read_view::ReadView;
use super::sstable::LiveSst;
use std::sync::Arc;
use vstd::prelude::*;

verus! {

/// A table's id names one table, in the source and in the copy: the files
/// keep their names.
pub open spec fn same_files(a: Version, b: Version) -> bool {
    forall|l: int, i: int, s: Arc<LiveSst>, t: Arc<LiveSst>|
        #![trigger table_at(a, l, i, s), table_at(b, l, i, t)]
        table_at(a, l, i, s) && table_at(b, l, i, t) && s.meta@.file_id == t.meta@.file_id ==> s
            == t
}

/// All data of the view is in tables.
pub open spec fn in_tables_alone(v: ReadView) -> bool {
    &&& !holds_data(v.active)
    &&& forall|i: int| 0 <= i < v.frozen@.len() ==> !holds_data(#[trigger] v.frozen@[i])
}

/// Two views read the same of a key at a snapshot, with and without a merge
/// operator.
pub open spec fn read_the_same(v0: ReadView, v1: ReadView, key: Seq<u8>, snapshot_seq: u64) -> bool {
    &&& walk(v1.layers(key), key, snapshot_seq, 0) == walk(v0.layers(key), key, snapshot_seq, 0)
    &&& walk_chain(v1.layers(key), key, snapshot_seq, 0) == walk_chain(
        v0.layers(key),
        key,
        snapshot_seq,
        0,
    )
}

// ── Draining the memtables ───────────────────────────────────────

/// `v1` is `v0` with other numbers in its version: a file id or a log number
/// was given out.
pub open spec fn renumbered(v0: ReadView, v1: ReadView) -> bool {
    &&& v1.active == v0.active
    &&& v1.frozen == v0.frozen
    &&& v1.version@.levels == v0.version@.levels
}

/// `v1` is `v0` with its memtable sealed.
pub open spec fn sealed(v0: ReadView, v1: ReadView) -> bool {
    &&& v1.version == v0.version
    &&& v1.frozen@ == v0.frozen@.push(v0.active)
    &&& !holds_data(v1.active)
}

/// `v1` is `v0` without its oldest sealed memtable, which was empty.
pub open spec fn dropped_empty(v0: ReadView, v1: ReadView) -> bool {
    &&& v0.frozen@.len() > 0
    &&& !holds_data(v0.frozen@[0])
    &&& v1.active == v0.active
    &&& v1.version == v0.version
    &&& v1.frozen@ == v0.frozen@.remove(0)
}

/// `v1` is `v0` after a flush of its oldest sealed memtable.
pub open spec fn flushed_one(v0: ReadView, v1: ReadView) -> bool {
    exists|t: LiveSst| #[trigger] flushed(v0, v1, t)
}

/// One step of bringing all data into tables.
pub open spec fn drain_step(v0: ReadView, v1: ReadView) -> bool {
    renumbered(v0, v1) || sealed(v0, v1) || dropped_empty(v0, v1) || flushed_one(v0, v1)
}

/// View `i` and the next are a step apart.
pub open spec fn drains_at(vs: Seq<ReadView>, i: int) -> bool {
    vs[i + 1].wf() && drain_step(vs[i], vs[i + 1])
}

/// The views that a database goes through until all its data is in tables.
pub open spec fn is_drain(vs: Seq<ReadView>) -> bool {
    &&& vs.len() > 0
    &&& vs[0].wf()
    &&& forall|i: int| 0 <= i < vs.len() - 1 ==> #[trigger] drains_at(vs, i)
    &&& in_tables_alone(vs.last())
}

/// Numbers in the version have no part in a read.
proof fn lemma_renumbering_keeps_reads(
    v0: ReadView,
    v1: ReadView,
    key: Seq<u8>,
    snapshot_seq: u64,
)
    requires
        v0.wf(),
        v1.wf(),
        renumbered(v0, v1),
    ensures
        read_the_same(v0, v1, key, snapshot_seq),
{
    let (a, b) = (v0.version, v1.version);
    assert(a@.levels.len() == a.levels@.len() && b@.levels.len() == b.levels@.len());
    assert(a@.levels[0] == a.levels@[0]@ && b@.levels[0] == b.levels@[0]@);
    assert forall|n: int| 0 <= n < v0.layers(key).len() implies v1.layers(key)[n] == v0.layers(
        key,
    )[n] by {
        lemma_layer_at(v0, key, n);
        lemma_layer_at(v1, key, n);
        let l = n - v0.frozen@.len() - a.levels@[0]@.len();
        if 0 <= l < a.levels@.len() {
            assert(a@.levels[l] == a.levels@[l]@ && b@.levels[l] == b.levels@[l]@);
        }
    }
    assert(v1.layers(key) =~= v0.layers(key));
}

/// Bringing the data into tables changes no read on the way.
pub proof fn lemma_draining_changes_no_read(
    vs: Seq<ReadView>,
    n: int,
    key: Seq<u8>,
    snapshot_seq: u64,
)
    requires
        is_drain(vs),
        0 <= n < vs.len(),
    ensures
        vs[n].wf(),
        read_the_same(vs[0], vs[n], key, snapshot_seq),
    decreases n,
{
    if n > 0 {
        lemma_draining_changes_no_read(vs, n - 1, key, snapshot_seq);
        assert(drains_at(vs, n - 1));
        let (v0, v1) = (vs[n - 1], vs[n]);
        if renumbered(v0, v1) {
            lemma_renumbering_keeps_reads(v0, v1, key, snapshot_seq);
        } else if sealed(v0, v1) {
            lemma_sealing_keeps_reads(v0, v1, key, snapshot_seq);
        } else if dropped_empty(v0, v1) {
            lemma_dropping_empty_keeps_reads(v0, v1, key, snapshot_seq);
        } else {
            let t = choose|t: LiveSst| #[trigger] flushed(v0, v1, t);
            lemma_flush_keeps_reads(v0, v1, t, key, snapshot_seq);
        }
    }
}

// ── Copies ───────────────────────────────────────────────────────

/// A copy of the tables of a database whose data is all in tables, opened with
/// no logs under a manifest that says the same of the levels, reads as the
/// source did, at every snapshot, with and without a merge operator.
pub proof fn lemma_copy_reads_as_its_source(
    v0: ReadView,
    v1: ReadView,
    key: Seq<u8>,
    snapshot_seq: u64,
)
    requires
        v0.wf(),
        v1.wf(),
        in_tables_alone(v0),
        v1.version@.state().levels == v0.version@.state().levels,
        same_files(v0.version, v1.version),
        !holds_data(v1.active),
        v1.frozen@.len() == 0,
    ensures
        read_the_same(v0, v1, key, snapshot_seq),
{
    let (a, b) = (v0.version, v1.version);
    let st = a@.state();
    assert(st.levels.len() == a.levels@.len());
    assert(b@.state().levels.len() == b.levels@.len());
    assert forall|l: int| 0 <= l < a@.levels.len() implies #[trigger] b@.levels[l]
        == a@.levels[l] by {
        let x = a.levels@[l]@;
        let y = b.levels@[l]@;
        assert(st.levels[l] == table_metas(x));
        assert(b@.state().levels[l] == table_metas(y));
        assert(table_metas(x).len() == x.len() && table_metas(y).len() == y.len());
        assert forall|i: int| 0 <= i < x.len() implies y[i] == x[i] by {
            assert(table_at(a, l, i, x[i]));
            assert(table_at(b, l, i, y[i]));
            assert(table_metas(x)[i] == x[i].meta@);
            assert(table_metas(y)[i] == y[i].meta@);
        }
        assert(y =~= x);
    }
    assert(b@.levels =~= a@.levels);
    lemma_tables_hold_everything(v0, v1, key, snapshot_seq);
}

} // verus!
