//! What the engine's steps do to reads.

use super::batch::wrote_all;
use super::batch::OpView;
use super::block_entry::Pair;
use super::internal_key::seq_of;
use super::internal_key::user_of;
use super::internal_key::VALUE_TYPE_MERGE;
use super::lark_engine::table_of;
use super::lark_engine::view_bounded;
use super::lark_engine::written_after;
use super::lookup::aged;
use super::lookup::cover;
use super::lookup::found_first;
use super::lookup::in_layers;
use super::lookup::lemma_first_seq_is_latest;
use super::lookup::max_seq;
use super::lookup::settled;
use super::lookup::taken;
use super::lookup::taken_runs;
use super::lookup::walk;
use super::lookup::walk_chain;
use super::lookup::Layer;
use super::mvcc::lemma_batch_leaves_other_keys;
use super::mvcc::bounded;
use super::mvcc::lemma_batch_last_write_wins;
use super::mvcc::lemma_batch_unseen;
use super::mvcc::lemma_same_layers;
use super::mvcc::lemma_same_single;
use super::mvcc::same_reads;
use super::mvcc::touches;
use super::range_tombstone::lemma_max_covering_same;
use super::range_tombstone::max_covering;
use super::read_view::covering_runs;
use super::read_view::lemma_layer_at;
use super::read_view::lemma_single;
use super::read_view::memtable_layer;
use super::read_view::table_layer;
use super::read_view::ReadView;
use super::sstable::LiveSst;
use super::versions::chain;
use super::versions::found;
use super::versions::lemma_chain_head;
use super::versions::lemma_newest;
use super::versions::newest;
use super::versions::Link;
use crate::bytes::lex_lt;
use std::sync::Arc;
use vstd::prelude::*;

verus! {

// ── Snapshots ────────────────────────────────────────────────────

/// The views differ in the active memtable alone.
pub open spec fn same_but_active(v0: ReadView, v1: ReadView) -> bool {
    v1.frozen == v0.frozen && v1.version == v0.version
}

/// A batch changes nothing for a snapshot that was taken before it: every
/// lookup at an older sequence number says what it said, with and without a
/// merge operator.
pub proof fn lemma_snapshot_is_stable(
    v0: ReadView,
    v1: ReadView,
    ops: Seq<OpView>,
    base: u64,
    key: Seq<u8>,
    snapshot_seq: u64,
)
    requires
        v0.wf(),
        v1.wf(),
        same_but_active(v0, v1),
        wrote_all(v0.active, v1.active, ops, base),
        base + ops.len() <= u64::MAX + 1,
        snapshot_seq < base,
    ensures
        walk(v1.layers(key), key, snapshot_seq, 0) == walk(v0.layers(key), key, snapshot_seq, 0),
        walk_chain(v1.layers(key), key, snapshot_seq, 0) == walk_chain(
            v0.layers(key),
            key,
            snapshot_seq,
            0,
        ),
{
    let a = v0.layers(key);
    let b = v1.layers(key);
    lemma_batch_unseen(v0.active, v1.active, ops, base, key, snapshot_seq);
    assert forall|i: int| 0 <= i < a.len() implies same_reads(
        #[trigger] a[i],
        b[i],
        key,
        snapshot_seq,
    ) by {
        lemma_layer_at(v0, key, i);
        lemma_layer_at(v1, key, i);
    }
    lemma_layer_at(v0, key, 0);
    lemma_layer_at(v1, key, 0);
    lemma_same_layers(a, b, key, snapshot_seq, 0);
}

// ── Reading back ─────────────────────────────────────────────────

/// Every version that a lookup could find in these layers is at most as new as
/// `seq`.
pub open spec fn layers_bounded(layers: Seq<Layer>, key: Seq<u8>, snapshot_seq: u64, seq: u64) -> bool {
    forall|i: int|
        0 <= i < layers.len() ==> (found_first((#[trigger] layers[i]).runs, key, snapshot_seq)
            matches Some(f) ==> f.0 <= seq)
}

/// Where tombstones hide every version, a lookup finds nothing.
proof fn lemma_all_hidden(layers: Seq<Layer>, key: Seq<u8>, snapshot_seq: u64, max_rt: u64)
    requires
        layers_bounded(layers, key, snapshot_seq, max_rt),
    ensures
        walk(layers, key, snapshot_seq, max_rt) is None,
    decreases layers.len(),
{
    if layers.len() > 0 {
        let m = max_seq(max_rt, cover(layers[0].rts, key, snapshot_seq));
        let rest = layers.skip(1);
        match found_first(layers[0].runs, key, snapshot_seq) {
            Some(f) => {
                assert(f.0 <= max_rt <= m);
            },
            None => {
                assert forall|i: int| 0 <= i < rest.len() implies (found_first(
                    (#[trigger] rest[i]).runs,
                    key,
                    snapshot_seq,
                ) matches Some(f) ==> f.0 <= m) by {
                    assert(rest[i] == layers[i + 1]);
                    assert(found_first(layers[i + 1].runs, key, snapshot_seq) matches Some(f)
                        ==> f.0 <= max_rt);
                }
                lemma_all_hidden(rest, key, snapshot_seq, m);
            },
        }
    }
}

proof fn lemma_found_bounded(es: Seq<Pair>, key: Seq<u8>, snapshot_seq: u64, seq: u64)
    requires
        super::block::sorted_entries(es),
        forall|i: int| 0 <= i < es.len() ==> seq_of((#[trigger] es[i]).0) <= seq,
    ensures
        found(es, key, snapshot_seq) matches Some(f) ==> f.0 <= seq,
{
    lemma_newest(es, key, snapshot_seq);
    if let Some(p) = newest(es, key, snapshot_seq) {
        let i = choose|i: int| 0 <= i < es.len() && es[i] == p;
        assert(seq_of(es[i].0) <= seq);
    }
}

proof fn lemma_runs_bounded(
    files: Seq<Arc<LiveSst>>,
    key: Seq<u8>,
    snapshot_seq: u64,
    seq: u64,
)
    requires
        super::read_view::files_wf(files),
        forall|i: int|
            0 <= i < files.len() ==> super::lark_engine::table_bounded(*(#[trigger] files[i]), seq),
    ensures
        found_first(covering_runs(files, key), key, snapshot_seq) matches Some(f) ==> f.0 <= seq,
    decreases files.len(),
{
    if files.len() > 0 {
        let rest = files.skip(1);
        assert forall|i: int| 0 <= i < rest.len() implies (#[trigger] rest[i]).wf() by {
            assert(rest[i] == files[i + 1]);
        }
        assert forall|i: int| 0 <= i < rest.len() implies super::lark_engine::table_bounded(
            *(#[trigger] rest[i]),
            seq,
        ) by {
            assert(rest[i] == files[i + 1]);
        }
        lemma_runs_bounded(rest, key, snapshot_seq, seq);
        let runs = covering_runs(files, key);
        if files[0].meta.num_entries != 0 && files[0].covers(key) {
            assert(files[0].wf());
            assert(super::lark_engine::table_bounded(*files[0], seq));
            files[0].reader.lemma_sorted();
            lemma_found_bounded(files[0].reader.entries(), key, snapshot_seq, seq);
            assert(runs[0] == files[0].reader.entries());
            assert(runs.skip(1) =~= covering_runs(rest, key));
        }
    }
}

/// In a view whose sequence numbers are bounded, so is what a lookup can find.
proof fn lemma_view_layers_bounded(v: ReadView, key: Seq<u8>, snapshot_seq: u64, seq: u64)
    requires
        v.wf(),
        view_bounded(v, seq),
    ensures
        layers_bounded(v.layers(key), key, snapshot_seq, seq),
{
    let layers = v.layers(key);
    let f = v.frozen@.len() as int;
    let l0 = v.version.levels@[0]@;
    assert forall|n: int| 0 <= n < layers.len() implies (found_first(
        (#[trigger] layers[n]).runs,
        key,
        snapshot_seq,
    ) matches Some(g) ==> g.0 <= seq) by {
        lemma_layer_at(v, key, n);
        if n == 0 {
            v.active.lemma_sorted();
            lemma_found_bounded(v.active.entries(), key, snapshot_seq, seq);
            lemma_single(v.active.tombstones(), v.active.entries(), key, snapshot_seq);
        } else if n < 1 + f {
            let m = v.frozen@[f - n];
            assert(m.wf());
            assert(bounded(m, seq));
            m.lemma_sorted();
            lemma_found_bounded(m.entries(), key, snapshot_seq, seq);
            lemma_single(m.tombstones(), m.entries(), key, snapshot_seq);
        } else if n < 1 + f + l0.len() {
            let t = l0[f + l0.len() - n];
            assert(super::read_view::files_wf(v.version.levels@[0]@));
            assert(super::lark_engine::table_bounded(*v.version.levels@[0]@[f + l0.len() - n], seq));
            t.reader.lemma_sorted();
            lemma_found_bounded(t.reader.entries(), key, snapshot_seq, seq);
            lemma_single(t.reader.tombstones(), t.reader.entries(), key, snapshot_seq);
        } else {
            let l = n - f - l0.len();
            let files = v.version.levels@[l]@;
            assert(super::read_view::files_wf(v.version.levels@[l]@));
            assert forall|i: int| 0 <= i < files.len() implies super::lark_engine::table_bounded(
                *(#[trigger] files[i]),
                seq,
            ) by {
                assert(super::lark_engine::table_bounded(*v.version.levels@[l]@[i], seq));
            }
            lemma_runs_bounded(files, key, snapshot_seq, seq);
        }
    }
}

/// A read gives back what was written last. After a batch, a lookup at a
/// snapshot that has the whole batch finds, of a key that the batch writes, the
/// last write to it: the value of a put, and nothing after a deletion or a
/// deletion of a range around the key. Behind a merge operand stands the chain.
pub proof fn lemma_reads_last_write(
    v0: ReadView,
    v1: ReadView,
    ops: Seq<OpView>,
    base: u64,
    latest: u64,
    i: int,
    key: Seq<u8>,
    snapshot_seq: u64,
)
    requires
        v0.wf(),
        v1.wf(),
        same_but_active(v0, v1),
        wrote_all(v0.active, v1.active, ops, base),
        base + ops.len() <= u64::MAX + 1,
        view_bounded(v0, latest),
        latest < base,
        0 <= i < ops.len(),
        touches(ops[i], key),
        forall|j: int| i < j < ops.len() ==> !touches(#[trigger] ops[j], key),
        base + ops.len() - 1 <= snapshot_seq,
    ensures
        match ops[i] {
            OpView::Put { key: k, value } => walk(v1.layers(key), key, snapshot_seq, 0) == Some(
                value,
            ) && walk_chain(v1.layers(key), key, snapshot_seq, 0) == seq![
                ((base + i) as u64, super::internal_key::VALUE_TYPE_VALUE, value),
            ],
            OpView::Delete { key: k } => walk(v1.layers(key), key, snapshot_seq, 0) is None,
            OpView::DeleteRange { start, end } => walk(
                v1.layers(key),
                key,
                snapshot_seq,
                0,
            ) is None,
            OpView::Merge { key: k, operand } => walk_chain(
                v1.layers(key),
                key,
                snapshot_seq,
                0,
            ).len() > 0 && walk_chain(v1.layers(key), key, snapshot_seq, 0)[0] == (
                (base + i) as u64,
                VALUE_TYPE_MERGE,
                operand,
            ),
        },
{
    let layers = v1.layers(key);
    let m1 = v1.active;
    let seq = (base + i) as u64;
    lemma_batch_last_write_wins(v0.active, m1, ops, base, latest, i, key, snapshot_seq);
    lemma_layer_at(v1, key, 0);
    lemma_single(m1.tombstones(), m1.entries(), key, snapshot_seq);
    let c = chain(m1.entries(), key, snapshot_seq);
    let rt = max_covering(m1.tombstones(), key, snapshot_seq);
    lemma_chain_head(m1.entries(), key, snapshot_seq);
    let m = max_seq(0, cover(layers[0].rts, key, snapshot_seq));
    assert(m == rt);
    assert(layers[0] == memtable_layer(m1));
    assert(found_first(layers[0].runs, key, snapshot_seq) == found(m1.entries(), key, snapshot_seq));
    assert(taken_runs(layers[0].runs, key, snapshot_seq, m) == taken(c, m));
    match ops[i] {
        OpView::Put { key: k, value } => {
            assert(c[0] == (seq, super::internal_key::VALUE_TYPE_VALUE, value));
            assert(taken(c, m) =~= c);
            assert(settled(c));
        },
        OpView::Delete { key: k } => {},
        OpView::Merge { key: k, operand } => {
            let t = taken(c, m);
            assert(t =~= seq![c[0]] + taken(c.skip(1), m));
            assert(t[0] == c[0]);
            let w = walk_chain(layers, key, snapshot_seq, 0);
            if !settled(t) {
                assert(w[0] == t[0]);
            }
        },
        OpView::DeleteRange { start, end } => {
            // The tombstone is newer than everything.
            lemma_view_layers_bounded(v0, key, snapshot_seq, latest);
            let rest = layers.skip(1);
            match newest(m1.entries(), key, snapshot_seq) {
                Some(p) => {
                    assert(c[0].0 < seq);
                },
                None => {
                    assert forall|n: int| 0 <= n < rest.len() implies (found_first(
                        (#[trigger] rest[n]).runs,
                        key,
                        snapshot_seq,
                    ) matches Some(f) ==> f.0 <= m) by {
                        lemma_layer_at(v0, key, n + 1);
                        lemma_layer_at(v1, key, n + 1);
                        assert(rest[n] == v0.layers(key)[n + 1]);
                        assert(found_first(v0.layers(key)[n + 1].runs, key, snapshot_seq)
                            matches Some(f) ==> f.0 <= latest);
                    }
                    lemma_all_hidden(rest, key, snapshot_seq, m);
                },
            }
        },
    }
}

/// A transaction whose keys were not written since its snapshot read, and
/// whose commit overwrites, nothing that another writer has changed: no
/// version of its keys is newer than its snapshot.
pub proof fn lemma_clear_commit_loses_no_update(
    v: ReadView,
    key: Seq<u8>,
    snapshot_seq: u64,
    p: Pair,
)
    requires
        aged(v.layers(key), key),
        !written_after(v, key, snapshot_seq),
        in_layers(v.layers(key), p),
        user_of(p.0) == key,
    ensures
        seq_of(p.0) <= snapshot_seq,
{
    lemma_first_seq_is_latest(v.layers(key), key, p);
}

// ── Sealing and flushing ─────────────────────────────────────────

/// A layer that holds nothing.
pub open spec fn is_vacant(l: Layer) -> bool {
    &&& l.rts.len() == 1 && l.rts[0].len() == 0
    &&& l.runs.len() == 1 && l.runs[0].len() == 0
}

proof fn lemma_vacant(l: Layer, key: Seq<u8>, snapshot_seq: u64)
    requires
        is_vacant(l),
    ensures
        cover(l.rts, key, snapshot_seq) == 0,
        found_first(l.runs, key, snapshot_seq) is None,
        forall|m: u64| #[trigger]
            taken_runs(l.runs, key, snapshot_seq, m) == Seq::<Link>::empty(),
{
    assert(l.rts =~= seq![l.rts[0]]);
    assert(l.runs =~= seq![l.runs[0]]);
    lemma_single(l.rts[0], l.runs[0], key, snapshot_seq);
    assert(chain(l.runs[0], key, snapshot_seq) =~= Seq::<Link>::empty());
    assert forall|m: u64| #[trigger]
        taken_runs(l.runs, key, snapshot_seq, m) == Seq::<Link>::empty() by {
        assert(taken(Seq::<Link>::empty(), m) =~= Seq::<Link>::empty());
    }
}

/// A lookup goes past a layer that holds nothing.
proof fn lemma_past_vacant(
    layers: Seq<Layer>,
    n: int,
    key: Seq<u8>,
    snapshot_seq: u64,
    max_rt: u64,
)
    requires
        0 <= n < layers.len(),
        is_vacant(layers[n]),
    ensures
        walk(layers, key, snapshot_seq, max_rt) == walk(
            layers.remove(n),
            key,
            snapshot_seq,
            max_rt,
        ),
        walk_chain(layers, key, snapshot_seq, max_rt) == walk_chain(
            layers.remove(n),
            key,
            snapshot_seq,
            max_rt,
        ),
    decreases n,
{
    let less = layers.remove(n);
    if n == 0 {
        lemma_vacant(layers[0], key, snapshot_seq);
        assert(layers.skip(1) =~= less);
        let m = max_seq(max_rt, cover(layers[0].rts, key, snapshot_seq));
        assert(m == max_rt);
        assert(taken_runs(layers[0].runs, key, snapshot_seq, m) =~= Seq::<Link>::empty());
        let w = walk_chain(less, key, snapshot_seq, max_rt);
        assert(Seq::<Link>::empty() + w =~= w);
    } else {
        let rest = layers.skip(1);
        assert(rest[n - 1] == layers[n]);
        assert(less[0] == layers[0]);
        assert(less.skip(1) =~= rest.remove(n - 1));
        let m = max_seq(max_rt, cover(layers[0].rts, key, snapshot_seq));
        lemma_past_vacant(rest, n - 1, key, snapshot_seq, m);
    }
}

/// Sealing the memtable changes no read.
pub proof fn lemma_sealing_keeps_reads(v0: ReadView, v1: ReadView, key: Seq<u8>, snapshot_seq: u64)
    requires
        v0.wf(),
        v1.wf(),
        v1.version == v0.version,
        v1.frozen@ == v0.frozen@.push(v0.active),
        v1.active.entries().len() == 0,
        v1.active.tombstones().len() == 0,
    ensures
        walk(v1.layers(key), key, snapshot_seq, 0) == walk(v0.layers(key), key, snapshot_seq, 0),
        walk_chain(v1.layers(key), key, snapshot_seq, 0) == walk_chain(
            v0.layers(key),
            key,
            snapshot_seq,
            0,
        ),
{
    let a = v0.layers(key);
    let b = v1.layers(key);
    lemma_layer_at(v1, key, 0);
    lemma_layer_at(v0, key, 0);
    assert forall|i: int| 0 <= i < a.len() implies a[i] == b.remove(0)[i] by {
        lemma_layer_at(v0, key, i);
        lemma_layer_at(v1, key, i + 1);
    }
    assert(b.remove(0) =~= a);
    lemma_past_vacant(b, 0, key, snapshot_seq, 0);
}

/// `v1` is `v0` after a flush: the table took the place of the oldest sealed
/// memtable.
pub open spec fn flushed(v0: ReadView, v1: ReadView, t: LiveSst) -> bool {
    &&& v0.frozen@.len() > 0
    &&& table_of(t, v0.frozen@[0])
    &&& v1.active == v0.active
    &&& v1.frozen@ == v0.frozen@.remove(0)
    &&& v1.version@.levels == v0.version@.levels.update(
        0,
        v0.version@.levels[0].push(Arc::new(t)),
    )
}

/// A flush never hides a key: every lookup finds in the table what it found in
/// the memtable.
pub proof fn lemma_flush_keeps_reads(
    v0: ReadView,
    v1: ReadView,
    t: LiveSst,
    key: Seq<u8>,
    snapshot_seq: u64,
)
    requires
        v0.wf(),
        v1.wf(),
        flushed(v0, v1, t),
    ensures
        walk(v1.layers(key), key, snapshot_seq, 0) == walk(v0.layers(key), key, snapshot_seq, 0),
        walk_chain(v1.layers(key), key, snapshot_seq, 0) == walk_chain(
            v0.layers(key),
            key,
            snapshot_seq,
            0,
        ),
{
    let a = v0.layers(key);
    let b = v1.layers(key);
    let f = v0.frozen@.len() as int;
    let l0 = v0.version.levels@[0]@;
    let l1 = v1.version.levels@[0]@;
    assert(v1.version@.levels[0] == l1);
    assert(v0.version@.levels[0] == l0);
    assert(l1 == l0.push(Arc::new(t)));
    lemma_layer_at(v0, key, 0);
    lemma_layer_at(v1, key, 0);
    let m = v0.frozen@[0];
    lemma_max_covering_same(t.reader.tombstones(), m.tombstones(), key, snapshot_seq);
    lemma_same_single(
        m.tombstones(),
        m.entries(),
        t.reader.tombstones(),
        t.reader.entries(),
        key,
        snapshot_seq,
    );
    assert forall|n: int| 0 <= n < a.len() implies same_reads(
        #[trigger] a[n],
        b[n],
        key,
        snapshot_seq,
    ) by {
        lemma_layer_at(v0, key, n);
        lemma_layer_at(v1, key, n);
        if n == 0 {
        } else if n < f {
            assert(v1.frozen@[f - 1 - n] == v0.frozen@[f - n]);
        } else if n == f {
            assert(a[n] == memtable_layer(m));
            assert(b[n] == table_layer(Arc::new(t)));
        } else if n < 1 + f + l0.len() {
            assert(l1[f - 1 + l1.len() - n] == l0[f + l0.len() - n]);
        } else {
            let l = n - f - l0.len();
            assert(v1.version@.levels[l] == v0.version@.levels[l]);
            assert(v1.version.levels@[l]@ == v0.version.levels@[l]@);
        }
    }
    lemma_same_layers(a, b, key, snapshot_seq, 0);
}

/// Dropping an empty sealed memtable changes no read.
pub proof fn lemma_dropping_empty_keeps_reads(
    v0: ReadView,
    v1: ReadView,
    key: Seq<u8>,
    snapshot_seq: u64,
)
    requires
        v0.wf(),
        v1.wf(),
        v0.frozen@.len() > 0,
        v0.frozen@[0].entries().len() == 0,
        v0.frozen@[0].tombstones().len() == 0,
        v1.active == v0.active,
        v1.version == v0.version,
        v1.frozen@ == v0.frozen@.remove(0),
    ensures
        walk(v1.layers(key), key, snapshot_seq, 0) == walk(v0.layers(key), key, snapshot_seq, 0),
        walk_chain(v1.layers(key), key, snapshot_seq, 0) == walk_chain(
            v0.layers(key),
            key,
            snapshot_seq,
            0,
        ),
{
    let a = v0.layers(key);
    let b = v1.layers(key);
    let f = v0.frozen@.len() as int;
    lemma_layer_at(v0, key, f);
    lemma_layer_at(v1, key, 0);
    assert(a[f] == memtable_layer(v0.frozen@[0]));
    assert forall|i: int| 0 <= i < b.len() implies b[i] == a.remove(f)[i] by {
        lemma_layer_at(v1, key, i);
        if i < f {
            lemma_layer_at(v0, key, i);
            if i > 0 {
                assert(v1.frozen@[f - 1 - i] == v0.frozen@[f - i]);
            }
        } else {
            lemma_layer_at(v0, key, i + 1);
        }
    }
    assert(a.remove(f) =~= b);
    lemma_past_vacant(a, f, key, snapshot_seq, 0);
}

/// Once all data is in tables, a database that is opened on those tables alone
/// reads the same: what a checkpoint or a backup holds is all there was.
pub proof fn lemma_tables_hold_everything(
    v0: ReadView,
    v1: ReadView,
    key: Seq<u8>,
    snapshot_seq: u64,
)
    requires
        v0.wf(),
        v1.wf(),
        v0.active.entries().len() == 0,
        v0.active.tombstones().len() == 0,
        forall|i: int|
            0 <= i < v0.frozen@.len() ==> (#[trigger] v0.frozen@[i]).entries().len() == 0
                && v0.frozen@[i].tombstones().len() == 0,
        v1.active.entries().len() == 0,
        v1.active.tombstones().len() == 0,
        v1.frozen@.len() == 0,
        v1.version@.levels == v0.version@.levels,
    ensures
        walk(v1.layers(key), key, snapshot_seq, 0) == walk(v0.layers(key), key, snapshot_seq, 0),
        walk_chain(v1.layers(key), key, snapshot_seq, 0) == walk_chain(
            v0.layers(key),
            key,
            snapshot_seq,
            0,
        ),
{
    let a = v0.layers(key);
    let b = v1.layers(key);
    let f = v0.frozen@.len() as int;
    lemma_layer_at(v0, key, 0);
    lemma_layer_at(v1, key, 0);
    assert forall|i: int| 0 <= i < 1 + f implies is_vacant(#[trigger] a[i]) by {
        lemma_layer_at(v0, key, i);
        if i > 0 {
            assert(v0.frozen@[f - i].entries().len() == 0);
        }
    }
    lemma_past_vacants(a, 1 + f, key, snapshot_seq);
    lemma_past_vacant(b, 0, key, snapshot_seq, 0);
    let l0 = v0.version.levels@[0]@;
    assert(v1.version@.levels[0] == v0.version@.levels[0]);
    assert(v1.version.levels@[0]@ == l0);
    assert forall|i: int| 0 <= i < b.remove(0).len() implies b.remove(0)[i] == a.skip(1 + f)[i] by {
        lemma_layer_at(v1, key, i + 1);
        lemma_layer_at(v0, key, i + 1 + f);
        if i >= l0.len() {
            let l = i + 1 - l0.len();
            assert(v1.version@.levels[l] == v0.version@.levels[l]);
            assert(v1.version.levels@[l]@ == v0.version.levels@[l]@);
        }
    }
    assert(b.remove(0) =~= a.skip(1 + f));
}

proof fn lemma_past_vacants(layers: Seq<Layer>, n: int, key: Seq<u8>, snapshot_seq: u64)
    requires
        0 <= n <= layers.len(),
        forall|i: int| 0 <= i < n ==> is_vacant(#[trigger] layers[i]),
    ensures
        walk(layers, key, snapshot_seq, 0) == walk(layers.skip(n), key, snapshot_seq, 0),
        walk_chain(layers, key, snapshot_seq, 0) == walk_chain(
            layers.skip(n),
            key,
            snapshot_seq,
            0,
        ),
    decreases n,
{
    if n == 0 {
        assert(layers.skip(0) =~= layers);
    } else {
        lemma_past_vacant(layers, 0, key, snapshot_seq, 0);
        let rest = layers.skip(1);
        assert(layers.remove(0) =~= rest);
        assert forall|i: int| 0 <= i < n - 1 implies is_vacant(#[trigger] rest[i]) by {
            assert(rest[i] == layers[i + 1]);
        }
        lemma_past_vacants(rest, n - 1, key, snapshot_seq);
        assert(rest.skip(n - 1) =~= layers.skip(n));
    }
}

// ── Other keys ───────────────────────────────────────────────────

/// A batch changes nothing for keys that none of its writes is to: every lookup
/// of such a key, at every snapshot, says what it said, with and without a merge
/// operator.
pub proof fn lemma_batch_leaves_other_reads(
    v0: ReadView,
    v1: ReadView,
    ops: Seq<OpView>,
    base: u64,
    key: Seq<u8>,
    snapshot_seq: u64,
)
    requires
        v0.wf(),
        v1.wf(),
        same_but_active(v0, v1),
        wrote_all(v0.active, v1.active, ops, base),
        base + ops.len() <= u64::MAX + 1,
        forall|j: int|
            0 <= j < ops.len() ==> match #[trigger] ops[j] {
                OpView::Put { key: k, value } => k != key,
                OpView::Delete { key: k } => k != key,
                OpView::Merge { key: k, operand } => k != key,
                OpView::DeleteRange { start, end } => lex_lt(key, start) || !lex_lt(key, end),
            },
    ensures
        walk(v1.layers(key), key, snapshot_seq, 0) == walk(v0.layers(key), key, snapshot_seq, 0),
        walk_chain(v1.layers(key), key, snapshot_seq, 0) == walk_chain(
            v0.layers(key),
            key,
            snapshot_seq,
            0,
        ),
{
    let a = v0.layers(key);
    let b = v1.layers(key);
    lemma_batch_leaves_other_keys(v0.active, v1.active, ops, base, key, snapshot_seq);
    assert forall|i: int| 0 <= i < a.len() implies same_reads(
        #[trigger] a[i],
        b[i],
        key,
        snapshot_seq,
    ) by {
        lemma_layer_at(v0, key, i);
        lemma_layer_at(v1, key, i);
    }
    lemma_layer_at(v0, key, 0);
    lemma_layer_at(v1, key, 0);
    lemma_same_layers(a, b, key, snapshot_seq, 0);
}

/// A transaction is refused only where another writer did write: some version
/// of the key is newer than its snapshot.
pub proof fn lemma_conflict_has_a_cause(v: ReadView, key: Seq<u8>, snapshot_seq: u64)
    requires
        v.wf(),
        aged(v.layers(key), key),
    ensures
        written_after(v, key, snapshot_seq) <==> exists|p: Pair| #[trigger]
            in_layers(v.layers(key), p) && user_of(p.0) == key && seq_of(p.0) > snapshot_seq,
{
    let ls = v.layers(key);
    if written_after(v, key, snapshot_seq) {
        super::lookup::lemma_first_seq_is_met(ls, key);
    }
    if exists|p: Pair| #[trigger]
        in_layers(ls, p) && user_of(p.0) == key && seq_of(p.0) > snapshot_seq {
        let p = choose|p: Pair| #[trigger]
            in_layers(ls, p) && user_of(p.0) == key && seq_of(p.0) > snapshot_seq;
        lemma_first_seq_is_latest(ls, key, p);
    }
}

} // verus!
