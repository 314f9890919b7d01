//! What reads find of writes.
//!
//! Every write has a sequence number of its own, greater than all before it,
//! and a read at a snapshot sees the versions up to the snapshot's number.

use super::batch::is_history;
use super::batch::wrote;
use super::batch::wrote_all;
use super::batch::OpView;
use super::block::sorted_entries;
use super::block_entry::Pair;
use super::internal_key::ik_le;
use super::internal_key::ik_lt;
use super::internal_key::internal_key;
use super::internal_key::is_internal;
use super::internal_key::lemma_decode_encoded;
use super::internal_key::lemma_internal_order;
use super::internal_key::lemma_internal_total_order;
use super::internal_key::seq_of;
use super::internal_key::type_of;
use super::internal_key::user_of;
use super::internal_key::VALUE_TYPE_DELETION;
use super::internal_key::VALUE_TYPE_MERGE;
use super::internal_key::VALUE_TYPE_VALUE;
use super::lookup::cover;
use super::lookup::found_first;
use super::lookup::max_seq;
use super::lookup::taken_runs;
use super::lookup::walk;
use super::lookup::walk_chain;
use super::lookup::Layer;
use super::memtable::MemTable;
use super::range_tombstone::lemma_max_covering;
use super::range_tombstone::max_covering;
use super::range_tombstone::RangeTombstone;
use super::range_tombstone::TombstoneView;
use super::read_view::lemma_single;
use super::read_view::memtable_layer;
use super::versions::chain;
use super::versions::found;
use super::versions::holds_pair;
use super::versions::is_inserted;
use super::versions::lemma_chain_decides;
use super::versions::lemma_newest;
use super::versions::lemma_newest_is;
use super::versions::lemma_none_visible;
use super::versions::lemma_one_value;
use super::versions::lemma_skip_invisible;
use super::versions::newest;
use super::versions::visible;
use super::versions::Link;
use crate::bytes::lemma_lex_order;
use crate::bytes::lex_lt;
use vstd::prelude::*;

verus! {

// ── Runs ─────────────────────────────────────────────────────────

/// The link of an entry.
pub open spec fn link_of(p: Pair) -> Link {
    (seq_of(p.0), type_of(p.0), p.1)
}

proof fn lemma_sorted_from(es: Seq<Pair>, n: int)
    requires
        sorted_entries(es),
        0 <= n <= es.len(),
    ensures
        sorted_entries(es.skip(n)),
{
    let rest = es.skip(n);
    assert forall|i: int| 0 <= i < rest.len() implies is_internal((#[trigger] rest[i]).0) by {
        assert(rest[i] == es[i + n]);
    }
    assert forall|i: int, j: int| 0 <= i < j < rest.len() implies ik_lt(
        (#[trigger] rest[i]).0,
        (#[trigger] rest[j]).0,
    ) by {
        assert(rest[i] == es[i + n] && rest[j] == es[j + n]);
    }
}

/// A chain starts with the newest version and goes on, if that is a merge
/// operand, with what stands behind it.
proof fn lemma_chain_at_newest(es: Seq<Pair>, key: Seq<u8>, snapshot_seq: u64, a: int)
    requires
        sorted_entries(es),
        0 <= a < es.len(),
        newest(es, key, snapshot_seq) == Some(es[a]),
    ensures
        chain(es, key, snapshot_seq) == if type_of(es[a].0) == VALUE_TYPE_MERGE {
            seq![link_of(es[a])] + chain(es.skip(a + 1), key, snapshot_seq)
        } else {
            seq![link_of(es[a])]
        },
        forall|p: Pair|
            visible(p, key, snapshot_seq) ==> (#[trigger] es.skip(a + 1).contains(p) == (
            es.contains(p) && p != es[a])),
{
    lemma_newest(es, key, snapshot_seq);
    assert forall|i: int| 0 <= i < a implies !visible(#[trigger] es[i], key, snapshot_seq) by {
        if visible(es[i], key, snapshot_seq) {
            assert(ik_le(es[a].0, es[i].0));
            assert(ik_lt(es[i].0, es[a].0));
            lemma_internal_total_order(es[i].0, es[a].0, es[i].0);
        }
    }
    lemma_skip_invisible(es, key, snapshot_seq, a);
    let s = es.skip(a);
    let t = es.skip(a + 1);
    assert(s[0] == es[a]);
    assert(s.skip(1) =~= t);
    assert forall|p: Pair| visible(p, key, snapshot_seq) implies (#[trigger] t.contains(p) == (
    es.contains(p) && p != es[a])) by {
        if t.contains(p) {
            let i = choose|i: int| 0 <= i < t.len() && t[i] == p;
            assert(es[i + a + 1] == p);
            if p == es[a] {
                lemma_one_value(es, a, i + a + 1);
            }
        }
        if es.contains(p) && p != es[a] {
            let i = choose|i: int| 0 <= i < es.len() && es[i] == p;
            assert(i > a);
            assert(t[i - a - 1] == p);
        }
    }
}

/// Runs with the same visible versions give a read the same.
pub proof fn lemma_same_visible(es: Seq<Pair>, fs: Seq<Pair>, key: Seq<u8>, snapshot_seq: u64)
    requires
        sorted_entries(es),
        sorted_entries(fs),
        forall|p: Pair|
            visible(p, key, snapshot_seq) ==> (#[trigger] es.contains(p) == fs.contains(p)),
    ensures
        newest(es, key, snapshot_seq) == newest(fs, key, snapshot_seq),
        chain(es, key, snapshot_seq) == chain(fs, key, snapshot_seq),
        found(es, key, snapshot_seq) == found(fs, key, snapshot_seq),
    decreases es.len(),
{
    lemma_newest(es, key, snapshot_seq);
    match newest(es, key, snapshot_seq) {
        Some(p) => {
            let a = choose|i: int| 0 <= i < es.len() && es[i] == p;
            assert(fs.contains(p));
            let b = choose|i: int| 0 <= i < fs.len() && fs[i] == p;
            assert forall|i: int|
                0 <= i < fs.len() && visible(#[trigger] fs[i], key, snapshot_seq) implies ik_le(
                p.0,
                fs[i].0,
            ) by {
                assert(fs.contains(fs[i]));
                assert(es.contains(fs[i]));
                let j = choose|j: int| 0 <= j < es.len() && es[j] == fs[i];
                assert(visible(es[j], key, snapshot_seq));
            }
            lemma_newest_is(fs, key, snapshot_seq, p);
            lemma_chain_at_newest(es, key, snapshot_seq, a);
            lemma_chain_at_newest(fs, key, snapshot_seq, b);
            lemma_sorted_from(es, a + 1);
            lemma_sorted_from(fs, b + 1);
            let es1 = es.skip(a + 1);
            let fs1 = fs.skip(b + 1);
            assert forall|q: Pair| visible(q, key, snapshot_seq) implies (#[trigger] es1.contains(q)
                == fs1.contains(q)) by {
                assert(es1.contains(q) == (es.contains(q) && q != p));
                assert(fs1.contains(q) == (fs.contains(q) && q != p));
            }
            lemma_same_visible(es1, fs1, key, snapshot_seq);
        },
        None => {
            lemma_none_visible(es, key, snapshot_seq);
            assert forall|i: int| 0 <= i < fs.len() implies !visible(
                #[trigger] fs[i],
                key,
                snapshot_seq,
            ) by {
                if visible(fs[i], key, snapshot_seq) {
                    assert(fs.contains(fs[i]));
                    assert(es.contains(fs[i]));
                    let j = choose|j: int| 0 <= j < es.len() && es[j] == fs[i];
                    assert(!visible(es[j], key, snapshot_seq));
                }
            }
            lemma_none_visible(fs, key, snapshot_seq);
        },
    }
}

proof fn lemma_holds_contains(es: Seq<Pair>, p: Pair)
    ensures
        holds_pair(es, p.0, p.1) == es.contains(p),
{
    if es.contains(p) {
        let i = choose|i: int| 0 <= i < es.len() && es[i] == p;
        assert(es[i] == (p.0, p.1));
    }
}

/// An entry that a read does not see changes nothing for it.
pub proof fn lemma_insert_unseen(
    es: Seq<Pair>,
    fs: Seq<Pair>,
    k: Seq<u8>,
    v: Seq<u8>,
    key: Seq<u8>,
    snapshot_seq: u64,
)
    requires
        sorted_entries(es),
        sorted_entries(fs),
        is_inserted(es, fs, k, v),
        !visible((k, v), key, snapshot_seq),
    ensures
        chain(fs, key, snapshot_seq) == chain(es, key, snapshot_seq),
        found(fs, key, snapshot_seq) == found(es, key, snapshot_seq),
{
    assert forall|p: Pair| visible(p, key, snapshot_seq) implies (#[trigger] es.contains(p)
        == fs.contains(p)) by {
        lemma_holds_contains(es, p);
        lemma_holds_contains(fs, p);
        assert(p.0 != k);
        assert(holds_pair(fs, p.0, p.1) == holds_pair(es, p.0, p.1));
    }
    lemma_same_visible(es, fs, key, snapshot_seq);
}

/// The versions of `key` in a run are older than `seq`.
pub open spec fn older_than(es: Seq<Pair>, key: Seq<u8>, seq: u64) -> bool {
    forall|i: int|
        0 <= i < es.len() && user_of((#[trigger] es[i]).0) == key ==> seq_of(es[i].0) < seq
}

/// The newest entry of a key is the first that a read finds; behind a merge
/// operand stands what the read found before.
pub proof fn lemma_insert_newest(
    es: Seq<Pair>,
    fs: Seq<Pair>,
    k: Seq<u8>,
    v: Seq<u8>,
    snapshot_seq: u64,
)
    requires
        sorted_entries(es),
        sorted_entries(fs),
        is_internal(k),
        is_inserted(es, fs, k, v),
        older_than(es, user_of(k), seq_of(k)),
        seq_of(k) <= snapshot_seq,
    ensures
        newest(fs, user_of(k), snapshot_seq) == Some((k, v)),
        chain(fs, user_of(k), snapshot_seq) == if type_of(k) == VALUE_TYPE_MERGE {
            seq![link_of((k, v))] + chain(es, user_of(k), snapshot_seq)
        } else {
            seq![link_of((k, v))]
        },
{
    let key = user_of(k);
    let p = (k, v);
    assert(holds_pair(fs, k, v));
    lemma_holds_contains(fs, p);
    let a = choose|i: int| 0 <= i < fs.len() && fs[i] == p;
    assert forall|i: int|
        0 <= i < fs.len() && visible(#[trigger] fs[i], key, snapshot_seq) implies ik_le(
        k,
        fs[i].0,
    ) by {
        if fs[i].0 != k {
            assert(holds_pair(fs, fs[i].0, fs[i].1));
            assert(holds_pair(es, fs[i].0, fs[i].1));
            let j = choose|j: int| 0 <= j < es.len() && #[trigger] es[j] == (fs[i].0, fs[i].1);
            assert(seq_of(es[j].0) < seq_of(k));
            lemma_internal_order(k, fs[i].0);
            lemma_lex_order(key, key, key);
        } else {
            lemma_internal_total_order(k, k, k);
        }
    }
    lemma_newest_is(fs, key, snapshot_seq, p);
    lemma_chain_at_newest(fs, key, snapshot_seq, a);
    lemma_sorted_from(fs, a + 1);
    let rest = fs.skip(a + 1);
    assert forall|q: Pair| visible(q, key, snapshot_seq) implies (#[trigger] rest.contains(q)
        == es.contains(q)) by {
        lemma_holds_contains(es, q);
        lemma_holds_contains(fs, q);
        assert(rest.contains(q) == (fs.contains(q) && q != p));
        if q.0 == k {
            if es.contains(q) {
                let j = choose|j: int| 0 <= j < es.len() && es[j] == q;
                assert(seq_of(es[j].0) < seq_of(k));
            }
            assert(holds_pair(fs, q.0, q.1) == (q.1 == v));
        } else {
            assert(holds_pair(fs, q.0, q.1) == holds_pair(es, q.0, q.1));
        }
    }
    lemma_same_visible(rest, es, key, snapshot_seq);
}

// ── Layers ───────────────────────────────────────────────────────

/// A lookup of `key` takes the same from both layers.
pub open spec fn same_reads(a: Layer, b: Layer, key: Seq<u8>, snapshot_seq: u64) -> bool {
    &&& cover(a.rts, key, snapshot_seq) == cover(b.rts, key, snapshot_seq)
    &&& found_first(a.runs, key, snapshot_seq) == found_first(b.runs, key, snapshot_seq)
    &&& forall|m: u64| #[trigger]
        taken_runs(a.runs, key, snapshot_seq, m) == taken_runs(b.runs, key, snapshot_seq, m)
}

/// Layers from which a lookup takes the same, one by one, say the same.
pub proof fn lemma_same_layers(
    a: Seq<Layer>,
    b: Seq<Layer>,
    key: Seq<u8>,
    snapshot_seq: u64,
    max_rt: u64,
)
    requires
        a.len() == b.len(),
        forall|i: int| 0 <= i < a.len() ==> same_reads(#[trigger] a[i], b[i], key, snapshot_seq),
    ensures
        walk(a, key, snapshot_seq, max_rt) == walk(b, key, snapshot_seq, max_rt),
        walk_chain(a, key, snapshot_seq, max_rt) == walk_chain(b, key, snapshot_seq, max_rt),
    decreases a.len(),
{
    if a.len() > 0 {
        assert(same_reads(a[0], b[0], key, snapshot_seq));
        let m = max_seq(max_rt, cover(a[0].rts, key, snapshot_seq));
        assert forall|i: int| 0 <= i < a.skip(1).len() implies same_reads(
            #[trigger] a.skip(1)[i],
            b.skip(1)[i],
            key,
            snapshot_seq,
        ) by {
            assert(a.skip(1)[i] == a[i + 1] && b.skip(1)[i] == b[i + 1]);
        }
        lemma_same_layers(a.skip(1), b.skip(1), key, snapshot_seq, m);
        assert(taken_runs(a[0].runs, key, snapshot_seq, m) == taken_runs(
            b[0].runs,
            key,
            snapshot_seq,
            m,
        ));
    }
}

/// Layers of one run and one set of tombstones each, of which a lookup takes
/// the same.
pub proof fn lemma_same_single(
    rts0: Seq<RangeTombstone>,
    run0: Seq<Pair>,
    rts1: Seq<RangeTombstone>,
    run1: Seq<Pair>,
    key: Seq<u8>,
    snapshot_seq: u64,
)
    requires
        max_covering(rts0, key, snapshot_seq) == max_covering(rts1, key, snapshot_seq),
        chain(run0, key, snapshot_seq) == chain(run1, key, snapshot_seq),
    ensures
        same_reads(
            Layer { rts: seq![rts0], runs: seq![run0] },
            Layer { rts: seq![rts1], runs: seq![run1] },
            key,
            snapshot_seq,
        ),
{
    lemma_single(rts0, run0, key, snapshot_seq);
    lemma_single(rts1, run1, key, snapshot_seq);
    lemma_chain_decides(run0, run1, key, snapshot_seq);
}

// ── Writes ───────────────────────────────────────────────────────

/// Everything in a memtable has a sequence number up to `seq`.
pub open spec fn bounded(m: MemTable, seq: u64) -> bool {
    &&& forall|i: int| 0 <= i < m.entries().len() ==> seq_of((#[trigger] m.entries()[i]).0) <= seq
    &&& forall|i: int| 0 <= i < m.tombstones().len() ==> (#[trigger] m.tombstones()[i]).seq <= seq
}

/// The write is to `key`, or deletes a range that covers it.
pub open spec fn touches(op: OpView, key: Seq<u8>) -> bool {
    match op {
        OpView::Put { key: k, value } => k == key,
        OpView::Delete { key: k } => k == key,
        OpView::Merge { key: k, operand } => k == key,
        OpView::DeleteRange { start, end } => (TombstoneView { start, end, seq: 0 }).covers(key),
    }
}

/// The entry that a write puts into a memtable.
pub open spec fn entry_of(op: OpView, seq: u64) -> Option<Pair> {
    match op {
        OpView::Put { key, value } => Some((internal_key(key, seq, VALUE_TYPE_VALUE), value)),
        OpView::Delete { key } => Some(
            (internal_key(key, seq, VALUE_TYPE_DELETION), Seq::<u8>::empty()),
        ),
        OpView::Merge { key, operand } => Some((internal_key(key, seq, VALUE_TYPE_MERGE), operand)),
        OpView::DeleteRange { start, end } => None,
    }
}

/// What an entry says of its parts.
proof fn lemma_entry_of(op: OpView, seq: u64)
    ensures
        entry_of(op, seq) matches Some(p) ==> is_internal(p.0) && seq_of(p.0) == seq && forall|
            key: Seq<u8>,
        | #[trigger]
            touches(op, key) == (user_of(p.0) == key),
        match op {
            OpView::Put { key, value } => type_of((entry_of(op, seq)->0).0) == VALUE_TYPE_VALUE
                && user_of((entry_of(op, seq)->0).0) == key,
            OpView::Delete { key } => type_of((entry_of(op, seq)->0).0) == VALUE_TYPE_DELETION
                && user_of((entry_of(op, seq)->0).0) == key,
            OpView::Merge { key, operand } => type_of((entry_of(op, seq)->0).0) == VALUE_TYPE_MERGE
                && user_of((entry_of(op, seq)->0).0) == key,
            _ => true,
        },
{
    match op {
        OpView::Put { key, value } => {
            lemma_decode_encoded(key, seq, VALUE_TYPE_VALUE);
        },
        OpView::Delete { key } => {
            lemma_decode_encoded(key, seq, VALUE_TYPE_DELETION);
        },
        OpView::Merge { key, operand } => {
            lemma_decode_encoded(key, seq, VALUE_TYPE_MERGE);
        },
        _ => {},
    }
}

/// A write keeps the bound on sequence numbers.
pub proof fn lemma_wrote_bounded(m0: MemTable, m1: MemTable, op: OpView, bound: u64, seq: u64)
    requires
        wrote(m0, m1, op, seq),
        bounded(m0, bound),
        bound <= seq,
    ensures
        bounded(m1, seq),
{
    lemma_entry_of(op, seq);
    match entry_of(op, seq) {
        Some(p) => {
            assert forall|i: int| 0 <= i < m1.entries().len() implies seq_of(
                (#[trigger] m1.entries()[i]).0,
            ) <= seq by {
                let q = m1.entries()[i];
                assert(holds_pair(m1.entries(), q.0, q.1));
                if q.0 != p.0 {
                    assert(holds_pair(m0.entries(), q.0, q.1));
                    let j = choose|j: int|
                        0 <= j < m0.entries().len() && #[trigger] m0.entries()[j] == (q.0, q.1);
                    assert(seq_of(m0.entries()[j].0) <= bound);
                }
            }
        },
        None => {
            assert forall|i: int| 0 <= i < m1.tombstones().len() implies (
            #[trigger] m1.tombstones()[i]).seq <= seq by {
                if i < m0.tombstones().len() {
                    assert(m1.tombstones().drop_last()[i] == m1.tombstones()[i]);
                    assert(m0.tombstones()[i].seq <= bound);
                } else {
                    assert(m1.tombstones()[i] == m1.tombstones().last());
                    assert(m1.tombstones().last()@.seq == seq);
                }
            }
        },
    }
}

/// A read at an older snapshot, and a read of a key that a write does not
/// touch, find what they found before the write.
pub proof fn lemma_wrote_unseen(
    m0: MemTable,
    m1: MemTable,
    op: OpView,
    seq: u64,
    key: Seq<u8>,
    snapshot_seq: u64,
)
    requires
        m0.wf(),
        wrote(m0, m1, op, seq),
        snapshot_seq < seq || !touches(op, key),
    ensures
        same_reads(memtable_layer(m0), memtable_layer(m1), key, snapshot_seq),
        chain(m0.entries(), key, snapshot_seq) == chain(m1.entries(), key, snapshot_seq),
        max_covering(m0.tombstones(), key, snapshot_seq) == max_covering(
            m1.tombstones(),
            key,
            snapshot_seq,
        ),
{
    m0.lemma_sorted();
    lemma_entry_of(op, seq);
    match entry_of(op, seq) {
        Some(p) => {
            m1.lemma_sorted();
            assert(touches(op, key) == (user_of(p.0) == key));
            lemma_insert_unseen(m0.entries(), m1.entries(), p.0, p.1, key, snapshot_seq);
        },
        None => {
            let t = m1.tombstones().last()@;
            assert(t.covers(key) == touches(op, key));
        },
    }
    lemma_same_single(
        m0.tombstones(),
        m0.entries(),
        m1.tombstones(),
        m1.entries(),
        key,
        snapshot_seq,
    );
}

/// A batch is invisible to every snapshot that was taken before it.
pub proof fn lemma_batch_unseen(
    m0: MemTable,
    m1: MemTable,
    ops: Seq<OpView>,
    base: u64,
    key: Seq<u8>,
    snapshot_seq: u64,
)
    requires
        m0.wf(),
        wrote_all(m0, m1, ops, base),
        base + ops.len() <= u64::MAX + 1,
        snapshot_seq < base,
    ensures
        same_reads(memtable_layer(m0), memtable_layer(m1), key, snapshot_seq),
{
    let ms = choose|ms: Seq<MemTable>| #[trigger]
        is_history(ms, ops, base) && ms[0] == m0 && ms[ops.len() as int] == m1;
    lemma_history_unseen(ms, ops, base, key, snapshot_seq, 0, ops.len() as int);
}

/// Between two points of a history of which no write in between is seen, a
/// read finds the same.
proof fn lemma_history_unseen(
    ms: Seq<MemTable>,
    ops: Seq<OpView>,
    base: u64,
    key: Seq<u8>,
    snapshot_seq: u64,
    from: int,
    to: int,
)
    requires
        is_history(ms, ops, base),
        base + ops.len() <= u64::MAX + 1,
        0 <= from <= to <= ops.len(),
        ms[from].wf(),
        snapshot_seq < base || forall|j: int|
            from <= j < to ==> !touches(#[trigger] ops[j], key),
    ensures
        ms[to].wf(),
        same_reads(memtable_layer(ms[from]), memtable_layer(ms[to]), key, snapshot_seq),
        chain(ms[from].entries(), key, snapshot_seq) == chain(
            ms[to].entries(),
            key,
            snapshot_seq,
        ),
        max_covering(ms[from].tombstones(), key, snapshot_seq) == max_covering(
            ms[to].tombstones(),
            key,
            snapshot_seq,
        ),
    decreases to - from,
{
    if from < to {
        lemma_history_unseen(ms, ops, base, key, snapshot_seq, from, to - 1);
        let i = to - 1;
        assert(wrote(ms[i], ms[i + 1], ops[i], (base + i) as u64));
        lemma_wrote_unseen(ms[i], ms[to], ops[i], (base + i) as u64, key, snapshot_seq);
    }
}

proof fn lemma_history_bounded(ms: Seq<MemTable>, ops: Seq<OpView>, base: u64, bound: u64, n: int)
    requires
        is_history(ms, ops, base),
        base + ops.len() <= u64::MAX + 1,
        0 <= n <= ops.len(),
        ms[0].wf(),
        bounded(ms[0], bound),
        bound < base,
    ensures
        ms[n].wf(),
        bounded(ms[n], (base + n - 1) as u64),
    decreases n,
{
    if n > 0 {
        lemma_history_bounded(ms, ops, base, bound, n - 1);
        assert(wrote(ms[n - 1], ms[n], ops[n - 1], (base + n - 1) as u64));
        lemma_wrote_bounded(
            ms[n - 1],
            ms[n],
            ops[n - 1],
            (base + n - 2) as u64,
            (base + n - 1) as u64,
        );
    } else {
        assert forall|i: int| 0 <= i < ms[0].entries().len() implies seq_of(
            (#[trigger] ms[0].entries()[i]).0,
        ) <= (base - 1) as u64 by {}
        assert forall|i: int| 0 <= i < ms[0].tombstones().len() implies (
        #[trigger] ms[0].tombstones()[i]).seq <= (base - 1) as u64 by {}
    }
}

/// The last write of a batch to a key is what a read of the key finds in the
/// memtable at any snapshot that has the whole batch: an entry stands first in
/// the chain, before a merge operand's older versions, and newer than every
/// tombstone that covers the key; a range deletion covers the key and is newer
/// than every version.
pub proof fn lemma_batch_last_write_wins(
    m0: MemTable,
    m1: MemTable,
    ops: Seq<OpView>,
    base: u64,
    bound: u64,
    i: int,
    key: Seq<u8>,
    snapshot_seq: u64,
)
    requires
        m0.wf(),
        wrote_all(m0, m1, ops, base),
        base + ops.len() <= u64::MAX + 1,
        bounded(m0, bound),
        bound < base,
        0 <= i < ops.len(),
        touches(ops[i], key),
        forall|j: int| i < j < ops.len() ==> !touches(#[trigger] ops[j], key),
        base + ops.len() - 1 <= snapshot_seq,
    ensures
        ({
            let c = chain(m1.entries(), key, snapshot_seq);
            let seq = (base + i) as u64;
            match ops[i] {
                OpView::Put { key: k, value } => c == seq![(seq, VALUE_TYPE_VALUE, value)],
                OpView::Delete { key: k } => c == seq![
                    (seq, VALUE_TYPE_DELETION, Seq::<u8>::empty()),
                ],
                OpView::Merge { key: k, operand } => c.len() > 0 && c[0] == (
                    seq,
                    VALUE_TYPE_MERGE,
                    operand,
                ),
                OpView::DeleteRange { start, end } => forall|j: int|
                    0 <= j < c.len() ==> (#[trigger] c[j]).0 < seq,
            }
        }),
        max_covering(m1.tombstones(), key, snapshot_seq) < base + i || (ops[i] is DeleteRange
            && max_covering(m1.tombstones(), key, snapshot_seq) == base + i),
        ops[i] is DeleteRange ==> max_covering(m1.tombstones(), key, snapshot_seq) == base + i,
{
    let ms = choose|ms: Seq<MemTable>| #[trigger]
        is_history(ms, ops, base) && ms[0] == m0 && ms[ops.len() as int] == m1;
    let seq = (base + i) as u64;
    lemma_history_bounded(ms, ops, base, bound, i);
    let a = ms[i];
    let b = ms[i + 1];
    assert(wrote(a, b, ops[i], seq));
    a.lemma_sorted();
    lemma_entry_of(ops[i], seq);
    lemma_wrote_bounded(a, b, ops[i], (base + i - 1) as u64, seq);
    lemma_history_unseen(ms, ops, base, key, snapshot_seq, i + 1, ops.len() as int);
    lemma_max_covering(a.tombstones(), key, snapshot_seq);
    let ca = max_covering(a.tombstones(), key, snapshot_seq);
    assert(ca < seq) by {
        if ca != 0 {
            let j = choose|j: int|
                0 <= j < a.tombstones().len() && (#[trigger] a.tombstones()[j])@.covers(key)
                    && a.tombstones()[j].seq <= snapshot_seq && a.tombstones()[j].seq == ca;
            assert(a.tombstones()[j].seq <= (base + i - 1) as u64);
        }
    }
    match entry_of(ops[i], seq) {
        Some(p) => {
            b.lemma_sorted();
            assert(user_of(p.0) == key);
            lemma_insert_newest(a.entries(), b.entries(), p.0, p.1, snapshot_seq);
        },
        None => {
            assert(b.tombstones().last()@.covers(key));
            lemma_chain_bounded(a.entries(), key, snapshot_seq, (base + i - 1) as u64);
        },
    }
}

/// The links of a chain are as old as the run.
proof fn lemma_chain_bounded(es: Seq<Pair>, key: Seq<u8>, snapshot_seq: u64, bound: u64)
    requires
        forall|i: int| 0 <= i < es.len() ==> seq_of((#[trigger] es[i]).0) <= bound,
    ensures
        forall|j: int|
            0 <= j < chain(es, key, snapshot_seq).len() ==> (#[trigger] chain(
                es,
                key,
                snapshot_seq,
            )[j]).0 <= bound,
    decreases es.len(),
{
    if es.len() > 0 {
        let rest = es.skip(1);
        assert forall|i: int| 0 <= i < rest.len() implies seq_of((#[trigger] rest[i]).0) <= bound by {
            assert(rest[i] == es[i + 1]);
        }
        lemma_chain_bounded(rest, key, snapshot_seq, bound);
        let c = chain(es, key, snapshot_seq);
        let t = chain(rest, key, snapshot_seq);
        assert forall|j: int| 0 <= j < c.len() implies (#[trigger] c[j]).0 <= bound by {
            if visible(es[0], key, snapshot_seq) {
                if j > 0 {
                    assert(c[j] == t[j - 1]);
                } else {
                    assert(c[0] == link_of(es[0]));
                    assert(seq_of(es[0].0) <= bound);
                }
            } else {
                assert(c[j] == t[j]);
            }
        }
    }
}

/// A write within a bound keeps it.
pub proof fn lemma_wrote_within(m0: MemTable, m1: MemTable, op: OpView, seq: u64, bound: u64)
    requires
        wrote(m0, m1, op, seq),
        bounded(m0, bound),
        seq <= bound,
    ensures
        bounded(m1, bound),
{
    match entry_of(op, seq) {
        Some(p) => {
            match op {
                OpView::Put { key, value } => {
                    lemma_decode_encoded(key, seq, VALUE_TYPE_VALUE);
                },
                OpView::Delete { key } => {
                    lemma_decode_encoded(key, seq, VALUE_TYPE_DELETION);
                },
                OpView::Merge { key, operand } => {
                    lemma_decode_encoded(key, seq, VALUE_TYPE_MERGE);
                },
                _ => {},
            }
            let es = m1.entries();
            assert forall|i: int| 0 <= i < es.len() implies seq_of((#[trigger] es[i]).0) <= bound by {
                let q = es[i];
                assert(es[i] == (q.0, q.1));
                assert(holds_pair(es, q.0, q.1));
                if q.0 != p.0 {
                    assert(holds_pair(m0.entries(), q.0, q.1));
                    let j = choose|j: int|
                        0 <= j < m0.entries().len() && #[trigger] m0.entries()[j] == (q.0, q.1);
                    assert(seq_of(m0.entries()[j].0) <= bound);
                }
            }
        },
        None => {
            let ts = m1.tombstones();
            assert forall|i: int| 0 <= i < ts.len() implies (#[trigger] ts[i]).seq <= bound by {
                if i < m0.tombstones().len() {
                    assert(ts.drop_last()[i] == ts[i]);
                    assert(m0.tombstones()[i].seq <= bound);
                } else {
                    assert(ts[i] == ts.last());
                    assert(ts.last()@.seq == seq);
                }
            }
        },
    }
}

/// A batch within a bound keeps it.
pub proof fn lemma_batch_within(
    m0: MemTable,
    m1: MemTable,
    ops: Seq<OpView>,
    base: u64,
    bound: u64,
)
    requires
        wrote_all(m0, m1, ops, base),
        base + ops.len() <= bound + 1,
        bounded(m0, bound),
    ensures
        bounded(m1, bound),
{
    let ms = choose|ms: Seq<MemTable>| #[trigger]
        is_history(ms, ops, base) && ms[0] == m0 && ms[ops.len() as int] == m1;
    lemma_history_within(ms, ops, base, bound, ops.len() as int);
}

proof fn lemma_history_within(ms: Seq<MemTable>, ops: Seq<OpView>, base: u64, bound: u64, n: int)
    requires
        is_history(ms, ops, base),
        base + ops.len() <= bound + 1,
        0 <= n <= ops.len(),
        bounded(ms[0], bound),
    ensures
        bounded(ms[n], bound),
    decreases n,
{
    if n > 0 {
        lemma_history_within(ms, ops, base, bound, n - 1);
        assert(wrote(ms[n - 1], ms[n], ops[n - 1], (base + n - 1) as u64));
        lemma_wrote_within(ms[n - 1], ms[n], ops[n - 1], (base + n - 1) as u64, bound);
    }
}

/// A batch leaves keys alone that none of its writes is to, at every snapshot:
/// puts, deletions and merges of other keys, and deletions of ranges that end
/// at the key or before it, or start after it.
pub proof fn lemma_batch_leaves_other_keys(
    m0: MemTable,
    m1: MemTable,
    ops: Seq<OpView>,
    base: u64,
    key: Seq<u8>,
    snapshot_seq: u64,
)
    requires
        m0.wf(),
        wrote_all(m0, m1, ops, base),
        base + ops.len() <= u64::MAX + 1,
        forall|j: int|
            0 <= j < ops.len() ==> match #[trigger] ops[j] {
                OpView::Put { key: k, value } => k != key,
                OpView::Delete { key: k } => k != key,
                OpView::Merge { key: k, operand } => k != key,
                OpView::DeleteRange { start, end } => lex_lt(key, start) || !lex_lt(key, end),
            },
    ensures
        same_reads(memtable_layer(m0), memtable_layer(m1), key, snapshot_seq),
{
    let ms = choose|ms: Seq<MemTable>| #[trigger]
        is_history(ms, ops, base) && ms[0] == m0 && ms[ops.len() as int] == m1;
    assert forall|j: int| 0 <= j < ops.len() implies !touches(#[trigger] ops[j], key) by {
        if let OpView::DeleteRange { start, end } = ops[j] {
            super::range_tombstone::lemma_covers_from_start_to_before_end(
                TombstoneView { start, end, seq: 0 },
                key,
            );
        }
    }
    lemma_history_unseen(ms, ops, base, key, snapshot_seq, 0, ops.len() as int);
}

} // verus!
