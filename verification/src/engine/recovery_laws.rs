//! What a crash and a recovery do to reads: nothing, where the logs hold what
//! the memtables held.

use super::batch::is_history;
use super::batch::wrote;
use super::batch::wrote_all;
use super::batch::OpView;
use super::block_entry::Pair;
use super::chain_laws::lemma_rewriting_keeps_chains;
use super::compaction_laws::has_table;
use super::compaction_laws::in_memory;
use super::compaction_laws::in_tables;
use super::compaction_laws::lemma_in_layers;
use super::compaction_laws::lemma_in_sets;
use super::compaction_laws::rt_in_memory;
use super::compaction_laws::rt_in_tables;
use super::compaction_laws::table_at;
use super::internal_key::ik_lt;
use super::internal_key::lemma_decode_encoded;
use super::internal_key::seq_of;
use super::internal_key::user_of;
use super::lookup::aged;
use super::lookup::deletes_at;
use super::lookup::in_layers;
use super::lookup::in_run;
use super::lookup::in_set;
use super::lookup::layer_shields;
use super::lookup::lemma_rewriting_keeps_lookups;
use super::lookup::reads_alike;
use super::lookup::walk;
use super::lookup::walk_chain;
use super::memtable::MemTable;
use super::mvcc::entry_of;
use super::range_tombstone::holds;
use super::range_tombstone::RangeTombstone;
use super::range_tombstone::TombstoneView;
use super::read_view::lemma_layer_at;
use super::read_view::ReadView;
use super::recovery::is_replay;
use super::recovery::replayed;
use super::recovery::LoggedView;
use super::scan::outcome_of;
use super::sstable::LiveSst;
use super::versions::holds_pair;
use super::versions::visible;
use std::sync::Arc;
use vstd::prelude::*;

verus! {

// ── Logs and memtables ───────────────────────────────────────────

/// Write `i` of the log is the entry `p`.
pub open spec fn logs_at(log: Seq<LoggedView>, i: int, p: Pair) -> bool {
    0 <= i < log.len() && entry_of(log[i].op, log[i].seq) == Some(p)
}

/// The log has a write that is the entry `p`.
pub open spec fn logs_entry(log: Seq<LoggedView>, p: Pair) -> bool {
    exists|i: int| #[trigger] logs_at(log, i, p)
}

/// The range deletion that a write is.
pub open spec fn deletion_of(w: LoggedView) -> Option<TombstoneView> {
    match w.op {
        OpView::DeleteRange { start, end } => Some(TombstoneView { start, end, seq: w.seq }),
        _ => None,
    }
}

/// Write `i` of the log is the range deletion `t`.
pub open spec fn logs_deletion_at(log: Seq<LoggedView>, i: int, t: TombstoneView) -> bool {
    0 <= i < log.len() && deletion_of(log[i]) == Some(t)
}

/// The log has a write that is the range deletion `t`.
pub open spec fn logs_deletion(log: Seq<LoggedView>, t: TombstoneView) -> bool {
    exists|i: int| #[trigger] logs_deletion_at(log, i, t)
}

/// The memtable holds what the log says, and nothing else.
pub open spec fn holds_log(m: MemTable, log: Seq<LoggedView>) -> bool {
    &&& forall|p: Pair| #[trigger] m.entries().contains(p) == logs_entry(log, p)
    &&& forall|t: TombstoneView| #[trigger] holds(m.tombstones(), t) == logs_deletion(log, t)
}

/// Every sequence number was given to one write. A log may say a write more
/// than once.
pub open spec fn one_write_each(log: Seq<LoggedView>) -> bool {
    forall|i: int, j: int|
        0 <= i < j < log.len() && (#[trigger] log[i]).seq == (#[trigger] log[j]).seq ==> log[i]
            == log[j]
}

/// The logs say the same writes, in whatever order and however often.
pub open spec fn same_writes(a: Seq<LoggedView>, b: Seq<LoggedView>) -> bool {
    forall|w: LoggedView| #[trigger] a.contains(w) == b.contains(w)
}

/// The log of a batch.
pub open spec fn batch_log(ops: Seq<OpView>, base: u64) -> Seq<LoggedView> {
    Seq::new(ops.len(), |i: int| LoggedView { op: ops[i], seq: (base + i) as u64 })
}

/// A write that is logged: what the memtable holds after it, the log says.
proof fn lemma_logged_write(m0: MemTable, m1: MemTable, log: Seq<LoggedView>, w: LoggedView)
    requires
        holds_log(m0, log),
        wrote(m0, m1, w.op, w.seq),
        forall|i: int| 0 <= i < log.len() && (#[trigger] log[i]).seq == w.seq ==> log[i] == w,
    ensures
        holds_log(m1, log.push(w)),
{
    let after = log.push(w);
    let n = log.len() as int;
    assert forall|i: int, p: Pair| #[trigger] logs_at(after, i, p) == (logs_at(log, i, p) || i == n
        && entry_of(w.op, w.seq) == Some(p)) by {
        if 0 <= i < n {
            assert(after[i] == log[i]);
        }
    }
    assert forall|i: int, t: TombstoneView| #[trigger] logs_deletion_at(after, i, t) == (
    logs_deletion_at(log, i, t) || i == n && deletion_of(w) == Some(t)) by {
        if 0 <= i < n {
            assert(after[i] == log[i]);
        }
    }
    assert forall|p: Pair| #[trigger] m1.entries().contains(p) == logs_entry(after, p) by {
        assert(m0.entries().contains(p) == logs_entry(log, p));
        lemma_contains_is_holds(m0.entries(), p);
        lemma_contains_is_holds(m1.entries(), p);
        if logs_entry(log, p) {
            let i = choose|i: int| #[trigger] logs_at(log, i, p);
            assert(logs_at(after, i, p));
            lemma_entry_seq(log[i], p);
            if let Some(q) = entry_of(w.op, w.seq) {
                lemma_entry_seq(w, q);
                assert(seq_of(p.0) == log[i].seq);
            }
        }
        if entry_of(w.op, w.seq) == Some(p) {
            assert(logs_at(after, n, p));
        }
        if logs_entry(after, p) {
            let i = choose|i: int| #[trigger] logs_at(after, i, p);
            if logs_at(log, i, p) {
                assert(logs_entry(log, p));
            }
        }
    }
    assert forall|t: TombstoneView| #[trigger] holds(m1.tombstones(), t) == logs_deletion(
        after,
        t,
    ) by {
        assert(holds(m0.tombstones(), t) == logs_deletion(log, t));
        lemma_deletions_after(m0, m1, w, t);
        if logs_deletion(log, t) {
            let i = choose|i: int| #[trigger] logs_deletion_at(log, i, t);
            assert(logs_deletion_at(after, i, t));
        }
        if deletion_of(w) == Some(t) {
            assert(logs_deletion_at(after, n, t));
        }
        if logs_deletion(after, t) {
            let i = choose|i: int| #[trigger] logs_deletion_at(after, i, t);
            if logs_deletion_at(log, i, t) {
                assert(logs_deletion(log, t));
            }
        }
    }
}

proof fn lemma_contains_is_holds(es: Seq<Pair>, p: Pair)
    ensures
        es.contains(p) == holds_pair(es, p.0, p.1),
{
    if es.contains(p) {
        let i = choose|i: int| 0 <= i < es.len() && es[i] == p;
        assert(es[i] == (p.0, p.1));
    }
    if holds_pair(es, p.0, p.1) {
        let i = choose|i: int| 0 <= i < es.len() && #[trigger] es[i] == (p.0, p.1);
        assert(es[i] == p);
    }
}

/// The entry of a write has the write's sequence number.
proof fn lemma_entry_seq(w: LoggedView, p: Pair)
    requires
        entry_of(w.op, w.seq) == Some(p),
    ensures
        seq_of(p.0) == w.seq,
{
    match w.op {
        OpView::Put { key, value } => {
            lemma_decode_encoded(key, w.seq, super::internal_key::VALUE_TYPE_VALUE);
        },
        OpView::Delete { key } => {
            lemma_decode_encoded(key, w.seq, super::internal_key::VALUE_TYPE_DELETION);
        },
        OpView::Merge { key, operand } => {
            lemma_decode_encoded(key, w.seq, super::internal_key::VALUE_TYPE_MERGE);
        },
        OpView::DeleteRange { start, end } => {},
    }
}

proof fn lemma_deletions_after(m0: MemTable, m1: MemTable, w: LoggedView, t: TombstoneView)
    requires
        wrote(m0, m1, w.op, w.seq),
    ensures
        holds(m1.tombstones(), t) == (holds(m0.tombstones(), t) || deletion_of(w) == Some(t)),
{
    let a = m0.tombstones();
    let b = m1.tombstones();
    if deletion_of(w) is Some {
        assert(b.drop_last() == a);
        if holds(a, t) {
            let i = choose|i: int| 0 <= i < a.len() && (#[trigger] a[i])@ == t;
            assert(b.drop_last()[i] == b[i]);
            assert(b[i]@ == t);
        }
        if deletion_of(w) == Some(t) {
            assert(b[b.len() - 1]@ == t);
        }
        if holds(b, t) {
            let i = choose|i: int| 0 <= i < b.len() && (#[trigger] b[i])@ == t;
            if i < b.len() - 1 {
                assert(b.drop_last()[i] == b[i]);
                assert(a[i]@ == t);
            }
        }
    }
}

/// An empty memtable holds what an empty log says.
pub proof fn lemma_empty_holds_log(m: MemTable)
    requires
        m.entries().len() == 0,
        m.tombstones().len() == 0,
    ensures
        holds_log(m, Seq::empty()),
{
    let none = Seq::<LoggedView>::empty();
    assert forall|p: Pair| #[trigger] m.entries().contains(p) == logs_entry(none, p) by {
        if logs_entry(none, p) {
            let i = choose|i: int| #[trigger] logs_at(none, i, p);
            assert(false);
        }
    }
    assert forall|t: TombstoneView| #[trigger] holds(m.tombstones(), t) == logs_deletion(
        none,
        t,
    ) by {
        if logs_deletion(none, t) {
            let i = choose|i: int| #[trigger] logs_deletion_at(none, i, t);
            assert(false);
        }
    }
}

/// A batch whose writes are appended to the log, with sequence numbers that no
/// write had before, leaves the log saying what the memtable holds.
pub proof fn lemma_batch_is_logged(
    m0: MemTable,
    m1: MemTable,
    log: Seq<LoggedView>,
    ops: Seq<OpView>,
    base: u64,
)
    requires
        holds_log(m0, log),
        one_write_each(log),
        wrote_all(m0, m1, ops, base),
        base + ops.len() <= u64::MAX + 1,
        forall|i: int| 0 <= i < log.len() ==> (#[trigger] log[i]).seq < base,
    ensures
        holds_log(m1, log + batch_log(ops, base)),
        one_write_each(log + batch_log(ops, base)),
{
    let ms = choose|ms: Seq<MemTable>| #[trigger]
        is_history(ms, ops, base) && ms[0] == m0 && ms[ops.len() as int] == m1;
    let n = ops.len() as int;
    lemma_history_is_logged(ms, log, ops, base, n);
    assert(batch_log(ops, base).take(n) =~= batch_log(ops, base));
    let all = log + batch_log(ops, base);
    assert forall|i: int, j: int|
        0 <= i < j < all.len() && (#[trigger] all[i]).seq == (#[trigger] all[j]).seq implies all[i]
        == all[j] by {
        let k = log.len() as int;
        if j < k {
            assert(all[i] == log[i] && all[j] == log[j]);
        } else {
            assert(all[j] == batch_log(ops, base)[j - k]);
            if i < k {
                assert(log[i].seq < base);
            } else {
                assert(all[i] == batch_log(ops, base)[i - k]);
            }
        }
    }
}

proof fn lemma_history_is_logged(
    ms: Seq<MemTable>,
    log: Seq<LoggedView>,
    ops: Seq<OpView>,
    base: u64,
    n: int,
)
    requires
        is_history(ms, ops, base),
        holds_log(ms[0], log),
        base + ops.len() <= u64::MAX + 1,
        forall|i: int| 0 <= i < log.len() ==> (#[trigger] log[i]).seq < base,
        0 <= n <= ops.len(),
    ensures
        holds_log(ms[n], log + batch_log(ops, base).take(n)),
    decreases n,
{
    let b = batch_log(ops, base);
    if n == 0 {
        assert(log + b.take(0) =~= log);
    } else {
        lemma_history_is_logged(ms, log, ops, base, n - 1);
        let before = log + b.take(n - 1);
        let w = b[n - 1];
        assert(wrote(ms[n - 1], ms[n], ops[n - 1], (base + (n - 1)) as u64));
        assert forall|i: int| 0 <= i < before.len() implies (#[trigger] before[i]).seq
            != w.seq by {
            if i < log.len() {
                assert(before[i] == log[i]);
                assert(log[i].seq < base);
            } else {
                assert(before[i] == b[i - log.len()]);
            }
        }
        lemma_logged_write(ms[n - 1], ms[n], before, w);
        assert(log + b.take(n) =~= before.push(w));
    }
}

/// A memtable that a log was replayed into holds what the log says.
pub proof fn lemma_replay_holds_log(empty: MemTable, m: MemTable, log: Seq<LoggedView>)
    requires
        empty.entries().len() == 0,
        empty.tombstones().len() == 0,
        replayed(empty, m, log),
        one_write_each(log),
    ensures
        holds_log(m, log),
{
    let ms = choose|ms: Seq<MemTable>| #[trigger]
        is_replay(ms, log) && ms[0] == empty && ms[log.len() as int] == m;
    lemma_replayed_so_far(ms, log, log.len() as int);
    assert(log.take(log.len() as int) =~= log);
}

proof fn lemma_replayed_so_far(ms: Seq<MemTable>, log: Seq<LoggedView>, n: int)
    requires
        is_replay(ms, log),
        ms[0].entries().len() == 0,
        ms[0].tombstones().len() == 0,
        one_write_each(log),
        0 <= n <= log.len(),
    ensures
        holds_log(ms[n], log.take(n)),
    decreases n,
{
    if n == 0 {
        lemma_empty_holds_log(ms[0]);
        assert(log.take(0) =~= Seq::<LoggedView>::empty());
    } else {
        lemma_replayed_so_far(ms, log, n - 1);
        let before = log.take(n - 1);
        let w = log[n - 1];
        assert(wrote(ms[n - 1], ms[n], w.op, w.seq));
        assert forall|i: int|
            0 <= i < before.len() && (#[trigger] before[i]).seq == w.seq implies before[i]
            == w by {
            assert(before[i] == log[i]);
        }
        lemma_logged_write(ms[n - 1], ms[n], before, w);
        assert(log.take(n) =~= before.push(w));
    }
}

// ── The logs of a database ───────────────────────────────────────

/// Several logs as one, in their order.
pub open spec fn one_log(logs: Seq<Seq<LoggedView>>) -> Seq<LoggedView>
    decreases logs.len(),
{
    if logs.len() == 0 {
        Seq::empty()
    } else {
        one_log(logs.drop_last()) + logs.last()
    }
}

/// The logs say what the memtables hold: one log for each sealed memtable, the
/// oldest first, and the last for the active one.
pub open spec fn logs_say(v: ReadView, logs: Seq<Seq<LoggedView>>) -> bool {
    &&& logs.len() == v.frozen@.len() + 1
    &&& forall|i: int|
        0 <= i < v.frozen@.len() ==> holds_log(#[trigger] v.frozen@[i], logs[i])
    &&& holds_log(v.active, logs.last())
}

proof fn lemma_one_log(logs: Seq<Seq<LoggedView>>, p: Pair, t: TombstoneView)
    ensures
        logs_entry(one_log(logs), p) == exists|k: int|
            0 <= k < logs.len() && logs_entry(#[trigger] logs[k], p),
        logs_deletion(one_log(logs), t) == exists|k: int|
            0 <= k < logs.len() && logs_deletion(#[trigger] logs[k], t),
    decreases logs.len(),
{
    let all = one_log(logs);
    if logs.len() == 0 {
        if logs_entry(all, p) {
            let i = choose|i: int| #[trigger] logs_at(all, i, p);
            assert(false);
        }
        if logs_deletion(all, t) {
            let i = choose|i: int| #[trigger] logs_deletion_at(all, i, t);
            assert(false);
        }
    } else {
        let d = logs.drop_last();
        let a = one_log(d);
        let b = logs.last();
        let n = a.len() as int;
        lemma_one_log(d, p, t);
        assert(logs[logs.len() - 1] == b);
        assert forall|k: int| 0 <= k < d.len() implies d[k] == logs[k] by {}
        if logs_entry(all, p) {
            let i = choose|i: int| #[trigger] logs_at(all, i, p);
            if i < n {
                assert(all[i] == a[i]);
                assert(logs_at(a, i, p));
                let k = choose|k: int| 0 <= k < d.len() && logs_entry(#[trigger] d[k], p);
                assert(logs_entry(logs[k], p));
            } else {
                assert(all[i] == b[i - n]);
                assert(logs_at(b, i - n, p));
                assert(logs_entry(logs[logs.len() - 1], p));
            }
        }
        if exists|k: int| 0 <= k < logs.len() && logs_entry(#[trigger] logs[k], p) {
            let k = choose|k: int| 0 <= k < logs.len() && logs_entry(#[trigger] logs[k], p);
            if k < d.len() {
                assert(logs_entry(d[k], p));
                let i = choose|i: int| #[trigger] logs_at(a, i, p);
                assert(all[i] == a[i]);
                assert(logs_at(all, i, p));
            } else {
                let i = choose|i: int| #[trigger] logs_at(b, i, p);
                assert(all[n + i] == b[i]);
                assert(logs_at(all, n + i, p));
            }
        }
        if logs_deletion(all, t) {
            let i = choose|i: int| #[trigger] logs_deletion_at(all, i, t);
            if i < n {
                assert(all[i] == a[i]);
                assert(logs_deletion_at(a, i, t));
                let k = choose|k: int| 0 <= k < d.len() && logs_deletion(#[trigger] d[k], t);
                assert(logs_deletion(logs[k], t));
            } else {
                assert(all[i] == b[i - n]);
                assert(logs_deletion_at(b, i - n, t));
                assert(logs_deletion(logs[logs.len() - 1], t));
            }
        }
        if exists|k: int| 0 <= k < logs.len() && logs_deletion(#[trigger] logs[k], t) {
            let k = choose|k: int| 0 <= k < logs.len() && logs_deletion(#[trigger] logs[k], t);
            if k < d.len() {
                assert(logs_deletion(d[k], t));
                let i = choose|i: int| #[trigger] logs_deletion_at(a, i, t);
                assert(all[i] == a[i]);
                assert(logs_deletion_at(all, i, t));
            } else {
                let i = choose|i: int| #[trigger] logs_deletion_at(b, i, t);
                assert(all[n + i] == b[i]);
                assert(logs_deletion_at(all, n + i, t));
            }
        }
    }
}

/// The memtables hold what the logs say together.
proof fn lemma_memory_is_logged(v: ReadView, logs: Seq<Seq<LoggedView>>, p: Pair, t: TombstoneView)
    requires
        logs_say(v, logs),
    ensures
        in_memory(v, p) == logs_entry(one_log(logs), p),
        logs_deletion(one_log(logs), t) == (holds(v.active.tombstones(), t) || exists|i: int|
            0 <= i < v.frozen@.len() && holds((#[trigger] v.frozen@[i]).tombstones(), t)),
{
    let f = v.frozen@.len() as int;
    lemma_one_log(logs, p, t);
    assert(logs[f] == logs.last());
    assert(v.active.entries().contains(p) == logs_entry(logs.last(), p));
    assert(holds(v.active.tombstones(), t) == logs_deletion(logs.last(), t));
    if in_memory(v, p) && !v.active.entries().contains(p) {
        let i = choose|i: int|
            0 <= i < v.frozen@.len() && (#[trigger] v.frozen@[i]).entries().contains(p);
        assert(logs_entry(logs[i], p));
    }
    if v.active.entries().contains(p) {
        assert(logs_entry(logs[f], p));
    }
    if logs_entry(one_log(logs), p) {
        let k = choose|k: int| 0 <= k < logs.len() && logs_entry(#[trigger] logs[k], p);
        if k < f {
            assert(v.frozen@[k].entries().contains(p));
        }
    }
    if exists|i: int| 0 <= i < f && holds((#[trigger] v.frozen@[i]).tombstones(), t) {
        let i = choose|i: int| 0 <= i < f && holds((#[trigger] v.frozen@[i]).tombstones(), t);
        assert(logs_deletion(logs[i], t));
    }
    if holds(v.active.tombstones(), t) {
        assert(logs_deletion(logs[f], t));
    }
    if logs_deletion(one_log(logs), t) {
        let k = choose|k: int| 0 <= k < logs.len() && logs_deletion(#[trigger] logs[k], t);
        if k < f {
            assert(holds(v.frozen@[k].tombstones(), t));
        }
    }
}

/// Sealing the active memtable and starting a log for the new one leaves the
/// logs saying what the memtables hold.
pub proof fn lemma_sealing_keeps_logs(v0: ReadView, v1: ReadView, logs: Seq<Seq<LoggedView>>)
    requires
        logs_say(v0, logs),
        v1.frozen@ == v0.frozen@.push(v0.active),
        v1.active.entries().len() == 0,
        v1.active.tombstones().len() == 0,
    ensures
        logs_say(v1, logs.push(Seq::empty())),
{
    let after = logs.push(Seq::empty());
    lemma_empty_holds_log(v1.active);
    assert forall|i: int| 0 <= i < v1.frozen@.len() implies holds_log(
        #[trigger] v1.frozen@[i],
        after[i],
    ) by {
        if i < v0.frozen@.len() {
            assert(v1.frozen@[i] == v0.frozen@[i]);
        }
    }
}

/// Letting go of the oldest sealed memtable and of its log leaves the logs
/// saying what the memtables hold.
pub proof fn lemma_flushing_keeps_logs(v0: ReadView, v1: ReadView, logs: Seq<Seq<LoggedView>>)
    requires
        logs_say(v0, logs),
        v0.frozen@.len() > 0,
        v1.frozen@ == v0.frozen@.remove(0),
        v1.active == v0.active,
    ensures
        logs_say(v1, logs.remove(0)),
{
    assert forall|i: int| 0 <= i < v1.frozen@.len() implies holds_log(
        #[trigger] v1.frozen@[i],
        logs.remove(0)[i],
    ) by {
        assert(v1.frozen@[i] == v0.frozen@[i + 1]);
    }
}

proof fn lemma_same_writes(
    a: Seq<LoggedView>,
    b: Seq<LoggedView>,
    p: Pair,
    t: TombstoneView,
)
    requires
        same_writes(a, b),
    ensures
        logs_entry(a, p) ==> logs_entry(b, p),
        logs_deletion(a, t) ==> logs_deletion(b, t),
{
    if logs_entry(a, p) {
        let i = choose|i: int| #[trigger] logs_at(a, i, p);
        assert(a.contains(a[i]));
        let j = choose|j: int| 0 <= j < b.len() && b[j] == a[i];
        assert(logs_at(b, j, p));
    }
    if logs_deletion(a, t) {
        let i = choose|i: int| #[trigger] logs_deletion_at(a, i, t);
        assert(a.contains(a[i]));
        let j = choose|j: int| 0 <= j < b.len() && b[j] == a[i];
        assert(logs_deletion_at(b, j, t));
    }
}

// ── Recovery ─────────────────────────────────────────────────────

/// `v1` is what was recovered of `v0` from its tables and its logs, which were
/// read back as `log`.
pub open spec fn recovered(
    v0: ReadView,
    v1: ReadView,
    logs: Seq<Seq<LoggedView>>,
    log: Seq<LoggedView>,
) -> bool {
    &&& logs_say(v0, logs)
    &&& same_writes(one_log(logs), log)
    &&& one_write_each(log)
    &&& v1.version@.levels == v0.version@.levels
    &&& v1.frozen@.len() == 0
    &&& exists|empty: MemTable|
        empty.entries().len() == 0 && empty.tombstones().len() == 0 && #[trigger] replayed(
            empty,
            v1.active,
            log,
        )
}

/// The recovered memtable holds what the memtables held.
pub proof fn lemma_same_memory(
    v0: ReadView,
    v1: ReadView,
    logs: Seq<Seq<LoggedView>>,
    log: Seq<LoggedView>,
    p: Pair,
    t: TombstoneView,
)
    requires
        recovered(v0, v1, logs, log),
    ensures
        v1.active.entries().contains(p) == in_memory(v0, p),
        in_memory(v1, p) == in_memory(v0, p),
        holds(v1.active.tombstones(), t) == (holds(v0.active.tombstones(), t) || exists|i: int|
            0 <= i < v0.frozen@.len() && holds((#[trigger] v0.frozen@[i]).tombstones(), t)),
{
    let empty = choose|empty: MemTable|
        empty.entries().len() == 0 && empty.tombstones().len() == 0 && #[trigger] replayed(
            empty,
            v1.active,
            log,
        );
    lemma_replay_holds_log(empty, v1.active, log);
    lemma_same_writes(one_log(logs), log, p, t);
    lemma_same_writes(log, one_log(logs), p, t);
    lemma_memory_is_logged(v0, logs, p, t);
    assert(v1.active.entries().contains(p) == logs_entry(log, p));
    assert(holds(v1.active.tombstones(), t) == logs_deletion(log, t));
}

/// Versions with the same levels have the same tables.
pub proof fn lemma_same_tables(v0: ReadView, v1: ReadView)
    requires
        v1.version@.levels == v0.version@.levels,
    ensures
        forall|t: Arc<LiveSst>| #[trigger] has_table(v1.version, t) == has_table(v0.version, t),
        forall|p: Pair| #[trigger] in_tables(v1.version, p) == in_tables(v0.version, p),
        forall|t: RangeTombstone| #[trigger]
            rt_in_tables(v1.version, t) == rt_in_tables(v0.version, t),
        v1.version.levels@.len() == v0.version.levels@.len(),
        forall|l: int|
            0 <= l < v0.version.levels@.len() ==> (#[trigger] v1.version.levels@[l])@
                == v0.version.levels@[l]@,
{
    let (a, b) = (v0.version, v1.version);
    assert(a@.levels.len() == a.levels@.len() && b@.levels.len() == b.levels@.len());
    assert forall|l: int| 0 <= l < v0.version.levels@.len() implies (
    #[trigger] v1.version.levels@[l])@ == v0.version.levels@[l]@ by {
        assert(v1.version@.levels[l] == v0.version@.levels[l]);
    }
    assert forall|t: Arc<LiveSst>| #[trigger] has_table(v1.version, t) == has_table(
        v0.version,
        t,
    ) by {
        if has_table(v1.version, t) {
            let (l, i) = choose|l: int, i: int| #[trigger] table_at(v1.version, l, i, t);
            assert(v1.version.levels@[l]@ == v0.version.levels@[l]@);
            assert(table_at(v0.version, l, i, t));
        }
        if has_table(v0.version, t) {
            let (l, i) = choose|l: int, i: int| #[trigger] table_at(v0.version, l, i, t);
            assert(v1.version.levels@[l]@ == v0.version.levels@[l]@);
            assert(table_at(v1.version, l, i, t));
        }
    }
    assert forall|p: Pair| #[trigger] in_tables(v1.version, p) == in_tables(v0.version, p) by {
        if in_tables(v1.version, p) {
            let t = choose|t: Arc<LiveSst>| #[trigger]
                has_table(v1.version, t) && t.reader.entries().contains(p);
            assert(has_table(v0.version, t));
        }
        if in_tables(v0.version, p) {
            let t = choose|t: Arc<LiveSst>| #[trigger]
                has_table(v0.version, t) && t.reader.entries().contains(p);
            assert(has_table(v1.version, t));
        }
    }
    assert forall|x: RangeTombstone| #[trigger]
        rt_in_tables(v1.version, x) == rt_in_tables(v0.version, x) by {
        if rt_in_tables(v1.version, x) {
            let t = choose|t: Arc<LiveSst>| #[trigger]
                has_table(v1.version, t) && t.reader.tombstones().contains(x);
            assert(has_table(v0.version, t));
        }
        if rt_in_tables(v0.version, x) {
            let t = choose|t: Arc<LiveSst>| #[trigger]
                has_table(v0.version, t) && t.reader.tombstones().contains(x);
            assert(has_table(v1.version, t));
        }
    }
}

/// Below the memtables the layers are the same.
proof fn lemma_same_depths(v0: ReadView, v1: ReadView, key: Seq<u8>, n: int)
    requires
        v0.wf(),
        v1.wf(),
        v1.version@.levels == v0.version@.levels,
        v1.frozen@.len() == 0,
        1 <= n < v1.layers(key).len(),
    ensures
        n + v0.frozen@.len() < v0.layers(key).len(),
        v1.layers(key)[n] == v0.layers(key)[n + v0.frozen@.len()],
{
    let f = v0.frozen@.len() as int;
    lemma_same_tables(v0, v1);
    lemma_layer_at(v1, key, n);
    lemma_layer_at(v0, key, 0);
    assert(v1.version.levels@[0]@ == v0.version.levels@[0]@);
    let l0 = v0.version.levels@[0]@;
    lemma_layer_at(v0, key, n + f);
    if n >= 1 + l0.len() {
        let l = n - l0.len();
        assert(v1.version.levels@[l]@ == v0.version.levels@[l]@);
    }
}

/// Where a version of the recovered view stood before.
proof fn lemma_stood_at(
    v0: ReadView,
    v1: ReadView,
    logs: Seq<Seq<LoggedView>>,
    log: Seq<LoggedView>,
    key: Seq<u8>,
    n: int,
    r: int,
    p: Pair,
) -> (m: int)
    requires
        v0.wf(),
        v1.wf(),
        recovered(v0, v1, logs, log),
        in_run(v1.layers(key), n, r, p),
    ensures
        in_run(v0.layers(key), m, r, p),
        n == 0 ==> r == 0 && m <= v0.frozen@.len(),
        n > 0 ==> m == n + v0.frozen@.len(),
{
    let f = v0.frozen@.len() as int;
    lemma_layer_at(v1, key, 0);
    lemma_layer_at(v0, key, 0);
    if n == 0 {
        let none = TombstoneView { start: Seq::empty(), end: Seq::empty(), seq: 0 };
        lemma_same_memory(v0, v1, logs, log, p, none);
        if v0.active.entries().contains(p) {
            assert(in_run(v0.layers(key), 0, 0, p));
            0
        } else {
            let i = choose|i: int|
                0 <= i < v0.frozen@.len() && (#[trigger] v0.frozen@[i]).entries().contains(p);
            lemma_layer_at(v0, key, f - i);
            assert(in_run(v0.layers(key), f - i, 0, p));
            f - i
        }
    } else {
        lemma_same_depths(v0, v1, key, n);
        n + f
    }
}

/// A tombstone in memory is in the recovered memtable.
proof fn lemma_shield_recovered(
    v0: ReadView,
    v1: ReadView,
    logs: Seq<Seq<LoggedView>>,
    log: Seq<LoggedView>,
    key: Seq<u8>,
    m: int,
    x: int,
    u: RangeTombstone,
)
    requires
        v0.wf(),
        v1.wf(),
        recovered(v0, v1, logs, log),
        0 <= m <= v0.frozen@.len(),
        in_set(v0.layers(key), m, x, u),
        u@.covers(key),
    ensures
        layer_shields(v1.layers(key), 0, key, u.seq),
{
    let any: Pair = (Seq::empty(), Seq::empty());
    lemma_layer_at(v0, key, m);
    lemma_layer_at(v1, key, 0);
    assert(rt_in_memory(v0, u)) by {
        if m > 0 {
            assert(v0.frozen@[v0.frozen@.len() - m].tombstones().contains(u));
        }
    }
    lemma_same_memory(v0, v1, logs, log, any, u@);
    lemma_holds_in_memory(v0, u);
    let s = v1.active.tombstones();
    let i = choose|i: int| 0 <= i < s.len() && (#[trigger] s[i])@ == u@;
    assert(s.contains(s[i]));
    assert(in_set(v1.layers(key), 0, 0, s[i]));
    assert(s[i]@.seq == u@.seq);
}

/// The recovered layers are in order of age.
proof fn lemma_recovered_aged(
    v0: ReadView,
    v1: ReadView,
    logs: Seq<Seq<LoggedView>>,
    log: Seq<LoggedView>,
    key: Seq<u8>,
)
    requires
        v0.wf(),
        v1.wf(),
        recovered(v0, v1, logs, log),
        aged(v0.layers(key), key),
    ensures
        aged(v1.layers(key), key),
{
    let f = v0.frozen@.len() as int;
    let a = v0.layers(key);
    let b = v1.layers(key);
    lemma_layer_at(v1, key, 0);
    v1.active.lemma_sorted();
    assert forall|i: int, r: int|
        0 <= i < b.len() && 0 <= r < b[i].runs.len() implies super::block::sorted_entries(
        #[trigger] b[i].runs[r],
    ) by {
        if i > 0 {
            lemma_same_depths(v0, v1, key, i);
            assert(a[i + f].runs[r] == b[i].runs[r]);
        }
    }
    assert forall|i: int, r: int, p: Pair, j: int, s: int, q: Pair|
        #![trigger in_run(b, i, r, p), in_run(b, j, s, q)]
        in_run(b, i, r, p) && in_run(b, j, s, q) && user_of(p.0) == key && user_of(q.0) == key && (i
            < j || i == j && r < s) implies ik_lt(p.0, q.0) by {
        let m = lemma_stood_at(v0, v1, logs, log, key, i, r, p);
        let n = lemma_stood_at(v0, v1, logs, log, key, j, s, q);
        assert(in_run(a, m, r, p) && in_run(a, n, s, q));
    }
    assert forall|i: int, r: int, p: Pair, j: int, s: int, t: RangeTombstone|
        #![trigger in_run(b, i, r, p), in_set(b, j, s, t)]
        in_run(b, i, r, p) && in_set(b, j, s, t) && user_of(p.0) == key && t@.covers(key) && i
            < j implies t.seq < seq_of(p.0) || layer_shields(b, i, key, t.seq) by {
        let m = lemma_stood_at(v0, v1, logs, log, key, i, r, p);
        lemma_same_depths(v0, v1, key, j);
        assert(in_set(a, j + f, s, t));
        assert(in_run(a, m, r, p));
        if layer_shields(a, m, key, t.seq) {
            let (x, u) = choose|x: int, u: RangeTombstone| #[trigger]
                in_set(a, m, x, u) && u@.covers(key) && u.seq == t.seq;
            if i > 0 {
                lemma_same_depths(v0, v1, key, i);
                assert(in_set(b, i, x, u));
            } else {
                lemma_shield_recovered(v0, v1, logs, log, key, m, x, u);
            }
        }
    }
}

/// The recovered tombstones delete what was deleted.
proof fn lemma_recovered_deletes(
    v0: ReadView,
    v1: ReadView,
    logs: Seq<Seq<LoggedView>>,
    log: Seq<LoggedView>,
    key: Seq<u8>,
    snapshot_seq: u64,
    seq: u64,
)
    requires
        v0.wf(),
        v1.wf(),
        recovered(v0, v1, logs, log),
    ensures
        deletes_at(v0.layers(key), key, snapshot_seq, seq) == deletes_at(
            v1.layers(key),
            key,
            snapshot_seq,
            seq,
        ),
{
    let a = v0.layers(key);
    let b = v1.layers(key);
    let any: Pair = (Seq::empty(), Seq::empty());
    lemma_same_tables(v0, v1);
    if deletes_at(a, key, snapshot_seq, seq) {
        let (n, r, x) = choose|n: int, r: int, x: RangeTombstone| #[trigger]
            in_set(a, n, r, x) && x@.covers(key) && x.seq <= snapshot_seq && x.seq == seq;
        assert(in_set(a, n, r, x));
        lemma_in_sets(v0, key, x);
        let y = if rt_in_tables(v0.version, x) {
            x
        } else {
            lemma_same_memory(v0, v1, logs, log, any, x@);
            lemma_holds_in_memory(v0, x);
            let s = v1.active.tombstones();
            let i = choose|i: int| 0 <= i < s.len() && (#[trigger] s[i])@ == x@;
            assert(s.contains(s[i]));
            s[i]
        };
        assert(y@ == x@ && (rt_in_memory(v1, y) || rt_in_tables(v1.version, y)));
        lemma_in_sets(v1, key, y);
        let (c, d) = choose|c: int, d: int| #[trigger] in_set(b, c, d, y);
        assert(in_set(b, c, d, y));
        assert(y@.seq == x@.seq);
    }
    if deletes_at(b, key, snapshot_seq, seq) {
        let (n, r, x) = choose|n: int, r: int, x: RangeTombstone| #[trigger]
            in_set(b, n, r, x) && x@.covers(key) && x.seq <= snapshot_seq && x.seq == seq;
        assert(in_set(b, n, r, x));
        lemma_in_sets(v1, key, x);
        let y = if rt_in_tables(v1.version, x) {
            x
        } else {
            lemma_same_memory(v0, v1, logs, log, any, x@);
            let s = v1.active.tombstones();
            let i = choose|i: int| 0 <= i < s.len() && s[i] == x;
            assert(s[i]@ == x@);
            assert(holds(v1.active.tombstones(), x@));
            if holds(v0.active.tombstones(), x@) {
                let t = v0.active.tombstones();
                let j = choose|j: int| 0 <= j < t.len() && (#[trigger] t[j])@ == x@;
                assert(t.contains(t[j]));
                t[j]
            } else {
                let k = choose|k: int|
                    0 <= k < v0.frozen@.len() && holds(
                        (#[trigger] v0.frozen@[k]).tombstones(),
                        x@,
                    );
                let t = v0.frozen@[k].tombstones();
                let j = choose|j: int| 0 <= j < t.len() && (#[trigger] t[j])@ == x@;
                assert(v0.frozen@[k].tombstones().contains(t[j]));
                t[j]
            }
        };
        assert(y@ == x@ && (rt_in_memory(v0, y) || rt_in_tables(v0.version, y)));
        lemma_in_sets(v0, key, y);
        let (c, d) = choose|c: int, d: int| #[trigger] in_set(a, c, d, y);
        assert(in_set(a, c, d, y));
        assert(y@.seq == x@.seq);
    }
}

/// A tombstone in memory is held by a memtable.
pub proof fn lemma_holds_in_memory(v: ReadView, x: RangeTombstone)
    requires
        rt_in_memory(v, x),
    ensures
        holds(v.active.tombstones(), x@) || exists|i: int|
            0 <= i < v.frozen@.len() && holds((#[trigger] v.frozen@[i]).tombstones(), x@),
{
    if v.active.tombstones().contains(x) {
        let s = v.active.tombstones();
        let i = choose|i: int| 0 <= i < s.len() && s[i] == x;
        assert(s[i]@ == x@);
    } else {
        let k = choose|k: int|
            0 <= k < v.frozen@.len() && (#[trigger] v.frozen@[k]).tombstones().contains(x);
        let s = v.frozen@[k].tombstones();
        let i = choose|i: int| 0 <= i < s.len() && s[i] == x;
        assert(s[i]@ == x@);
        assert(holds(v.frozen@[k].tombstones(), x@));
    }
}

/// A crash loses nothing that is in a table or in a log: a database that is
/// recovered from its tables and logs reads as before, at every snapshot, with
/// and without a merge operator. Sequence numbers start at 1, and each was
/// given to one write; the log may say a write again, as after a recovery that
/// was itself cut short.
pub proof fn lemma_recovery_loses_nothing(
    v0: ReadView,
    v1: ReadView,
    logs: Seq<Seq<LoggedView>>,
    log: Seq<LoggedView>,
    key: Seq<u8>,
    snapshot_seq: u64,
)
    requires
        v0.wf(),
        v1.wf(),
        recovered(v0, v1, logs, log),
        aged(v0.layers(key), key),
        forall|p: Pair| #[trigger] in_layers(v0.layers(key), p) ==> seq_of(p.0) > 0,
    ensures
        walk(v1.layers(key), key, snapshot_seq, 0) == walk(v0.layers(key), key, snapshot_seq, 0),
        outcome_of(walk_chain(v1.layers(key), key, snapshot_seq, 0)) == outcome_of(
            walk_chain(v0.layers(key), key, snapshot_seq, 0),
        ),
        aged(v1.layers(key), key),
{
    let a = v0.layers(key);
    let b = v1.layers(key);
    let none = TombstoneView { start: Seq::empty(), end: Seq::empty(), seq: 0 };
    lemma_recovered_aged(v0, v1, logs, log, key);
    lemma_same_tables(v0, v1);
    assert forall|p: Pair| visible(p, key, snapshot_seq) implies #[trigger] in_layers(b, p)
        == in_layers(a, p) by {
        lemma_in_layers(v0, key, p);
        lemma_in_layers(v1, key, p);
        lemma_same_memory(v0, v1, logs, log, p, none);
    }
    assert forall|seq: u64| #[trigger]
        deletes_at(a, key, snapshot_seq, seq) == deletes_at(b, key, snapshot_seq, seq) by {
        lemma_recovered_deletes(v0, v1, logs, log, key, snapshot_seq, seq);
    }
    assert(reads_alike(a, b, key, snapshot_seq));
    lemma_rewriting_keeps_lookups(a, b, key, snapshot_seq);
    lemma_rewriting_keeps_chains(a, b, key, snapshot_seq);
}

} // verus!
