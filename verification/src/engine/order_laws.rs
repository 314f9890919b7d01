//! What keeps the sources of a database in order.

use super::age_laws::depth;
use super::age_laws::entries_of;
use super::age_laws::has_deletion;
use super::age_laws::has_version;
use super::age_laws::in_age_order;
use super::age_laws::is_deep;
use super::age_laws::is_source;
use super::age_laws::lemma_compaction_keeps_age_order;
use super::age_laws::lemma_dropping_empty_keeps_age_order;
use super::age_laws::lemma_empty_is_in_age_order;
use super::age_laws::lemma_flush_keeps_age_order;
use super::age_laws::lemma_history_adds;
use super::age_laws::lemma_sealing_keeps_age_order;
use super::age_laws::lemma_writing_keeps_age_order;
use super::age_laws::older_bounded;
use super::age_laws::shields;
use super::age_laws::tombstones_of;
use super::age_laws::Push;
use super::age_laws::Source;
use super::batch::is_history;
use super::batch::wrote_all;
use super::batch::OpView;
use super::block_entry::Pair;
use super::compaction::all_entries;
use super::compaction_laws::has_table;
use super::compaction_laws::in_memory;
use super::compaction_laws::in_tables;
use super::compaction_laws::lemma_adds_nothing;
use super::compaction_laws::lemma_all_entries;
use super::compaction_laws::replaced;
use super::compaction_laws::rt_in_memory;
use super::compaction_laws::table_at;
use super::compaction_laws::Merged;
use super::engine_laws::flushed;
use super::hooks::CompactionFilter;
use super::hooks::MergeOperator;
use super::internal_key::ik_lt;
use super::internal_key::seq_of;
use super::internal_key::type_of;
use super::internal_key::user_of;
use super::internal_key::VALUE_TYPE_MERGE;
use super::lark_engine::holds_data;
use super::memtable::MemTable;
use super::push_laws::lemma_done_replaced;
use super::push_laws::unique_ids;
use super::range_tombstone::RangeTombstone;
use super::range_tombstone::TombstoneView;
use super::read_view::ReadView;
use super::recovery::LoggedView;
use super::recovery_laws::lemma_holds_in_memory;
use super::recovery_laws::lemma_same_memory;
use super::recovery_laws::lemma_same_tables;
use super::recovery_laws::recovered;
use super::sstable::LiveSst;
use std::sync::Arc;
use vstd::prelude::*;

verus! {

/// As far as every key goes, the sources are in order of age, and the entries
/// are as the engine writes them.
pub open spec fn in_order(v: ReadView) -> bool {
    &&& forall|key: Seq<u8>| #[trigger] in_age_order(v, key)
    &&& v.proper()
}

/// Nothing that is met is new.
proof fn lemma_proper(v0: ReadView, v1: ReadView)
    requires
        v0.proper(),
        forall|p: Pair| #[trigger] v1.meets(p) ==> v0.meets(p),
    ensures
        v1.proper(),
{
}

/// A database without tables and sealed memtables is in order.
pub proof fn lemma_only_active_is_in_order(v: ReadView)
    requires
        v.frozen@.len() == 0,
        forall|l: int| 0 <= l < v.version.levels@.len() ==> (#[trigger] v.version.levels@[l])@.len()
            == 0,
        forall|p: Pair| #[trigger]
            v.active.entries().contains(p) ==> seq_of(p.0) > 0 && type_of(p.0) <= VALUE_TYPE_MERGE,
    ensures
        in_order(v),
{
    assert forall|key: Seq<u8>| #[trigger] in_age_order(v, key) by {
        lemma_empty_is_in_age_order(v, key);
    }
    assert forall|p: Pair| #[trigger] v.meets(p) implies seq_of(p.0) > 0 && type_of(p.0)
        <= VALUE_TYPE_MERGE by {
        if in_tables(v.version, p) {
            let t = choose|t: Arc<LiveSst>| #[trigger]
                has_table(v.version, t) && t.reader.entries().contains(p);
            let (l, i) = choose|l: int, i: int| #[trigger] table_at(v.version, l, i, t);
            assert(v.version.levels@[l]@.len() == 0);
        }
    }
}

/// Another version with the same tables on the same levels keeps the order.
pub proof fn lemma_same_levels_keep_order(v0: ReadView, v1: ReadView)
    requires
        in_order(v0),
        v1.active == v0.active,
        v1.frozen == v0.frozen,
        v1.version@.levels == v0.version@.levels,
    ensures
        in_order(v1),
{
    let (a, b) = (v0.version, v1.version);
    assert(a@.levels.len() == a.levels@.len() && b@.levels.len() == b.levels@.len());
    assert forall|l: int| 0 <= l < b.levels@.len() implies (#[trigger] b.levels@[l])@
        == a.levels@[l]@ by {
        assert(b@.levels[l] == a@.levels[l]);
    }
    assert(a.levels@[0]@.len() == b.levels@[0]@.len() || b.levels@.len() == 0);
    assert forall|key: Seq<u8>| #[trigger] in_age_order(v1, key) by {
        assert(in_age_order(v0, key));
        assert forall|s: Source, p: Pair| #[trigger] has_version(v1, key, s, p) implies has_version(
            v0,
            key,
            s,
            p,
        ) && depth(v0, s) == depth(v1, s) by {
            lemma_same_source(v0, v1, s);
        }
        assert forall|s: Source, t: RangeTombstone| #[trigger]
            has_deletion(v1, key, s, t) implies has_deletion(v0, key, s, t) && depth(v0, s)
            == depth(v1, s) by {
            lemma_same_source(v0, v1, s);
        }
        assert forall|s: Source, seq: u64| #[trigger]
            shields(v0, key, s, seq) && is_source(v1, s) implies shields(v1, key, s, seq) by {
            lemma_same_source(v0, v1, s);
            let u = choose|u: RangeTombstone| #[trigger]
                has_deletion(v0, key, s, u) && u.seq == seq;
            assert(has_deletion(v1, key, s, u));
        }
        assert forall|s: Source, p: Pair, z: Source, q: Pair|
            #![trigger has_version(v1, key, s, p), has_version(v1, key, z, q)]
            has_version(v1, key, s, p) && has_version(v1, key, z, q) implies (depth(v1, s) < depth(
            v1,
            z,
        ) ==> ik_lt(p.0, q.0)) && (depth(v1, s) == depth(v1, z) ==> s == z) by {
            assert(has_version(v0, key, s, p) && has_version(v0, key, z, q));
        }
        assert forall|s: Source, p: Pair, z: Source, t: RangeTombstone|
            #![trigger has_version(v1, key, s, p), has_deletion(v1, key, z, t)]
            has_version(v1, key, s, p) && has_deletion(v1, key, z, t) && (depth(v1, s) < depth(
                v1,
                z,
            ) || depth(v1, s) == depth(v1, z) && is_deep(s)) implies t.seq < seq_of(p.0) || shields(
            v1,
            key,
            s,
            t.seq,
        ) by {
            assert(has_version(v0, key, s, p) && has_deletion(v0, key, z, t));
            if shields(v0, key, s, t.seq) {
                assert(is_source(v1, s));
            }
        }
    }
    assert forall|p: Pair| #[trigger] v1.meets(p) implies v0.meets(p) by {
        if in_tables(b, p) {
            let t = choose|t: Arc<LiveSst>| #[trigger]
                has_table(b, t) && t.reader.entries().contains(p);
            let (l, i) = choose|l: int, i: int| #[trigger] table_at(b, l, i, t);
            assert(table_at(a, l, i, t));
            assert(has_table(a, t));
        }
    }
    lemma_proper(v0, v1);
}

proof fn lemma_same_source(v0: ReadView, v1: ReadView, s: Source)
    requires
        v1.active == v0.active,
        v1.frozen == v0.frozen,
        v1.version.levels@.len() == v0.version.levels@.len(),
        forall|l: int|
            0 <= l < v1.version.levels@.len() ==> (#[trigger] v1.version.levels@[l])@
                == v0.version.levels@[l]@,
    ensures
        is_source(v1, s) == is_source(v0, s),
        is_source(v1, s) ==> entries_of(v1, s) == entries_of(
            v0,
            s,
        ) && tombstones_of(v1, s) == tombstones_of(v0, s)
            && depth(v1, s) == depth(v0, s),
{
    match s {
        Source::Table(l, i) => {
            if 0 <= l < v0.version.levels@.len() {
                assert(v1.version.levels@[l]@ == v0.version.levels@[l]@);
                assert(v1.version.levels@[0]@ == v0.version.levels@[0]@);
            }
        },
        _ => {},
    }
}

/// Sealing the memtable keeps the order.
pub proof fn lemma_sealing_keeps_order(v0: ReadView, v1: ReadView)
    requires
        in_order(v0),
        v1.version == v0.version,
        v1.frozen@ == v0.frozen@.push(v0.active),
        v1.active.entries().len() == 0,
        v1.active.tombstones().len() == 0,
    ensures
        in_order(v1),
{
    assert forall|key: Seq<u8>| #[trigger] in_age_order(v1, key) by {
        assert(in_age_order(v0, key));
        lemma_sealing_keeps_age_order(v0, v1, key);
    }
    assert forall|p: Pair| #[trigger] v1.meets(p) implies v0.meets(p) by {
        if in_memory(v1, p) {
            let i = choose|i: int|
                0 <= i < v1.frozen@.len() && (#[trigger] v1.frozen@[i]).entries().contains(p);
            if i < v0.frozen@.len() {
                assert(v0.frozen@[i].entries().contains(p));
            }
        }
    }
    lemma_proper(v0, v1);
}

/// Dropping an empty sealed memtable keeps the order.
pub proof fn lemma_dropping_empty_keeps_order(v0: ReadView, v1: ReadView)
    requires
        in_order(v0),
        v0.frozen@.len() > 0,
        !holds_data(v0.frozen@[0]),
        v1.active == v0.active,
        v1.version == v0.version,
        v1.frozen@ == v0.frozen@.remove(0),
    ensures
        in_order(v1),
{
    assert forall|key: Seq<u8>| #[trigger] in_age_order(v1, key) by {
        assert(in_age_order(v0, key));
        lemma_dropping_empty_keeps_age_order(v0, v1, key);
    }
    assert forall|p: Pair| #[trigger] v1.meets(p) implies v0.meets(p) by {
        lemma_tail_met(v0, v1, p);
    }
    lemma_proper(v0, v1);
}

proof fn lemma_tail_met(v0: ReadView, v1: ReadView, p: Pair)
    requires
        v0.frozen@.len() > 0,
        v1.active == v0.active,
        v1.frozen@ == v0.frozen@.remove(0),
    ensures
        in_memory(v1, p) ==> in_memory(v0, p),
{
    if in_memory(v1, p) && !v1.active.entries().contains(p) {
        let i = choose|i: int|
            0 <= i < v1.frozen@.len() && (#[trigger] v1.frozen@[i]).entries().contains(p);
        assert(v1.frozen@[i] == v0.frozen@[i + 1]);
    }
}

/// A flush keeps the order.
pub proof fn lemma_flush_keeps_order(v0: ReadView, v1: ReadView, t: LiveSst)
    requires
        v0.wf(),
        v1.wf(),
        in_order(v0),
        flushed(v0, v1, t),
    ensures
        in_order(v1),
{
    assert forall|key: Seq<u8>| #[trigger] in_age_order(v1, key) by {
        assert(in_age_order(v0, key));
        lemma_flush_keeps_age_order(v0, v1, t, key);
    }
    let (a, b) = (v0.version, v1.version);
    assert forall|p: Pair| #[trigger] v1.meets(p) implies v0.meets(p) by {
        lemma_tail_met(v0, v1, p);
        if in_tables(b, p) {
            let x = choose|x: Arc<LiveSst>| #[trigger]
                has_table(b, x) && x.reader.entries().contains(p);
            let (l, i) = choose|l: int, i: int| #[trigger] table_at(b, l, i, x);
            assert(b@.levels[l] == b.levels@[l]@);
            assert(a@.levels[l] == a.levels@[l]@);
            if l == 0 && i == a.levels@[0]@.len() {
                assert(x == Arc::new(t));
                assert(v0.frozen@[0].entries().contains(p));
            } else {
                assert(table_at(a, l, i, x));
                assert(has_table(a, x));
            }
        }
    }
    lemma_proper(v0, v1);
}

/// A batch with sequence numbers beyond those below the active memtable keeps
/// the order.
pub proof fn lemma_writing_keeps_order(v0: ReadView, v1: ReadView, ops: Seq<OpView>, base: u64)
    requires
        v0.wf(),
        in_order(v0),
        base > 0,
        base + ops.len() <= u64::MAX + 1,
        older_bounded(v0, (base - 1) as u64),
        wrote_all(v0.active, v1.active, ops, base),
        v1.frozen == v0.frozen,
        v1.version == v0.version,
    ensures
        in_order(v1),
{
    assert forall|key: Seq<u8>| #[trigger] in_age_order(v1, key) by {
        assert(in_age_order(v0, key));
        lemma_writing_keeps_age_order(v0, v1, ops, base, key);
    }
    let ms = choose|ms: Seq<MemTable>| #[trigger]
        is_history(ms, ops, base) && ms[0] == v0.active && ms[ops.len() as int] == v1.active;
    assert forall|p: Pair| #[trigger] v1.meets(p) implies seq_of(p.0) > 0 && type_of(p.0)
        <= VALUE_TYPE_MERGE by {
        if v1.active.entries().contains(p) {
            lemma_history_adds(ms, ops, base, ops.len() as int, p);
        }
        if v0.active.entries().contains(p) || !v1.active.entries().contains(p) {
            assert(v0.meets(p));
        }
    }
}

/// A compaction from one level to the next, without filter and operator having
/// a say, keeps the order.
pub proof fn lemma_pushing_down_keeps_order<F: CompactionFilter, M: MergeOperator>(
    c: Merged<'_, F, M>,
    x: Push,
    v0: ReadView,
    v1: ReadView,
)
    requires
        v0.wf(),
        v1.wf(),
        unique_ids(v0.version),
        in_order(v0),
        c.plain(),
        c.files == x.inputs + x.overlaps,
        c.outputs == x.outputs,
        x.picked(v0),
        x.done(v0, v1),
        forall|key: Seq<u8>| #[trigger] x.apart(key),
    ensures
        in_order(v1),
{
    assert forall|key: Seq<u8>| #[trigger] in_age_order(v1, key) by {
        assert(in_age_order(v0, key));
        assert(x.apart(key));
        lemma_compaction_keeps_age_order(c, x, v0, v1, key);
    }
    lemma_done_replaced(x, v0, v1);
    assert(replaced(v0, v1, c.files, c.outputs));
    assert forall|p: Pair| #[trigger] v1.meets(p) implies v0.meets(p) by {
        if in_tables(v1.version, p) {
            let t = choose|t: Arc<LiveSst>| #[trigger]
                has_table(v1.version, t) && t.reader.entries().contains(p);
            if c.outputs.contains(t) {
                let k = choose|k: int| 0 <= k < c.outputs.len() && c.outputs[k] == t;
                assert(c.outputs[k].reader.entries().contains(p));
                lemma_all_entries(c.outputs, p);
                assert(all_entries(c.outputs).contains(p));
                lemma_adds_nothing(c, p);
                lemma_all_entries(c.files, p);
                let a = choose|a: int|
                    0 <= a < c.files.len() && (#[trigger] c.files[a]).reader.entries().contains(p);
                assert(has_table(v0.version, c.files[a]));
            } else {
                assert(has_table(v0.version, t));
            }
        }
    }
    lemma_proper(v0, v1);
}

/// The memtable that holds an entry.
proof fn lemma_memory_source(v: ReadView, key: Seq<u8>, p: Pair) -> (s: Source)
    requires
        in_memory(v, p),
        user_of(p.0) == key,
    ensures
        has_version(v, key, s, p),
        !(s is Table),
        0 <= depth(v, s) <= v.frozen@.len(),
{
    if v.active.entries().contains(p) {
        Source::Active
    } else {
        let i = choose|i: int|
            0 <= i < v.frozen@.len() && (#[trigger] v.frozen@[i]).entries().contains(p);
        Source::Frozen(i)
    }
}

/// Where a version of the recovered database stood before.
proof fn lemma_stood_in(
    v0: ReadView,
    v1: ReadView,
    logs: Seq<Seq<LoggedView>>,
    log: Seq<LoggedView>,
    key: Seq<u8>,
    s: Source,
    p: Pair,
) -> (z: Source)
    requires
        recovered(v0, v1, logs, log),
        v0.version.levels@.len() > 0,
        has_version(v1, key, s, p),
    ensures
        has_version(v0, key, z, p),
        s == Source::Active || s is Table,
        s == Source::Active ==> !(z is Table) && 0 <= depth(v0, z) <= v0.frozen@.len() && depth(
            v1,
            s,
        ) == 0,
        s is Table ==> z == s && depth(v0, z) == depth(v1, s) + v0.frozen@.len() && depth(v1, s)
            > 0,
{
    let none = TombstoneView { start: Seq::empty(), end: Seq::empty(), seq: 0 };
    lemma_same_memory(v0, v1, logs, log, p, none);
    lemma_same_tables(v0, v1);
    match s {
        Source::Table(l, i) => {
            assert(v1.version.levels@[l]@ == v0.version.levels@[l]@);
            assert(v1.version.levels@[0]@ == v0.version.levels@[0]@);
            s
        },
        _ => lemma_memory_source(v0, key, p),
    }
}

/// What is recovered from the tables and the logs is in order.
pub proof fn lemma_recovery_keeps_order(
    v0: ReadView,
    v1: ReadView,
    logs: Seq<Seq<LoggedView>>,
    log: Seq<LoggedView>,
)
    requires
        v0.wf(),
        v1.wf(),
        in_order(v0),
        recovered(v0, v1, logs, log),
    ensures
        in_order(v1),
{
    let none = TombstoneView { start: Seq::empty(), end: Seq::empty(), seq: 0 };
    let f = v0.frozen@.len() as int;
    lemma_same_tables(v0, v1);
    assert forall|key: Seq<u8>| #[trigger] in_age_order(v1, key) by {
        assert(in_age_order(v0, key));
        assert forall|s: Source, p: Pair, z: Source, q: Pair|
            #![trigger has_version(v1, key, s, p), has_version(v1, key, z, q)]
            has_version(v1, key, s, p) && has_version(v1, key, z, q) implies (depth(v1, s) < depth(
            v1,
            z,
        ) ==> ik_lt(p.0, q.0)) && (depth(v1, s) == depth(v1, z) ==> s == z) by {
            let a = lemma_stood_in(v0, v1, logs, log, key, s, p);
            let b = lemma_stood_in(v0, v1, logs, log, key, z, q);
            assert(has_version(v0, key, a, p) && has_version(v0, key, b, q));
        }
        assert forall|s: Source, p: Pair, z: Source, t: RangeTombstone|
            #![trigger has_version(v1, key, s, p), has_deletion(v1, key, z, t)]
            has_version(v1, key, s, p) && has_deletion(v1, key, z, t) && (depth(v1, s) < depth(
                v1,
                z,
            ) || depth(v1, s) == depth(v1, z) && is_deep(s)) implies t.seq < seq_of(p.0) || shields(
            v1,
            key,
            s,
            t.seq,
        ) by {
            let a = lemma_stood_in(v0, v1, logs, log, key, s, p);
            assert(z is Table);
            assert(v1.version.levels@[z->Table_0]@ == v0.version.levels@[z->Table_0]@);
            assert(v1.version.levels@[0]@ == v0.version.levels@[0]@);
            assert(has_deletion(v0, key, z, t));
            assert(depth(v0, z) == depth(v1, z) + f);
            if !(t.seq < seq_of(p.0)) {
                assert(shields(v0, key, a, t.seq));
                let u = choose|u: RangeTombstone| #[trigger]
                    has_deletion(v0, key, a, u) && u.seq == t.seq;
                if s is Table {
                    assert(v1.version.levels@[s->Table_0]@ == v0.version.levels@[s->Table_0]@);
                    assert(has_deletion(v1, key, s, u));
                } else {
                    assert(rt_in_memory(v0, u));
                    lemma_same_memory(v0, v1, logs, log, p, u@);
                    lemma_holds_in_memory(v0, u);
                    let ts = v1.active.tombstones();
                    let i = choose|i: int| 0 <= i < ts.len() && (#[trigger] ts[i])@ == u@;
                    assert(ts.contains(ts[i]));
                    assert(ts[i]@.seq == u@.seq);
                    assert(has_deletion(v1, key, s, ts[i]));
                }
            }
        }
    }
    assert forall|p: Pair| #[trigger] v1.meets(p) implies v0.meets(p) by {
        lemma_same_memory(v0, v1, logs, log, p, none);
    }
    lemma_proper(v0, v1);
}

} // verus!
