//! What taking in a table from outside does to the order of a database.

use super::age_laws::depth;
use super::age_laws::has_deletion;
use super::age_laws::has_version;
use super::age_laws::in_age_order;
use super::age_laws::is_deep;
use super::age_laws::is_source;
use super::age_laws::lemma_age_order_serves_lookups;
use super::age_laws::lemma_covers_deletions;
use super::age_laws::lemma_covers_versions;
use super::age_laws::lemma_rt_bounded;
use super::age_laws::lemma_run_source;
use super::age_laws::lemma_seq_bounded;
use super::age_laws::lemma_version_internal;
use super::age_laws::older_bounded;
use super::age_laws::shields;
use super::age_laws::Source;
use super::block_entry::Pair;
use super::chain_laws::lemma_rewriting_keeps_chains;
use super::compaction_laws::has_table;
use super::compaction_laws::in_memory;
use super::compaction_laws::in_tables;
use super::compaction_laws::lemma_in_layers;
use super::compaction_laws::lemma_in_sets;
use super::compaction_laws::rt_in_memory;
use super::compaction_laws::rt_in_tables;
use super::compaction_laws::table_at;
use super::compaction_pick::meets;
use super::copy_laws::in_tables_alone;
use super::ingest::all_restamped;
use super::ingest::level_meets;
use super::ingest::restamped;
use super::ingest::source_range;
use super::ingest::stamped_views;
use super::ingest::tree_meets;
use super::ingest::users_ascend;
use super::internal_key::ik_le;
use super::internal_key::ik_lt;
use super::internal_key::is_internal;
use super::internal_key::lemma_decode_encoded;
use super::internal_key::lemma_internal_order;
use super::internal_key::seq_of;
use super::internal_key::type_of;
use super::internal_key::user_of;
use super::internal_key::VALUE_TYPE_MERGE;
use super::lark_engine::holds_data;
use super::lark_engine::table_bounded;
use super::lark_engine::with_table;
use super::lookup::deletes_at;
use super::lookup::in_layers;
use super::lookup::in_run;
use super::lookup::in_set;
use super::lookup::is_live;
use super::lookup::lemma_in_layers_internal_at;
use super::lookup::lemma_rewriting_keeps_lookups;
use super::lookup::lemma_walk_finds_live;
use super::lookup::reads_alike;
use super::lookup::walk;
use super::lookup::walk_chain;
use super::lookup::Layer;
use super::manifest_record::MAX_LEVELS;
use super::order_laws::in_order;
use super::range_tombstone::holds;
use super::range_tombstone::lemma_sorted_holds_same;
use super::range_tombstone::tombstone_views;
use super::range_tombstone::RangeTombstone;
use super::range_tombstone::TombstoneView;
use super::read_view::ReadView;
use super::scan::outcome_of;
use super::sstable::LiveSst;
use super::table_build::greatest_key;
use super::table_build::is_table_of;
use super::table_build::least_key;
use super::versions::value_of;
use super::versions::visible;
use crate::bytes::lemma_lex_order;
use crate::ordered::is_sort_dedup;
use std::sync::Arc;
use vstd::prelude::*;

verus! {

/// `v1` is `v0`, whose memtables are empty, with the table `t` on a level: all
/// that `t` holds has the sequence number `seq`, and below level 0 its range
/// meets no other table.
pub open spec fn ingested(v0: ReadView, v1: ReadView, level: int, t: LiveSst, seq: u64) -> bool {
    &&& in_tables_alone(v0)
    &&& v1.active == v0.active
    &&& v1.frozen == v0.frozen
    &&& 0 <= level < v0.version@.levels.len()
    &&& v1.version@.levels == v0.version@.levels.update(
        level,
        v0.version@.levels[level].push(Arc::new(t)),
    )
    &&& forall|p: Pair| #[trigger]
        t.reader.entries().contains(p) ==> seq_of(p.0) == seq && type_of(p.0) <= VALUE_TYPE_MERGE
    &&& forall|x: RangeTombstone| #[trigger] t.reader.tombstones().contains(x) ==> x.seq == seq
    &&& level > 0 ==> !tree_meets(
        v0.version@.levels,
        t.meta.smallest_key@,
        t.meta.largest_key@,
    )
}

/// The tombstones of a table that was built of tombstones with one sequence
/// number have that number.
pub proof fn lemma_restamped_tombstones(
    before: Seq<RangeTombstone>,
    after: Seq<RangeTombstone>,
    seq: u64,
)
    requires
        is_sort_dedup(before, after),
        forall|i: int| 0 <= i < before.len() ==> (#[trigger] before[i])@.seq == seq,
    ensures
        forall|i: int| 0 <= i < after.len() ==> (#[trigger] after[i]).seq == seq,
        forall|x: RangeTombstone| #[trigger] after.contains(x) ==> x.seq == seq,
{
    lemma_sorted_holds_same(before, after);
    assert forall|i: int| 0 <= i < after.len() implies (#[trigger] after[i]).seq == seq by {
        assert(after[i]@ == after[i]@);
        assert(holds(after, after[i]@));
        let j = choose|j: int| 0 <= j < before.len() && (#[trigger] before[j])@ == after[i]@;
        assert(before[j]@.seq == seq);
    }
}

/// The place of the new table.
spec fn place(v0: ReadView, level: int) -> Source {
    Source::Table(level, v0.version.levels@[level]@.len() as int)
}

/// A source other than the new table stood there before.
proof fn lemma_old_source(
    v0: ReadView,
    v1: ReadView,
    level: int,
    t: LiveSst,
    seq: u64,
    key: Seq<u8>,
    s: Source,
)
    requires
        v0.wf(),
        v1.wf(),
        ingested(v0, v1, level, t, seq),
        is_source(v1, s),
        s != place(v0, level),
    ensures
        is_source(v0, s),
        depth(v1, s) == depth(v0, s) + if level == 0 && s is Table {
            1int
        } else {
            0int
        },
        forall|p: Pair| #[trigger] has_version(v1, key, s, p) == has_version(v0, key, s, p),
        forall|x: RangeTombstone| #[trigger]
            has_deletion(v1, key, s, x) == has_deletion(v0, key, s, x),
        forall|q: u64| #[trigger] shields(v0, key, s, q) ==> shields(v1, key, s, q),
        forall|p: Pair| !(s is Table) ==> !#[trigger] has_version(v1, key, s, p),
        forall|x: RangeTombstone| !(s is Table) ==> !#[trigger] has_deletion(v1, key, s, x),
{
    let (a, b) = (v0.version, v1.version);
    assert(a@.levels.len() == a.levels@.len() && b@.levels.len() == b.levels@.len());
    assert(a@.levels[0] == a.levels@[0]@ && b@.levels[0] == b.levels@[0]@);
    match s {
        Source::Table(l, i) => {
            assert(a@.levels[l] == a.levels@[l]@ && b@.levels[l] == b.levels@[l]@);
        },
        Source::Frozen(i) => {
            assert(!holds_data(v0.frozen@[i]));
        },
        Source::Active => {},
    }
    assert forall|q: u64| #[trigger] shields(v0, key, s, q) implies shields(v1, key, s, q) by {
        let x = choose|x: RangeTombstone| #[trigger] has_deletion(v0, key, s, x) && x.seq == q;
        assert(has_deletion(v1, key, s, x));
    }
}

/// The new table is there, and covers what it holds.
proof fn lemma_new_source(v0: ReadView, v1: ReadView, level: int, t: LiveSst, seq: u64)
    requires
        v0.wf(),
        v1.wf(),
        ingested(v0, v1, level, t, seq),
    ensures
        is_source(v1, place(v0, level)),
        v1.version.levels@[level]@[v0.version.levels@[level]@.len() as int] == Arc::new(t),
        depth(v1, place(v0, level)) == if level == 0 {
            v0.frozen@.len() + 1int
        } else {
            level + v0.frozen@.len() + v0.version.levels@[0]@.len()
        },
{
    let (a, b) = (v0.version, v1.version);
    assert(a@.levels.len() == a.levels@.len() && b@.levels.len() == b.levels@.len());
    assert(a@.levels[level] == a.levels@[level]@ && b@.levels[level] == b.levels@[level]@);
    assert(a@.levels[0] == a.levels@[0]@ && b@.levels[0] == b.levels@[0]@);
}

/// Below level 0, no other table covers a key that the new one covers.
proof fn lemma_stands_alone(
    v0: ReadView,
    v1: ReadView,
    level: int,
    t: LiveSst,
    seq: u64,
    key: Seq<u8>,
    l: int,
    i: int,
)
    requires
        ingested(v0, v1, level, t, seq),
        level > 0,
        t.covers(key),
        is_source(v0, Source::Table(l, i)),
    ensures
        !v0.version.levels@[l]@[i].covers(key),
{
    let f = v0.version.levels@[l]@[i];
    let (lo, hi) = (t.meta.smallest_key@, t.meta.largest_key@);
    if f.covers(key) {
        lemma_lex_order(f.meta.smallest_key@, key, hi);
        lemma_lex_order(lo, key, f.meta.largest_key@);
        assert(v0.version@.levels[l] == v0.version.levels@[l]@);
        assert(meets(v0.version@.levels[l][i], lo, hi));
        assert(level_meets(v0.version@.levels[l], lo, hi));
    }
}

/// As far as a key goes, a table taken in from outside keeps the sources in
/// order of age.
pub proof fn lemma_ingest_keeps_age_order(
    v0: ReadView,
    v1: ReadView,
    level: int,
    t: LiveSst,
    seq: u64,
    key: Seq<u8>,
)
    requires
        v0.wf(),
        v1.wf(),
        in_age_order(v0, key),
        seq > 0,
        older_bounded(v0, (seq - 1) as u64),
        ingested(v0, v1, level, t, seq),
    ensures
        in_age_order(v1, key),
{
    let new = place(v0, level);
    let bound = (seq - 1) as u64;
    lemma_new_source(v0, v1, level, t, seq);
    assert forall|s: Source, p: Pair, z: Source, q: Pair|
        #![trigger has_version(v1, key, s, p), has_version(v1, key, z, q)]
        has_version(v1, key, s, p) && has_version(v1, key, z, q) implies (depth(v1, s) < depth(
        v1,
        z,
    ) ==> ik_lt(p.0, q.0)) && (depth(v1, s) == depth(v1, z) ==> s == z) by {
        lemma_version_internal(v1, key, s, p);
        lemma_version_internal(v1, key, z, q);
        lemma_covers_versions(v1, key, s, p);
        lemma_covers_versions(v1, key, z, q);
        if s != new {
            lemma_old_source(v0, v1, level, t, seq, key, s);
            assert(has_version(v0, key, s, p));
            lemma_covers_versions(v0, key, s, p);
        }
        if z != new {
            lemma_old_source(v0, v1, level, t, seq, key, z);
            assert(has_version(v0, key, z, q));
            lemma_covers_versions(v0, key, z, q);
        }
        if s == new && z != new {
            let (l, i) = (z->Table_0, z->Table_1);
            if level > 0 {
                lemma_stands_alone(v0, v1, level, t, seq, key, l, i);
            } else {
                lemma_seq_bounded(v0, key, z, q, bound);
                lemma_internal_order(p.0, q.0);
            }
        }
        if s != new && z == new {
            let (l, i) = (s->Table_0, s->Table_1);
            if level > 0 {
                lemma_stands_alone(v0, v1, level, t, seq, key, l, i);
            }
        }
    }
    assert forall|s: Source, p: Pair, z: Source, x: RangeTombstone|
        #![trigger has_version(v1, key, s, p), has_deletion(v1, key, z, x)]
        has_version(v1, key, s, p) && has_deletion(v1, key, z, x) && (depth(v1, s) < depth(v1, z)
            || depth(v1, s) == depth(v1, z) && is_deep(s)) implies x.seq < seq_of(p.0) || shields(
        v1,
        key,
        s,
        x.seq,
    ) by {
        lemma_covers_versions(v1, key, s, p);
        lemma_covers_deletions(v1, key, z, x);
        if s != new {
            lemma_old_source(v0, v1, level, t, seq, key, s);
            assert(has_version(v0, key, s, p));
            lemma_covers_versions(v0, key, s, p);
        }
        if z != new {
            lemma_old_source(v0, v1, level, t, seq, key, z);
            assert(has_deletion(v0, key, z, x));
            lemma_covers_deletions(v0, key, z, x);
        }
        if s == new && z != new {
            lemma_rt_bounded(v0, key, z, x, bound);
        }
        if s != new && z == new {
            let (l, i) = (s->Table_0, s->Table_1);
            if level > 0 {
                lemma_stands_alone(v0, v1, level, t, seq, key, l, i);
            }
        }
    }
}

/// Taking in a table from outside keeps the database in order.
pub proof fn lemma_ingest_keeps_order(
    v0: ReadView,
    v1: ReadView,
    level: int,
    t: LiveSst,
    seq: u64,
)
    requires
        v0.wf(),
        v1.wf(),
        in_order(v0),
        seq > 0,
        older_bounded(v0, (seq - 1) as u64),
        ingested(v0, v1, level, t, seq),
    ensures
        in_order(v1),
{
    assert forall|key: Seq<u8>| #[trigger] in_age_order(v1, key) by {
        assert(in_age_order(v0, key));
        lemma_ingest_keeps_age_order(v0, v1, level, t, seq, key);
    }
    let (a, b) = (v0.version, v1.version);
    assert forall|p: Pair| #[trigger] v1.meets(p) implies seq_of(p.0) > 0 && type_of(p.0)
        <= VALUE_TYPE_MERGE by {
        if in_memory(v1, p) {
            assert(in_memory(v0, p));
            assert(v0.meets(p));
        } else {
            let x = choose|x: Arc<LiveSst>| #[trigger]
                has_table(b, x) && x.reader.entries().contains(p);
            let (l, i) = choose|l: int, i: int| #[trigger] table_at(b, l, i, x);
            assert(a@.levels[l] == a.levels@[l]@ && b@.levels[l] == b.levels@[l]@);
            if l == level && i == a.levels@[l]@.len() {
                assert(x == Arc::new(t));
            } else {
                assert(table_at(a, l, i, x));
                assert(has_table(a, x));
                assert(in_tables(a, p));
                assert(v0.meets(p));
            }
        }
    }
}

// ── From a source to the tree ────────────────────────────────────

/// `v1` is `v0` with a source of entries `es` and tombstones `rts` taken in
/// under the sequence number `seq`: the level is the one for the source's
/// range, and `t` is the table of the entries and tombstones with that number.
pub open spec fn took_in(
    v0: ReadView,
    v1: ReadView,
    es: Seq<Pair>,
    rts: Seq<TombstoneView>,
    stamped: Seq<RangeTombstone>,
    t: LiveSst,
    level: int,
    seq: u64,
) -> bool {
    &&& in_tables_alone(v0)
    &&& users_ascend(es)
    &&& source_range(es, rts) matches Some((lo, hi)) && level == if tree_meets(
        v0.version@.levels,
        lo,
        hi,
    ) {
        0
    } else {
        MAX_LEVELS - 1
    }
    &&& tombstone_views(stamped) == stamped_views(rts, seq)
    &&& is_table_of(t, all_restamped(es, seq), stamped)
    &&& v1.active == v0.active
    &&& v1.frozen == v0.frozen
    &&& v1.version@ == with_table(v0.version@, level, t, seq)
}

/// The entries of a source are of the types that the engine writes.
pub open spec fn known_types(es: Seq<Pair>) -> bool {
    forall|i: int| 0 <= i < es.len() ==> type_of((#[trigger] es[i]).0) <= VALUE_TYPE_MERGE
}

/// Another sequence number does not change the range of a source.
proof fn lemma_same_range(es: Seq<Pair>, rts: Seq<TombstoneView>, seq: u64)
    requires
        users_ascend(es),
    ensures
        least_key(all_restamped(es, seq), stamped_views(rts, seq)) == least_key(es, rts),
        greatest_key(all_restamped(es, seq), stamped_views(rts, seq)) == greatest_key(es, rts),
    decreases rts.len(),
{
    let a = all_restamped(es, seq);
    let b = stamped_views(rts, seq);
    if rts.len() > 0 {
        assert(b.drop_last() =~= stamped_views(rts.drop_last(), seq));
        lemma_same_range(es, rts.drop_last(), seq);
    } else if es.len() > 0 {
        lemma_decode_encoded(user_of(es[0].0), seq, type_of(es[0].0));
        lemma_decode_encoded(user_of(es.last().0), seq, type_of(es.last().0));
        assert(a[0] == restamped(es[0], seq));
        assert(a.last() == restamped(es.last(), seq));
    }
}

/// An entry of the table is one of the source with the new number.
proof fn lemma_restamped_entry(es: Seq<Pair>, seq: u64, p: Pair) -> (i: int)
    requires
        all_restamped(es, seq).contains(p),
    ensures
        0 <= i < es.len(),
        p == restamped(es[i], seq),
        user_of(p.0) == user_of(es[i].0),
        seq_of(p.0) == seq,
        type_of(p.0) == type_of(es[i].0),
        is_internal(p.0),
{
    let a = all_restamped(es, seq);
    let i = choose|i: int| 0 <= i < a.len() && a[i] == p;
    lemma_decode_encoded(user_of(es[i].0), seq, type_of(es[i].0));
    i
}

/// The tombstones of the table are those of the source with the new number.
proof fn lemma_stamped_holds(
    rts: Seq<TombstoneView>,
    stamped: Seq<RangeTombstone>,
    after: Seq<RangeTombstone>,
    seq: u64,
    v: TombstoneView,
)
    requires
        tombstone_views(stamped) == stamped_views(rts, seq),
        is_sort_dedup(stamped, after),
    ensures
        holds(after, v) == exists|j: int|
            0 <= j < rts.len() && (TombstoneView { seq, ..(#[trigger] rts[j]) }) == v,
{
    lemma_sorted_holds_same(stamped, after);
    assert(holds(after, v) == holds(stamped, v));
    assert(tombstone_views(stamped).len() == stamped.len());
    assert(stamped_views(rts, seq).len() == rts.len());
    if holds(stamped, v) {
        let j = choose|j: int| 0 <= j < stamped.len() && (#[trigger] stamped[j])@ == v;
        assert(tombstone_views(stamped)[j] == stamped_views(rts, seq)[j]);
        assert((TombstoneView { seq, ..rts[j] }) == v);
    }
    if exists|j: int| 0 <= j < rts.len() && (TombstoneView { seq, ..(#[trigger] rts[j]) }) == v {
        let j = choose|j: int|
            0 <= j < rts.len() && (TombstoneView { seq, ..(#[trigger] rts[j]) }) == v;
        assert(tombstone_views(stamped)[j] == stamped_views(rts, seq)[j]);
        assert(stamped[j]@ == v);
    }
}

/// A source that is taken in is a table with one sequence number at a level
/// where it may stand.
proof fn lemma_took_in_is_ingested(
    v0: ReadView,
    v1: ReadView,
    es: Seq<Pair>,
    rts: Seq<TombstoneView>,
    stamped: Seq<RangeTombstone>,
    t: LiveSst,
    level: int,
    seq: u64,
)
    requires
        v0.wf(),
        known_types(es),
        took_in(v0, v1, es, rts, stamped, t, level, seq),
    ensures
        ingested(v0, v1, level, t, seq),
{
    lemma_same_range(es, rts, seq);
    assert(v0.version@.levels.len() == v0.version.levels@.len());
    assert forall|p: Pair| #[trigger] t.reader.entries().contains(p) implies seq_of(p.0) == seq
        && type_of(p.0) <= VALUE_TYPE_MERGE by {
        let i = lemma_restamped_entry(es, seq, p);
    }
    assert forall|i: int| 0 <= i < stamped.len() implies (#[trigger] stamped[i])@.seq == seq by {
        assert(tombstone_views(stamped)[i] == stamped_views(rts, seq)[i]);
    }
    lemma_restamped_tombstones(stamped, t.reader.tombstones(), seq);
}

/// Taking in a source, whatever its range and wherever it goes, keeps the
/// database in order.
pub proof fn lemma_taking_in_keeps_order(
    v0: ReadView,
    v1: ReadView,
    es: Seq<Pair>,
    rts: Seq<TombstoneView>,
    stamped: Seq<RangeTombstone>,
    t: LiveSst,
    level: int,
    seq: u64,
)
    requires
        v0.wf(),
        v1.wf(),
        in_order(v0),
        seq > 0,
        older_bounded(v0, (seq - 1) as u64),
        known_types(es),
        took_in(v0, v1, es, rts, stamped, t, level, seq),
    ensures
        in_order(v1),
{
    lemma_took_in_is_ingested(v0, v1, es, rts, stamped, t, level, seq);
    lemma_ingest_keeps_order(v0, v1, level, t, seq);
}

/// After a table was taken in, the tables hold what they held and what it
/// holds; nothing from before is as new as it.
proof fn lemma_held_after(
    v0: ReadView,
    v1: ReadView,
    level: int,
    t: LiveSst,
    seq: u64,
    key: Seq<u8>,
)
    requires
        v0.wf(),
        v1.wf(),
        seq > 0,
        older_bounded(v0, (seq - 1) as u64),
        ingested(v0, v1, level, t, seq),
    ensures
        forall|p: Pair|
            user_of(p.0) == key ==> (#[trigger] in_layers(v1.layers(key), p) <==> in_layers(
                v0.layers(key),
                p,
            ) || t.reader.entries().contains(p)),
        forall|p: Pair|
            user_of(p.0) == key && #[trigger] in_layers(v0.layers(key), p) ==> seq_of(p.0) < seq,
        forall|x: RangeTombstone|
            x@.covers(key) ==> (#[trigger] in_sets(v1.layers(key), x) <==> in_sets(
                v0.layers(key),
                x,
            ) || t.reader.tombstones().contains(x)),
        forall|x: RangeTombstone|
            x@.covers(key) && #[trigger] in_sets(v0.layers(key), x) ==> x.seq < seq,
{
    let (a, b) = (v0.version, v1.version);
    let n = a.levels@[level]@.len() as int;
    assert(a@.levels.len() == a.levels@.len() && b@.levels.len() == b.levels@.len());
    assert forall|x: Arc<LiveSst>| #[trigger] has_table(b, x) <==> has_table(a, x) || x == Arc::new(
        t,
    ) by {
        if has_table(b, x) {
            let (l, i) = choose|l: int, i: int| #[trigger] table_at(b, l, i, x);
            assert(a@.levels[l] == a.levels@[l]@ && b@.levels[l] == b.levels@[l]@);
            if !(l == level && i == n) {
                assert(table_at(a, l, i, x));
            }
        }
        if has_table(a, x) {
            let (l, i) = choose|l: int, i: int| #[trigger] table_at(a, l, i, x);
            assert(a@.levels[l] == a.levels@[l]@ && b@.levels[l] == b.levels@[l]@);
            assert(table_at(b, l, i, x));
        }
        if x == Arc::new(t) {
            assert(a@.levels[level] == a.levels@[level]@ && b@.levels[level] == b.levels@[level]@);
            assert(table_at(b, level, n, x));
        }
    }
    assert forall|p: Pair| user_of(p.0) == key implies (#[trigger] in_layers(v1.layers(key), p)
        <==> in_layers(v0.layers(key), p) || t.reader.entries().contains(p)) && (in_layers(
        v0.layers(key),
        p,
    ) ==> seq_of(p.0) < seq) by {
        lemma_in_layers(v0, key, p);
        lemma_in_layers(v1, key, p);
        lemma_nothing_in_memory(v0, p);
        assert(!in_memory(v1, p)) by {
            lemma_nothing_in_memory(v1, p);
        }
        if in_tables(b, p) {
            let x = choose|x: Arc<LiveSst>| #[trigger]
                has_table(b, x) && x.reader.entries().contains(p);
            assert(has_table(a, x) || x == Arc::new(t));
        }
        if in_tables(a, p) {
            let x = choose|x: Arc<LiveSst>| #[trigger]
                has_table(a, x) && x.reader.entries().contains(p);
            assert(has_table(b, x));
            let (l, i) = choose|l: int, i: int| #[trigger] table_at(a, l, i, x);
            assert(table_bounded(*a.levels@[l]@[i], (seq - 1) as u64));
            let k = choose|k: int| 0 <= k < x.reader.entries().len() && x.reader.entries()[k] == p;
            assert(seq_of(x.reader.entries()[k].0) <= seq - 1);
        }
        if t.reader.entries().contains(p) {
            assert(has_table(b, Arc::new(t)));
        }
    }
    assert forall|x: RangeTombstone| x@.covers(key) implies (#[trigger] in_sets(v1.layers(key), x)
        <==> in_sets(v0.layers(key), x) || t.reader.tombstones().contains(x)) && (in_sets(
        v0.layers(key),
        x,
    ) ==> x.seq < seq) by {
        lemma_in_sets(v0, key, x);
        lemma_in_sets(v1, key, x);
        lemma_no_deletion_in_memory(v0, x);
        lemma_no_deletion_in_memory(v1, x);
        if rt_in_tables(b, x) {
            let y = choose|y: Arc<LiveSst>| #[trigger]
                has_table(b, y) && y.reader.tombstones().contains(x);
            assert(has_table(a, y) || y == Arc::new(t));
        }
        if rt_in_tables(a, x) {
            let y = choose|y: Arc<LiveSst>| #[trigger]
                has_table(a, y) && y.reader.tombstones().contains(x);
            assert(has_table(b, y));
            let (l, i) = choose|l: int, i: int| #[trigger] table_at(a, l, i, y);
            assert(table_bounded(*a.levels@[l]@[i], (seq - 1) as u64));
            let k = choose|k: int|
                0 <= k < y.reader.tombstones().len() && y.reader.tombstones()[k] == x;
            assert(y.reader.tombstones()[k].seq <= seq - 1);
        }
        if t.reader.tombstones().contains(x) {
            assert(has_table(b, Arc::new(t)));
        }
    }
    assert forall|p: Pair|
        user_of(p.0) == key && #[trigger] in_layers(v0.layers(key), p) implies seq_of(p.0) < seq by {
        assert(in_layers(v1.layers(key), p));
    }
    assert forall|x: RangeTombstone|
        x@.covers(key) && #[trigger] in_sets(v0.layers(key), x) implies x.seq < seq by {
        assert(in_sets(v1.layers(key), x));
    }
}

/// A set of a layer has the tombstone.
spec fn in_sets(layers: Seq<Layer>, x: RangeTombstone) -> bool {
    exists|n: int, r: int| #[trigger] in_set(layers, n, r, x)
}

proof fn lemma_nothing_in_memory(v: ReadView, p: Pair)
    requires
        in_tables_alone(v),
    ensures
        !in_memory(v, p),
{
    if in_memory(v, p) && !v.active.entries().contains(p) {
        let i = choose|i: int|
            0 <= i < v.frozen@.len() && (#[trigger] v.frozen@[i]).entries().contains(p);
        assert(!holds_data(v.frozen@[i]));
    }
}

proof fn lemma_no_deletion_in_memory(v: ReadView, x: RangeTombstone)
    requires
        in_tables_alone(v),
    ensures
        !rt_in_memory(v, x),
{
    if rt_in_memory(v, x) && !v.active.tombstones().contains(x) {
        let i = choose|i: int|
            0 <= i < v.frozen@.len() && (#[trigger] v.frozen@[i]).tombstones().contains(x);
        assert(!holds_data(v.frozen@[i]));
    }
}

/// The source writes the key, or deletes a range around it.
pub open spec fn source_touches(es: Seq<Pair>, rts: Seq<TombstoneView>, key: Seq<u8>) -> bool {
    ||| exists|i: int| 0 <= i < es.len() && user_of((#[trigger] es[i]).0) == key
    ||| source_deletes(rts, key)
}

/// The source deletes a range around the key.
pub open spec fn source_deletes(rts: Seq<TombstoneView>, key: Seq<u8>) -> bool {
    exists|j: int| 0 <= j < rts.len() && (#[trigger] rts[j]).covers(key)
}

/// A snapshot from before a source was taken in reads as it did, and so does
/// every snapshot of a key that the source does not touch.
pub proof fn lemma_taking_in_leaves_other_reads(
    v0: ReadView,
    v1: ReadView,
    es: Seq<Pair>,
    rts: Seq<TombstoneView>,
    stamped: Seq<RangeTombstone>,
    t: LiveSst,
    level: int,
    seq: u64,
    key: Seq<u8>,
    snapshot_seq: u64,
)
    requires
        v0.wf(),
        v1.wf(),
        in_order(v0),
        seq > 0,
        older_bounded(v0, (seq - 1) as u64),
        known_types(es),
        took_in(v0, v1, es, rts, stamped, t, level, seq),
        snapshot_seq < seq || !source_touches(es, rts, key),
    ensures
        walk(v1.layers(key), key, snapshot_seq, 0) == walk(v0.layers(key), key, snapshot_seq, 0),
        outcome_of(walk_chain(v1.layers(key), key, snapshot_seq, 0)) == outcome_of(
            walk_chain(v0.layers(key), key, snapshot_seq, 0),
        ),
{
    let (a, b) = (v0.layers(key), v1.layers(key));
    lemma_took_in_is_ingested(v0, v1, es, rts, stamped, t, level, seq);
    lemma_ingest_keeps_order(v0, v1, level, t, seq);
    assert(in_age_order(v0, key) && in_age_order(v1, key));
    lemma_age_order_serves_lookups(v0, key);
    lemma_age_order_serves_lookups(v1, key);
    lemma_held_after(v0, v1, level, t, seq, key);
    assert forall|p: Pair| #[trigger] in_layers(b, p) && visible(p, key, snapshot_seq) implies in_layers(
        a,
        p,
    ) by {
        if t.reader.entries().contains(p) {
            let i = lemma_restamped_entry(es, seq, p);
            assert(user_of(es[i].0) == key);
        }
    }
    assert forall|s: u64| #[trigger]
        deletes_at(a, key, snapshot_seq, s) == deletes_at(b, key, snapshot_seq, s) by {
        if deletes_at(a, key, snapshot_seq, s) {
            let (i, r, x) = choose|i: int, r: int, x: RangeTombstone| #[trigger]
                in_set(a, i, r, x) && x@.covers(key) && x.seq <= snapshot_seq && x.seq == s;
            assert(in_sets(a, x));
            assert(in_sets(b, x));
            let (n, m) = choose|n: int, m: int| #[trigger] in_set(b, n, m, x);
            assert(in_set(b, n, m, x));
        }
        if deletes_at(b, key, snapshot_seq, s) {
            let (i, r, x) = choose|i: int, r: int, x: RangeTombstone| #[trigger]
                in_set(b, i, r, x) && x@.covers(key) && x.seq <= snapshot_seq && x.seq == s;
            assert(in_sets(b, x));
            if t.reader.tombstones().contains(x) {
                lemma_source_tombstone(rts, stamped, t.reader.tombstones(), seq, x);
                assert(false);
            }
            assert(in_sets(a, x));
            let (n, m) = choose|n: int, m: int| #[trigger] in_set(a, n, m, x);
            assert(in_set(a, n, m, x));
        }
    }
    assert(reads_alike(a, b, key, snapshot_seq));
    assert forall|p: Pair| #[trigger] in_layers(a, p) implies seq_of(p.0) > 0 by {
        lemma_in_layers_met(v0, key, p);
    }
    lemma_rewriting_keeps_lookups(a, b, key, snapshot_seq);
    lemma_rewriting_keeps_chains(a, b, key, snapshot_seq);
}

/// A tombstone of the table is one of the source.
proof fn lemma_source_tombstone(
    rts: Seq<TombstoneView>,
    stamped: Seq<RangeTombstone>,
    after: Seq<RangeTombstone>,
    seq: u64,
    x: RangeTombstone,
)
    requires
        tombstone_views(stamped) == stamped_views(rts, seq),
        is_sort_dedup(stamped, after),
        after.contains(x),
    ensures
        x.seq == seq,
        forall|key: Seq<u8>| #[trigger] x@.covers(key) ==> source_deletes(rts, key),
{
    let k = choose|k: int| 0 <= k < after.len() && after[k] == x;
    assert(after[k]@ == x@);
    assert(holds(after, x@));
    lemma_stamped_holds(rts, stamped, after, seq, x@);
    let j = choose|j: int|
        0 <= j < rts.len() && (TombstoneView { seq, ..(#[trigger] rts[j]) }) == x@;
    assert forall|key: Seq<u8>| #[trigger] x@.covers(key) implies source_deletes(rts, key) by {
        assert(rts[j].covers(key));
    }
}

/// A snapshot from after a source was taken in finds what the source says of a
/// key: nothing where it deletes a range around it, otherwise its entry.
pub proof fn lemma_taken_in_is_read(
    v0: ReadView,
    v1: ReadView,
    es: Seq<Pair>,
    rts: Seq<TombstoneView>,
    stamped: Seq<RangeTombstone>,
    t: LiveSst,
    level: int,
    seq: u64,
    key: Seq<u8>,
    snapshot_seq: u64,
)
    requires
        v0.wf(),
        v1.wf(),
        in_order(v0),
        seq > 0,
        older_bounded(v0, (seq - 1) as u64),
        known_types(es),
        took_in(v0, v1, es, rts, stamped, t, level, seq),
        seq <= snapshot_seq,
    ensures
        source_deletes(rts, key) ==> walk(v1.layers(key), key, snapshot_seq, 0) is None,
        forall|i: int|
            0 <= i < es.len() && user_of((#[trigger] es[i]).0) == key && !source_deletes(rts, key)
                ==> walk(v1.layers(key), key, snapshot_seq, 0) == value_of(es[i]),
{
    let b = v1.layers(key);
    lemma_took_in_is_ingested(v0, v1, es, rts, stamped, t, level, seq);
    lemma_ingest_keeps_order(v0, v1, level, t, seq);
    assert(in_age_order(v1, key));
    lemma_age_order_serves_lookups(v1, key);
    lemma_held_after(v0, v1, level, t, seq, key);
    let ts = t.reader.tombstones();
    if source_deletes(rts, key) {
        let j = choose|j: int| 0 <= j < rts.len() && (#[trigger] rts[j]).covers(key);
        let v = TombstoneView { seq, ..rts[j] };
        lemma_stamped_holds(rts, stamped, ts, seq, v);
        assert(holds(ts, v));
        let k = choose|k: int| 0 <= k < ts.len() && (#[trigger] ts[k])@ == v;
        assert(ts.contains(ts[k]));
        assert(ts[k]@.covers(key));
        assert(in_sets(b, ts[k]));
        let (n, m) = choose|n: int, m: int| #[trigger] in_set(b, n, m, ts[k]);
        assert(ts[k].seq == seq);
        assert forall|q: Pair| !#[trigger] is_live(b, key, snapshot_seq, q) by {
            if is_live(b, key, snapshot_seq, q) {
                assert(in_set(b, n, m, ts[k]));
                assert(in_layers(b, q));
            }
        }
        lemma_walk_finds_live(b, key, snapshot_seq, (Seq::empty(), Seq::empty()));
    }
    assert forall|i: int|
        0 <= i < es.len() && user_of((#[trigger] es[i]).0) == key && !source_deletes(
            rts,
            key,
        ) implies walk(b, key, snapshot_seq, 0) == value_of(es[i]) by {
        let p = restamped(es[i], seq);
        lemma_decode_encoded(user_of(es[i].0), seq, type_of(es[i].0));
        assert(all_restamped(es, seq)[i] == p);
        assert(t.reader.entries().contains(p));
        assert(in_layers(b, p));
        assert forall|n: int, r: int, q: Pair|
            #[trigger] in_run(b, n, r, q) && visible(q, key, snapshot_seq) implies ik_le(
            p.0,
            q.0,
        ) by {
            assert(in_layers(b, q));
            if t.reader.entries().contains(q) {
                let k = lemma_restamped_entry(es, seq, q);
                if k < i {
                    lemma_lex_order(user_of(es[k].0), user_of(es[i].0), key);
                } else if i < k {
                    lemma_lex_order(user_of(es[i].0), user_of(es[k].0), key);
                }
            } else {
                lemma_in_layers_internal_at(b, key, n, r, q);
                lemma_internal_order(p.0, q.0);
            }
        }
        assert forall|n: int, r: int, x: RangeTombstone|
            #[trigger] in_set(b, n, r, x) && x@.covers(key) && x.seq <= snapshot_seq implies x.seq
            < seq_of(p.0) by {
            assert(in_sets(b, x));
            if ts.contains(x) {
                lemma_source_tombstone(rts, stamped, ts, seq, x);
            }
        }
        assert(is_live(b, key, snapshot_seq, p));
        lemma_walk_finds_live(b, key, snapshot_seq, p);
    }
}

/// What stands in a layer, the view meets.
proof fn lemma_in_layers_met(v: ReadView, key: Seq<u8>, p: Pair)
    requires
        v.wf(),
        in_layers(v.layers(key), p),
    ensures
        v.meets(p),
{
    let (n, r) = choose|n: int, r: int| #[trigger] in_run(v.layers(key), n, r, p);
    match lemma_run_source(v, key, n, r, p) {
        Source::Table(l, i) => {
            let x = v.version.levels@[l]@[i];
            assert(table_at(v.version, l, i, x));
            assert(has_table(v.version, x));
            assert(in_tables(v.version, p));
        },
        _ => {
            assert(in_memory(v, p));
        },
    }
}

} // verus!
