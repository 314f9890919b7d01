//! The order of age that lookups rely on, and what keeps it.

use super::batch::is_history;
use super::batch::wrote;
use super::batch::wrote_all;
use super::batch::OpView;
use super::block::sorted_entries;
use super::block_entry::Pair;
use super::compaction::all_tombstones;
use super::compaction_laws::layer_of;
use super::compaction_laws::lemma_adds_nothing;
use super::compaction_laws::lemma_all_entries;
use super::compaction_laws::lemma_all_tombstones;
use super::compaction_laws::lemma_covering_run_at;
use super::compaction_laws::lemma_covering_set_at;
use super::compaction_laws::Merged;
use super::compaction_pick::max_key;
use super::compaction_pick::meets;
use super::compaction_pick::min_key;
use super::compaction_pick::overlapping;
use super::engine_laws::flushed;
use super::hooks::CompactionFilter;
use super::hooks::MergeOperator;
use super::internal_key::ik_lt;
use super::internal_key::is_internal;
use super::internal_key::lemma_decode_encoded;
use super::internal_key::lemma_internal_order;
use super::internal_key::seq_of;
use super::internal_key::type_of;
use super::internal_key::user_of;
use super::internal_key::VALUE_TYPE_DELETION;
use super::internal_key::VALUE_TYPE_MERGE;
use super::internal_key::VALUE_TYPE_VALUE;
use super::lark_engine::table_bounded;
use super::lark_engine::version_bounded;
use super::lookup::aged;
use super::lookup::in_run;
use super::lookup::in_set;
use super::lookup::layer_shields;
use super::memtable::MemTable;
use super::mvcc::bounded;
use super::range_tombstone::holds;
use super::range_tombstone::RangeTombstone;
use super::range_tombstone::TombstoneView;
use super::read_view::covering_rts;
use super::read_view::covering_runs;
use super::read_view::files_wf;
use super::read_view::lemma_layer_at;
use super::read_view::ReadView;
use super::sstable::LiveSst;
use super::versions::holds_pair;
use crate::bytes::lemma_lex_order;
use crate::bytes::lemma_lex_trichotomy;
use crate::bytes::lex_le;
use std::sync::Arc;
use vstd::prelude::*;

verus! {

// ── Sources ──────────────────────────────────────────────────────

/// Where a version or a tombstone stands.
pub enum Source {
    Active,
    Frozen(int),
    Table(int, int),
}

/// The view has the source.
pub open spec fn is_source(v: ReadView, s: Source) -> bool {
    match s {
        Source::Active => true,
        Source::Frozen(i) => 0 <= i < v.frozen@.len(),
        Source::Table(l, i) => 0 <= l < v.version.levels@.len() && 0 <= i
            < v.version.levels@[l]@.len(),
    }
}

/// The entries of a source.
pub open spec fn entries_of(v: ReadView, s: Source) -> Seq<Pair> {
    match s {
        Source::Active => v.active.entries(),
        Source::Frozen(i) => v.frozen@[i].entries(),
        Source::Table(l, i) => v.version.levels@[l]@[i].reader.entries(),
    }
}

/// The tombstones of a source.
pub open spec fn tombstones_of(v: ReadView, s: Source) -> Seq<RangeTombstone> {
    match s {
        Source::Active => v.active.tombstones(),
        Source::Frozen(i) => v.frozen@[i].tombstones(),
        Source::Table(l, i) => v.version.levels@[l]@[i].reader.tombstones(),
    }
}

/// The layer of a source.
pub open spec fn depth(v: ReadView, s: Source) -> int {
    match s {
        Source::Active => 0,
        Source::Frozen(i) => v.frozen@.len() - i,
        Source::Table(l, i) => layer_of(v, l, i),
    }
}

/// The source of a run.
pub proof fn lemma_run_source(v: ReadView, key: Seq<u8>, n: int, r: int, p: Pair) -> (s: Source)
    requires
        v.wf(),
        in_run(v.layers(key), n, r, p),
    ensures
        is_source(v, s),
        depth(v, s) == n,
        entries_of(v, s).contains(p),
        v.layers(key)[n].runs[r] == entries_of(v, s),
{
    let f = v.frozen@.len() as int;
    let l0 = v.version.levels@[0]@;
    lemma_layer_at(v, key, n);
    if n == 0 {
        Source::Active
    } else if n < 1 + f {
        Source::Frozen(f - n)
    } else if n < 1 + f + l0.len() {
        Source::Table(0, f + l0.len() - n)
    } else {
        let l = n - f - l0.len();
        let i = lemma_covering_run_at(v.version.levels@[l]@, key, r);
        Source::Table(l, i)
    }
}

/// The source of a tombstone.
pub proof fn lemma_set_source(
    v: ReadView,
    key: Seq<u8>,
    n: int,
    r: int,
    t: RangeTombstone,
) -> (s: Source)
    requires
        v.wf(),
        in_set(v.layers(key), n, r, t),
    ensures
        is_source(v, s),
        depth(v, s) == n,
        tombstones_of(v, s).contains(t),
{
    let f = v.frozen@.len() as int;
    let l0 = v.version.levels@[0]@;
    lemma_layer_at(v, key, n);
    if n == 0 {
        Source::Active
    } else if n < 1 + f {
        Source::Frozen(f - n)
    } else if n < 1 + f + l0.len() {
        Source::Table(0, f + l0.len() - n)
    } else {
        let l = n - f - l0.len();
        let i = lemma_covering_set_at(v.version.levels@[l]@, key, r);
        Source::Table(l, i)
    }
}

// ── The order ────────────────────────────────────────────────────

/// Source `s` holds `p`.
pub open spec fn stands_in(v: ReadView, s: Source, p: Pair) -> bool {
    is_source(v, s) && entries_of(v, s).contains(p)
}

/// Source `s` holds `p`, a version of `key`.
pub open spec fn has_version(v: ReadView, key: Seq<u8>, s: Source, p: Pair) -> bool {
    is_source(v, s) && entries_of(v, s).contains(p) && user_of(p.0) == key
}

/// Source `s` holds `t`, a tombstone over `key`.
pub open spec fn has_deletion(v: ReadView, key: Seq<u8>, s: Source, t: RangeTombstone) -> bool {
    is_source(v, s) && tombstones_of(v, s).contains(t) && t@.covers(key)
}

/// Source `s` has a tombstone over `key` with the sequence number `seq`.
pub open spec fn shields(v: ReadView, key: Seq<u8>, s: Source, seq: u64) -> bool {
    exists|t: RangeTombstone| #[trigger] has_deletion(v, key, s, t) && t.seq == seq
}

/// As far as `key` goes, a version is newer than the versions and the
/// tombstones of every source in a deeper layer. In one level below 0, no two
/// tables hold versions of the key, and the versions are newer than all
/// tombstones of the level. A tombstone that is not older than the version
/// stands beside it as well, in its own source: a compaction carries all
/// tombstones to all tables that it writes.
pub open spec fn in_age_order(v: ReadView, key: Seq<u8>) -> bool {
    &&& forall|s: Source, p: Pair, z: Source, q: Pair|
        #![trigger has_version(v, key, s, p), has_version(v, key, z, q)]
        has_version(v, key, s, p) && has_version(v, key, z, q) && depth(v, s) < depth(v, z)
            ==> ik_lt(p.0, q.0)
    &&& forall|s: Source, p: Pair, z: Source, t: RangeTombstone|
        #![trigger has_version(v, key, s, p), has_deletion(v, key, z, t)]
        has_version(v, key, s, p) && has_deletion(v, key, z, t) && (depth(v, s) < depth(v, z)
            || depth(v, s) == depth(v, z) && is_deep(s)) ==> t.seq < seq_of(p.0) || shields(
            v,
            key,
            s,
            t.seq,
        )
    &&& forall|s: Source, p: Pair, z: Source, q: Pair|
        #![trigger has_version(v, key, s, p), has_version(v, key, z, q)]
        has_version(v, key, s, p) && has_version(v, key, z, q) && depth(v, s) == depth(v, z)
            ==> s == z
}

/// The source is a table of a level below 0.
pub open spec fn is_deep(s: Source) -> bool {
    s matches Source::Table(l, _) && l > 0
}

/// Two runs of a layer are of two tables.
proof fn lemma_covering_two(files: Seq<Arc<LiveSst>>, key: Seq<u8>, r: int, s: int) -> (ij: (
    int,
    int,
))
    requires
        0 <= r < s < covering_runs(files, key).len(),
    ensures
        0 <= ij.0 < ij.1 < files.len(),
        covering_runs(files, key)[r] == files[ij.0].reader.entries(),
        covering_runs(files, key)[s] == files[ij.1].reader.entries(),
    decreases files.len(),
{
    let rest = covering_runs(files.skip(1), key);
    if files[0].meta.num_entries != 0 && files[0].covers(key) {
        assert(covering_runs(files, key)[s] == rest[s - 1]);
        if r == 0 {
            let j = lemma_covering_run_at(files.skip(1), key, s - 1);
            (0, j + 1)
        } else {
            assert(covering_runs(files, key)[r] == rest[r - 1]);
            let (i, j) = lemma_covering_two(files.skip(1), key, r - 1, s - 1);
            (i + 1, j + 1)
        }
    } else {
        let (i, j) = lemma_covering_two(files.skip(1), key, r, s);
        (i + 1, j + 1)
    }
}

/// In order of age, only one run of a layer holds versions of the key.
proof fn lemma_one_run(
    v: ReadView,
    key: Seq<u8>,
    n: int,
    r: int,
    s: int,
    p: Pair,
    q: Pair,
)
    requires
        v.wf(),
        in_age_order(v, key),
        in_run(v.layers(key), n, r, p),
        in_run(v.layers(key), n, s, q),
        user_of(p.0) == key,
        user_of(q.0) == key,
    ensures
        r == s,
{
    let f = v.frozen@.len() as int;
    let l0 = v.version.levels@[0]@;
    lemma_layer_at(v, key, n);
    if n >= 1 + f + l0.len() && r != s {
        let l = n - f - l0.len();
        let files = v.version.levels@[l]@;
        let (a, b, x, y) = if r < s {
            (r, s, p, q)
        } else {
            (s, r, q, p)
        };
        let (i, j) = lemma_covering_two(files, key, a, b);
        assert(has_version(v, key, Source::Table(l, i), x));
        assert(has_version(v, key, Source::Table(l, j), y));
        assert(Source::Table(l, i) == Source::Table(l, j));
    }
}

proof fn lemma_runs_sorted(v: ReadView, key: Seq<u8>, n: int, r: int)
    requires
        v.wf(),
        0 <= n < v.layers(key).len(),
        0 <= r < v.layers(key)[n].runs.len(),
    ensures
        sorted_entries(v.layers(key)[n].runs[r]),
{
    let f = v.frozen@.len() as int;
    let l0 = v.version.levels@[0]@;
    lemma_layer_at(v, key, n);
    if n == 0 {
        v.active.lemma_sorted();
    } else if n < 1 + f {
        assert(v.frozen@[f - n].wf());
        v.frozen@[f - n].lemma_sorted();
    } else if n < 1 + f + l0.len() {
        let i = f + l0.len() - n;
        assert(files_wf(v.version.levels@[0]@));
        assert(l0[i].wf());
        l0[i].reader.lemma_sorted();
    } else {
        let l = n - f - l0.len();
        let files = v.version.levels@[l]@;
        let i = lemma_covering_run_at(files, key, r);
        assert(files_wf(v.version.levels@[l]@));
        assert(files[i].wf());
        files[i].reader.lemma_sorted();
    }
}

/// The tombstones of a table over the key are among those of its level.
proof fn lemma_covering_rts_hold(files: Seq<Arc<LiveSst>>, key: Seq<u8>, i: int) -> (r: int)
    requires
        0 <= i < files.len(),
        files[i].covers(key),
    ensures
        0 <= r < covering_rts(files, key).len(),
        covering_rts(files, key)[r] == files[i].reader.tombstones(),
    decreases files.len(),
{
    let rest = files.skip(1);
    if i == 0 {
        assert(covering_rts(files, key)[0] == files[0].reader.tombstones());
        0
    } else {
        assert(rest[i - 1] == files[i]);
        let r = lemma_covering_rts_hold(rest, key, i - 1);
        if files[0].covers(key) {
            assert(covering_rts(files, key)[r + 1] == covering_rts(rest, key)[r]);
            r + 1
        } else {
            r
        }
    }
}

/// A tombstone of a source is in the source's layer.
proof fn lemma_shield_layer(v: ReadView, key: Seq<u8>, s: Source, t: RangeTombstone)
    requires
        v.wf(),
        has_deletion(v, key, s, t),
    ensures
        layer_shields(v.layers(key), depth(v, s), key, t.seq),
{
    let n = depth(v, s);
    let ls = v.layers(key);
    lemma_layer_at(v, key, n);
    lemma_covers_deletions(v, key, s, t);
    match s {
        Source::Table(l, i) if l > 0 => {
            let files = v.version.levels@[l]@;
            let r = lemma_covering_rts_hold(files, key, i);
            assert(in_set(ls, n, r, t));
        },
        _ => {
            assert(in_set(ls, n, 0, t));
        },
    }
}

/// Sources in order of age make layers in order of age.
pub proof fn lemma_age_order_serves_lookups(v: ReadView, key: Seq<u8>)
    requires
        v.wf(),
        in_age_order(v, key),
    ensures
        aged(v.layers(key), key),
{
    let ls = v.layers(key);
    lemma_layer_at(v, key, 0);
    assert forall|i: int, r: int|
        0 <= i < ls.len() && 0 <= r < ls[i].runs.len() implies sorted_entries(
        #[trigger] ls[i].runs[r],
    ) by {
        lemma_runs_sorted(v, key, i, r);
    }
    assert forall|i: int, r: int, p: Pair, j: int, s: int, q: Pair|
        #![trigger in_run(ls, i, r, p), in_run(ls, j, s, q)]
        in_run(ls, i, r, p) && in_run(ls, j, s, q) && user_of(p.0) == key && user_of(q.0) == key
            && (i < j || i == j && r < s) implies ik_lt(p.0, q.0) by {
        let a = lemma_run_source(v, key, i, r, p);
        let b = lemma_run_source(v, key, j, s, q);
        assert(has_version(v, key, a, p));
        assert(has_version(v, key, b, q));
        if i == j {
            assert(a == b);
            lemma_one_run(v, key, i, r, s, p, q);
            assert(false);
        }
    }
    assert forall|i: int, r: int, p: Pair, j: int, s: int, t: RangeTombstone|
        #![trigger in_run(ls, i, r, p), in_set(ls, j, s, t)]
        in_run(ls, i, r, p) && in_set(ls, j, s, t) && user_of(p.0) == key && t@.covers(key) && i < j
            implies t.seq < seq_of(p.0) || layer_shields(ls, i, key, t.seq) by {
        let a = lemma_run_source(v, key, i, r, p);
        let b = lemma_set_source(v, key, j, s, t);
        assert(has_version(v, key, a, p));
        assert(has_deletion(v, key, b, t));
        if shields(v, key, a, t.seq) {
            let u = choose|u: RangeTombstone| #[trigger]
                has_deletion(v, key, a, u) && u.seq == t.seq;
            lemma_shield_layer(v, key, a, u);
        }
    }
}

// ── What keeps the order ─────────────────────────────────────────

/// The sources of `v1` that hold anything are those of `v0` under other names,
/// in the same order.
pub open spec fn renamed(
    v0: ReadView,
    v1: ReadView,
    key: Seq<u8>,
    back: spec_fn(Source) -> Source,
) -> bool {
    &&& forall|s: Source, p: Pair| #[trigger]
        has_version(v1, key, s, p) ==> has_version(v0, key, back(s), p) && depth(v0, back(s))
            == depth(v1, s) && is_deep(back(s)) == is_deep(s)
    &&& forall|s: Source, t: RangeTombstone| #[trigger]
        has_deletion(v1, key, s, t) ==> depth(v0, back(s)) == depth(v1, s) && exists|
            u: RangeTombstone,
        | #[trigger] has_deletion(v0, key, back(s), u) && u.seq == t.seq
    &&& forall|s: Source, seq: u64|
        is_source(v1, s) && #[trigger] shields(v0, key, back(s), seq) ==> shields(v1, key, s, seq)
    &&& forall|s: Source, p: Pair, z: Source, q: Pair|
        #![trigger has_version(v1, key, s, p), has_version(v1, key, z, q)]
        has_version(v1, key, s, p) && has_version(v1, key, z, q) && back(s) == back(z) ==> s == z
}

proof fn lemma_renamed(
    v0: ReadView,
    v1: ReadView,
    key: Seq<u8>,
    back: spec_fn(Source) -> Source,
)
    requires
        in_age_order(v0, key),
        renamed(v0, v1, key, back),
    ensures
        in_age_order(v1, key),
{
    assert forall|s: Source, p: Pair, z: Source, q: Pair|
        #![trigger has_version(v1, key, s, p), has_version(v1, key, z, q)]
        has_version(v1, key, s, p) && has_version(v1, key, z, q) && depth(v1, s) < depth(
            v1,
            z,
        ) implies ik_lt(p.0, q.0) by {
        assert(has_version(v0, key, back(s), p));
        assert(has_version(v0, key, back(z), q));
    }
    assert forall|s: Source, p: Pair, z: Source, t: RangeTombstone|
        #![trigger has_version(v1, key, s, p), has_deletion(v1, key, z, t)]
        has_version(v1, key, s, p) && has_deletion(v1, key, z, t) && (depth(v1, s) < depth(v1, z)
            || depth(v1, s) == depth(v1, z) && is_deep(s)) implies t.seq < seq_of(p.0) || shields(
        v1,
        key,
        s,
        t.seq,
    ) by {
        assert(has_version(v0, key, back(s), p));
        let u = choose|u: RangeTombstone| #[trigger]
            has_deletion(v0, key, back(z), u) && u.seq == t.seq;
        assert(has_deletion(v0, key, back(z), u));
    }
    assert forall|s: Source, p: Pair, z: Source, q: Pair|
        #![trigger has_version(v1, key, s, p), has_version(v1, key, z, q)]
        has_version(v1, key, s, p) && has_version(v1, key, z, q) && depth(v1, s) == depth(
            v1,
            z,
        ) implies s == z by {
        assert(has_version(v0, key, back(s), p));
        assert(has_version(v0, key, back(z), q));
        assert(back(s) == back(z));
    }
}

/// A flush keeps the order.
pub proof fn lemma_flush_keeps_age_order(v0: ReadView, v1: ReadView, t: LiveSst, key: Seq<u8>)
    requires
        v0.wf(),
        v1.wf(),
        in_age_order(v0, key),
        flushed(v0, v1, t),
    ensures
        in_age_order(v1, key),
{
    let f = v0.frozen@.len() as int;
    let n = v0.version.levels@[0]@.len() as int;
    let back = |s: Source|
        match s {
            Source::Active => Source::Active,
            Source::Frozen(i) => Source::Frozen(i + 1),
            Source::Table(l, i) => if l == 0 && i == n {
                Source::Frozen(0)
            } else {
                s
            },
        };
    assert(v1.version@.levels[0] == v1.version.levels@[0]@);
    assert(v0.version@.levels[0] == v0.version.levels@[0]@);
    assert(v1.version.levels@[0]@ == v0.version.levels@[0]@.push(Arc::new(t)));
    assert forall|s: Source| is_source(v1, s) implies is_source(v0, #[trigger] back(s)) && depth(
        v0,
        back(s),
    ) == depth(v1, s) && is_deep(back(s)) == is_deep(s) && entries_of(v1, s) == entries_of(
        v0,
        back(s),
    ) && (s == Source::Table(0, n) || tombstones_of(v1, s) == tombstones_of(v0, back(s))) by {
        match s {
            Source::Table(l, i) => {
                assert(v1.version@.levels[l] == v1.version.levels@[l]@);
                assert(v0.version@.levels[l] == v0.version.levels@[l]@);
            },
            _ => {},
        }
    }
    assert forall|s: Source, p: Pair| #[trigger] has_version(v1, key, s, p) implies has_version(
        v0,
        key,
        back(s),
        p,
    ) && depth(v0, back(s)) == depth(v1, s) && is_deep(back(s)) == is_deep(s) by {}
    assert forall|s: Source, x: RangeTombstone| #[trigger]
        has_deletion(v1, key, s, x) implies depth(v0, back(s)) == depth(v1, s) && exists|
        u: RangeTombstone,
    | #[trigger] has_deletion(v0, key, back(s), u) && u.seq == x.seq by {
        if s == Source::Table(0, n) {
            let ts = t.reader.tombstones();
            let j = choose|j: int| 0 <= j < ts.len() && ts[j] == x;
            assert(ts[j]@ == x@);
            assert(holds(ts, x@));
            let ms = v0.frozen@[0].tombstones();
            assert(holds(ms, x@));
            let k = choose|k: int| 0 <= k < ms.len() && (#[trigger] ms[k])@ == x@;
            assert(ms.contains(ms[k]));
            assert(ms[k]@.seq == x@.seq);
            assert(has_deletion(v0, key, back(s), ms[k]));
        } else {
            assert(has_deletion(v0, key, back(s), x));
        }
    }
    assert forall|s: Source, seq: u64|
        is_source(v1, s) && #[trigger] shields(v0, key, back(s), seq) implies shields(
        v1,
        key,
        s,
        seq,
    ) by {
        let x = choose|x: RangeTombstone| #[trigger]
            has_deletion(v0, key, back(s), x) && x.seq == seq;
        if s == Source::Table(0, n) {
            let ms = v0.frozen@[0].tombstones();
            let j = choose|j: int| 0 <= j < ms.len() && ms[j] == x;
            assert(ms[j]@ == x@);
            assert(holds(ms, x@));
            let ts = t.reader.tombstones();
            assert(holds(ts, x@));
            let k = choose|k: int| 0 <= k < ts.len() && (#[trigger] ts[k])@ == x@;
            assert(ts.contains(ts[k]));
            assert(ts[k]@.seq == x@.seq);
            assert(has_deletion(v1, key, s, ts[k]));
        } else {
            assert(has_deletion(v1, key, s, x));
        }
    }
    lemma_renamed(v0, v1, key, back);
}

/// Sealing the memtable keeps the order.
pub proof fn lemma_sealing_keeps_age_order(v0: ReadView, v1: ReadView, key: Seq<u8>)
    requires
        in_age_order(v0, key),
        v1.version == v0.version,
        v1.frozen@ == v0.frozen@.push(v0.active),
        v1.active.entries().len() == 0,
        v1.active.tombstones().len() == 0,
    ensures
        in_age_order(v1, key),
{
    let f = v0.frozen@.len() as int;
    let back = |s: Source|
        match s {
            Source::Frozen(i) => if i == f {
                Source::Active
            } else {
                s
            },
            _ => s,
        };
    assert forall|s: Source| is_source(v1, s) && s != Source::Active implies is_source(
        v0,
        #[trigger] back(s),
    ) && is_deep(back(s)) == is_deep(s) && entries_of(v1, s) == entries_of(v0, back(s))
        && tombstones_of(v1, s) == tombstones_of(v0, back(s)) && depth(v0, back(s)) + 1 == depth(
        v1,
        s,
    ) by {}
    assert forall|s: Source, p: Pair, z: Source, q: Pair|
        #![trigger has_version(v1, key, s, p), has_version(v1, key, z, q)]
        has_version(v1, key, s, p) && has_version(v1, key, z, q) implies (depth(v1, s) < depth(
        v1,
        z,
    ) ==> ik_lt(p.0, q.0)) && (depth(v1, s) == depth(v1, z) ==> s == z) by {
        assert(s != Source::Active && z != Source::Active);
        assert(has_version(v0, key, back(s), p));
        assert(has_version(v0, key, back(z), q));
    }
    assert forall|s: Source, p: Pair, z: Source, t: RangeTombstone|
        #![trigger has_version(v1, key, s, p), has_deletion(v1, key, z, t)]
        has_version(v1, key, s, p) && has_deletion(v1, key, z, t) && (depth(v1, s) < depth(v1, z)
            || depth(v1, s) == depth(v1, z) && is_deep(s)) implies t.seq < seq_of(p.0) || shields(
        v1,
        key,
        s,
        t.seq,
    ) by {
        assert(s != Source::Active && z != Source::Active);
        assert(has_version(v0, key, back(s), p));
        assert(has_deletion(v0, key, back(z), t));
        if shields(v0, key, back(s), t.seq) {
            let u = choose|u: RangeTombstone| #[trigger]
                has_deletion(v0, key, back(s), u) && u.seq == t.seq;
            assert(has_deletion(v1, key, s, u));
        }
    }
}

/// Dropping an empty sealed memtable keeps the order.
pub proof fn lemma_dropping_empty_keeps_age_order(v0: ReadView, v1: ReadView, key: Seq<u8>)
    requires
        in_age_order(v0, key),
        v0.frozen@.len() > 0,
        v0.frozen@[0].entries().len() == 0,
        v0.frozen@[0].tombstones().len() == 0,
        v1.active == v0.active,
        v1.version == v0.version,
        v1.frozen@ == v0.frozen@.remove(0),
    ensures
        in_age_order(v1, key),
{
    let f = v0.frozen@.len() as int;
    let back = |s: Source|
        match s {
            Source::Frozen(i) => Source::Frozen(i + 1),
            _ => s,
        };
    assert forall|s: Source| is_source(v1, s) implies is_source(v0, #[trigger] back(s))
        && is_deep(back(s)) == is_deep(s) && entries_of(v1, s) == entries_of(v0, back(s))
        && tombstones_of(v1, s) == tombstones_of(v0, back(s)) && depth(v0, back(s)) == match s {
        Source::Table(l, i) => depth(v1, s) + 1,
        _ => depth(v1, s),
    } by {}
    assert forall|s: Source, p: Pair, z: Source, q: Pair|
        #![trigger has_version(v1, key, s, p), has_version(v1, key, z, q)]
        has_version(v1, key, s, p) && has_version(v1, key, z, q) implies (depth(v1, s) < depth(
        v1,
        z,
    ) ==> ik_lt(p.0, q.0)) && (depth(v1, s) == depth(v1, z) ==> s == z) by {
        assert(has_version(v0, key, back(s), p));
        assert(has_version(v0, key, back(z), q));
    }
    assert forall|s: Source, p: Pair, z: Source, t: RangeTombstone|
        #![trigger has_version(v1, key, s, p), has_deletion(v1, key, z, t)]
        has_version(v1, key, s, p) && has_deletion(v1, key, z, t) && (depth(v1, s) < depth(v1, z)
            || depth(v1, s) == depth(v1, z) && is_deep(s)) implies t.seq < seq_of(p.0) || shields(
        v1,
        key,
        s,
        t.seq,
    ) by {
        assert(has_version(v0, key, back(s), p));
        assert(has_deletion(v0, key, back(z), t));
        if shields(v0, key, back(s), t.seq) {
            let u = choose|u: RangeTombstone| #[trigger]
                has_deletion(v0, key, back(s), u) && u.seq == t.seq;
            assert(has_deletion(v1, key, s, u));
        }
    }
}

/// What a history adds to a memtable has the sequence numbers of its writes.
pub proof fn lemma_history_adds(ms: Seq<MemTable>, ops: Seq<OpView>, base: u64, n: int, p: Pair)
    requires
        is_history(ms, ops, base),
        base + ops.len() <= u64::MAX + 1,
        0 <= n <= ops.len(),
        ms[n].entries().contains(p),
    ensures
        ms[0].entries().contains(p) || is_internal(p.0) && seq_of(p.0) >= base && type_of(p.0)
            <= VALUE_TYPE_MERGE,
    decreases n,
{
    if n > 0 {
        let seq = (base + n - 1) as u64;
        let op = ops[n - 1];
        assert(wrote(ms[n - 1], ms[n], op, seq));
        let es = ms[n].entries();
        let fs = ms[n - 1].entries();
        let i = choose|i: int| 0 <= i < es.len() && es[i] == p;
        assert(es[i] == (p.0, p.1));
        assert(holds_pair(es, p.0, p.1));
        match op {
            OpView::Put { key, value } => {
                lemma_decode_encoded(key, seq, VALUE_TYPE_VALUE);
            },
            OpView::Delete { key } => {
                lemma_decode_encoded(key, seq, VALUE_TYPE_DELETION);
            },
            OpView::Merge { key, operand } => {
                lemma_decode_encoded(key, seq, VALUE_TYPE_MERGE);
            },
            OpView::DeleteRange { start, end } => {},
        }
        if holds_pair(fs, p.0, p.1) {
            let j = choose|j: int| 0 <= j < fs.len() && #[trigger] fs[j] == (p.0, p.1);
            assert(fs[j] == p);
            lemma_history_adds(ms, ops, base, n - 1, p);
        } else if op is DeleteRange {
            assert(fs[i] == (p.0, p.1));
        }
    }
}

/// A history takes no tombstone from a memtable.
proof fn lemma_history_keeps(
    ms: Seq<MemTable>,
    ops: Seq<OpView>,
    base: u64,
    n: int,
    t: RangeTombstone,
)
    requires
        is_history(ms, ops, base),
        0 <= n <= ops.len(),
        ms[0].tombstones().contains(t),
    ensures
        ms[n].tombstones().contains(t),
    decreases n,
{
    if n > 0 {
        lemma_history_keeps(ms, ops, base, n - 1, t);
        assert(wrote(ms[n - 1], ms[n], ops[n - 1], (base + (n - 1)) as u64));
        let a = ms[n - 1].tombstones();
        let b = ms[n].tombstones();
        let i = choose|i: int| 0 <= i < a.len() && a[i] == t;
        if ops[n - 1] is DeleteRange {
            assert(b.drop_last()[i] == b[i]);
        }
        assert(b[i] == t);
    }
}

/// A version in a source is under an internal key.
pub proof fn lemma_version_internal(v: ReadView, key: Seq<u8>, s: Source, p: Pair)
    requires
        v.wf(),
        has_version(v, key, s, p),
    ensures
        is_internal(p.0),
{
    let es = entries_of(v, s);
    match s {
        Source::Active => {
            v.active.lemma_sorted();
        },
        Source::Frozen(i) => {
            assert(v.frozen@[i].wf());
            v.frozen@[i].lemma_sorted();
        },
        Source::Table(l, i) => {
            assert(files_wf(v.version.levels@[l]@));
            assert(v.version.levels@[l]@[i].wf());
            v.version.levels@[l]@[i].reader.lemma_sorted();
        },
    }
    let x = choose|x: int| 0 <= x < es.len() && es[x] == p;
    assert(is_internal(es[x].0));
}

/// Everything below the active memtable has a sequence number up to `seq`.
pub open spec fn older_bounded(v: ReadView, seq: u64) -> bool {
    &&& forall|i: int| 0 <= i < v.frozen@.len() ==> bounded(#[trigger] v.frozen@[i], seq)
    &&& version_bounded(v.version, seq)
}

/// A batch with sequence numbers beyond those below the active memtable keeps
/// the order.
pub proof fn lemma_writing_keeps_age_order(
    v0: ReadView,
    v1: ReadView,
    ops: Seq<OpView>,
    base: u64,
    key: Seq<u8>,
)
    requires
        v0.wf(),
        in_age_order(v0, key),
        base > 0,
        base + ops.len() <= u64::MAX + 1,
        older_bounded(v0, (base - 1) as u64),
        wrote_all(v0.active, v1.active, ops, base),
        v1.frozen == v0.frozen,
        v1.version == v0.version,
    ensures
        in_age_order(v1, key),
{
    let ms = choose|ms: Seq<MemTable>| #[trigger]
        is_history(ms, ops, base) && ms[0] == v0.active && ms[ops.len() as int] == v1.active;
    let n = ops.len() as int;
    assert forall|s: Source, p: Pair| #[trigger] has_version(v1, key, s, p) implies has_version(
        v0,
        key,
        s,
        p,
    ) || s == Source::Active && is_internal(p.0) && seq_of(p.0) >= base by {
        if s == Source::Active {
            lemma_history_adds(ms, ops, base, n, p);
        }
    }
    assert forall|s: Source, p: Pair, z: Source, q: Pair|
        #![trigger has_version(v1, key, s, p), has_version(v1, key, z, q)]
        has_version(v1, key, s, p) && has_version(v1, key, z, q) implies (depth(v1, s) < depth(
        v1,
        z,
    ) ==> ik_lt(p.0, q.0)) && (depth(v1, s) == depth(v1, z) ==> s == z) by {
        assert(s != Source::Active ==> depth(v1, s) > 0);
        assert(z != Source::Active ==> depth(v1, z) > 0);
        if z != Source::Active {
            assert(has_version(v0, key, z, q));
            if !has_version(v0, key, s, p) {
                lemma_version_internal(v0, key, z, q);
                lemma_seq_bounded(v0, key, z, q, (base - 1) as u64);
                lemma_internal_order(p.0, q.0);
            }
        }
        if s != Source::Active && z != Source::Active {
            assert(has_version(v0, key, s, p));
        }
    }
    assert forall|s: Source, p: Pair, z: Source, t: RangeTombstone|
        #![trigger has_version(v1, key, s, p), has_deletion(v1, key, z, t)]
        has_version(v1, key, s, p) && has_deletion(v1, key, z, t) && (depth(v1, s) < depth(v1, z)
            || depth(v1, s) == depth(v1, z) && is_deep(s)) implies t.seq < seq_of(p.0) || shields(
        v1,
        key,
        s,
        t.seq,
    ) by {
        assert(s != Source::Active ==> depth(v1, s) > 0);
        assert(z != Source::Active);
        assert(has_deletion(v0, key, z, t));
        if !has_version(v0, key, s, p) {
            lemma_rt_bounded(v0, key, z, t, (base - 1) as u64);
        } else if shields(v0, key, s, t.seq) {
            let u = choose|u: RangeTombstone| #[trigger]
                has_deletion(v0, key, s, u) && u.seq == t.seq;
            if s == Source::Active {
                lemma_history_keeps(ms, ops, base, n, u);
            }
            assert(has_deletion(v1, key, s, u));
        }
    }
}

/// A version below the active memtable keeps to the bound.
pub proof fn lemma_seq_bounded(v: ReadView, key: Seq<u8>, s: Source, p: Pair, bound: u64)
    requires
        older_bounded(v, bound),
        s != Source::Active,
        has_version(v, key, s, p),
    ensures
        seq_of(p.0) <= bound,
{
    let es = entries_of(v, s);
    let x = choose|x: int| 0 <= x < es.len() && es[x] == p;
    match s {
        Source::Active => {},
        Source::Frozen(i) => {
            assert(bounded(v.frozen@[i], bound));
            assert(seq_of(v.frozen@[i].entries()[x].0) <= bound);
        },
        Source::Table(l, i) => {
            let t = v.version.levels@[l]@[i];
            assert(table_bounded(*t, bound));
            assert(seq_of(t.reader.entries()[x].0) <= bound);
        },
    }
}

/// A tombstone below the active memtable keeps to the bound.
pub proof fn lemma_rt_bounded(v: ReadView, key: Seq<u8>, s: Source, t: RangeTombstone, bound: u64)
    requires
        older_bounded(v, bound),
        s != Source::Active,
        has_deletion(v, key, s, t),
    ensures
        t.seq <= bound,
{
    let ts = tombstones_of(v, s);
    let x = choose|x: int| 0 <= x < ts.len() && ts[x] == t;
    match s {
        Source::Active => {},
        Source::Frozen(i) => {
            assert(bounded(v.frozen@[i], bound));
            assert(v.frozen@[i].tombstones()[x].seq <= bound);
        },
        Source::Table(l, i) => {
            let y = v.version.levels@[l]@[i];
            assert(table_bounded(*y, bound));
            assert(y.reader.tombstones()[x].seq <= bound);
        },
    }
}

/// An empty database is in order.
pub proof fn lemma_empty_is_in_age_order(v: ReadView, key: Seq<u8>)
    requires
        v.frozen@.len() == 0,
        forall|l: int| 0 <= l < v.version.levels@.len() ==> (#[trigger] v.version.levels@[l])@.len()
            == 0,
    ensures
        in_age_order(v, key),
{
    assert forall|s: Source| #[trigger] is_source(v, s) implies s == Source::Active by {
        match s {
            Source::Table(l, i) => {
                assert(v.version.levels@[l]@.len() == 0);
            },
            _ => {},
        }
    }
    assert forall|s: Source, p: Pair| #[trigger] has_version(v, key, s, p) implies s
        == Source::Active by {
        assert(is_source(v, s));
    }
    assert forall|s: Source, t: RangeTombstone| #[trigger] has_deletion(v, key, s, t) implies s
        == Source::Active by {
        assert(is_source(v, s));
    }
}

// ── Compactions ──────────────────────────────────────────────────

/// The tables that are not among `files`, in their order.
pub open spec fn left(s: Seq<Arc<LiveSst>>, files: Seq<Arc<LiveSst>>) -> Seq<Arc<LiveSst>>
    decreases s.len(),
{
    if s.len() == 0 {
        s
    } else if files.contains(s.last()) {
        left(s.drop_last(), files)
    } else {
        left(s.drop_last(), files).push(s.last())
    }
}

/// Where a table that is left stood.
pub open spec fn place(s: Seq<Arc<LiveSst>>, files: Seq<Arc<LiveSst>>, i: int) -> int
    decreases s.len(),
{
    if s.len() == 0 {
        i
    } else if files.contains(s.last()) || i < left(s.drop_last(), files).len() {
        place(s.drop_last(), files, i)
    } else {
        s.len() - 1
    }
}

pub proof fn lemma_place(s: Seq<Arc<LiveSst>>, files: Seq<Arc<LiveSst>>, i: int)
    requires
        0 <= i < left(s, files).len(),
    ensures
        0 <= place(s, files, i) < s.len(),
        left(s, files)[i] == s[place(s, files, i)],
        !files.contains(s[place(s, files, i)]),
    decreases s.len(),
{
    let front = s.drop_last();
    if files.contains(s.last()) || i < left(front, files).len() {
        lemma_place(front, files, i);
    } else {
        assert(s[s.len() - 1] == s.last());
    }
}

pub proof fn lemma_place_ascends(s: Seq<Arc<LiveSst>>, files: Seq<Arc<LiveSst>>, i: int, j: int)
    requires
        0 <= i < j < left(s, files).len(),
    ensures
        place(s, files, i) < place(s, files, j),
    decreases s.len(),
{
    let front = s.drop_last();
    if files.contains(s.last()) || j < left(front, files).len() {
        lemma_place_ascends(front, files, i, j);
    } else {
        lemma_place(front, files, i);
    }
}

/// A compaction of tables of level `l` into the next level.
pub struct Push {
    pub l: int,
    pub inputs: Seq<Arc<LiveSst>>,
    pub overlaps: Seq<Arc<LiveSst>>,
    pub outputs: Seq<Arc<LiveSst>>,
}

impl Push {
    /// The tables of a level that go in.
    pub open spec fn taken(self, k: int) -> Seq<Arc<LiveSst>> {
        if k == self.l {
            self.inputs
        } else if k == self.l + 1 {
            self.overlaps
        } else {
            Seq::empty()
        }
    }

    /// The inputs are tables of level `l`, of level 0 the oldest; with them go
    /// the tables of the next level that their range meets.
    pub open spec fn picked(self, v: ReadView) -> bool {
        let levels = v.version.levels@;
        &&& 0 <= self.l
        &&& self.l + 1 < levels.len()
        &&& self.inputs.len() > 0
        &&& forall|k: int|
            0 <= k < self.inputs.len() ==> levels[self.l]@.contains(#[trigger] self.inputs[k])
        &&& self.overlaps == overlapping(
            levels[self.l + 1]@,
            min_key(self.inputs),
            max_key(self.inputs),
        )
        &&& self.l == 0 ==> forall|i: int, j: int|
            0 <= i < levels[0]@.len() && 0 <= j < levels[0]@.len() && self.inputs.contains(
                #[trigger] levels[0]@[j],
            ) && !self.inputs.contains(#[trigger] levels[0]@[i]) ==> j < i
    }

    /// `v1` is `v0` after the compaction.
    pub open spec fn done(self, v0: ReadView, v1: ReadView) -> bool {
        &&& v1.active == v0.active
        &&& v1.frozen == v0.frozen
        &&& v1.version.levels@.len() == v0.version.levels@.len()
        &&& forall|k: int|
            0 <= k < v0.version.levels@.len() ==> (#[trigger] v1.version.levels@[k])@ == left(
                v0.version.levels@[k]@,
                self.taken(k),
            ) + if k == self.l + 1 {
                self.outputs
            } else {
                Seq::empty()
            }
    }

    /// A source of the version after the compaction that was there before.
    pub open spec fn stayed(self, v0: ReadView, s: Source) -> bool {
        match s {
            Source::Table(k, i) => i < left(v0.version.levels@[k]@, self.taken(k)).len(),
            _ => true,
        }
    }

    /// What a source that stayed was before.
    pub open spec fn was(self, v0: ReadView, s: Source) -> Source {
        match s {
            Source::Table(k, i) => Source::Table(
                k,
                place(v0.version.levels@[k]@, self.taken(k), i),
            ),
            _ => s,
        }
    }

    /// The source is a table that goes in.
    pub open spec fn takes(self, v0: ReadView, s: Source) -> bool {
        s matches Source::Table(k, i) && (k == self.l || k == self.l + 1) && self.taken(
            k,
        ).contains(v0.version.levels@[k]@[i])
    }

    /// No two of the tables that come out hold versions of one key.
    pub open spec fn apart(self, key: Seq<u8>) -> bool {
        forall|i: int, j: int, p: Pair, q: Pair|
            #![trigger self.outputs[i].reader.entries().contains(p), self.outputs[j].reader.entries().contains(q)]
            0 <= i < self.outputs.len() && 0 <= j < self.outputs.len()
                && self.outputs[i].reader.entries().contains(p)
                && self.outputs[j].reader.entries().contains(q) && user_of(p.0) == key && user_of(
                q.0,
            ) == key ==> i == j
    }
}

/// A table that stayed is what it was.
proof fn lemma_stayed(x: Push, v0: ReadView, v1: ReadView, s: Source)
    requires
        x.done(v0, v1),
        is_source(v1, s),
        x.stayed(v0, s),
    ensures
        is_source(v0, x.was(v0, s)),
        entries_of(v0, x.was(v0, s)) == entries_of(v1, s),
        tombstones_of(v0, x.was(v0, s)) == tombstones_of(v1, s),
        is_deep(x.was(v0, s)) == is_deep(s),
        !x.takes(v0, x.was(v0, s)),
{
    match s {
        Source::Table(k, i) => {
            lemma_place(v0.version.levels@[k]@, x.taken(k), i);
        },
        _ => {},
    }
}

/// A table that did not stay came out of the compaction.
proof fn lemma_came_out(x: Push, v0: ReadView, v1: ReadView, s: Source) -> (o: int)
    requires
        x.done(v0, v1),
        is_source(v1, s),
        !x.stayed(v0, s),
    ensures
        0 <= o < x.outputs.len(),
        s == Source::Table(
            x.l + 1,
            left(v0.version.levels@[x.l + 1]@, x.taken(x.l + 1)).len() + o,
        ),
        entries_of(v1, s) == x.outputs[o].reader.entries(),
        tombstones_of(v1, s) == x.outputs[o].reader.tombstones(),
{
    match s {
        Source::Table(k, i) => {
            let kept = left(v0.version.levels@[k]@, x.taken(k));
            assert(v1.version.levels@[k]@.len() == kept.len() + if k == x.l + 1 {
                x.outputs
            } else {
                Seq::empty()
            }.len());
            i - kept.len()
        },
        _ => 0,
    }
}

/// The overlaps are tables of the next level.
pub proof fn lemma_overlapping(files: Seq<Arc<LiveSst>>, lo: Seq<u8>, hi: Seq<u8>, t: Arc<LiveSst>)
    ensures
        overlapping(files, lo, hi).contains(t) == (files.contains(t) && meets(t, lo, hi)),
    decreases files.len(),
{
    if files.len() > 0 {
        let front = files.drop_last();
        let o = overlapping(front, lo, hi);
        lemma_overlapping(front, lo, hi, t);
        assert(files[files.len() - 1] == files.last());
        if files.contains(t) {
            let i = choose|i: int| 0 <= i < files.len() && files[i] == t;
            if i < front.len() {
                assert(front[i] == t);
            }
        }
        if front.contains(t) {
            let i = choose|i: int| 0 <= i < front.len() && front[i] == t;
            assert(files[i] == t);
        }
        if meets(files.last(), lo, hi) {
            let w = o.push(files.last());
            assert(w[o.len() as int] == files.last());
            if o.contains(t) {
                let i = choose|i: int| 0 <= i < o.len() && o[i] == t;
                assert(w[i] == t);
            }
            if w.contains(t) {
                let i = choose|i: int| 0 <= i < w.len() && w[i] == t;
                if i < o.len() {
                    assert(o[i] == t);
                }
            }
        }
    }
}

/// The range of several tables has in it what the range of one has.
pub proof fn lemma_within_range(files: Seq<Arc<LiveSst>>, k: int, key: Seq<u8>)
    requires
        0 <= k < files.len(),
        files[k].covers(key),
    ensures
        lex_le(min_key(files), key),
        lex_le(key, max_key(files)),
    decreases files.len(),
{
    if files.len() > 1 {
        let front = files.drop_last();
        let last = files.last();
        if k < front.len() {
            assert(front[k] == files[k]);
            lemma_within_range(front, k, key);
        }
        lemma_lex_order(last.meta.smallest_key@, min_key(front), key);
        lemma_lex_order(min_key(front), last.meta.smallest_key@, key);
        lemma_lex_order(key, max_key(front), last.meta.largest_key@);
        lemma_lex_order(key, last.meta.largest_key@, max_key(front));
        lemma_lex_trichotomy(last.meta.smallest_key@, min_key(front));
        lemma_lex_trichotomy(max_key(front), last.meta.largest_key@);
    }
}

/// A table of the next level whose range has a key in it that the range of an
/// input has goes in.
proof fn lemma_meeting(x: Push, v0: ReadView, k: int, i: int, key: Seq<u8>)
    requires
        x.picked(v0),
        0 <= k < x.inputs.len(),
        x.inputs[k].covers(key),
        0 <= i < v0.version.levels@[x.l + 1]@.len(),
        v0.version.levels@[x.l + 1]@[i].covers(key),
    ensures
        x.overlaps.contains(v0.version.levels@[x.l + 1]@[i]),
{
    let files = v0.version.levels@[x.l + 1]@;
    let t = files[i];
    let lo = min_key(x.inputs);
    let hi = max_key(x.inputs);
    lemma_within_range(x.inputs, k, key);
    lemma_lex_order(t.meta.smallest_key@, key, hi);
    lemma_lex_order(lo, key, t.meta.largest_key@);
    assert(files.contains(t));
    lemma_overlapping(files, lo, hi, t);
}

/// What goes in stands in the version.
pub proof fn lemma_goes_in(x: Push, v0: ReadView, k: int) -> (z: Source)
    requires
        x.picked(v0),
        0 <= k < (x.inputs + x.overlaps).len(),
    ensures
        is_source(v0, z),
        x.takes(v0, z),
        (x.inputs + x.overlaps)[k].reader.entries() == entries_of(v0, z),
        (x.inputs + x.overlaps)[k].reader.tombstones() == tombstones_of(v0, z),
{
    let t = (x.inputs + x.overlaps)[k];
    if k < x.inputs.len() {
        assert(t == x.inputs[k]);
        let files = v0.version.levels@[x.l]@;
        assert(files.contains(x.inputs[k]));
        let i = choose|i: int| 0 <= i < files.len() && files[i] == t;
        assert(x.inputs.contains(files[i]));
        Source::Table(x.l, i)
    } else {
        assert(t == x.overlaps[k - x.inputs.len()]);
        let files = v0.version.levels@[x.l + 1]@;
        assert(x.overlaps.contains(t));
        lemma_overlapping(files, min_key(x.inputs), max_key(x.inputs), t);
        let i = choose|i: int| 0 <= i < files.len() && files[i] == t;
        assert(x.overlaps.contains(files[i]));
        Source::Table(x.l + 1, i)
    }
}

/// A version that came out went in.
proof fn lemma_version_origin<F: CompactionFilter, M: MergeOperator>(
    c: Merged<'_, F, M>,
    x: Push,
    v0: ReadView,
    o: int,
    key: Seq<u8>,
    p: Pair,
) -> (z: Source)
    requires
        c.plain(),
        c.files == x.inputs + x.overlaps,
        c.outputs == x.outputs,
        x.picked(v0),
        0 <= o < x.outputs.len(),
        x.outputs[o].reader.entries().contains(p),
        user_of(p.0) == key,
    ensures
        has_version(v0, key, z, p),
        x.takes(v0, z),
        c.out.contains(p),
{
    assert(c.outputs[o].reader.entries().contains(p));
    lemma_all_entries(c.outputs, p);
    assert(c.out.contains(p));
    lemma_adds_nothing(c, p);
    lemma_all_entries(c.files, p);
    let k = choose|k: int|
        0 <= k < c.files.len() && (#[trigger] c.files[k]).reader.entries().contains(p);
    lemma_goes_in(x, v0, k)
}

/// A tombstone that came out went in.
proof fn lemma_deletion_origin<F: CompactionFilter, M: MergeOperator>(
    c: Merged<'_, F, M>,
    x: Push,
    v0: ReadView,
    o: int,
    key: Seq<u8>,
    t: RangeTombstone,
) -> (r: (Source, RangeTombstone))
    requires
        c.plain(),
        c.files == x.inputs + x.overlaps,
        c.outputs == x.outputs,
        x.picked(v0),
        0 <= o < x.outputs.len(),
        x.outputs[o].reader.tombstones().contains(t),
        t@.covers(key),
    ensures
        has_deletion(v0, key, r.0, r.1),
        r.1.seq == t.seq,
        x.takes(v0, r.0),
        c.out_rts.contains(t@),
{
    let ts = x.outputs[o].reader.tombstones();
    let y = choose|y: int| 0 <= y < ts.len() && ts[y] == t;
    assert(c.outputs[o].reader.tombstones()[y]@ == t@);
    lemma_all_tombstones(c.outputs, t@);
    assert(c.out_rts.contains(t@));
    let any: Pair = (Seq::empty(), Seq::empty());
    lemma_adds_nothing(c, any);
    assert(all_tombstones(c.files).contains(t@));
    lemma_all_tombstones(c.files, t@);
    let (k, n) = choose|k: int, n: int|
        0 <= k < c.files.len() && 0 <= n < c.files[k].reader.tombstones().len() && (
        #[trigger] c.files[k].reader.tombstones()[n])@ == t@;
    let u = c.files[k].reader.tombstones()[n];
    let z = lemma_goes_in(x, v0, k);
    assert(tombstones_of(v0, z)[n] == u);
    assert(u@.seq == t@.seq);
    (z, u)
}

/// A table of the next level goes in if its range and that of an input have a
/// key in common.
proof fn lemma_goes_in_too(x: Push, v0: ReadView, a: Source, b: Source, key: Seq<u8>)
    requires
        x.picked(v0),
        is_source(v0, a),
        is_source(v0, b),
        a matches Source::Table(k, i) && k == x.l + 1 && v0.version.levels@[k]@[i].covers(key),
        b matches Source::Table(k, i) && k == x.l && v0.version.levels@[k]@[i].covers(key),
        x.takes(v0, b),
    ensures
        x.takes(v0, a),
{
    let i = a->Table_1;
    let j = b->Table_1;
    let t = v0.version.levels@[x.l]@[j];
    let k = choose|k: int| 0 <= k < x.inputs.len() && x.inputs[k] == t;
    lemma_meeting(x, v0, k, i, key);
}

/// The range of a table has in it the keys that it holds versions or
/// tombstones of.
pub proof fn lemma_covers_versions(v: ReadView, key: Seq<u8>, s: Source, p: Pair)
    requires
        v.wf(),
        has_version(v, key, s, p),
    ensures
        s matches Source::Table(l, i) ==> v.version.levels@[l]@[i].covers(key),
{
    match s {
        Source::Table(l, i) => {
            assert(files_wf(v.version.levels@[l]@));
            let t = v.version.levels@[l]@[i];
            assert(t.wf());
            let x = choose|x: int| 0 <= x < t.reader.entries().len() && t.reader.entries()[x] == p;
            assert(t.covers(user_of(t.reader.entries()[x].0)));
        },
        _ => {},
    }
}

/// A table's range covers what stands in it.
pub proof fn lemma_covers_deletions(v: ReadView, key: Seq<u8>, s: Source, rt: RangeTombstone)
    requires
        v.wf(),
        has_deletion(v, key, s, rt),
    ensures
        s matches Source::Table(l, i) ==> v.version.levels@[l]@[i].covers(key),
{
    match s {
        Source::Table(l, i) => {
            assert(files_wf(v.version.levels@[l]@));
            let t = v.version.levels@[l]@[i];
            assert(t.wf());
            let ts = t.reader.tombstones();
            let x = choose|x: int| 0 <= x < ts.len() && ts[x] == rt;
            assert(ts[x]@.covers(key));
        },
        _ => {},
    }
}

/// Sources that stayed keep their order.
proof fn lemma_stayed_order(x: Push, v0: ReadView, v1: ReadView, s: Source, z: Source)
    requires
        x.done(v0, v1),
        x.picked(v0),
        is_source(v1, s),
        is_source(v1, z),
        x.stayed(v0, s),
        x.stayed(v0, z),
    ensures
        depth(v1, s) < depth(v1, z) ==> depth(v0, x.was(v0, s)) < depth(v0, x.was(v0, z)),
        depth(v1, s) == depth(v1, z) ==> depth(v0, x.was(v0, s)) == depth(v0, x.was(v0, z)),
        x.was(v0, s) == x.was(v0, z) ==> s == z,
{
    lemma_stayed(x, v0, v1, s);
    lemma_stayed(x, v0, v1, z);
    let files = v0.version.levels@[0]@;
    match (s, z) {
        (Source::Table(k, i), Source::Table(m, j)) => {
            if k == m {
                if i < j {
                    lemma_place_ascends(v0.version.levels@[k]@, x.taken(k), i, j);
                }
                if j < i {
                    lemma_place_ascends(v0.version.levels@[k]@, x.taken(k), j, i);
                }
            }
            assert(v1.version.levels@[0]@.len() >= 0);
            if k == 0 {
                assert(v1.version.levels@[0]@ == left(files, x.taken(0)) + Seq::empty());
            }
            if m == 0 {
                assert(v1.version.levels@[0]@ == left(files, x.taken(0)) + Seq::empty());
            }
        },
        _ => {},
    }
}

/// A compaction from one level to the next keeps the order.
pub proof fn lemma_compaction_keeps_age_order<F: CompactionFilter, M: MergeOperator>(
    c: Merged<'_, F, M>,
    x: Push,
    v0: ReadView,
    v1: ReadView,
    key: Seq<u8>,
)
    requires
        v0.wf(),
        v1.wf(),
        in_age_order(v0, key),
        c.plain(),
        c.files == x.inputs + x.overlaps,
        c.outputs == x.outputs,
        x.picked(v0),
        x.done(v0, v1),
        x.apart(key),
    ensures
        in_age_order(v1, key),
{
    assert forall|s: Source, p: Pair, z: Source, q: Pair|
        #![trigger has_version(v1, key, s, p), has_version(v1, key, z, q)]
        has_version(v1, key, s, p) && has_version(v1, key, z, q) implies (depth(v1, s) < depth(
        v1,
        z,
    ) ==> ik_lt(p.0, q.0)) && (depth(v1, s) == depth(v1, z) ==> s == z) by {
        lemma_pushed_versions(c, x, v0, v1, key, s, p, z, q);
    }
    assert forall|s: Source, p: Pair, z: Source, t: RangeTombstone|
        #![trigger has_version(v1, key, s, p), has_deletion(v1, key, z, t)]
        has_version(v1, key, s, p) && has_deletion(v1, key, z, t) && (depth(v1, s) < depth(v1, z)
            || depth(v1, s) == depth(v1, z) && is_deep(s)) implies t.seq < seq_of(p.0) || shields(
        v1,
        key,
        s,
        t.seq,
    ) by {
        lemma_pushed_deletions(c, x, v0, v1, key, s, p, z, t);
    }
}

/// Where a version stood before a compaction.
proof fn lemma_version_before<F: CompactionFilter, M: MergeOperator>(
    c: Merged<'_, F, M>,
    x: Push,
    v0: ReadView,
    v1: ReadView,
    key: Seq<u8>,
    s: Source,
    p: Pair,
) -> (a: Source)
    requires
        c.plain(),
        c.files == x.inputs + x.overlaps,
        c.outputs == x.outputs,
        x.picked(v0),
        x.done(v0, v1),
        has_version(v1, key, s, p),
    ensures
        has_version(v0, key, a, p),
        x.takes(v0, a) == !x.stayed(v0, s),
        x.stayed(v0, s) ==> a == x.was(v0, s) && is_deep(a) == is_deep(s),
        !x.stayed(v0, s) ==> s is Table && s->Table_0 == x.l + 1 && c.out.contains(p),
{
    if x.stayed(v0, s) {
        lemma_stayed(x, v0, v1, s);
        x.was(v0, s)
    } else {
        let o = lemma_came_out(x, v0, v1, s);
        lemma_version_origin(c, x, v0, o, key, p)
    }
}

proof fn lemma_pushed_versions<F: CompactionFilter, M: MergeOperator>(
    c: Merged<'_, F, M>,
    x: Push,
    v0: ReadView,
    v1: ReadView,
    key: Seq<u8>,
    s: Source,
    p: Pair,
    z: Source,
    q: Pair,
)
    requires
        v0.wf(),
        in_age_order(v0, key),
        c.plain(),
        c.files == x.inputs + x.overlaps,
        c.outputs == x.outputs,
        x.picked(v0),
        x.done(v0, v1),
        x.apart(key),
        has_version(v1, key, s, p),
        has_version(v1, key, z, q),
    ensures
        depth(v1, s) < depth(v1, z) ==> ik_lt(p.0, q.0),
        depth(v1, s) == depth(v1, z) ==> s == z,
{
    let a = lemma_version_before(c, x, v0, v1, key, s, p);
    let b = lemma_version_before(c, x, v0, v1, key, z, q);
    lemma_covers_versions(v0, key, a, p);
    lemma_covers_versions(v0, key, b, q);
    let n0 = v0.version.levels@[0]@.len();
    let n1 = v1.version.levels@[0]@.len();
    if x.stayed(v0, s) && x.stayed(v0, z) {
        lemma_stayed_order(x, v0, v1, s, z);
    } else if x.stayed(v0, s) {
        lemma_passes(x, v0, v1, s, a, z, b, key);
        if depth(v1, s) == depth(v1, z) {
            // Both are tables of the next level.
            if b->Table_0 == x.l {
                lemma_goes_in_too(x, v0, a, b, key);
            }
            assert(a == b);
        }
    } else if x.stayed(v0, z) {
        lemma_passes(x, v0, v1, z, b, s, a, key);
        if depth(v1, s) == depth(v1, z) {
            if a->Table_0 == x.l {
                lemma_goes_in_too(x, v0, b, a, key);
            }
            assert(a == b);
        }
    } else {
        let o = lemma_came_out(x, v0, v1, s);
        let w = lemma_came_out(x, v0, v1, z);
        assert(x.outputs[o].reader.entries().contains(p));
        assert(x.outputs[w].reader.entries().contains(q));
    }
}

/// How a source that stayed and one that came out stand to each other, and to
/// where the latter's contents were.
proof fn lemma_passes(
    x: Push,
    v0: ReadView,
    v1: ReadView,
    s: Source,
    a: Source,
    z: Source,
    b: Source,
    key: Seq<u8>,
)
    requires
        x.picked(v0),
        x.done(v0, v1),
        is_source(v1, s),
        is_source(v1, z),
        is_source(v0, b),
        x.stayed(v0, s),
        a == x.was(v0, s),
        !x.stayed(v0, z),
        z is Table,
        z->Table_0 == x.l + 1,
        x.takes(v0, b),
    ensures
        // A source before the next level was before what went in, or, in level
        // `l` itself below 0, beside it.
        depth(v1, s) < depth(v1, z) ==> depth(v0, a) < depth(v0, b) || depth(v0, a) == depth(v0, b)
            && is_deep(s) && is_deep(a),
        depth(v1, s) == depth(v1, z) ==> is_deep(s) && a is Table && a->Table_0 == x.l + 1 && (
        b->Table_0 == x.l + 1 ==> depth(v0, a) == depth(v0, b)),
        depth(v1, s) > depth(v1, z) ==> depth(v0, a) > depth(v0, b),
{
    lemma_stayed(x, v0, v1, s);
    let f = v0.frozen@.len() as int;
    let files = v0.version.levels@[0]@;
    assert(v1.version.levels@[0]@ == left(files, x.taken(0)) + Seq::empty());
    match s {
        Source::Table(k, i) => {
            lemma_place(v0.version.levels@[k]@, x.taken(k), i);
            if k == 0 && x.l == 0 && b->Table_0 == 0 {
                let ai = place(files, x.taken(0), i);
                let bi = b->Table_1;
                assert(x.inputs.contains(files[bi]));
                assert(!x.inputs.contains(files[ai]));
                assert(bi < ai);
            }
        },
        _ => {},
    }
}

proof fn lemma_pushed_deletions<F: CompactionFilter, M: MergeOperator>(
    c: Merged<'_, F, M>,
    x: Push,
    v0: ReadView,
    v1: ReadView,
    key: Seq<u8>,
    s: Source,
    p: Pair,
    z: Source,
    t: RangeTombstone,
)
    requires
        v0.wf(),
        in_age_order(v0, key),
        c.plain(),
        c.files == x.inputs + x.overlaps,
        c.outputs == x.outputs,
        x.picked(v0),
        x.done(v0, v1),
        has_version(v1, key, s, p),
        has_deletion(v1, key, z, t),
        depth(v1, s) < depth(v1, z) || depth(v1, s) == depth(v1, z) && is_deep(s),
    ensures
        t.seq < seq_of(p.0) || shields(v1, key, s, t.seq),
{
    let a = lemma_version_before(c, x, v0, v1, key, s, p);
    lemma_covers_versions(v0, key, a, p);
    if shields(v0, key, a, t.seq) {
        lemma_pushed_shield(c, x, v0, v1, key, s, a, t.seq);
    }
    if x.stayed(v0, z) {
        lemma_stayed(x, v0, v1, z);
        let b = x.was(v0, z);
        assert(has_deletion(v0, key, b, t));
        lemma_covers_deletions(v0, key, b, t);
        if x.stayed(v0, s) {
            lemma_stayed_order(x, v0, v1, s, z);
        } else {
            lemma_passes(x, v0, v1, z, b, s, a, key);
            if depth(v1, s) == depth(v1, z) && a->Table_0 == x.l {
                lemma_goes_in_too(x, v0, b, a, key);
            }
        }
    } else {
        let o = lemma_came_out(x, v0, v1, z);
        let (b, u) = lemma_deletion_origin(c, x, v0, o, key, t);
        lemma_covers_deletions(v0, key, b, u);
        if x.stayed(v0, s) {
            lemma_passes(x, v0, v1, s, a, z, b, key);
            if depth(v1, s) == depth(v1, z) && b->Table_0 == x.l {
                lemma_goes_in_too(x, v0, a, b, key);
            }
        } else {
            let w = lemma_came_out(x, v0, v1, s);
            lemma_carried(c, x, v1, key, s, w, t@);
        }
    }
}

/// Every table that comes out has a tombstone that one of them has.
proof fn lemma_carried<F: CompactionFilter, M: MergeOperator>(
    c: Merged<'_, F, M>,
    x: Push,
    v1: ReadView,
    key: Seq<u8>,
    s: Source,
    w: int,
    tv: TombstoneView,
)
    requires
        c.plain(),
        c.outputs == x.outputs,
        c.out_rts.contains(tv),
        tv.covers(key),
        is_source(v1, s),
        0 <= w < x.outputs.len(),
        tombstones_of(v1, s) == x.outputs[w].reader.tombstones(),
    ensures
        shields(v1, key, s, tv.seq),
{
    assert(holds(c.outputs[w].reader.tombstones(), tv));
    let ts = x.outputs[w].reader.tombstones();
    let i = choose|i: int| 0 <= i < ts.len() && (#[trigger] ts[i])@ == tv;
    assert(ts.contains(ts[i]));
    assert(has_deletion(v1, key, s, ts[i]));
    assert(ts[i]@.seq == tv.seq);
}

/// A tombstone that stood beside a version stands beside it still.
proof fn lemma_pushed_shield<F: CompactionFilter, M: MergeOperator>(
    c: Merged<'_, F, M>,
    x: Push,
    v0: ReadView,
    v1: ReadView,
    key: Seq<u8>,
    s: Source,
    a: Source,
    seq: u64,
)
    requires
        c.plain(),
        c.files == x.inputs + x.overlaps,
        c.outputs == x.outputs,
        x.picked(v0),
        x.done(v0, v1),
        is_source(v1, s),
        x.stayed(v0, s) ==> a == x.was(v0, s),
        x.takes(v0, a) == !x.stayed(v0, s),
        shields(v0, key, a, seq),
    ensures
        shields(v1, key, s, seq),
{
    let u = choose|u: RangeTombstone| #[trigger] has_deletion(v0, key, a, u) && u.seq == seq;
    if x.stayed(v0, s) {
        lemma_stayed(x, v0, v1, s);
        assert(has_deletion(v1, key, s, u));
    } else {
        let w = lemma_came_out(x, v0, v1, s);
        let t = v0.version.levels@[a->Table_0]@[a->Table_1];
        let taken = x.taken(a->Table_0);
        let j = choose|j: int| 0 <= j < taken.len() && taken[j] == t;
        let k = if a->Table_0 == x.l {
            j
        } else {
            x.inputs.len() + j
        };
        assert(c.files[k] == t);
        let ts = t.reader.tombstones();
        let i = choose|i: int| 0 <= i < ts.len() && ts[i] == u;
        assert(c.files[k].reader.tombstones()[i]@ == u@);
        lemma_all_tombstones(c.files, u@);
        let any: Pair = (Seq::empty(), Seq::empty());
        lemma_adds_nothing(c, any);
        assert(c.out_rts.contains(u@));
        lemma_carried(c, x, v1, key, s, w, u@);
    }
}

} // verus!
