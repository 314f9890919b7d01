//! Scans and lookups see the same.

use super::age_laws::entries_of;
use super::age_laws::has_version;
use super::age_laws::in_age_order;
use super::age_laws::is_source;
use super::age_laws::stands_in;
use super::age_laws::Source;
use super::block::sorted_entries;
use super::block_entry::Pair;
use super::chain_laws::cat;
use super::chain_laws::cover_all;
use super::chain_laws::lemma_cat;
use super::chain_laws::lemma_chain_is_until;
use super::chain_laws::lemma_cover_all;
use super::chain_laws::lemma_same_run;
use super::chain_laws::lemma_seen;
use super::chain_laws::lemma_walk_is_newest;
use super::chain_laws::lemma_walk_is_one_chain;
use super::chain_laws::seen;
use super::chain_laws::until;
use super::compaction_laws::has_table;
use super::compaction_laws::in_memory;
use super::compaction_laws::lemma_all_entries;
use super::compaction_laws::lemma_in_layers;
use super::compaction_laws::lemma_in_sets;
use super::compaction_laws::rt_in_memory;
use super::compaction_laws::rt_in_tables;
use super::compaction_laws::table_at;
use super::internal_key::ik_lt;
use super::internal_key::seq_of;
use super::internal_key::type_of;
use super::internal_key::user_of;
use super::internal_key::VALUE_TYPE_MERGE;
use super::lookup::aged;
use super::lookup::chain_operand_count;
use super::lookup::chain_operands;
use super::lookup::deletes_at;
use super::lookup::in_set;
use super::lookup::taken;
use super::lookup::walk;
use super::lookup::walk_chain;
use super::range_tombstone::holds;
use super::range_tombstone::lemma_max_covering;
use super::range_tombstone::max_covering;
use super::range_tombstone::RangeTombstone;
use super::range_tombstone::TombstoneView;
use super::read_view::files_wf;
use super::read_view::ReadView;
use super::scan::hidden_up_to;
use super::scan::outcome_of;
use super::scan::Outcome;
use super::scan::Scan;
use super::sstable::LiveSst;
use super::versions::visible;
use super::versions::Link;
use super::view_iter::by_key;
use super::view_iter::level_run;
use super::view_iter::put_by_key;
use super::view_iter::with_points;
use crate::bytes::lemma_lex_irreflexive;
use std::sync::Arc;
use vstd::prelude::*;

verus! {

// ── What a scan goes over ────────────────────────────────────────

pub proof fn lemma_put_holds(s: Seq<Arc<LiveSst>>, f: Arc<LiveSst>, t: Arc<LiveSst>)
    ensures
        put_by_key(s, f).contains(t) == (s.contains(t) || t == f),
    decreases s.len(),
{
    if s.len() == 0 {
        assert(seq![f][0] == f);
    } else {
        let d = s.drop_last();
        lemma_put_holds(d, f, t);
        lemma_push_holds(d, s.last(), t);
        assert(d.push(s.last()) =~= s);
        lemma_push_holds(put_by_key(d, f), s.last(), t);
        lemma_push_holds(s, f, t);
    }
}

proof fn lemma_push_holds(s: Seq<Arc<LiveSst>>, f: Arc<LiveSst>, t: Arc<LiveSst>)
    ensures
        s.push(f).contains(t) == (s.contains(t) || t == f),
{
    let p = s.push(f);
    if s.contains(t) {
        let i = choose|i: int| 0 <= i < s.len() && s[i] == t;
        assert(p[i] == t);
    }
    if t == f {
        assert(p[s.len() as int] == t);
    }
    if p.contains(t) {
        let i = choose|i: int| 0 <= i < p.len() && p[i] == t;
        if i < s.len() {
            assert(s[i] == t);
        }
    }
}

pub proof fn lemma_by_key_holds(files: Seq<Arc<LiveSst>>, t: Arc<LiveSst>)
    ensures
        by_key(files).contains(t) == files.contains(t),
    decreases files.len(),
{
    if files.len() > 0 {
        lemma_by_key_holds(files.drop_last(), t);
        lemma_put_holds(by_key(files.drop_last()), files.last(), t);
        lemma_push_holds(files.drop_last(), files.last(), t);
        assert(files.drop_last().push(files.last()) =~= files);
    }
}

pub proof fn lemma_with_points_holds(files: Seq<Arc<LiveSst>>, t: Arc<LiveSst>)
    ensures
        with_points(files).contains(t) == (files.contains(t) && t.meta.num_entries > 0),
    decreases files.len(),
{
    if files.len() > 0 {
        lemma_with_points_holds(files.drop_last(), t);
        lemma_push_holds(files.drop_last(), files.last(), t);
        assert(files.drop_last().push(files.last()) =~= files);
        lemma_push_holds(with_points(files.drop_last()), files.last(), t);
    }
}

/// The run of a level holds what its tables hold.
pub proof fn lemma_level_run_holds(files: Seq<Arc<LiveSst>>, p: Pair)
    requires
        files_wf(files),
    ensures
        level_run(files).contains(p) == exists|i: int|
            0 <= i < files.len() && (#[trigger] files[i]).reader.entries().contains(p),
{
    let ordered = by_key(with_points(files));
    lemma_all_entries(ordered, p);
    if level_run(files).contains(p) {
        let k = choose|k: int|
            0 <= k < ordered.len() && (#[trigger] ordered[k]).reader.entries().contains(p);
        let t = ordered[k];
        assert(ordered.contains(t));
        lemma_by_key_holds(with_points(files), t);
        lemma_with_points_holds(files, t);
        let i = choose|i: int| 0 <= i < files.len() && files[i] == t;
        assert(files[i].reader.entries().contains(p));
    }
    if exists|i: int| 0 <= i < files.len() && (#[trigger] files[i]).reader.entries().contains(p) {
        let i = choose|i: int|
            0 <= i < files.len() && (#[trigger] files[i]).reader.entries().contains(p);
        let t = files[i];
        assert(t.wf());
        assert(files.contains(t));
        lemma_with_points_holds(files, t);
        lemma_by_key_holds(with_points(files), t);
        let k = choose|k: int| 0 <= k < ordered.len() && ordered[k] == t;
        assert(ordered[k].reader.entries().contains(p));
    }
}

/// The tombstones of a scan are those of the memtables and tables.
proof fn lemma_deletes(v: ReadView, t: RangeTombstone)
    requires
        rt_in_memory(v, t) || rt_in_tables(v.version, t),
    ensures
        v.deletes(t@),
{
    if v.active.tombstones().contains(t) {
        let s = v.active.tombstones();
        let i = choose|i: int| 0 <= i < s.len() && s[i] == t;
        assert(s[i]@ == t@);
    } else if rt_in_memory(v, t) {
        let k = choose|k: int|
            0 <= k < v.frozen@.len() && (#[trigger] v.frozen@[k]).tombstones().contains(t);
        let s = v.frozen@[k].tombstones();
        let i = choose|i: int| 0 <= i < s.len() && s[i] == t;
        assert(s[i]@ == t@);
        assert(holds(v.frozen@[k].tombstones(), t@));
    } else {
        let x = choose|x: Arc<LiveSst>| #[trigger]
            has_table(v.version, x) && x.reader.tombstones().contains(t);
        let (l, k) = choose|l: int, k: int| #[trigger] table_at(v.version, l, k, x);
        let s = x.reader.tombstones();
        let i = choose|i: int| 0 <= i < s.len() && s[i] == t;
        assert(s[i]@ == t@);
        assert(v.table_deletes(l, k, t@));
    }
}

/// What deletes a key in a scan stands in a memtable or a table.
proof fn lemma_deleted_by(v: ReadView, tv: TombstoneView) -> (t: RangeTombstone)
    requires
        v.deletes(tv),
    ensures
        t@ == tv,
        rt_in_memory(v, t) || rt_in_tables(v.version, t),
{
    if holds(v.active.tombstones(), tv) {
        let s = v.active.tombstones();
        let i = choose|i: int| 0 <= i < s.len() && (#[trigger] s[i])@ == tv;
        assert(s.contains(s[i]));
        s[i]
    } else if exists|i: int|
        0 <= i < v.frozen@.len() && #[trigger] holds(v.frozen@[i].tombstones(), tv) {
        let k = choose|i: int|
            0 <= i < v.frozen@.len() && #[trigger] holds(v.frozen@[i].tombstones(), tv);
        let s = v.frozen@[k].tombstones();
        let i = choose|i: int| 0 <= i < s.len() && (#[trigger] s[i])@ == tv;
        assert(v.frozen@[k].tombstones().contains(s[i]));
        s[i]
    } else {
        let (l, k) = choose|l: int, i: int| #[trigger] v.table_deletes(l, i, tv);
        let x = v.version.levels@[l]@[k];
        let s = x.reader.tombstones();
        let i = choose|i: int| 0 <= i < s.len() && (#[trigger] s[i])@ == tv;
        assert(table_at(v.version, l, k, x));
        assert(has_table(v.version, x));
        assert(x.reader.tombstones().contains(s[i]));
        s[i]
    }
}

// ── The law ──────────────────────────────────────────────────────

/// The scan is one of the view: it goes over the entries of all sources, and
/// has all their tombstones.
pub open spec fn is_scan_of(v: ReadView, scan: Scan) -> bool {
    &&& v.is_all(scan.all)
    &&& forall|tv: TombstoneView| #[trigger] holds(scan.rts, tv) == v.deletes(tv)
}

/// A version in the chain has the very sequence number of the tombstone that
/// covers it: a scan shows it, and a lookup does not find it.
pub open spec fn is_tie(scan: Scan, key: Seq<u8>) -> bool {
    exists|i: int|
        0 <= i < scan.chain(key).len() && (#[trigger] scan.chain(key)[i]).0 == max_covering(
            scan.rts,
            key,
            scan.snapshot_seq,
        )
}

/// Where no link has the tombstone's own sequence number, hiding what is
/// strictly older comes to the same as hiding what is not newer.
proof fn lemma_taken_strictly(c: Seq<Link>, m: u64)
    requires
        forall|i: int| 0 <= i < c.len() ==> (#[trigger] c[i]).0 != m && c[i].0 > 0,
    ensures
        outcome_of(taken(c, m)) == outcome_of(taken(c, hidden_up_to(m))),
        taken(c, m).len() == taken(c, hidden_up_to(m)).len(),
        forall|i: int|
            0 <= i < taken(c, m).len() ==> (#[trigger] taken(c, m)[i]).1 == taken(
                c,
                hidden_up_to(m),
            )[i].1 && taken(c, m)[i].2 == taken(c, hidden_up_to(m))[i].2,
    decreases c.len(),
{
    let h = hidden_up_to(m);
    let (x, y) = (taken(c, m), taken(c, h));
    if c.len() > 0 && !(c[0].0 <= m) && c[0].1 == VALUE_TYPE_MERGE {
        let rest = c.skip(1);
        assert forall|i: int| 0 <= i < rest.len() implies (#[trigger] rest[i]).0 != m && rest[i].0
            > 0 by {
            assert(rest[i] == c[i + 1]);
        }
        lemma_taken_strictly(rest, m);
        assert forall|i: int| 0 <= i < x.len() implies (#[trigger] x[i]).1 == y[i].1 && x[i].2
            == y[i].2 by {
            if i > 0 {
                assert(x[i] == taken(rest, m)[i - 1]);
                assert(y[i] == taken(rest, h)[i - 1]);
            }
        }
    }
    assert forall|i: int| 0 <= i < x.len() implies (#[trigger] x[i]).1 == y[i].1 && x[i].2
        == y[i].2 by {}
    assert(x.len() > 0 ==> x.last() == x[x.len() - 1] && y.last() == y[y.len() - 1]);
    assert(chain_operand_count(x) == chain_operand_count(y));
    assert(chain_operands(x) =~= chain_operands(y));
}

/// What a plain lookup says, as an outcome.
pub open spec fn plainly(found: Option<Seq<u8>>) -> Outcome {
    match found {
        Some(value) => Outcome::Value(value),
        None => Outcome::Absent,
    }
}

proof fn lemma_same_cover(v: ReadView, scan: Scan, key: Seq<u8>)
    requires
        v.wf(),
        is_scan_of(v, scan),
    ensures
        cover_all(v.layers(key), key, scan.snapshot_seq) == max_covering(
            scan.rts,
            key,
            scan.snapshot_seq,
        ),
{
    let s = scan.snapshot_seq;
    let ls = v.layers(key);
    let a = cover_all(ls, key, s);
    let b = max_covering(scan.rts, key, s);
    lemma_cover_all(ls, key, s);
    lemma_max_covering(scan.rts, key, s);
    if a != 0 {
        let (i, r, t) = choose|i: int, r: int, t: RangeTombstone| #[trigger]
            in_set(ls, i, r, t) && t@.covers(key) && t.seq <= s && t.seq == a;
        assert(in_set(ls, i, r, t));
        lemma_in_sets(v, key, t);
        lemma_deletes(v, t);
        assert(holds(scan.rts, t@));
        let k = choose|k: int| 0 <= k < scan.rts.len() && (#[trigger] scan.rts[k])@ == t@;
        assert(scan.rts[k]@.covers(key) && scan.rts[k].seq == t.seq);
        assert(a <= b);
    }
    if b != 0 {
        let k = choose|k: int|
            0 <= k < scan.rts.len() && (#[trigger] scan.rts[k])@.covers(key) && scan.rts[k].seq <= s
                && scan.rts[k].seq == b;
        assert(holds(scan.rts, scan.rts[k]@));
        let t = lemma_deleted_by(v, scan.rts[k]@);
        lemma_in_sets(v, key, t);
        let (i, r) = choose|i: int, r: int| #[trigger] in_set(ls, i, r, t);
        assert(in_set(ls, i, r, t) && t@.covers(key) && t.seq <= s && t.seq == b);
        assert(deletes_at(ls, key, s, b));
        assert(b <= a);
    }
}

/// The newest tombstone of the layers over a key is the newest of the view.
pub proof fn lemma_covering_all(v: ReadView, key: Seq<u8>, snapshot_seq: u64, h: u64)
    requires
        v.wf(),
        super::merge_laws::newest_over(v, key, snapshot_seq, h),
    ensures
        cover_all(v.layers(key), key, snapshot_seq) == h,
{
    let s = snapshot_seq;
    let ls = v.layers(key);
    let a = cover_all(ls, key, s);
    lemma_cover_all(ls, key, s);
    if a != 0 {
        let (i, r, t) = choose|i: int, r: int, t: RangeTombstone| #[trigger]
            in_set(ls, i, r, t) && t@.covers(key) && t.seq <= s && t.seq == a;
        assert(in_set(ls, i, r, t));
        lemma_in_sets(v, key, t);
        lemma_deletes(v, t);
        assert(t@.seq == a);
    }
    if h != 0 {
        let tv = choose|t: TombstoneView| #[trigger]
            v.deletes(t) && t.covers(key) && t.seq <= snapshot_seq && t.seq == h;
        let t = lemma_deleted_by(v, tv);
        lemma_in_sets(v, key, t);
        let (i, r) = choose|i: int, r: int| #[trigger] in_set(ls, i, r, t);
        assert(in_set(ls, i, r, t) && t@.covers(key) && t.seq <= s && t.seq == h);
        assert(deletes_at(ls, key, s, h));
    }
}

/// A scan shows of every key what a lookup finds of it, where the sources are
/// in order of age: with a merge operator the same base value and the same
/// operands, and of a key without operands the same value. Left out is a
/// version with the very sequence number of the tombstone that covers it.
pub proof fn lemma_scans_agree_with_lookups(v: ReadView, scan: Scan, key: Seq<u8>)
    requires
        v.wf(),
        aged(v.layers(key), key),
        is_scan_of(v, scan),
        scan.wf(),
        !is_tie(scan, key),
    ensures
        scan.outcome(key) == outcome_of(walk_chain(v.layers(key), key, scan.snapshot_seq, 0)),
        scan.chain(key).len() > 0 && scan.chain(key)[0].1 == VALUE_TYPE_MERGE || scan.outcome(key)
            == plainly(walk(v.layers(key), key, scan.snapshot_seq, 0)),
{
    let s = scan.snapshot_seq;
    let ls = v.layers(key);
    let a = cat(ls, key, s);
    let b = seen(scan.all, key, s);
    let m = max_covering(scan.rts, key, s);
    lemma_cat(ls, key, s);
    lemma_seen(scan.all, key, s);
    assert forall|p: Pair| #[trigger] a.contains(p) == b.contains(p) by {
        if visible(p, key, s) {
            lemma_in_layers(v, key, p);
            assert(scan.all.contains(p) == v.meets(p));
        }
    }
    lemma_same_run(a, b);
    lemma_chain_is_until(scan.all, key, s);
    lemma_same_cover(v, scan, key);
    lemma_walk_is_one_chain(ls, key, s, 0);
    lemma_walk_is_newest(ls, key, s, 0);
    let c = scan.chain(key);
    assert(c == until(a));
    assert forall|i: int| 0 <= i < c.len() implies (#[trigger] c[i]).0 != m && c[i].0 > 0 by {
        let p = lemma_until_from(a, i);
        assert(b.contains(p));
        let j = choose|j: int| 0 <= j < scan.all.len() && scan.all[j] == p;
        assert(seq_of(scan.all[j].0) > 0);
    }
    lemma_taken_strictly(c, m);
    if a.len() > 0 && c[0].1 != VALUE_TYPE_MERGE {
        let t = taken(c, m);
        assert(t.len() == 1 && t.last() == t[0]);
        assert(b.contains(a[0]));
        let i = choose|i: int| 0 <= i < scan.all.len() && scan.all[i] == a[0];
        assert(type_of(scan.all[i].0) <= VALUE_TYPE_MERGE);
    }
}

/// Every link of a chain is that of a version.
proof fn lemma_until_from(ps: Seq<Pair>, i: int) -> (p: Pair)
    requires
        0 <= i < until(ps).len(),
    ensures
        ps.contains(p),
        until(ps)[i].0 == seq_of(p.0),
    decreases ps.len(),
{
    if i == 0 {
        assert(ps.contains(ps[0]));
        ps[0]
    } else {
        let p = lemma_until_from(ps.skip(1), i - 1);
        let j = choose|j: int| 0 <= j < ps.skip(1).len() && ps.skip(1)[j] == p;
        assert(ps[j + 1] == p);
        p
    }
}

// ── What can be scanned ──────────────────────────────────────────

/// The source of an entry that a scan meets.
proof fn lemma_met_source(v: ReadView, p: Pair) -> (s: Source)
    requires
        v.meets(p),
    ensures
        stands_in(v, s, p),
{
    if v.active.entries().contains(p) {
        Source::Active
    } else if in_memory(v, p) {
        let i = choose|i: int|
            0 <= i < v.frozen@.len() && (#[trigger] v.frozen@[i]).entries().contains(p);
        Source::Frozen(i)
    } else {
        let t = choose|t: Arc<LiveSst>| #[trigger]
            has_table(v.version, t) && t.reader.entries().contains(p);
        let (l, i) = choose|l: int, i: int| #[trigger] table_at(v.version, l, i, t);
        Source::Table(l, i)
    }
}

/// The entries of a source are sorted.
proof fn lemma_source_sorted(v: ReadView, s: Source)
    requires
        v.wf(),
        is_source(v, s),
    ensures
        sorted_entries(entries_of(v, s)),
{
    match s {
        Source::Active => {
            v.active.lemma_sorted();
        },
        Source::Frozen(i) => {
            assert(v.frozen@[i].wf());
            v.frozen@[i].lemma_sorted();
        },
        Source::Table(l, i) => {
            assert(files_wf(v.version.levels@[l]@));
            assert(v.version.levels@[l]@[i].wf());
            v.version.levels@[l]@[i].reader.lemma_sorted();
        },
    }
}

/// In order of age an internal key stands in one source.
proof fn lemma_one_place(v: ReadView, s: Source, p: Pair, z: Source, q: Pair)
    requires
        v.wf(),
        in_age_order(v, user_of(p.0)),
        stands_in(v, s, p),
        stands_in(v, z, q),
        p.0 == q.0,
    ensures
        s == z,
        p == q,
{
    assert(has_version(v, user_of(p.0), s, p));
    assert(has_version(v, user_of(p.0), z, q));
    lemma_lex_irreflexive(p.0);
    lemma_lex_irreflexive(user_of(p.0));
    lemma_lex_irreflexive(p.0.skip(p.0.len() - 9));
    assert(!ik_lt(p.0, q.0) && !ik_lt(q.0, p.0));
    let es = entries_of(v, s);
    lemma_source_sorted(v, s);
    let i = choose|i: int| 0 <= i < es.len() && es[i] == p;
    let j = choose|j: int| 0 <= j < es.len() && es[j] == q;
    if i < j {
        assert(ik_lt(es[i].0, es[j].0));
    } else if j < i {
        assert(ik_lt(es[j].0, es[i].0));
    }
}

/// A view whose sources are in order of age, and whose entries are as the
/// engine writes them, can be scanned.
pub proof fn lemma_age_order_serves_scans(v: ReadView)
    requires
        v.wf(),
        forall|key: Seq<u8>| #[trigger] in_age_order(v, key),
        v.proper(),
    ensures
        v.scannable(),
{
    assert forall|p: Pair, q: Pair| #[trigger]
        v.meets(p) && #[trigger] v.meets(q) && p.0 == q.0 implies p == q by {
        let s = lemma_met_source(v, p);
        let z = lemma_met_source(v, q);
        assert(in_age_order(v, user_of(p.0)));
        lemma_one_place(v, s, p, z, q);
    }
    assert forall|s: Source, z: Source, p: Pair| #[trigger]
        stands_in(v, s, p) && #[trigger] stands_in(v, z, p) && type_of(p.0)
            == VALUE_TYPE_MERGE implies s == z by {
        assert(in_age_order(v, user_of(p.0)));
        lemma_one_place(v, s, p, z, p);
    }
}

} // verus!
