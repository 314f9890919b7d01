//! Batched point lookups.
//!
//! A batch visits every source once for all of its keys. The keys are sorted
//! and looked up once each, so a table of a deeper level is asked only for the
//! keys within its range.

use super::hooks::opt_bytes;
use super::hooks::MergeOperator;
use super::internal_key::user_of;
use super::lookup::cover;
use super::lookup::found_first;
use super::lookup::max_seq;
use super::lookup::unless_deleted;
use super::lookup::walk;
use super::lookup::walk_chain;
use super::lookup::Layer;
use super::memtable::MemTable;
use super::range_tombstone::lemma_max_covering;
use super::range_tombstone::max_covering;
use super::read_view::covering_rts;
use super::read_view::covering_runs;
use super::read_view::file_covers_key;
use super::read_view::files_wf;
use super::read_view::lemma_layer_at;
use super::read_view::lemma_single;
use super::read_view::level_layer;
use super::read_view::may_read;
use super::read_view::memtable_layer;
use super::read_view::resolve_value;
use super::read_view::table_layer;
use super::read_view::ReadView;
use super::sstable::LiveSst;
use super::versions::found;
use super::versions::lemma_newest;
use super::versions::newest;
use crate::bytes::bytes_eq;
use crate::bytes::bytes_le;
use crate::bytes::bytes_lt;
use crate::bytes::copy_bytes;
use crate::bytes::lemma_lex_order;
use crate::bytes::lex_lt;
use crate::error::Error;
use std::sync::Arc;
use vstd::prelude::*;

verus! {

/// One key of a batch, and where its value goes.
pub struct MultiGetEntry {
    pub key: Vec<u8>,
    pub output_indexes: Vec<usize>,
    pub max_rt: u64,
    pub resolved: bool,
    pub value: Option<Vec<u8>>,
}

/// Nothing has been looked up yet.
pub open spec fn fresh(e: MultiGetEntry) -> bool {
    e.max_rt == 0 && !e.resolved && e.value is None
}

/// The keys of the entries are in ascending order.
pub open spec fn keys_ascend(es: Seq<MultiGetEntry>) -> bool {
    forall|i: int, j: int|
        0 <= i < j < es.len() ==> lex_lt((#[trigger] es[i]).key@, (#[trigger] es[j]).key@)
}

/// The value of `key` number `i` goes with entry `e`.
pub open spec fn goes_with(es: Seq<MultiGetEntry>, e: int, i: int) -> bool {
    0 <= e < es.len() && exists|a: int|
        0 <= a < es[e].output_indexes@.len() && #[trigger] es[e].output_indexes@[a] == i
}

/// The entries group the first `n` keys.
pub open spec fn groups(keys: Seq<&[u8]>, n: int, es: Seq<MultiGetEntry>) -> bool {
    &&& forall|e: int, i: int| #[trigger]
        goes_with(es, e, i) ==> 0 <= i < n && es[e].key@ == keys[i]@
    &&& forall|i: int| 0 <= i < n ==> has_place(es, i)
}

/// The value of key number `i` goes with some entry.
pub open spec fn has_place(es: Seq<MultiGetEntry>, i: int) -> bool {
    exists|e: int| #[trigger] goes_with(es, e, i)
}

/// How many entries have a key before `key`, or at it where `with` says so.
fn keys_before(es: &Vec<MultiGetEntry>, key: &[u8], with: bool) -> (n: usize)
    requires
        keys_ascend(es@),
    ensures
        n <= es@.len(),
        forall|i: int|
            0 <= i < es@.len() ==> (i < n <==> (lex_lt((#[trigger] es@[i]).key@, key@) || with
                && es@[i].key@ == key@)),
{
    let mut lo: usize = 0;
    let mut hi: usize = es.len();
    while lo < hi
        invariant
            keys_ascend(es@),
            lo <= hi <= es@.len(),
            forall|i: int|
                0 <= i < lo ==> lex_lt((#[trigger] es@[i]).key@, key@) || with && es@[i].key@
                    == key@,
            forall|i: int|
                hi <= i < es@.len() ==> !(lex_lt((#[trigger] es@[i]).key@, key@) || with
                    && es@[i].key@ == key@),
        decreases hi - lo,
    {
        let mid: usize = lo + (hi - lo) / 2;
        let before = if with {
            bytes_le(es[mid].key.as_slice(), key)
        } else {
            bytes_lt(es[mid].key.as_slice(), key)
        };
        proof {
            let m = es@[mid as int].key@;
            lemma_lex_order(m, key@, m);
            assert forall|i: int| 0 <= i < es@.len() implies {
                &&& i < mid ==> lex_lt((#[trigger] es@[i]).key@, m)
                &&& i > mid ==> lex_lt(m, es@[i].key@)
            } by {}
            assert forall|i: int| 0 <= i < es@.len() && before && i <= mid implies lex_lt(
                (#[trigger] es@[i]).key@,
                key@,
            ) || with && es@[i].key@ == key@ by {
                lemma_lex_order(es@[i].key@, m, key@);
            }
            assert forall|i: int| 0 <= i < es@.len() && !before && i >= mid implies !(lex_lt(
                (#[trigger] es@[i]).key@,
                key@,
            ) || with && es@[i].key@ == key@) by {
                lemma_lex_order(m, es@[i].key@, key@);
                lemma_lex_order(es@[i].key@, m, key@);
                lemma_lex_order(m, key@, es@[i].key@);
            }
        }
        if before {
            lo = mid + 1;
        } else {
            hi = mid;
        }
    }
    lo
}

/// The entries of a batch of keys, in ascending order, each key once.
pub fn grouped_multi_get_entries(keys: &[&[u8]]) -> (r: Vec<MultiGetEntry>)
    ensures
        keys_ascend(r@),
        groups(keys@, keys@.len() as int, r@),
        forall|e: int| 0 <= e < r@.len() ==> fresh(#[trigger] r@[e]),
{
    let mut r: Vec<MultiGetEntry> = Vec::new();
    let mut i: usize = 0;
    while i < keys.len()
        invariant
            i <= keys@.len(),
            keys_ascend(r@),
            groups(keys@, i as int, r@),
            forall|e: int| 0 <= e < r@.len() ==> fresh(#[trigger] r@[e]),
        decreases keys@.len() - i,
    {
        let key = keys[i];
        let at: usize = keys_before(&r, key, false);
        let ghost r0 = r@;
        if at < r.len() && bytes_eq(r[at].key.as_slice(), key) {
            r[at].output_indexes.push(i);
            proof {
                assert(r@.len() == r0.len());
                assert forall|e: int| 0 <= e < r@.len() implies {
                    &&& (#[trigger] r@[e]).key == r0[e].key
                    &&& fresh(r@[e])
                    &&& e != at ==> r@[e] == r0[e]
                } by {
                    assert(fresh(r0[e]));
                }
                assert(r@[at as int].output_indexes@ == r0[at as int].output_indexes@.push(i));
                lemma_grouped_push(keys@, i as int, r0, r@, at as int);
            }
        } else {
            let mut indexes: Vec<usize> = Vec::new();
            indexes.push(i);
            let entry = MultiGetEntry {
                key: copy_bytes(key),
                output_indexes: indexes,
                max_rt: 0,
                resolved: false,
                value: None,
            };
            let ghost ent = entry;
            r.insert(at, entry);
            proof {
                assert(r@ == r0.insert(at as int, ent));
                lemma_grouped_insert(keys@, i as int, r0, ent, at as int);
            }
        }
        i += 1;
    }
    r
}

proof fn lemma_grouped_push(
    keys: Seq<&[u8]>,
    i: int,
    es: Seq<MultiGetEntry>,
    fs: Seq<MultiGetEntry>,
    at: int,
)
    requires
        0 <= i < keys.len(),
        i <= usize::MAX,
        groups(keys, i, es),
        keys_ascend(es),
        fs.len() == es.len(),
        0 <= at < es.len(),
        es[at].key@ == keys[i]@,
        forall|e: int| 0 <= e < es.len() ==> (#[trigger] fs[e]).key == es[e].key,
        forall|e: int| 0 <= e < es.len() && e != at ==> (#[trigger] fs[e]) == es[e],
        fs[at].output_indexes@ == es[at].output_indexes@.push(i as usize),
    ensures
        groups(keys, i + 1, fs),
        keys_ascend(fs),
{
    assert forall|e: int, j: int| #[trigger] goes_with(fs, e, j) implies 0 <= j < i + 1
        && fs[e].key@ == keys[j]@ by {
        let a = choose|a: int|
            0 <= a < fs[e].output_indexes@.len() && #[trigger] fs[e].output_indexes@[a] == j;
        if e != at || a < es[at].output_indexes@.len() {
            assert(es[e].output_indexes@[a] == j);
            assert(goes_with(es, e, j));
        }
    }
    assert forall|j: int| 0 <= j < i + 1 implies has_place(fs, j) by {
        if j < i {
            assert(has_place(es, j));
            let e = choose|e: int| #[trigger] goes_with(es, e, j);
            let a = choose|a: int|
                0 <= a < es[e].output_indexes@.len() && #[trigger] es[e].output_indexes@[a] == j;
            assert(fs[e].output_indexes@[a] == j);
            assert(goes_with(fs, e, j));
        } else {
            assert(fs[at].output_indexes@[es[at].output_indexes@.len() as int] == j);
            assert(goes_with(fs, at, j));
        }
    }
    assert forall|a: int, b: int| 0 <= a < b < fs.len() implies lex_lt(
        (#[trigger] fs[a]).key@,
        (#[trigger] fs[b]).key@,
    ) by {
        assert(lex_lt(es[a].key@, es[b].key@));
    }
}

proof fn lemma_grouped_insert(
    keys: Seq<&[u8]>,
    i: int,
    es: Seq<MultiGetEntry>,
    ent: MultiGetEntry,
    at: int,
)
    requires
        0 <= i < keys.len(),
        i <= usize::MAX,
        groups(keys, i, es),
        keys_ascend(es),
        0 <= at <= es.len(),
        ent.key@ == keys[i]@,
        ent.output_indexes@ == seq![i as usize],
        fresh(ent),
        forall|e: int| 0 <= e < es.len() ==> fresh(#[trigger] es[e]),
        forall|e: int| 0 <= e < es.len() ==> (e < at <==> lex_lt((#[trigger] es[e]).key@, keys[i]@)),
        at < es.len() ==> es[at].key@ != keys[i]@,
    ensures
        groups(keys, i + 1, es.insert(at, ent)),
        keys_ascend(es.insert(at, ent)),
        forall|e: int|
            0 <= e < es.insert(at, ent).len() ==> fresh(#[trigger] es.insert(at, ent)[e]),
{
    let fs = es.insert(at, ent);
    assert forall|e: int| 0 <= e < fs.len() implies (#[trigger] fs[e]) == if e < at {
        es[e]
    } else if e == at {
        ent
    } else {
        es[e - 1]
    } by {}
    assert forall|e: int, j: int| #[trigger] goes_with(fs, e, j) implies 0 <= j < i + 1
        && fs[e].key@ == keys[j]@ by {
        let a = choose|a: int|
            0 <= a < fs[e].output_indexes@.len() && #[trigger] fs[e].output_indexes@[a] == j;
        if e < at {
            assert(es[e].output_indexes@[a] == j);
            assert(goes_with(es, e, j));
        } else if e > at {
            assert(es[e - 1].output_indexes@[a] == j);
            assert(goes_with(es, e - 1, j));
        }
    }
    assert forall|j: int| 0 <= j < i + 1 implies has_place(fs, j) by {
        if j < i {
            assert(has_place(es, j));
            let e = choose|e: int| #[trigger] goes_with(es, e, j);
            let a = choose|a: int|
                0 <= a < es[e].output_indexes@.len() && #[trigger] es[e].output_indexes@[a] == j;
            let d = if e < at {
                e
            } else {
                e + 1
            };
            assert(fs[d].output_indexes@[a] == j);
            assert(goes_with(fs, d, j));
        } else {
            assert(fs[at].output_indexes@[0] == j);
            assert(goes_with(fs, at, j));
        }
    }
    assert forall|a: int, b: int| 0 <= a < b < fs.len() implies lex_lt(
        (#[trigger] fs[a]).key@,
        (#[trigger] fs[b]).key@,
    ) by {
        let k = keys[i]@;
        if a == at {
            let x = es[b - 1].key@;
            assert(!lex_lt(x, k));
            let y = es[at].key@;
            assert(!lex_lt(y, k));
            lemma_lex_order(y, k, x);
            lemma_lex_order(k, y, x);
            if b - 1 > at {
                assert(lex_lt(y, x));
            }
        } else if b == at {
            assert(lex_lt(es[a].key@, k));
        } else {
            let a0 = if a < at {
                a
            } else {
                a - 1
            };
            let b0 = if b < at {
                b
            } else {
                b - 1
            };
            assert(lex_lt(es[a0].key@, es[b0].key@));
        }
    }
}

/// Which entries have a key in the range of a table.
fn key_range_for_file(es: &Vec<MultiGetEntry>, file: &LiveSst) -> (r: (usize, usize))
    requires
        keys_ascend(es@),
    ensures
        r.0 <= r.1 <= es@.len(),
        forall|i: int|
            0 <= i < es@.len() ==> (r.0 <= i < r.1 <==> file.covers((#[trigger] es@[i]).key@)),
{
    let start: usize = keys_before(es, file.meta.smallest_key.as_slice(), false);
    let end: usize = keys_before(es, file.meta.largest_key.as_slice(), true);
    let ghost lo = file.meta.smallest_key@;
    let ghost hi = file.meta.largest_key@;
    let end: usize = if end < start {
        start
    } else {
        end
    };
    proof {
        assert forall|i: int| 0 <= i < es@.len() implies (start <= i < end <==> file.covers(
            (#[trigger] es@[i]).key@,
        )) by {
            let k = es@[i].key@;
            lemma_lex_order(lo, k, lo);
            lemma_lex_order(k, hi, k);
            lemma_lex_order(k, lo, k);
        }
    }
    (start, end)
}

// ── Visiting one layer ───────────────────────────────────────────

/// What visiting a layer makes of an entry.
pub open spec fn visited(e0: MultiGetEntry, e1: MultiGetEntry, layer: Layer, s: u64) -> bool {
    &&& e1.key == e0.key
    &&& e1.output_indexes == e0.output_indexes
    &&& if e0.resolved {
        e1 == e0
    } else {
        let m = max_seq(e0.max_rt, cover(layer.rts, e0.key@, s));
        &&& e1.max_rt == m
        &&& match found_first(layer.runs, e0.key@, s) {
            Some(f) => e1.resolved && opt_bytes(e1.value) == unless_deleted(f, m),
            None => !e1.resolved && e1.value == e0.value,
        }
    }
}

/// A table that does not have the key in its range has nothing to say of it.
proof fn lemma_not_covering(t: Arc<LiveSst>, key: Seq<u8>, s: u64)
    requires
        t.wf(),
        !t.covers(key),
    ensures
        found(t.reader.entries(), key, s) is None,
        max_covering(t.reader.tombstones(), key, s) == 0,
{
    let es = t.reader.entries();
    t.reader.lemma_sorted();
    lemma_newest(es, key, s);
    match newest(es, key, s) {
        Some(p) => {
            let i = choose|i: int| 0 <= i < es.len() && es[i] == p;
            assert(t.covers(user_of(es[i].0)));
        },
        None => {},
    }
    let rts = t.reader.tombstones();
    lemma_max_covering(rts, key, s);
    if max_covering(rts, key, s) != 0 {
        let i = choose|i: int|
            0 <= i < rts.len() && (#[trigger] rts[i])@.covers(key) && rts[i].seq <= s && rts[i].seq
                == max_covering(rts, key, s);
        assert(t.reader.tombstones()[i]@.covers(key));
    }
}

/// Look all unresolved keys up in a memtable.
fn visit_memtable(es: &mut Vec<MultiGetEntry>, mt: &MemTable, s: u64)
    requires
        mt.wf(),
    ensures
        final(es)@.len() == old(es)@.len(),
        forall|e: int|
            0 <= e < old(es)@.len() ==> visited(
                old(es)@[e],
                #[trigger] final(es)@[e],
                memtable_layer(*mt),
                s,
            ),
{
    let ghost es0 = es@;
    let mut i: usize = 0;
    while i < es.len()
        invariant
            mt.wf(),
            es0 == old(es)@,
            i <= es@.len(),
            es@.len() == es0.len(),
            forall|e: int|
                0 <= e < i ==> visited(es0[e], #[trigger] es@[e], memtable_layer(*mt), s),
            forall|e: int| i <= e < es0.len() ==> #[trigger] es@[e] == es0[e],
        decreases es@.len() - i,
    {
        let ghost es1 = es@;
        assert(es@[i as int] == es0[i as int]);
        if !es[i].resolved {
            proof {
                lemma_single(mt.tombstones(), mt.entries(), es0[i as int].key@, s);
            }
            let rt: u64 = mt.covering_range_tombstone_seq(es[i].key.as_slice(), s);
            let m: u64 = if rt > es[i].max_rt {
                rt
            } else {
                es[i].max_rt
            };
            let f = mt.get(es[i].key.as_slice(), s);
            es[i].max_rt = m;
            match f {
                Some(f) => {
                    es[i].value = resolve_value(f, m);
                    es[i].resolved = true;
                },
                None => {},
            }
        }
        proof {
            assert forall|e: int| 0 <= e < es0.len() && e != i implies (#[trigger] es@[e])
                == es1[e] by {}
            assert(visited(es0[i as int], es@[i as int], memtable_layer(*mt), s));
        }
        i += 1;
    }
}

/// Look all unresolved keys up in a table of level 0.
fn visit_table(es: &mut Vec<MultiGetEntry>, file: &Arc<LiveSst>, s: u64)
    requires
        file.wf(),
    ensures
        final(es)@.len() == old(es)@.len(),
        forall|e: int|
            0 <= e < old(es)@.len() ==> visited(
                old(es)@[e],
                #[trigger] final(es)@[e],
                table_layer(*file),
                s,
            ),
{
    let ghost es0 = es@;
    let mut i: usize = 0;
    while i < es.len()
        invariant
            file.wf(),
            es0 == old(es)@,
            i <= es@.len(),
            es@.len() == es0.len(),
            forall|e: int| 0 <= e < i ==> visited(es0[e], #[trigger] es@[e], table_layer(*file), s),
            forall|e: int| i <= e < es0.len() ==> #[trigger] es@[e] == es0[e],
        decreases es@.len() - i,
    {
        let ghost es1 = es@;
        assert(es@[i as int] == es0[i as int]);
        proof {
            lemma_single(
                file.reader.tombstones(),
                file.reader.entries(),
                es0[i as int].key@,
                s,
            );
            if !file.covers(es0[i as int].key@) {
                lemma_not_covering(*file, es0[i as int].key@, s);
            }
        }
        if !es[i].resolved && file_covers_key(file, es[i].key.as_slice()) {
            let rt: u64 = file.reader.covering_range_tombstone_seq(es[i].key.as_slice(), s);
            let m: u64 = if rt > es[i].max_rt {
                rt
            } else {
                es[i].max_rt
            };
            let f = file.reader.get(es[i].key.as_slice(), s);
            es[i].max_rt = m;
            match f {
                Some(f) => {
                    es[i].value = resolve_value(f, m);
                    es[i].resolved = true;
                },
                None => {},
            }
        }
        proof {
            assert forall|e: int| 0 <= e < es0.len() && e != i implies (#[trigger] es@[e])
                == es1[e] by {}
            assert(visited(es0[i as int], es@[i as int], table_layer(*file), s));
        }
        i += 1;
    }
}

/// While the tombstones of a level are visited, `files` are still to come.
pub open spec fn covered_so_far(
    e0: MultiGetEntry,
    e1: MultiGetEntry,
    all: Seq<Arc<LiveSst>>,
    files: Seq<Arc<LiveSst>>,
    s: u64,
) -> bool {
    &&& e1.key == e0.key
    &&& e1.output_indexes == e0.output_indexes
    &&& e1.resolved == e0.resolved
    &&& e1.value == e0.value
    &&& if e0.resolved {
        e1 == e0
    } else {
        max_seq(e0.max_rt, cover(covering_rts(all, e0.key@), e0.key@, s)) == max_seq(
            e1.max_rt,
            cover(covering_rts(files, e0.key@), e0.key@, s),
        )
    }
}

/// While the entries of a level are visited, `files` are still to come.
pub open spec fn found_so_far(
    e0: MultiGetEntry,
    e1: MultiGetEntry,
    all: Seq<Arc<LiveSst>>,
    files: Seq<Arc<LiveSst>>,
    s: u64,
) -> bool {
    &&& e1.key == e0.key
    &&& e1.output_indexes == e0.output_indexes
    &&& e1.max_rt == e0.max_rt
    &&& if e0.resolved {
        e1 == e0
    } else if e1.resolved {
        found_first(covering_runs(all, e0.key@), e0.key@, s) matches Some(f) && opt_bytes(e1.value)
            == unless_deleted(f, e0.max_rt)
    } else {
        &&& e1.value == e0.value
        &&& found_first(covering_runs(all, e0.key@), e0.key@, s) == found_first(
            covering_runs(files, e0.key@),
            e0.key@,
            s,
        )
    }
}

/// The next table of a level, for a key in its range and for one that is not.
proof fn lemma_next_file(files: Seq<Arc<LiveSst>>, key: Seq<u8>, s: u64)
    requires
        files.len() > 0,
    ensures
        !files[0].covers(key) ==> covering_rts(files, key) == covering_rts(files.skip(1), key),
        !files[0].covers(key) || files[0].meta.num_entries == 0 ==> covering_runs(files, key)
            == covering_runs(files.skip(1), key),
        files[0].covers(key) ==> cover(covering_rts(files, key), key, s) == max_seq(
            max_covering(files[0].reader.tombstones(), key, s),
            cover(covering_rts(files.skip(1), key), key, s),
        ),
        files[0].covers(key) && files[0].meta.num_entries != 0 ==> found_first(
            covering_runs(files, key),
            key,
            s,
        ) == if found(files[0].reader.entries(), key, s) is Some {
            found(files[0].reader.entries(), key, s)
        } else {
            found_first(covering_runs(files.skip(1), key), key, s)
        },
{
    if files[0].covers(key) {
        let all = covering_rts(files, key);
        assert(all.skip(1) =~= covering_rts(files.skip(1), key));
        if files[0].meta.num_entries != 0 {
            let runs = covering_runs(files, key);
            assert(runs.skip(1) =~= covering_runs(files.skip(1), key));
        }
    }
}

/// Visit the tombstones of a level for all unresolved keys.
fn visit_level_rts(es: &mut Vec<MultiGetEntry>, files: &Vec<Arc<LiveSst>>, s: u64)
    requires
        files_wf(files@),
        keys_ascend(old(es)@),
    ensures
        final(es)@.len() == old(es)@.len(),
        forall|e: int|
            0 <= e < old(es)@.len() ==> covered_so_far(
                old(es)@[e],
                #[trigger] final(es)@[e],
                files@,
                Seq::empty(),
                s,
            ),
{
    let ghost es0 = es@;
    let mut f: usize = 0;
    assert(files@.skip(0) =~= files@);
    while f < files.len()
        invariant
            files_wf(files@),
            es0 == old(es)@,
            keys_ascend(es0),
            f <= files@.len(),
            es@.len() == es0.len(),
            forall|e: int|
                0 <= e < es0.len() ==> covered_so_far(
                    es0[e],
                    #[trigger] es@[e],
                    files@,
                    files@.skip(f as int),
                    s,
                ),
        decreases files@.len() - f,
    {
        let file = &files[f];
        let ghost now = files@.skip(f as int);
        let ghost next = files@.skip(f + 1);
        proof {
            assert(now[0] == files@[f as int]);
            assert(now.skip(1) =~= next);
            assert(files@[f as int].wf());
            assert forall|a: int, b: int| 0 <= a < b < es@.len() implies lex_lt(
                (#[trigger] es@[a]).key@,
                (#[trigger] es@[b]).key@,
            ) by {
                assert(lex_lt(es0[a].key@, es0[b].key@));
            }
        }
        let (start, end) = key_range_for_file(es, file);
        proof {
            assert forall|e: int| 0 <= e < es0.len() implies (start <= e < end <==> file.covers(
                (#[trigger] es0[e]).key@,
            )) by {
                assert(es@[e].key == es0[e].key);
            }
        }
        let mut i: usize = start;
        while i < end
            invariant
                file.wf(),
                *file == files@[f as int],
                now.len() > 0,
                now[0] == *file,
                now.skip(1) == next,
                start <= i <= end <= es0.len(),
                es@.len() == es0.len(),
                forall|e: int|
                    0 <= e < es0.len() ==> (start <= e < end <==> file.covers(
                        (#[trigger] es0[e]).key@,
                    )),
                forall|e: int|
                    start <= e < i ==> covered_so_far(es0[e], #[trigger] es@[e], files@, next, s),
                forall|e: int|
                    (0 <= e < start || i <= e < es0.len()) ==> covered_so_far(
                        es0[e],
                        #[trigger] es@[e],
                        files@,
                        now,
                        s,
                    ),
            decreases end - i,
        {
            let ghost es1 = es@;
            proof {
                assert(covered_so_far(es0[i as int], es@[i as int], files@, now, s));
                lemma_next_file(now, es0[i as int].key@, s);
                assert(file.covers(es0[i as int].key@));
            }
            if !es[i].resolved {
                let rt: u64 = file.reader.covering_range_tombstone_seq(es[i].key.as_slice(), s);
                if rt > es[i].max_rt {
                    es[i].max_rt = rt;
                }
            }
            proof {
                assert forall|e: int| 0 <= e < es0.len() && e != i implies (#[trigger] es@[e])
                    == es1[e] by {}
                assert(covered_so_far(es0[i as int], es@[i as int], files@, next, s));
            }
            i += 1;
        }
        proof {
            assert forall|e: int| 0 <= e < es0.len() implies covered_so_far(
                es0[e],
                #[trigger] es@[e],
                files@,
                next,
                s,
            ) by {
                if !(start <= e < end) {
                    lemma_next_file(now, es0[e].key@, s);
                    assert(!file.covers(es0[e].key@));
                }
            }
        }
        f += 1;
    }
    assert(files@.skip(f as int) =~= Seq::<Arc<LiveSst>>::empty());
}

/// Visit the entries of a level for all unresolved keys.
fn visit_level_runs(es: &mut Vec<MultiGetEntry>, files: &Vec<Arc<LiveSst>>, s: u64)
    requires
        files_wf(files@),
        keys_ascend(old(es)@),
    ensures
        final(es)@.len() == old(es)@.len(),
        forall|e: int|
            0 <= e < old(es)@.len() ==> found_so_far(
                old(es)@[e],
                #[trigger] final(es)@[e],
                files@,
                Seq::empty(),
                s,
            ),
{
    let ghost es0 = es@;
    let mut f: usize = 0;
    assert(files@.skip(0) =~= files@);
    while f < files.len()
        invariant
            files_wf(files@),
            es0 == old(es)@,
            keys_ascend(es0),
            f <= files@.len(),
            es@.len() == es0.len(),
            forall|e: int|
                0 <= e < es0.len() ==> found_so_far(
                    es0[e],
                    #[trigger] es@[e],
                    files@,
                    files@.skip(f as int),
                    s,
                ),
        decreases files@.len() - f,
    {
        let file = &files[f];
        let ghost now = files@.skip(f as int);
        let ghost next = files@.skip(f + 1);
        proof {
            assert(now[0] == files@[f as int]);
            assert(now.skip(1) =~= next);
            assert(files@[f as int].wf());
            assert forall|a: int, b: int| 0 <= a < b < es@.len() implies lex_lt(
                (#[trigger] es@[a]).key@,
                (#[trigger] es@[b]).key@,
            ) by {
                assert(lex_lt(es0[a].key@, es0[b].key@));
            }
        }
        if file.meta.num_entries == 0 {
            proof {
                assert forall|e: int| 0 <= e < es0.len() implies found_so_far(
                    es0[e],
                    #[trigger] es@[e],
                    files@,
                    next,
                    s,
                ) by {
                    assert(found_so_far(es0[e], es@[e], files@, now, s));
                    lemma_next_file(now, es0[e].key@, s);
                }
            }
            f += 1;
            continue;
        }
        let (start, end) = key_range_for_file(es, file);
        proof {
            assert forall|e: int| 0 <= e < es0.len() implies (start <= e < end <==> file.covers(
                (#[trigger] es0[e]).key@,
            )) by {
                assert(es@[e].key == es0[e].key);
            }
        }
        let mut i: usize = start;
        while i < end
            invariant
                file.wf(),
                file.meta.num_entries != 0,
                *file == files@[f as int],
                now.len() > 0,
                now[0] == *file,
                now.skip(1) == next,
                start <= i <= end <= es0.len(),
                es@.len() == es0.len(),
                forall|e: int|
                    0 <= e < es0.len() ==> (start <= e < end <==> file.covers(
                        (#[trigger] es0[e]).key@,
                    )),
                forall|e: int|
                    start <= e < i ==> found_so_far(es0[e], #[trigger] es@[e], files@, next, s),
                forall|e: int|
                    (0 <= e < start || i <= e < es0.len()) ==> found_so_far(
                        es0[e],
                        #[trigger] es@[e],
                        files@,
                        now,
                        s,
                    ),
            decreases end - i,
        {
            let ghost es1 = es@;
            proof {
                assert(found_so_far(es0[i as int], es@[i as int], files@, now, s));
                lemma_next_file(now, es0[i as int].key@, s);
                assert(file.covers(es0[i as int].key@));
            }
            if !es[i].resolved {
                match file.reader.get(es[i].key.as_slice(), s) {
                    Some(found) => {
                        let m: u64 = es[i].max_rt;
                        es[i].value = resolve_value(found, m);
                        es[i].resolved = true;
                    },
                    None => {},
                }
            }
            proof {
                assert forall|e: int| 0 <= e < es0.len() && e != i implies (#[trigger] es@[e])
                    == es1[e] by {}
                assert(found_so_far(es0[i as int], es@[i as int], files@, next, s));
            }
            i += 1;
        }
        proof {
            assert forall|e: int| 0 <= e < es0.len() implies found_so_far(
                es0[e],
                #[trigger] es@[e],
                files@,
                next,
                s,
            ) by {
                if !(start <= e < end) {
                    lemma_next_file(now, es0[e].key@, s);
                    assert(!file.covers(es0[e].key@));
                }
            }
        }
        f += 1;
    }
    assert(files@.skip(f as int) =~= Seq::<Arc<LiveSst>>::empty());
}

/// Look all unresolved keys up in a level below 0.
fn visit_level(es: &mut Vec<MultiGetEntry>, files: &Vec<Arc<LiveSst>>, s: u64)
    requires
        files_wf(files@),
        keys_ascend(old(es)@),
    ensures
        final(es)@.len() == old(es)@.len(),
        forall|e: int|
            0 <= e < old(es)@.len() ==> visited(
                old(es)@[e],
                #[trigger] final(es)@[e],
                level_layer(files@, old(es)@[e].key@),
                s,
            ),
{
    let ghost es0 = es@;
    visit_level_rts(es, files, s);
    let ghost es1 = es@;
    proof {
        assert forall|a: int, b: int| 0 <= a < b < es1.len() implies lex_lt(
            (#[trigger] es1[a]).key@,
            (#[trigger] es1[b]).key@,
        ) by {
            assert(lex_lt(es0[a].key@, es0[b].key@));
        }
    }
    visit_level_runs(es, files, s);
    proof {
        assert forall|e: int| 0 <= e < es0.len() implies visited(
            es0[e],
            #[trigger] es@[e],
            level_layer(files@, es0[e].key@),
            s,
        ) by {
            assert(covered_so_far(es0[e], es1[e], files@, Seq::empty(), s));
            assert(found_so_far(es1[e], es@[e], files@, Seq::empty(), s));
        }
    }
}

// ── The batch ────────────────────────────────────────────────────

/// The first `n` layers have been visited for an entry: it holds its answer,
/// or the rest of the layers has it.
pub open spec fn pending(view: ReadView, e: MultiGetEntry, n: int, s: u64) -> bool {
    let target = walk(view.layers(e.key@), e.key@, s, 0);
    if e.resolved {
        opt_bytes(e.value) == target
    } else {
        e.value is None && target == walk(view.layers(e.key@).skip(n), e.key@, s, e.max_rt)
    }
}

proof fn lemma_pending(
    view: ReadView,
    es0: Seq<MultiGetEntry>,
    es1: Seq<MultiGetEntry>,
    n: int,
    s: u64,
)
    requires
        view.wf(),
        0 <= n < view.frozen@.len() + view.version.levels@[0]@.len() + view.version.levels@.len(),
        es0.len() == es1.len(),
        keys_ascend(es0),
        forall|e: int| 0 <= e < es0.len() ==> pending(view, #[trigger] es0[e], n, s),
        forall|e: int|
            0 <= e < es0.len() ==> visited(
                es0[e],
                #[trigger] es1[e],
                view.layers(es0[e].key@)[n],
                s,
            ),
    ensures
        keys_ascend(es1),
        forall|e: int| 0 <= e < es1.len() ==> pending(view, #[trigger] es1[e], n + 1, s),
        forall|e: int|
            0 <= e < es1.len() ==> (#[trigger] es1[e]).output_indexes == es0[e].output_indexes
                && es1[e].key == es0[e].key,
{
    assert forall|e: int| 0 <= e < es1.len() implies pending(
        view,
        #[trigger] es1[e],
        n + 1,
        s,
    ) by {
        assert(pending(view, es0[e], n, s));
        lemma_layer_at(view, es0[e].key@, n);
    }
    assert forall|a: int, b: int| 0 <= a < b < es1.len() implies lex_lt(
        (#[trigger] es1[a]).key@,
        (#[trigger] es1[b]).key@,
    ) by {
        assert(lex_lt(es0[a].key@, es0[b].key@));
    }
}

/// Whether every key has its answer.
fn all_resolved(es: &Vec<MultiGetEntry>) -> (r: bool)
    ensures
        r ==> forall|e: int| 0 <= e < es@.len() ==> (#[trigger] es@[e]).resolved,
{
    let mut i: usize = 0;
    while i < es.len()
        invariant
            i <= es@.len(),
            forall|e: int| 0 <= e < i ==> (#[trigger] es@[e]).resolved,
        decreases es@.len() - i,
    {
        if !es[i].resolved {
            return false;
        }
        i += 1;
    }
    true
}

/// The entries still group the same keys.
pub open spec fn same_groups(es0: Seq<MultiGetEntry>, es1: Seq<MultiGetEntry>) -> bool {
    &&& es1.len() == es0.len()
    &&& forall|e: int|
        0 <= e < es1.len() ==> (#[trigger] es1[e]).output_indexes == es0[e].output_indexes
            && es1[e].key == es0[e].key
}

/// Look all keys up, source by source, until every key has its answer.
fn resolve_all(view: &ReadView, es: &mut Vec<MultiGetEntry>, s: u64)
    requires
        view.wf(),
        keys_ascend(old(es)@),
        forall|e: int| 0 <= e < old(es)@.len() ==> fresh(#[trigger] old(es)@[e]),
    ensures
        same_groups(old(es)@, final(es)@),
        forall|e: int|
            0 <= e < final(es)@.len() ==> opt_bytes((#[trigger] final(es)@[e]).value) == walk(
                view.layers(final(es)@[e].key@),
                final(es)@[e].key@,
                s,
                0,
            ),
{
    let ghost es0 = es@;
    let ghost mut n: int = 0;
    let ghost f = view.frozen@.len() as int;
    let ghost l0n = view.version.levels@[0]@.len() as int;
    proof {
        assert forall|e: int| 0 <= e < es0.len() implies pending(*view, #[trigger] es0[e], 0, s) by {
            assert(fresh(es0[e]));
            assert(view.layers(es0[e].key@).skip(0) =~= view.layers(es0[e].key@));
            lemma_layer_at(*view, es0[e].key@, 0);
        }
    }
    visit_memtable(es, &view.active, s);
    proof {
        assert forall|e: int| 0 <= e < es0.len() implies visited(
            es0[e],
            #[trigger] es@[e],
            view.layers(es0[e].key@)[0],
            s,
        ) by {
            lemma_layer_at(*view, es0[e].key@, 0);
        }
        lemma_pending(*view, es0, es@, 0, s);
        n = 1;
    }
    if all_resolved(es) {
        return;
    }
    let mut i: usize = view.frozen.len();
    while i > 0
        invariant
            view.wf(),
            es0 == old(es)@,
            f == view.frozen@.len(),
            l0n == view.version.levels@[0]@.len(),
            i <= view.frozen@.len(),
            n == 1 + f - i,
            keys_ascend(es@),
            same_groups(es0, es@),
            forall|e: int| 0 <= e < es@.len() ==> pending(*view, #[trigger] es@[e], n, s),
        decreases i,
    {
        i -= 1;
        let ghost es1 = es@;
        assert(view.frozen@[i as int].wf());
        visit_memtable(es, &view.frozen[i], s);
        proof {
            assert forall|e: int| 0 <= e < es1.len() implies visited(
                es1[e],
                #[trigger] es@[e],
                view.layers(es1[e].key@)[n],
                s,
            ) by {
                lemma_layer_at(*view, es1[e].key@, n);
            }
            lemma_pending(*view, es1, es@, n, s);
            assert(same_groups(es0, es@)) by {
                assert forall|e: int| 0 <= e < es@.len() implies (#[trigger] es@[e]).output_indexes
                    == es0[e].output_indexes && es@[e].key == es0[e].key by {
                    assert(es1[e].key == es0[e].key);
                }
            }
            n = n + 1;
        }
        if all_resolved(es) {
            return;
        }
    }
    let l0 = &view.version.levels[0];
    let mut i: usize = l0.len();
    while i > 0
        invariant
            view.wf(),
            es0 == old(es)@,
            *l0 == view.version.levels@[0],
            f == view.frozen@.len(),
            l0n == view.version.levels@[0]@.len(),
            i <= l0@.len(),
            n == 1 + f + l0n - i,
            keys_ascend(es@),
            same_groups(es0, es@),
            forall|e: int| 0 <= e < es@.len() ==> pending(*view, #[trigger] es@[e], n, s),
        decreases i,
    {
        i -= 1;
        let ghost es1 = es@;
        proof {
            assert(files_wf(view.version.levels@[0]@));
            assert(l0@[i as int].wf());
        }
        visit_table(es, &l0[i], s);
        proof {
            assert forall|e: int| 0 <= e < es1.len() implies visited(
                es1[e],
                #[trigger] es@[e],
                view.layers(es1[e].key@)[n],
                s,
            ) by {
                lemma_layer_at(*view, es1[e].key@, n);
            }
            lemma_pending(*view, es1, es@, n, s);
            assert(same_groups(es0, es@)) by {
                assert forall|e: int| 0 <= e < es@.len() implies (#[trigger] es@[e]).output_indexes
                    == es0[e].output_indexes && es@[e].key == es0[e].key by {
                    assert(es1[e].key == es0[e].key);
                }
            }
            n = n + 1;
        }
        if all_resolved(es) {
            return;
        }
    }
    let mut level: usize = 1;
    while level < view.version.levels.len()
        invariant
            view.wf(),
            es0 == old(es)@,
            f == view.frozen@.len(),
            l0n == view.version.levels@[0]@.len(),
            1 <= level <= view.version.levels@.len(),
            n == f + l0n + level,
            keys_ascend(es@),
            same_groups(es0, es@),
            forall|e: int| 0 <= e < es@.len() ==> pending(*view, #[trigger] es@[e], n, s),
        decreases view.version.levels@.len() - level,
    {
        let ghost es1 = es@;
        assert(files_wf(view.version.levels@[level as int]@));
        visit_level(es, &view.version.levels[level], s);
        proof {
            assert forall|e: int| 0 <= e < es1.len() implies visited(
                es1[e],
                #[trigger] es@[e],
                view.layers(es1[e].key@)[n],
                s,
            ) by {
                lemma_layer_at(*view, es1[e].key@, n);
            }
            lemma_pending(*view, es1, es@, n, s);
            assert(same_groups(es0, es@)) by {
                assert forall|e: int| 0 <= e < es@.len() implies (#[trigger] es@[e]).output_indexes
                    == es0[e].output_indexes && es@[e].key == es0[e].key by {
                    assert(es1[e].key == es0[e].key);
                }
            }
            n = n + 1;
        }
        level += 1;
        if all_resolved(es) {
            return;
        }
    }
    proof {
        assert forall|e: int| 0 <= e < es@.len() implies opt_bytes((#[trigger] es@[e]).value)
            == walk(view.layers(es@[e].key@), es@[e].key@, s, 0) by {
            assert(pending(*view, es@[e], n, s));
            lemma_layer_at(*view, es@[e].key@, 0);
            assert(view.layers(es@[e].key@).skip(n).len() == 0);
        }
    }
}

/// A copy of a value.
fn copy_value(v: &Option<Vec<u8>>) -> (r: Option<Vec<u8>>)
    ensures
        opt_bytes(r) == opt_bytes(*v),
{
    match v {
        Some(b) => Some(copy_bytes(b.as_slice())),
        None => None,
    }
}

/// Put the answers where they belong.
fn scatter(es: &Vec<MultiGetEntry>, keys: &[&[u8]]) -> (r: Vec<Option<Vec<u8>>>)
    requires
        keys_ascend(es@),
        groups(keys@, keys@.len() as int, es@),
    ensures
        r@.len() == keys@.len(),
        forall|e: int, i: int| #[trigger]
            goes_with(es@, e, i) ==> opt_bytes(r@[i]) == opt_bytes(es@[e].value),
{
    let n: usize = keys.len();
    let mut r: Vec<Option<Vec<u8>>> = Vec::new();
    while r.len() < n
        invariant
            r@.len() <= n,
            n == keys@.len(),
        decreases n - r@.len(),
    {
        r.push(None);
    }
    let mut e: usize = 0;
    while e < es.len()
        invariant
            e <= es@.len(),
            n == keys@.len(),
            r@.len() == n,
            keys_ascend(es@),
            groups(keys@, n as int, es@),
            forall|d: int, i: int|
                d < e && #[trigger] goes_with(es@, d, i) ==> opt_bytes(r@[i]) == opt_bytes(
                    es@[d].value,
                ),
        decreases es@.len() - e,
    {
        let entry = &es[e];
        let mut a: usize = 0;
        while a < entry.output_indexes.len()
            invariant
                e < es@.len(),
                *entry == es@[e as int],
                a <= entry.output_indexes@.len(),
                n == keys@.len(),
                r@.len() == n,
                keys_ascend(es@),
                groups(keys@, n as int, es@),
                forall|d: int, i: int|
                    d < e && #[trigger] goes_with(es@, d, i) ==> opt_bytes(r@[i]) == opt_bytes(
                        es@[d].value,
                    ),
                forall|b: int|
                    0 <= b < a ==> opt_bytes(r@[(#[trigger] entry.output_indexes@[b]) as int])
                        == opt_bytes(entry.value),
            decreases entry.output_indexes@.len() - a,
        {
            let idx: usize = entry.output_indexes[a];
            let ghost r0 = r@;
            proof {
                assert(es@[e as int].output_indexes@[a as int] == idx);
                assert(goes_with(es@, e as int, idx as int));
            }
            let v = copy_value(&entry.value);
            r.set(idx, v);
            proof {
                assert forall|d: int, i: int|
                    d < e && #[trigger] goes_with(es@, d, i) implies opt_bytes(r@[i]) == opt_bytes(
                    es@[d].value,
                ) by {
                    assert(lex_lt(es@[d].key@, es@[e as int].key@));
                    lemma_lex_order(es@[d].key@, es@[d].key@, es@[d].key@);
                    assert(i != idx);
                }
                assert forall|b: int| 0 <= b < a + 1 implies opt_bytes(
                    r@[(#[trigger] entry.output_indexes@[b]) as int],
                ) == opt_bytes(entry.value) by {
                    assert(es@[e as int].output_indexes@[b] == entry.output_indexes@[b]);
                    assert(goes_with(es@, e as int, entry.output_indexes@[b] as int));
                }
            }
            a += 1;
        }
        proof {
            assert forall|d: int, i: int|
                d < e + 1 && #[trigger] goes_with(es@, d, i) implies opt_bytes(r@[i]) == opt_bytes(
                es@[d].value,
            ) by {
                if d == e {
                    let b = choose|b: int|
                        0 <= b < es@[d].output_indexes@.len()
                            && #[trigger] es@[d].output_indexes@[b] == i;
                    assert(entry.output_indexes@[b] == i);
                }
            }
        }
        e += 1;
    }
    r
}

/// A read of the key with the operator may succeed.
pub open spec fn readable<M: MergeOperator>(
    v: ReadView,
    op: M,
    key: Seq<u8>,
    snapshot_seq: u64,
) -> bool {
    exists|x: Option<Vec<u8>>| #[trigger]
        may_read(op, key, walk_chain(v.layers(key), key, snapshot_seq, 0), Ok(x))
}

/// A read of key `i` with the operator may fail with `e`, and reads of all
/// keys before it may succeed.
pub open spec fn fails_first<M: MergeOperator>(
    v: ReadView,
    op: M,
    keys: Seq<&[u8]>,
    snapshot_seq: u64,
    i: int,
    e: Error,
) -> bool {
    &&& 0 <= i < keys.len()
    &&& may_read(
        op,
        keys[i]@,
        walk_chain(v.layers(keys[i]@), keys[i]@, snapshot_seq, 0),
        Err(e),
    )
    &&& forall|j: int| 0 <= j < i ==> readable(v, op, (#[trigger] keys[j])@, snapshot_seq)
}

impl ReadView {
    /// Batched point lookup at a snapshot, for trees without a merge operator:
    /// one value for each key, in the order of the keys. A key that occurs
    /// twice gets its value twice, and every key gets what [`ReadView::get`]
    /// says of it.
    pub fn multi_get(&self, keys: &[&[u8]], snapshot_seq: u64) -> (r: Vec<Option<Vec<u8>>>)
        requires
            self.wf(),
        ensures
            r@.len() == keys@.len(),
            forall|i: int|
                0 <= i < keys@.len() ==> opt_bytes(#[trigger] r@[i]) == walk(
                    self.layers(keys@[i]@),
                    keys@[i]@,
                    snapshot_seq,
                    0,
                ),
    {
        let mut entries = grouped_multi_get_entries(keys);
        let ghost es0 = entries@;
        resolve_all(self, &mut entries, snapshot_seq);
        proof {
            lemma_same_groups(keys@, es0, entries@);
        }
        let r = scatter(&entries, keys);
        proof {
            assert forall|i: int| 0 <= i < keys@.len() implies opt_bytes(#[trigger] r@[i]) == walk(
                self.layers(keys@[i]@),
                keys@[i]@,
                snapshot_seq,
                0,
            ) by {
                assert(has_place(entries@, i));
                let e = choose|e: int| #[trigger] goes_with(entries@, e, i);
                assert(entries@[e].key@ == keys@[i]@);
            }
        }
        r
    }

    /// Batched point lookup at a snapshot with a merge operator: key by key,
    /// up to the first that fails.
    pub fn multi_get_with_merge<M: MergeOperator>(
        &self,
        keys: &[&[u8]],
        snapshot_seq: u64,
        op: &M,
    ) -> (r: Result<Vec<Option<Vec<u8>>>, Error>)
        requires
            self.wf(),
        ensures
            match r {
                Ok(values) => values@.len() == keys@.len() && forall|i: int|
                    0 <= i < keys@.len() ==> may_read(
                        *op,
                        keys@[i]@,
                        walk_chain(self.layers(keys@[i]@), keys@[i]@, snapshot_seq, 0),
                        Ok(#[trigger] values@[i]),
                    ),
                Err(e) => exists|i: int| #[trigger]
                    fails_first(*self, *op, keys@, snapshot_seq, i, e),
            },
    {
        let mut values: Vec<Option<Vec<u8>>> = Vec::new();
        let mut i: usize = 0;
        while i < keys.len()
            invariant
                self.wf(),
                i <= keys@.len(),
                values@.len() == i,
                forall|j: int|
                    0 <= j < i ==> may_read(
                        *op,
                        keys@[j]@,
                        walk_chain(self.layers(keys@[j]@), keys@[j]@, snapshot_seq, 0),
                        Ok(#[trigger] values@[j]),
                    ),
            decreases keys@.len() - i,
        {
            match self.get_with_merge(keys[i], snapshot_seq, op) {
                Ok(v) => {
                    values.push(v);
                },
                Err(e) => {
                    proof {
                        assert forall|j: int| 0 <= j < i implies readable(
                            *self,
                            *op,
                            (#[trigger] keys@[j])@,
                            snapshot_seq,
                        ) by {
                            assert(may_read(
                                *op,
                                keys@[j]@,
                                walk_chain(self.layers(keys@[j]@), keys@[j]@, snapshot_seq, 0),
                                Ok(values@[j]),
                            ));
                        }
                        assert(fails_first(*self, *op, keys@, snapshot_seq, i as int, e));
                    }
                    return Err(e);
                },
            }
            i += 1;
        }
        Ok(values)
    }
}

proof fn lemma_same_groups(keys: Seq<&[u8]>, es0: Seq<MultiGetEntry>, es1: Seq<MultiGetEntry>)
    requires
        keys_ascend(es0),
        groups(keys, keys.len() as int, es0),
        same_groups(es0, es1),
    ensures
        keys_ascend(es1),
        groups(keys, keys.len() as int, es1),
{
    assert forall|e: int, i: int| #[trigger] goes_with(es1, e, i) implies goes_with(es0, e, i) by {
        let a = choose|a: int|
            0 <= a < es1[e].output_indexes@.len() && #[trigger] es1[e].output_indexes@[a] == i;
        assert(es0[e].output_indexes@[a] == i);
    }
    assert forall|i: int| 0 <= i < keys.len() implies has_place(es1, i) by {
        assert(has_place(es0, i));
        let e = choose|e: int| #[trigger] goes_with(es0, e, i);
        let a = choose|a: int|
            0 <= a < es0[e].output_indexes@.len() && #[trigger] es0[e].output_indexes@[a] == i;
        assert(es1[e].output_indexes == es0[e].output_indexes);
        assert(es1[e].output_indexes@[a] == i);
        assert(goes_with(es1, e, i));
    }
    assert forall|a: int, b: int| 0 <= a < b < es1.len() implies lex_lt(
        (#[trigger] es1[a]).key@,
        (#[trigger] es1[b]).key@,
    ) by {
        assert(lex_lt(es0[a].key@, es0[b].key@));
    }
}

} // verus!
