//! The read view: the set of sources that a read resolves against.
//!
//! Data moves in one direction only, from the active memtable to the frozen
//! ones and from there to the tables, and a lookup visits the sources from the
//! newest to the oldest.

use super::block_entry::Pair;
use super::hooks::byte_strings;
use super::hooks::opt_bytes;
use super::hooks::opt_slice;
use super::hooks::MergeOperator;
use super::internal_key::VALUE_TYPE_DELETION;
use super::internal_key::VALUE_TYPE_MERGE;
use super::internal_key::VALUE_TYPE_VALUE;
use super::lookup::chain_base;
use super::lookup::chain_operand_count;
use super::lookup::chain_operands;
use super::lookup::cover;
use super::lookup::first_seq;
use super::lookup::found_first;
use super::lookup::max_seq;
use super::lookup::settled;
use super::lookup::taken;
use super::lookup::taken_runs;
use super::lookup::unless_deleted;
use super::lookup::walk;
use super::lookup::walk_chain;
use super::lookup::Layer;
use super::manifest::Version;
use super::memtable::links;
use super::memtable::opt_found;
use super::memtable::MemTable;
use super::merge_laws::lemma_lookups_merge_in_order;
use super::merge_laws::merged_read;
use super::merge_laws::met;
use super::merge_laws::newest_over;
use super::merge_laws::result_of;
use super::order_laws::in_order;
use super::range_tombstone::max_covering;
use super::range_tombstone::RangeTombstone;
use super::sstable::LiveSst;
use super::versions::chain;
use super::versions::found;
use super::versions::Link;
use crate::bytes::bytes_le;
use crate::bytes::copy_bytes;
use crate::error::Error;
use crate::error::ErrorKind;
use std::sync::Arc;
use vstd::prelude::*;

verus! {

/// The sources of a read.
pub struct ReadView {
    /// The memtable that writers append to.
    pub active: MemTable,
    /// Memtables that are sealed and wait to be flushed, oldest first.
    pub frozen: Vec<MemTable>,
    /// The tables at every level.
    pub version: Version,
}

/// A memtable as a layer.
pub open spec fn memtable_layer(m: MemTable) -> Layer {
    Layer { rts: seq![m.tombstones()], runs: seq![m.entries()] }
}

/// A table of level 0 as a layer.
pub open spec fn table_layer(t: Arc<LiveSst>) -> Layer {
    Layer { rts: seq![t.reader.tombstones()], runs: seq![t.reader.entries()] }
}

/// The tombstones of the tables whose range has `key` in it.
pub open spec fn covering_rts(files: Seq<Arc<LiveSst>>, key: Seq<u8>) -> Seq<Seq<RangeTombstone>>
    decreases files.len(),
{
    if files.len() == 0 {
        Seq::empty()
    } else if files[0].covers(key) {
        seq![files[0].reader.tombstones()] + covering_rts(files.skip(1), key)
    } else {
        covering_rts(files.skip(1), key)
    }
}

/// The entries of the tables that have any, and whose range has `key` in it.
pub open spec fn covering_runs(files: Seq<Arc<LiveSst>>, key: Seq<u8>) -> Seq<Seq<Pair>>
    decreases files.len(),
{
    if files.len() == 0 {
        Seq::empty()
    } else if files[0].meta.num_entries != 0 && files[0].covers(key) {
        seq![files[0].reader.entries()] + covering_runs(files.skip(1), key)
    } else {
        covering_runs(files.skip(1), key)
    }
}

/// A level below 0 as a layer. Its tables have no user key in common, but
/// tables that hold nothing but tombstones reach over others, so all tables
/// whose range has the key in it are visited.
pub open spec fn level_layer(files: Seq<Arc<LiveSst>>, key: Seq<u8>) -> Layer {
    Layer { rts: covering_rts(files, key), runs: covering_runs(files, key) }
}

/// The tables of a level are well formed.
pub open spec fn files_wf(files: Seq<Arc<LiveSst>>) -> bool {
    forall|i: int| 0 <= i < files.len() ==> (#[trigger] files[i]).wf()
}

impl ReadView {
    /// All sources are well formed.
    pub open spec fn wf(&self) -> bool {
        &&& self.active.wf()
        &&& forall|i: int| 0 <= i < self.frozen@.len() ==> (#[trigger] self.frozen@[i]).wf()
        &&& self.version.wf()
        &&& forall|l: int|
            0 <= l < self.version.levels@.len() ==> files_wf((#[trigger] self.version.levels@[l])@)
    }

    /// The layers that a lookup of `key` visits, newest first.
    pub open spec fn layers(&self, key: Seq<u8>) -> Seq<Layer> {
        let f = self.frozen@;
        let l0 = self.version.levels@[0]@;
        seq![memtable_layer(self.active)] + Seq::new(
            f.len(),
            |i: int| memtable_layer(f[f.len() - 1 - i]),
        ) + Seq::new(l0.len(), |i: int| table_layer(l0[l0.len() - 1 - i])) + Seq::new(
            (self.version.levels@.len() - 1) as nat,
            |i: int| level_layer(self.version.levels@[i + 1]@, key),
        )
    }
}

// ── One layer ────────────────────────────────────────────────────

/// Whether the range of a table has `key` in it.
pub fn file_covers_key(file: &LiveSst, key: &[u8]) -> (r: bool)
    ensures
        r == file.covers(key@),
{
    bytes_le(file.meta.smallest_key.as_slice(), key) && bytes_le(
        key,
        file.meta.largest_key.as_slice(),
    )
}

/// The largest covering sequence number of the tombstones of a level, or
/// `max_rt` if that is larger.
fn level_cover(files: &Vec<Arc<LiveSst>>, key: &[u8], snapshot_seq: u64, max_rt: u64) -> (r: u64)
    requires
        files_wf(files@),
    ensures
        r == max_seq(max_rt, cover(covering_rts(files@, key@), key@, snapshot_seq)),
{
    let mut m: u64 = max_rt;
    let mut i: usize = 0;
    assert(files@.skip(0) =~= files@);
    while i < files.len()
        invariant
            i <= files@.len(),
            files_wf(files@),
            max_seq(max_rt, cover(covering_rts(files@, key@), key@, snapshot_seq)) == max_seq(
                m,
                cover(covering_rts(files@.skip(i as int), key@), key@, snapshot_seq),
            ),
        decreases files@.len() - i,
    {
        proof {
            assert(files@.skip(i as int)[0] == files@[i as int]);
            assert(files@.skip(i as int).skip(1) =~= files@.skip(i + 1));
            assert(files@[i as int].wf());
        }
        if file_covers_key(&files[i], key) {
            let rt: u64 = files[i].reader.covering_range_tombstone_seq(key, snapshot_seq);
            proof {
                let all = covering_rts(files@.skip(i as int), key@);
                assert(all.skip(1) =~= covering_rts(files@.skip(i + 1), key@));
            }
            if rt > m {
                m = rt;
            }
        }
        i += 1;
    }
    m
}

/// What the first table of a level finds that may hold `key`.
fn level_get(files: &Vec<Arc<LiveSst>>, key: &[u8], snapshot_seq: u64) -> (r: Option<
    (u64, Option<Vec<u8>>),
>)
    requires
        files_wf(files@),
    ensures
        opt_found(r) == found_first(covering_runs(files@, key@), key@, snapshot_seq),
{
    let mut i: usize = 0;
    assert(files@.skip(0) =~= files@);
    while i < files.len()
        invariant
            i <= files@.len(),
            files_wf(files@),
            found_first(covering_runs(files@, key@), key@, snapshot_seq) == found_first(
                covering_runs(files@.skip(i as int), key@),
                key@,
                snapshot_seq,
            ),
        decreases files@.len() - i,
    {
        proof {
            assert(files@.skip(i as int)[0] == files@[i as int]);
            assert(files@.skip(i as int).skip(1) =~= files@.skip(i + 1));
            assert(files@[i as int].wf());
        }
        if files[i].meta.num_entries != 0 && file_covers_key(&files[i], key) {
            proof {
                let all = covering_runs(files@.skip(i as int), key@);
                assert(all.skip(1) =~= covering_runs(files@.skip(i + 1), key@));
                assert(all[0] == files@[i as int].reader.entries());
            }
            let r = files[i].reader.get(key, snapshot_seq);
            if r.is_some() {
                return r;
            }
        }
        i += 1;
    }
    None
}

/// A version counts only if it is newer than every tombstone seen so far.
pub fn resolve_value(found: (u64, Option<Vec<u8>>), max_rt: u64) -> (r: Option<Vec<u8>>)
    ensures
        opt_bytes(r) == unless_deleted((found.0, opt_bytes(found.1)), max_rt),
{
    if found.0 > max_rt {
        found.1
    } else {
        None
    }
}

/// Take of the links of one run what the chain needs. Returns whether the
/// chain needs no older run.
fn consume_partial(
    partial: Vec<(u64, u8, Vec<u8>)>,
    max_rt: u64,
    out: &mut Vec<(u64, u8, Vec<u8>)>,
) -> (r: bool)
    ensures
        links(final(out)@) == links(old(out)@) + taken(links(partial@), max_rt),
        r == settled(taken(links(partial@), max_rt)),
{
    let ghost ls = links(partial@);
    let ghost out0 = links(out@);
    let ghost mut seen: Seq<Link> = Seq::empty();
    proof {
        assert(out0 + seen =~= out0);
        assert(seen + taken(ls, max_rt) =~= taken(ls, max_rt));
        assert(ls.skip(0) =~= ls);
    }
    for link in it: partial
        invariant
            ls == links(it.seq()),
            out0 == links(old(out)@),
            links(out@) == out0 + seen,
            taken(ls, max_rt) == seen + taken(ls.skip(it.index()), max_rt),
            forall|i: int| 0 <= i < seen.len() ==> (#[trigger] seen[i]).1 == VALUE_TYPE_MERGE,
    {
        let ghost i = it.index();
        let ghost out1 = links(out@);
        let ghost l: Link = (link.0, link.1, link.2@);
        proof {
            assert(ls[i] == l);
            assert(ls.skip(i)[0] == l);
            assert(ls.skip(i).skip(1) =~= ls.skip(i + 1));
        }
        let (seq, vt, value) = link;
        if seq <= max_rt {
            let none: Vec<u8> = Vec::new();
            assert(none@ =~= Seq::<u8>::empty());
            out.push((max_rt, VALUE_TYPE_DELETION, none));
            proof {
                let d: Link = (max_rt, VALUE_TYPE_DELETION, Seq::<u8>::empty());
                assert(links(out@) =~= out1.push(d));
                assert(links(out@) =~= out0 + (seen + seq![d]));
                assert((seen + seq![d]).last() == d);
            }
            return true;
        }
        out.push((seq, vt, value));
        assert(links(out@) =~= out1.push(l));
        if vt != VALUE_TYPE_MERGE {
            proof {
                assert(links(out@) =~= out0 + (seen + seq![l]));
                assert((seen + seq![l]).last() == l);
            }
            return true;
        }
        proof {
            assert(seen + (seq![l] + taken(ls.skip(i + 1), max_rt)) =~= seen.push(l) + taken(
                ls.skip(i + 1),
                max_rt,
            ));
            assert(out0 + seen.push(l) =~= out1.push(l));
            seen = seen.push(l);
        }
    }
    proof {
        assert(ls.skip(ls.len() as int).len() == 0);
        assert(seen + ls.skip(ls.len() as int) =~= seen);
    }
    false
}

/// Take of the tables of a level what the chain needs.
fn level_chain(
    files: &Vec<Arc<LiveSst>>,
    key: &[u8],
    snapshot_seq: u64,
    max_rt: u64,
    out: &mut Vec<(u64, u8, Vec<u8>)>,
) -> (r: bool)
    requires
        files_wf(files@),
    ensures
        links(final(out)@) == links(old(out)@) + taken_runs(
            covering_runs(files@, key@),
            key@,
            snapshot_seq,
            max_rt,
        ),
        r == settled(taken_runs(covering_runs(files@, key@), key@, snapshot_seq, max_rt)),
{
    let ghost whole = taken_runs(covering_runs(files@, key@), key@, snapshot_seq, max_rt);
    let ghost out0 = links(out@);
    let ghost mut seen: Seq<Link> = Seq::empty();
    let mut i: usize = 0;
    proof {
        assert(files@.skip(0) =~= files@);
        assert(out0 + seen =~= out0);
        assert(seen + whole =~= whole);
    }
    while i < files.len()
        invariant
            i <= files@.len(),
            files_wf(files@),
            out0 == links(old(out)@),
            whole == taken_runs(covering_runs(files@, key@), key@, snapshot_seq, max_rt),
            links(out@) == out0 + seen,
            !settled(seen),
            whole == seen + taken_runs(
                covering_runs(files@.skip(i as int), key@),
                key@,
                snapshot_seq,
                max_rt,
            ),
        decreases files@.len() - i,
    {
        proof {
            assert(files@.skip(i as int)[0] == files@[i as int]);
            assert(files@.skip(i as int).skip(1) =~= files@.skip(i + 1));
            assert(files@[i as int].wf());
        }
        if files[i].meta.num_entries != 0 && file_covers_key(&files[i], key) {
            let ghost runs = covering_runs(files@.skip(i as int), key@);
            proof {
                assert(runs.skip(1) =~= covering_runs(files@.skip(i + 1), key@));
                assert(runs[0] == files@[i as int].reader.entries());
            }
            let mut partial: Vec<(u64, u8, Vec<u8>)> = Vec::new();
            assert(links(partial@) =~= Seq::<Link>::empty());
            files[i].reader.collect_merge_chain(key, snapshot_seq, &mut partial);
            assert(links(partial@) =~= chain(runs[0], key@, snapshot_seq));
            let ghost t = taken(links(partial@), max_rt);
            let done = consume_partial(partial, max_rt, out);
            proof {
                assert((out0 + seen) + t =~= out0 + (seen + t));
                if done {
                    assert((seen + t).last() == t.last());
                } else {
                    assert(seen + (t + taken_runs(runs.skip(1), key@, snapshot_seq, max_rt))
                        =~= (seen + t) + taken_runs(runs.skip(1), key@, snapshot_seq, max_rt));
                    if t.len() > 0 {
                        assert((seen + t).last() == t.last());
                    } else {
                        assert(seen + t =~= seen);
                    }
                    seen = seen + t;
                }
            }
            if done {
                return true;
            }
        }
        i += 1;
    }
    proof {
        assert(files@.skip(i as int).len() == 0);
        assert(seen + Seq::<Link>::empty() =~= seen);
    }
    false
}

// ── Lookups ──────────────────────────────────────────────────────

/// What a lookup of a single run and a single set of tombstones leaves to the
/// older layers.
pub proof fn lemma_single(rts: Seq<RangeTombstone>, run: Seq<Pair>, key: Seq<u8>, snapshot_seq: u64)
    ensures
        cover(seq![rts], key, snapshot_seq) == max_covering(rts, key, snapshot_seq),
        found_first(seq![run], key, snapshot_seq) == found(run, key, snapshot_seq),
        forall|m: u64| #[trigger]
            taken_runs(seq![run], key, snapshot_seq, m) == taken(chain(run, key, snapshot_seq), m),
{
    assert(seq![rts].skip(1).len() == 0);
    assert(seq![run].skip(1).len() == 0);
    assert(cover(seq![rts].skip(1), key, snapshot_seq) == 0);
    assert(found_first(seq![run].skip(1), key, snapshot_seq) is None);
    assert forall|m: u64| #[trigger]
        taken_runs(seq![run], key, snapshot_seq, m) == taken(
            chain(run, key, snapshot_seq),
            m,
        ) by {
        let t = taken(chain(run, key, snapshot_seq), m);
        assert(taken_runs(seq![run].skip(1), key, snapshot_seq, m) =~= Seq::<Link>::empty());
        assert(t + Seq::<Link>::empty() =~= t);
    }
}

/// The layers of a view by number.
pub proof fn lemma_layer_at(view: ReadView, key: Seq<u8>, n: int)
    requires
        view.wf(),
        0 <= n < view.layers(key).len(),
    ensures
        view.layers(key).skip(n)[0] == view.layers(key)[n],
        view.layers(key).skip(n).skip(1) == view.layers(key).skip(n + 1),
        view.layers(key).len() == view.frozen@.len() + view.version.levels@[0]@.len()
            + view.version.levels@.len(),
        view.layers(key)[n] == {
            let f = view.frozen@.len() as int;
            let l0 = view.version.levels@[0]@;
            if n == 0 {
                memtable_layer(view.active)
            } else if n < 1 + f {
                memtable_layer(view.frozen@[f - n])
            } else if n < 1 + f + l0.len() {
                table_layer(l0[f + l0.len() - n])
            } else {
                level_layer(view.version.levels@[n - f - l0.len()]@, key)
            }
        },
{
    let all = view.layers(key);
    assert(all.skip(n).skip(1) =~= all.skip(n + 1));
}

impl ReadView {
    /// Point lookup at a snapshot, for trees without a merge operator.
    ///
    /// Visits the sources from the newest to the oldest, and carries along the
    /// largest sequence number of a covering range tombstone, so that a range
    /// deletion in a newer source hides a point entry in an older one. The
    /// first source with a version of the key decides.
    pub fn get(&self, key: &[u8], snapshot_seq: u64) -> (r: Option<Vec<u8>>)
        requires
            self.wf(),
        ensures
            opt_bytes(r) == walk(self.layers(key@), key@, snapshot_seq, 0),
    {
        let ghost all = self.layers(key@);
        let ghost whole = walk(all, key@, snapshot_seq, 0);
        let ghost mut n: int = 0;
        assert(all.skip(0) =~= all);
        proof {
            lemma_layer_at(*self, key@, 0);
            lemma_single(self.active.tombstones(), self.active.entries(), key@, snapshot_seq);
        }
        let mut max_rt: u64 = self.active.covering_range_tombstone_seq(key, snapshot_seq);
        match self.active.get(key, snapshot_seq) {
            Some(f) => {
                return resolve_value(f, max_rt);
            },
            None => {},
        }
        proof {
            n = 1;
        }
        let mut i: usize = self.frozen.len();
        while i > 0
            invariant
                self.wf(),
                i <= self.frozen@.len(),
                all == self.layers(key@),
                whole == walk(all, key@, snapshot_seq, 0),
                n == 1 + self.frozen@.len() - i,
                whole == walk(all.skip(n), key@, snapshot_seq, max_rt),
            decreases i,
        {
            i -= 1;
            let mt = &self.frozen[i];
            proof {
                lemma_layer_at(*self, key@, n);
                lemma_single(mt.tombstones(), mt.entries(), key@, snapshot_seq);
                assert(self.frozen@[i as int].wf());
            }
            let rt: u64 = mt.covering_range_tombstone_seq(key, snapshot_seq);
            if rt > max_rt {
                max_rt = rt;
            }
            match mt.get(key, snapshot_seq) {
                Some(f) => {
                    return resolve_value(f, max_rt);
                },
                None => {},
            }
            proof {
                n = n + 1;
            }
        }
        let l0 = &self.version.levels[0];
        let mut i: usize = l0.len();
        while i > 0
            invariant
                self.wf(),
                *l0 == self.version.levels@[0],
                i <= l0@.len(),
                all == self.layers(key@),
                whole == walk(all, key@, snapshot_seq, 0),
                n == 1 + self.frozen@.len() + l0@.len() - i,
                whole == walk(all.skip(n), key@, snapshot_seq, max_rt),
            decreases i,
        {
            i -= 1;
            let file = &l0[i];
            proof {
                lemma_layer_at(*self, key@, n);
                lemma_single(
                    file.reader.tombstones(),
                    file.reader.entries(),
                    key@,
                    snapshot_seq,
                );
                assert(files_wf(self.version.levels@[0]@));
                assert(l0@[i as int].wf());
            }
            let rt: u64 = file.reader.covering_range_tombstone_seq(key, snapshot_seq);
            if rt > max_rt {
                max_rt = rt;
            }
            match file.reader.get(key, snapshot_seq) {
                Some(f) => {
                    return resolve_value(f, max_rt);
                },
                None => {},
            }
            proof {
                n = n + 1;
            }
        }
        let mut level: usize = 1;
        while level < self.version.levels.len()
            invariant
                self.wf(),
                *l0 == self.version.levels@[0],
                1 <= level <= self.version.levels@.len(),
                all == self.layers(key@),
                whole == walk(all, key@, snapshot_seq, 0),
                n == self.frozen@.len() + l0@.len() + level,
                whole == walk(all.skip(n), key@, snapshot_seq, max_rt),
            decreases self.version.levels@.len() - level,
        {
            let files = &self.version.levels[level];
            proof {
                lemma_layer_at(*self, key@, n);
                assert(files_wf(self.version.levels@[level as int]@));
            }
            max_rt = level_cover(files, key, snapshot_seq, max_rt);
            match level_get(files, key, snapshot_seq) {
                Some(f) => {
                    return resolve_value(f, max_rt);
                },
                None => {},
            }
            level += 1;
            proof {
                n = n + 1;
            }
        }
        assert(all.skip(n).len() == 0);
        None
    }

    /// The sequence number of the newest point entry for `key` in the first
    /// source that has one, whatever range tombstones say: was the key written
    /// again?
    pub fn latest_version_seq(&self, key: &[u8]) -> (r: Option<u64>)
        requires
            self.wf(),
        ensures
            r == first_seq(self.layers(key@), key@, u64::MAX),
    {
        let ghost all = self.layers(key@);
        let ghost mut n: int = 0;
        assert(all.skip(0) =~= all);
        proof {
            lemma_layer_at(*self, key@, 0);
            lemma_single(self.active.tombstones(), self.active.entries(), key@, u64::MAX);
        }
        match self.active.get(key, u64::MAX) {
            Some((seq, _)) => {
                return Some(seq);
            },
            None => {},
        }
        proof {
            n = 1;
        }
        let mut i: usize = self.frozen.len();
        while i > 0
            invariant
                self.wf(),
                i <= self.frozen@.len(),
                all == self.layers(key@),
                n == 1 + self.frozen@.len() - i,
                first_seq(all, key@, u64::MAX) == first_seq(all.skip(n), key@, u64::MAX),
            decreases i,
        {
            i -= 1;
            let mt = &self.frozen[i];
            proof {
                lemma_layer_at(*self, key@, n);
                lemma_single(mt.tombstones(), mt.entries(), key@, u64::MAX);
                assert(self.frozen@[i as int].wf());
            }
            match mt.get(key, u64::MAX) {
                Some((seq, _)) => {
                    return Some(seq);
                },
                None => {},
            }
            proof {
                n = n + 1;
            }
        }
        let l0 = &self.version.levels[0];
        let mut i: usize = l0.len();
        while i > 0
            invariant
                self.wf(),
                *l0 == self.version.levels@[0],
                i <= l0@.len(),
                all == self.layers(key@),
                n == 1 + self.frozen@.len() + l0@.len() - i,
                first_seq(all, key@, u64::MAX) == first_seq(all.skip(n), key@, u64::MAX),
            decreases i,
        {
            i -= 1;
            let file = &l0[i];
            proof {
                lemma_layer_at(*self, key@, n);
                lemma_single(file.reader.tombstones(), file.reader.entries(), key@, u64::MAX);
                assert(files_wf(self.version.levels@[0]@));
                assert(l0@[i as int].wf());
            }
            match file.reader.get(key, u64::MAX) {
                Some((seq, _)) => {
                    return Some(seq);
                },
                None => {},
            }
            proof {
                n = n + 1;
            }
        }
        let mut level: usize = 1;
        while level < self.version.levels.len()
            invariant
                self.wf(),
                *l0 == self.version.levels@[0],
                1 <= level <= self.version.levels@.len(),
                all == self.layers(key@),
                n == self.frozen@.len() + l0@.len() + level,
                first_seq(all, key@, u64::MAX) == first_seq(all.skip(n), key@, u64::MAX),
            decreases self.version.levels@.len() - level,
        {
            let files = &self.version.levels[level];
            proof {
                lemma_layer_at(*self, key@, n);
                assert(files_wf(self.version.levels@[level as int]@));
            }
            match level_get(files, key, u64::MAX) {
                Some((seq, _)) => {
                    return Some(seq);
                },
                None => {},
            }
            level += 1;
            proof {
                n = n + 1;
            }
        }
        assert(all.skip(n).len() == 0);
        None
    }

    /// The merge chain of `key` over all sources, newest version first: merge
    /// operands up to and with the value or deletion that they are layered on.
    /// A range tombstone that covers the key stands as a deletion.
    pub fn merge_chain(&self, key: &[u8], snapshot_seq: u64) -> (r: Vec<(u64, u8, Vec<u8>)>)
        requires
            self.wf(),
        ensures
            links(r@) == walk_chain(self.layers(key@), key@, snapshot_seq, 0),
    {
        let ghost all = self.layers(key@);
        let ghost whole = walk_chain(all, key@, snapshot_seq, 0);
        let mut out: Vec<(u64, u8, Vec<u8>)> = Vec::new();
        let ghost mut n: int = 0;
        proof {
            assert(all.skip(0) =~= all);
            assert(links(out@) =~= Seq::<Link>::empty());
            lemma_layer_at(*self, key@, 0);
            lemma_single(self.active.tombstones(), self.active.entries(), key@, snapshot_seq);
        }
        let mut max_rt: u64 = self.active.covering_range_tombstone_seq(key, snapshot_seq);
        let mut partial: Vec<(u64, u8, Vec<u8>)> = Vec::new();
        assert(links(partial@) =~= Seq::<Link>::empty());
        self.active.collect_merge_chain(key, snapshot_seq, &mut partial);
        assert(links(partial@) =~= chain(self.active.entries(), key@, snapshot_seq));
        let done = consume_partial(partial, max_rt, &mut out);
        proof {
            let t = taken(chain(self.active.entries(), key@, snapshot_seq), max_rt);
            assert(links(out@) =~= t);
            assert(t == taken_runs(seq![self.active.entries()], key@, snapshot_seq, max_rt));
        }
        if done {
            return out;
        }
        proof {
            n = 1;
        }
        let mut i: usize = self.frozen.len();
        while i > 0
            invariant
                self.wf(),
                i <= self.frozen@.len(),
                all == self.layers(key@),
                whole == walk_chain(all, key@, snapshot_seq, 0),
                n == 1 + self.frozen@.len() - i,
                !settled(links(out@)),
                whole == links(out@) + walk_chain(all.skip(n), key@, snapshot_seq, max_rt),
            decreases i,
        {
            i -= 1;
            let mt = &self.frozen[i];
            proof {
                lemma_layer_at(*self, key@, n);
                lemma_single(mt.tombstones(), mt.entries(), key@, snapshot_seq);
                assert(self.frozen@[i as int].wf());
            }
            let rt: u64 = mt.covering_range_tombstone_seq(key, snapshot_seq);
            if rt > max_rt {
                max_rt = rt;
            }
            let mut partial: Vec<(u64, u8, Vec<u8>)> = Vec::new();
            assert(links(partial@) =~= Seq::<Link>::empty());
            mt.collect_merge_chain(key, snapshot_seq, &mut partial);
            assert(links(partial@) =~= chain(mt.entries(), key@, snapshot_seq));
            let ghost before = links(out@);
            let done = consume_partial(partial, max_rt, &mut out);
            proof {
                let t = taken(chain(mt.entries(), key@, snapshot_seq), max_rt);
                assert(t == taken_runs(seq![mt.entries()], key@, snapshot_seq, max_rt));
                lemma_links_on(before, t, walk_chain(all.skip(n + 1), key@, snapshot_seq, max_rt));
            }
            if done {
                return out;
            }
            proof {
                n = n + 1;
            }
        }
        let l0 = &self.version.levels[0];
        let mut i: usize = l0.len();
        while i > 0
            invariant
                self.wf(),
                *l0 == self.version.levels@[0],
                i <= l0@.len(),
                all == self.layers(key@),
                whole == walk_chain(all, key@, snapshot_seq, 0),
                n == 1 + self.frozen@.len() + l0@.len() - i,
                !settled(links(out@)),
                whole == links(out@) + walk_chain(all.skip(n), key@, snapshot_seq, max_rt),
            decreases i,
        {
            i -= 1;
            let file = &l0[i];
            proof {
                lemma_layer_at(*self, key@, n);
                lemma_single(
                    file.reader.tombstones(),
                    file.reader.entries(),
                    key@,
                    snapshot_seq,
                );
                assert(files_wf(self.version.levels@[0]@));
                assert(l0@[i as int].wf());
            }
            let rt: u64 = file.reader.covering_range_tombstone_seq(key, snapshot_seq);
            if rt > max_rt {
                max_rt = rt;
            }
            let mut partial: Vec<(u64, u8, Vec<u8>)> = Vec::new();
            assert(links(partial@) =~= Seq::<Link>::empty());
            file.reader.collect_merge_chain(key, snapshot_seq, &mut partial);
            assert(links(partial@) =~= chain(file.reader.entries(), key@, snapshot_seq));
            let ghost before = links(out@);
            let done = consume_partial(partial, max_rt, &mut out);
            proof {
                let t = taken(chain(file.reader.entries(), key@, snapshot_seq), max_rt);
                assert(t == taken_runs(seq![file.reader.entries()], key@, snapshot_seq, max_rt));
                lemma_links_on(before, t, walk_chain(all.skip(n + 1), key@, snapshot_seq, max_rt));
            }
            if done {
                return out;
            }
            proof {
                n = n + 1;
            }
        }
        let mut level: usize = 1;
        while level < self.version.levels.len()
            invariant
                self.wf(),
                *l0 == self.version.levels@[0],
                1 <= level <= self.version.levels@.len(),
                all == self.layers(key@),
                whole == walk_chain(all, key@, snapshot_seq, 0),
                n == self.frozen@.len() + l0@.len() + level,
                !settled(links(out@)),
                whole == links(out@) + walk_chain(all.skip(n), key@, snapshot_seq, max_rt),
            decreases self.version.levels@.len() - level,
        {
            let files = &self.version.levels[level];
            proof {
                lemma_layer_at(*self, key@, n);
                assert(files_wf(self.version.levels@[level as int]@));
            }
            max_rt = level_cover(files, key, snapshot_seq, max_rt);
            let ghost before = links(out@);
            let done = level_chain(files, key, snapshot_seq, max_rt, &mut out);
            proof {
                let t = taken_runs(covering_runs(files@, key@), key@, snapshot_seq, max_rt);
                lemma_links_on(before, t, walk_chain(all.skip(n + 1), key@, snapshot_seq, max_rt));
            }
            if done {
                return out;
            }
            level += 1;
            proof {
                n = n + 1;
            }
        }
        proof {
            assert(all.skip(n).len() == 0);
            assert(links(out@) + Seq::<Link>::empty() =~= links(out@));
        }
        out
    }

    /// Point lookup at a snapshot with a merge operator, which makes the value
    /// of the merge chain. Fails where the operator does.
    pub fn get_with_merge<M: MergeOperator>(&self, key: &[u8], snapshot_seq: u64, op: &M) -> (r:
        Result<Option<Vec<u8>>, Error>)
        requires
            self.wf(),
        ensures
            may_read(*op, key@, walk_chain(self.layers(key@), key@, snapshot_seq, 0), r),
            in_order(*self) ==> forall|h: u64| #[trigger]
                newest_over(*self, key@, snapshot_seq, h) ==> merged_read(
                    *op,
                    key@,
                    met(*self, key@, snapshot_seq),
                    h,
                    result_of(r),
                ),
    {
        let links = self.merge_chain(key, snapshot_seq);
        let r = materialize(op, key, &links);
        proof {
            if in_order(*self) {
                assert forall|h: u64| #[trigger]
                    newest_over(*self, key@, snapshot_seq, h) implies merged_read(
                    *op,
                    key@,
                    met(*self, key@, snapshot_seq),
                    h,
                    result_of(r),
                ) by {
                    lemma_lookups_merge_in_order(*self, *op, key@, snapshot_seq, h, r);
                }
            }
        }
        r
    }
}

/// Appending to a chain, with what is still to come.
proof fn lemma_links_on(seen: Seq<Link>, t: Seq<Link>, rest: Seq<Link>)
    requires
        !settled(seen),
    ensures
        seen + (t + rest) == (seen + t) + rest,
        settled(seen + t) == settled(t),
{
    assert(seen + (t + rest) =~= (seen + t) + rest);
    if t.len() > 0 {
        assert((seen + t).last() == t.last());
    } else {
        assert(seen + t =~= seen);
    }
}

/// `r` is what a read may make of a merge chain: a chain without operands says
/// what its base says; otherwise the operator makes the value, and where it
/// makes none the read fails.
pub open spec fn may_read<M: MergeOperator>(
    op: M,
    key: Seq<u8>,
    c: Seq<Link>,
    r: Result<Option<Vec<u8>>, Error>,
) -> bool {
    if chain_operand_count(c) == 0 {
        r matches Ok(v) && opt_bytes(v) == chain_base(c)
    } else {
        exists|merged: Option<Seq<u8>>| #[trigger]
            op.full_may(key, chain_base(c), chain_operands(c), merged) && says(merged, r)
    }
}

/// `r` is what a read says of what the operator made.
pub open spec fn says(merged: Option<Seq<u8>>, r: Result<Option<Vec<u8>>, Error>) -> bool {
    match merged {
        Some(v) => r matches Ok(Some(b)) && b@ == v,
        None => r matches Err(e) && e.kind == ErrorKind::InvalidData,
    }
}

/// What a read says of what the operator made.
pub fn merge_outcome(merged: Option<Vec<u8>>) -> (r: Result<Option<Vec<u8>>, Error>)
    ensures
        says(opt_bytes(merged), r),
{
    match merged {
        Some(v) => Ok(Some(v)),
        None => Err(Error::new(ErrorKind::InvalidData, "merge operator failed for key")),
    }
}

/// The value of a merge chain, newest version first.
pub fn materialize<M: MergeOperator>(op: &M, key: &[u8], links: &Vec<(u64, u8, Vec<u8>)>) -> (r:
    Result<Option<Vec<u8>>, Error>)
    ensures
        may_read(*op, key@, super::memtable::links(links@), r),
{
    let ghost c = super::memtable::links(links@);
    let n: usize = links.len();
    let mut base: Option<&[u8]> = None;
    let mut merge_end: usize = n;
    if n > 0 {
        let vt: u8 = links[n - 1].1;
        assert(c.last() == (links@[n - 1].0, links@[n - 1].1, links@[n - 1].2@));
        if vt == VALUE_TYPE_VALUE {
            base = Some(links[n - 1].2.as_slice());
            merge_end = n - 1;
        } else if vt == VALUE_TYPE_DELETION {
            merge_end = n - 1;
        }
    }
    assert(opt_slice(base) == chain_base(c));
    assert(merge_end == chain_operand_count(c));
    let mut operands: Vec<Vec<u8>> = Vec::new();
    let mut i: usize = merge_end;
    while i > 0
        invariant
            i <= merge_end <= n,
            n == links@.len(),
            operands@.len() == merge_end - i,
            forall|j: int|
                0 <= j < operands@.len() ==> (#[trigger] operands@[j])@ == links@[merge_end - 1
                    - j].2@,
        decreases i,
    {
        i -= 1;
        operands.push(copy_bytes(links[i].2.as_slice()));
    }
    assert(byte_strings(operands@) =~= chain_operands(c));
    if operands.len() == 0 {
        return Ok(
            match base {
                Some(b) => Some(copy_bytes(b)),
                None => None,
            },
        );
    }
    let merged = op.full_merge(key, base, &operands);
    let ghost m = opt_bytes(merged);
    assert(op.full_may(key@, chain_base(c), chain_operands(c), m));
    merge_outcome(merged)
}

} // verus!
