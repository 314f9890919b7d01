//! Cursors over one sorted source each: a memtable, a table, or the tables of
//! a level one after the other.
//!
//! Every cursor has a run, the sorted entries of its source, and a position in
//! it, or none once it has been moved past an end.

use super::block::sorted_entries;
use super::block_entry::Pair;
use super::compaction::all_entries;
use super::internal_key::ik_lt;
use super::internal_key::internal_key_lt;
use super::internal_key::is_internal;
use super::internal_key::lemma_internal_order;
use super::internal_key::lemma_internal_total_order;
use super::internal_key::user_key_of;
use super::internal_key::user_of;
use super::memtable::opt_pair;
use super::memtable::KeyBound;
use super::memtable::MemTable;
use super::read_view::files_wf;
use super::sstable::LiveSst;
use super::sstable::SsTableReader;
use crate::bytes::bytes_lt;
use crate::bytes::lemma_lex_order;
use std::sync::Arc;
use vstd::prelude::*;

verus! {

/// `r` is the first position at or after `target`.
pub open spec fn first_from(run: Seq<Pair>, target: Seq<u8>, r: Option<int>) -> bool {
    match r {
        Some(i) => {
            &&& 0 <= i < run.len()
            &&& forall|j: int|
                0 <= j < run.len() ==> (j < i <==> ik_lt((#[trigger] run[j]).0, target))
        },
        None => forall|j: int| 0 <= j < run.len() ==> ik_lt((#[trigger] run[j]).0, target),
    }
}

/// `r` is the last position at or before `target`.
pub open spec fn last_upto(run: Seq<Pair>, target: Seq<u8>, r: Option<int>) -> bool {
    match r {
        Some(i) => {
            &&& 0 <= i < run.len()
            &&& forall|j: int|
                0 <= j < run.len() ==> (j <= i <==> !ik_lt(target, (#[trigger] run[j]).0))
        },
        None => forall|j: int| 0 <= j < run.len() ==> ik_lt(target, (#[trigger] run[j]).0),
    }
}

/// The first position, if there is one.
pub open spec fn first_pos(len: nat) -> Option<int> {
    if len > 0 {
        Some(0)
    } else {
        None
    }
}

/// The last position, if there is one.
pub open spec fn last_pos(len: nat) -> Option<int> {
    if len > 0 {
        Some(len - 1)
    } else {
        None
    }
}

/// The position after `p`.
pub open spec fn pos_after(p: Option<int>, len: nat) -> Option<int> {
    match p {
        Some(i) if i + 1 < len => Some(i + 1),
        _ => None,
    }
}

/// The position before `p`.
pub open spec fn pos_before(p: Option<int>) -> Option<int> {
    match p {
        Some(i) if i > 0 => Some(i - 1),
        _ => None,
    }
}

/// What comes before the target and what does not, in a sorted run.
pub proof fn lemma_first_from(run: Seq<Pair>, target: Seq<u8>, i: int)
    requires
        sorted_entries(run),
        is_internal(target),
        0 <= i < run.len(),
        !ik_lt(run[i].0, target),
        forall|j: int| 0 <= j < i ==> ik_lt((#[trigger] run[j]).0, target),
    ensures
        first_from(run, target, Some(i)),
{
    assert forall|j: int| 0 <= j < run.len() implies (j < i <==> ik_lt(
        (#[trigger] run[j]).0,
        target,
    )) by {
        if j > i {
            lemma_internal_total_order(run[i].0, run[j].0, target);
        }
    }
}

pub proof fn lemma_last_upto(run: Seq<Pair>, target: Seq<u8>, i: int)
    requires
        sorted_entries(run),
        is_internal(target),
        0 <= i < run.len(),
        !ik_lt(target, run[i].0),
        forall|j: int| i < j < run.len() ==> ik_lt(target, (#[trigger] run[j]).0),
    ensures
        last_upto(run, target, Some(i)),
{
    assert forall|j: int| 0 <= j < run.len() implies (j <= i <==> !ik_lt(
        target,
        (#[trigger] run[j]).0,
    )) by {
        if j < i {
            lemma_internal_total_order(target, run[j].0, run[i].0);
        }
    }
}

// ── Memtables ────────────────────────────────────────────────────

/// Cursor over a memtable. Every step is a new search from the current key.
pub struct MemtableLevelIter<'a> {
    mt: &'a MemTable,
    curr: Option<(Vec<u8>, Vec<u8>)>,
    at: Ghost<int>,
}

impl<'a> MemtableLevelIter<'a> {
    /// The entries of the memtable.
    pub closed spec fn run(&self) -> Seq<Pair> {
        self.mt.entries()
    }

    /// The position.
    pub closed spec fn cur(&self) -> Option<int> {
        match self.curr {
            Some(_) => Some(self.at@),
            None => None,
        }
    }

    /// The current entry is that of the position.
    pub closed spec fn wf(&self) -> bool {
        &&& self.mt.wf()
        &&& self.curr matches Some(e) ==> 0 <= self.at@ < self.mt.entries().len()
            && self.mt.entries()[self.at@] == (e.0@, e.1@)
    }

    /// A cursor without a position.
    pub fn new(mt: &'a MemTable) -> (r: Self)
        requires
            mt.wf(),
        ensures
            r.wf(),
            r.run() == mt.entries(),
            r.cur() is None,
    {
        MemtableLevelIter { mt, curr: None, at: Ghost(0) }
    }

    /// The run is sorted and the position is in it.
    pub proof fn lemma_run(&self)
        requires
            self.wf(),
        ensures
            sorted_entries(self.run()),
            self.cur() matches Some(i) ==> 0 <= i < self.run().len(),
    {
        self.mt.lemma_sorted();
    }

    /// Go to the first entry.
    pub fn seek_to_first(&mut self)
        requires
            old(self).wf(),
        ensures
            final(self).wf(),
            final(self).run() == old(self).run(),
            final(self).cur() == first_pos(old(self).run().len()),
    {
        let r = self.mt.first_entry_from(KeyBound::Unbounded);
        let ghost es = self.mt.entries();
        let ghost mut at: int = 0;
        proof {
            if let Some(e) = opt_pair(r) {
                at = choose|i: int|
                    0 <= i < es.len() && #[trigger] es[i] == e && !KeyBound::Unbounded.shuts_below(
                        e.0,
                    ) && forall|j: int|
                        0 <= j < i ==> KeyBound::Unbounded.shuts_below((#[trigger] es[j]).0);
                if at > 0 {
                    assert(KeyBound::Unbounded.shuts_below(es[0].0));
                }
            } else if es.len() > 0 {
                assert(KeyBound::Unbounded.shuts_below(es[0].0));
            }
        }
        self.curr = r;
        self.at = Ghost(at);
    }

    /// Go to the last entry.
    pub fn seek_to_last(&mut self)
        requires
            old(self).wf(),
        ensures
            final(self).wf(),
            final(self).run() == old(self).run(),
            final(self).cur() == last_pos(old(self).run().len()),
    {
        let r = self.mt.last_entry_before(KeyBound::Unbounded);
        let ghost es = self.mt.entries();
        let ghost mut at: int = 0;
        proof {
            if let Some(e) = opt_pair(r) {
                at = choose|i: int|
                    0 <= i < es.len() && #[trigger] es[i] == e && !KeyBound::Unbounded.shuts_above(
                        e.0,
                    ) && forall|j: int|
                        i < j < es.len() ==> KeyBound::Unbounded.shuts_above((#[trigger] es[j]).0);
                if at < es.len() - 1 {
                    assert(KeyBound::Unbounded.shuts_above(es[es.len() - 1].0));
                }
            } else if es.len() > 0 {
                assert(KeyBound::Unbounded.shuts_above(es[0].0));
            }
        }
        self.curr = r;
        self.at = Ghost(at);
    }

    /// Go to the first entry at or after `target`.
    pub fn seek(&mut self, target: &[u8])
        requires
            old(self).wf(),
            is_internal(target@),
        ensures
            final(self).wf(),
            final(self).run() == old(self).run(),
            first_from(old(self).run(), target@, final(self).cur()),
    {
        let bound = KeyBound::Included(target);
        let ghost b = bound;
        let r = self.mt.first_entry_from(bound);
        let ghost es = self.mt.entries();
        let ghost mut at: int = 0;
        proof {
            self.mt.lemma_sorted();
            if let Some(e) = opt_pair(r) {
                at = choose|i: int|
                    0 <= i < es.len() && #[trigger] es[i] == e && !b.shuts_below(e.0) && forall|
                        j: int,
                    |
                        0 <= j < i ==> b.shuts_below((#[trigger] es[j]).0);
                assert forall|j: int| 0 <= j < at implies ik_lt((#[trigger] es[j]).0, target@) by {
                    assert(b.shuts_below(es[j].0));
                }
                lemma_first_from(es, target@, at);
            } else {
                assert forall|j: int| 0 <= j < es.len() implies ik_lt(
                    (#[trigger] es[j]).0,
                    target@,
                ) by {
                    assert(b.shuts_below(es[j].0));
                }
            }
        }
        self.curr = r;
        self.at = Ghost(at);
    }

    /// Go to the last entry at or before `target`.
    pub fn seek_for_prev(&mut self, target: &[u8])
        requires
            old(self).wf(),
            is_internal(target@),
        ensures
            final(self).wf(),
            final(self).run() == old(self).run(),
            last_upto(old(self).run(), target@, final(self).cur()),
    {
        let bound = KeyBound::Included(target);
        let ghost b = bound;
        let r = self.mt.last_entry_before(bound);
        let ghost es = self.mt.entries();
        let ghost mut at: int = 0;
        proof {
            self.mt.lemma_sorted();
            if let Some(e) = opt_pair(r) {
                at = choose|i: int|
                    0 <= i < es.len() && #[trigger] es[i] == e && !b.shuts_above(e.0) && forall|
                        j: int,
                    |
                        i < j < es.len() ==> b.shuts_above((#[trigger] es[j]).0);
                assert forall|j: int| at < j < es.len() implies ik_lt(
                    target@,
                    (#[trigger] es[j]).0,
                ) by {
                    assert(b.shuts_above(es[j].0));
                }
                lemma_last_upto(es, target@, at);
            } else {
                assert forall|j: int| 0 <= j < es.len() implies ik_lt(
                    target@,
                    (#[trigger] es[j]).0,
                ) by {
                    assert(b.shuts_above(es[j].0));
                }
            }
        }
        self.curr = r;
        self.at = Ghost(at);
    }

    /// Go to the next entry.
    pub fn advance(&mut self)
        requires
            old(self).wf(),
        ensures
            final(self).wf(),
            final(self).run() == old(self).run(),
            final(self).cur() == pos_after(old(self).cur(), old(self).run().len()),
    {
        let mut taken: Option<(Vec<u8>, Vec<u8>)> = None;
        std::mem::swap(&mut taken, &mut self.curr);
        match taken {
            None => {},
            Some((key, _)) => {
                let ghost es = self.mt.entries();
                let ghost i = self.at@;
                proof {
                    self.mt.lemma_sorted();
                    assert(is_internal(es[i].0));
                }
                let bound = KeyBound::Excluded(key.as_slice());
                let ghost b = bound;
                let r = self.mt.first_entry_from(bound);
                let ghost mut at: int = 0;
                proof {
                    assert forall|j: int| 0 <= j < es.len() implies (b.shuts_below(
                        (#[trigger] es[j]).0,
                    ) <==> j <= i) by {
                        lemma_internal_total_order(es[j].0, es[i].0, es[j].0);
                        if j != i {
                            assert(ik_lt(es[j].0, es[i].0) || ik_lt(es[i].0, es[j].0));
                        }
                    }
                    if let Some(e) = opt_pair(r) {
                        at = choose|k: int|
                            0 <= k < es.len() && #[trigger] es[k] == e && !b.shuts_below(e.0)
                                && forall|j: int|
                                0 <= j < k ==> b.shuts_below((#[trigger] es[j]).0);
                        if at > i + 1 {
                            assert(b.shuts_below(es[i + 1].0));
                        }
                    } else if i + 1 < es.len() {
                        assert(b.shuts_below(es[i + 1].0));
                    }
                }
                self.curr = r;
                self.at = Ghost(at);
            },
        }
    }

    /// Go to the entry before.
    pub fn advance_backward(&mut self)
        requires
            old(self).wf(),
        ensures
            final(self).wf(),
            final(self).run() == old(self).run(),
            final(self).cur() == pos_before(old(self).cur()),
    {
        let mut taken: Option<(Vec<u8>, Vec<u8>)> = None;
        std::mem::swap(&mut taken, &mut self.curr);
        match taken {
            None => {},
            Some((key, _)) => {
                let ghost es = self.mt.entries();
                let ghost i = self.at@;
                proof {
                    self.mt.lemma_sorted();
                    assert(is_internal(es[i].0));
                }
                let bound = KeyBound::Excluded(key.as_slice());
                let ghost b = bound;
                let r = self.mt.last_entry_before(bound);
                let ghost mut at: int = 0;
                proof {
                    assert forall|j: int| 0 <= j < es.len() implies (b.shuts_above(
                        (#[trigger] es[j]).0,
                    ) <==> j >= i) by {
                        lemma_internal_total_order(es[j].0, es[i].0, es[j].0);
                        if j != i {
                            assert(ik_lt(es[j].0, es[i].0) || ik_lt(es[i].0, es[j].0));
                        }
                    }
                    if let Some(e) = opt_pair(r) {
                        at = choose|k: int|
                            0 <= k < es.len() && #[trigger] es[k] == e && !b.shuts_above(e.0)
                                && forall|j: int|
                                k < j < es.len() ==> b.shuts_above((#[trigger] es[j]).0);
                        if at < i - 1 {
                            assert(b.shuts_above(es[i - 1].0));
                        }
                    } else if i > 0 {
                        assert(b.shuts_above(es[i - 1].0));
                    }
                }
                self.curr = r;
                self.at = Ghost(at);
            },
        }
    }

    /// The current internal key.
    pub fn key(&self) -> (r: Option<&[u8]>)
        requires
            self.wf(),
        ensures
            match self.cur() {
                Some(i) => r matches Some(k) && k@ == self.run()[i].0,
                None => r is None,
            },
    {
        match &self.curr {
            Some(e) => Some(e.0.as_slice()),
            None => None,
        }
    }

    /// The current value.
    pub fn value(&self) -> (r: Option<&[u8]>)
        requires
            self.wf(),
        ensures
            match self.cur() {
                Some(i) => r matches Some(v) && v@ == self.run()[i].1,
                None => r is None,
            },
    {
        match &self.curr {
            Some(e) => Some(e.1.as_slice()),
            None => None,
        }
    }
}

// ── Tables ───────────────────────────────────────────────────────

/// The first position of a table at or after `target`.
fn table_first_from(t: &SsTableReader, target: &[u8]) -> (r: Option<usize>)
    requires
        t.wf(),
        is_internal(target@),
    ensures
        first_from(t.entries(), target@, opt_pos(r)),
{
    let n: usize = t.lower_bound(target);
    if n < t.len() {
        Some(n)
    } else {
        None
    }
}

/// The last position of a table at or before `target`.
fn table_last_upto(t: &SsTableReader, target: &[u8]) -> (r: Option<usize>)
    requires
        t.wf(),
        is_internal(target@),
    ensures
        last_upto(t.entries(), target@, opt_pos(r)),
{
    let ghost es = t.entries();
    proof {
        t.lemma_sorted();
    }
    let n: usize = t.lower_bound(target);
    if n < t.len() && !internal_key_lt_checked(target, t, n) {
        proof {
            assert(!ik_lt(es[n as int].0, target@));
            lemma_internal_total_order(es[n as int].0, target@, es[n as int].0);
            assert(es[n as int].0 == target@);
            assert forall|j: int| n < j < es.len() implies ik_lt(target@, (#[trigger] es[j]).0) by {
                assert(ik_lt(es[n as int].0, es[j].0));
            }
            lemma_last_upto(es, target@, n as int);
        }
        return Some(n);
    }
    proof {
        assert forall|j: int| n <= j < es.len() implies ik_lt(target@, (#[trigger] es[j]).0) by {
            assert(!ik_lt(es[j].0, target@));
            assert(ik_lt(target@, es[n as int].0));
            if j > n {
                assert(ik_lt(es[n as int].0, es[j].0));
                lemma_internal_total_order(target@, es[n as int].0, es[j].0);
            }
        }
        if n > 0 {
            assert(ik_lt(es[n - 1].0, target@));
            lemma_internal_total_order(es[n - 1].0, target@, es[n - 1].0);
            lemma_last_upto(es, target@, n - 1);
        }
    }
    if n > 0 {
        Some(n - 1)
    } else {
        None
    }
}

/// Whether `target` comes before entry `n`.
fn internal_key_lt_checked(target: &[u8], t: &SsTableReader, n: usize) -> (r: bool)
    requires
        t.wf(),
        is_internal(target@),
        n < t.entries().len(),
    ensures
        r == ik_lt(target@, t.entries()[n as int].0),
{
    proof {
        t.lemma_sorted();
        assert(is_internal(t.entries()[n as int].0));
    }
    internal_key_lt(target, t.key_at(n))
}

/// A position in ghost numbers.
pub open spec fn opt_pos(p: Option<usize>) -> Option<int> {
    match p {
        Some(i) => Some(i as int),
        None => None,
    }
}

/// Cursor over a table.
pub struct SsTableLevelIter {
    file: Arc<LiveSst>,
    pos: Option<usize>,
}

impl SsTableLevelIter {
    /// The entries of the table.
    pub closed spec fn run(&self) -> Seq<Pair> {
        self.file.reader.entries()
    }

    /// The position.
    pub closed spec fn cur(&self) -> Option<int> {
        opt_pos(self.pos)
    }

    /// The position is in the table.
    pub closed spec fn wf(&self) -> bool {
        &&& self.file.reader.wf()
        &&& self.pos matches Some(i) ==> i < self.file.reader.entries().len()
    }

    /// A cursor without a position.
    pub fn new(file: Arc<LiveSst>) -> (r: Self)
        requires
            file.reader.wf(),
        ensures
            r.wf(),
            r.run() == file.reader.entries(),
            r.cur() is None,
    {
        SsTableLevelIter { file, pos: None }
    }

    /// The run is sorted and the position is in it.
    pub proof fn lemma_run(&self)
        requires
            self.wf(),
        ensures
            sorted_entries(self.run()),
            self.cur() matches Some(i) ==> 0 <= i < self.run().len(),
    {
        self.file.reader.lemma_sorted();
    }

    /// Go to the first entry.
    pub fn seek_to_first(&mut self)
        requires
            old(self).wf(),
        ensures
            final(self).wf(),
            final(self).run() == old(self).run(),
            final(self).cur() == first_pos(old(self).run().len()),
    {
        self.pos = if self.file.reader.len() > 0 {
            Some(0)
        } else {
            None
        };
    }

    /// Go to the last entry.
    pub fn seek_to_last(&mut self)
        requires
            old(self).wf(),
        ensures
            final(self).wf(),
            final(self).run() == old(self).run(),
            final(self).cur() == last_pos(old(self).run().len()),
    {
        let n: usize = self.file.reader.len();
        self.pos = if n > 0 {
            Some(n - 1)
        } else {
            None
        };
    }

    /// Go to the first entry at or after `target`.
    pub fn seek(&mut self, target: &[u8])
        requires
            old(self).wf(),
            is_internal(target@),
        ensures
            final(self).wf(),
            final(self).run() == old(self).run(),
            first_from(old(self).run(), target@, final(self).cur()),
    {
        self.pos = table_first_from(&self.file.reader, target);
    }

    /// Go to the last entry at or before `target`.
    pub fn seek_for_prev(&mut self, target: &[u8])
        requires
            old(self).wf(),
            is_internal(target@),
        ensures
            final(self).wf(),
            final(self).run() == old(self).run(),
            last_upto(old(self).run(), target@, final(self).cur()),
    {
        self.pos = table_last_upto(&self.file.reader, target);
    }

    /// Go to the next entry.
    pub fn advance(&mut self)
        requires
            old(self).wf(),
        ensures
            final(self).wf(),
            final(self).run() == old(self).run(),
            final(self).cur() == pos_after(old(self).cur(), old(self).run().len()),
    {
        let n: usize = self.file.reader.len();
        self.pos = match self.pos {
            Some(i) => if i + 1 < n {
                Some(i + 1)
            } else {
                None
            },
            None => None,
        };
    }

    /// Go to the entry before.
    pub fn advance_backward(&mut self)
        requires
            old(self).wf(),
        ensures
            final(self).wf(),
            final(self).run() == old(self).run(),
            final(self).cur() == pos_before(old(self).cur()),
    {
        self.pos = match self.pos {
            Some(i) => if i > 0 {
                Some(i - 1)
            } else {
                None
            },
            None => None,
        };
    }

    /// The current internal key.
    pub fn key(&self) -> (r: Option<&[u8]>)
        requires
            self.wf(),
        ensures
            match self.cur() {
                Some(i) => r matches Some(k) && k@ == self.run()[i].0,
                None => r is None,
            },
    {
        match self.pos {
            Some(i) => Some(self.file.reader.key_at(i)),
            None => None,
        }
    }

    /// The current value.
    pub fn value(&self) -> (r: Option<&[u8]>)
        requires
            self.wf(),
        ensures
            match self.cur() {
                Some(i) => r matches Some(v) && v@ == self.run()[i].1,
                None => r is None,
            },
    {
        match self.pos {
            Some(i) => Some(self.file.reader.value_at(i)),
            None => None,
        }
    }
}

// ── Levels ───────────────────────────────────────────────────────

/// Where the entries of table `f` start among those of all tables.
pub open spec fn offset_of(files: Seq<Arc<LiveSst>>, f: int) -> nat {
    all_entries(files.take(f)).len()
}

/// Entry `i` of table `f`, among the entries of all tables.
proof fn lemma_offset(files: Seq<Arc<LiveSst>>, f: int)
    requires
        0 <= f < files.len(),
    ensures
        offset_of(files, f + 1) == offset_of(files, f) + files[f].reader.entries().len(),
        offset_of(files, f + 1) <= all_entries(files).len(),
        forall|i: int|
            0 <= i < files[f].reader.entries().len() ==> all_entries(files)[offset_of(files, f) + i]
                == #[trigger] files[f].reader.entries()[i],
    decreases files.len(),
{
    let t = files.take(f + 1);
    assert(t.drop_last() =~= files.take(f));
    assert(t.last() == files[f]);
    if f + 1 == files.len() {
        assert(t =~= files);
    } else {
        let d = files.drop_last();
        assert(d.take(f) =~= files.take(f));
        assert(d.take(f + 1) =~= files.take(f + 1));
        lemma_offset(d, f);
        assert forall|i: int| 0 <= i < files[f].reader.entries().len() implies all_entries(
            files,
        )[offset_of(files, f) + i] == #[trigger] files[f].reader.entries()[i] by {
            assert(d[f].reader.entries()[i] == files[f].reader.entries()[i]);
        }
    }
}

proof fn lemma_offset_grows(files: Seq<Arc<LiveSst>>, f: int, g: int)
    requires
        0 <= f <= g <= files.len(),
    ensures
        offset_of(files, f) <= offset_of(files, g),
        offset_of(files, g) <= all_entries(files).len(),
        offset_of(files, files.len() as int) == all_entries(files).len(),
        offset_of(files, 0) == 0,
    decreases g - f,
{
    assert(files.take(files.len() as int) =~= files);
    assert(files.take(0) =~= Seq::<Arc<LiveSst>>::empty());
    if f < g {
        lemma_offset(files, g - 1);
        lemma_offset_grows(files, f, g - 1);
    } else if g > 0 {
        lemma_offset(files, g - 1);
    }
}

/// Cursor over the tables of a level below 0, one after the other. The tables
/// have no user key in common and stand in the order of their keys.
pub struct LevelConcatIter {
    files: Vec<Arc<LiveSst>>,
    pos: Option<(usize, usize)>,
}

impl LevelConcatIter {
    /// The entries of all tables.
    pub closed spec fn run(&self) -> Seq<Pair> {
        all_entries(self.files@)
    }

    /// The position.
    pub closed spec fn cur(&self) -> Option<int> {
        match self.pos {
            Some((f, i)) => Some(offset_of(self.files@, f as int) + i),
            None => None,
        }
    }

    /// The tables are in order and the position is in one of them.
    pub closed spec fn wf(&self) -> bool {
        &&& files_wf(self.files@)
        &&& sorted_entries(all_entries(self.files@))
        &&& self.pos matches Some(p) ==> p.0 < self.files@.len() && p.1
            < self.files@[p.0 as int].reader.entries().len()
    }

    /// A cursor without a position.
    pub fn new(files: Vec<Arc<LiveSst>>) -> (r: Self)
        requires
            files_wf(files@),
            sorted_entries(all_entries(files@)),
        ensures
            r.wf(),
            r.run() == all_entries(files@),
            r.cur() is None,
    {
        LevelConcatIter { files, pos: None }
    }

    /// The run is sorted and the position is in it.
    pub proof fn lemma_run(&self)
        requires
            self.wf(),
        ensures
            sorted_entries(self.run()),
            self.cur() matches Some(i) ==> 0 <= i < self.run().len(),
    {
        if let Some(p) = self.pos {
            lemma_offset(self.files@, p.0 as int);
        }
    }

    /// Go to the first entry from table `f` on.
    fn open_from(&mut self, f: usize)
        requires
            old(self).wf(),
            f <= old(self).files@.len(),
        ensures
            final(self).wf(),
            final(self).files == old(self).files,
            final(self).cur() == {
                let o = offset_of(old(self).files@, f as int);
                if o < old(self).run().len() {
                    Some(o as int)
                } else {
                    None
                }
            },
    {
        let mut g: usize = f;
        while g < self.files.len()
            invariant
                self.files == old(self).files,
                files_wf(self.files@),
                sorted_entries(all_entries(self.files@)),
                f <= g <= self.files@.len(),
                offset_of(self.files@, f as int) == offset_of(self.files@, g as int),
            decreases self.files@.len() - g,
        {
            proof {
                lemma_offset(self.files@, g as int);
            }
            if self.files[g].reader.len() > 0 {
                self.pos = Some((g, 0));
                return;
            }
            g += 1;
        }
        self.pos = None;
        proof {
            lemma_offset_grows(self.files@, g as int, g as int);
        }
    }

    /// Go to the last entry of the first `f` tables.
    fn open_back(&mut self, f: usize)
        requires
            old(self).wf(),
            f <= old(self).files@.len(),
        ensures
            final(self).wf(),
            final(self).files == old(self).files,
            final(self).cur() == last_pos(offset_of(old(self).files@, f as int)),
    {
        let mut g: usize = f;
        while g > 0
            invariant
                self.files == old(self).files,
                files_wf(self.files@),
                sorted_entries(all_entries(self.files@)),
                g <= f <= self.files@.len(),
                offset_of(self.files@, f as int) == offset_of(self.files@, g as int),
            decreases g,
        {
            g -= 1;
            proof {
                lemma_offset(self.files@, g as int);
            }
            let n: usize = self.files[g].reader.len();
            if n > 0 {
                self.pos = Some((g, n - 1));
                return;
            }
        }
        self.pos = None;
        proof {
            lemma_offset_grows(self.files@, 0, 0);
        }
    }

    /// Go to the first entry.
    pub fn seek_to_first(&mut self)
        requires
            old(self).wf(),
        ensures
            final(self).wf(),
            final(self).run() == old(self).run(),
            final(self).cur() == first_pos(old(self).run().len()),
    {
        proof {
            lemma_offset_grows(self.files@, 0, 0);
        }
        self.open_from(0);
    }

    /// Go to the last entry.
    pub fn seek_to_last(&mut self)
        requires
            old(self).wf(),
        ensures
            final(self).wf(),
            final(self).run() == old(self).run(),
            final(self).cur() == last_pos(old(self).run().len()),
    {
        proof {
            lemma_offset_grows(self.files@, 0, 0);
        }
        let n: usize = self.files.len();
        self.open_back(n);
    }

    /// Go to the first entry at or after `target`.
    pub fn seek(&mut self, target: &[u8])
        requires
            old(self).wf(),
            is_internal(target@),
        ensures
            final(self).wf(),
            final(self).run() == old(self).run(),
            first_from(old(self).run(), target@, final(self).cur()),
    {
        let ghost files = self.files@;
        let ghost run = all_entries(files);
        let uk = user_key_of(target);
        let mut f: usize = 0;
        proof {
            lemma_offset_grows(files, 0, 0);
        }
        while f < self.files.len()
            invariant
                self.files == old(self).files,
                files == self.files@,
                run == all_entries(files),
                files_wf(files),
                sorted_entries(run),
                is_internal(target@),
                uk@ == user_of(target@),
                f <= files.len(),
                forall|j: int|
                    0 <= j < offset_of(files, f as int) ==> ik_lt((#[trigger] run[j]).0, target@),
            decreases files.len() - f,
        {
            proof {
                lemma_offset(files, f as int);
                assert(files[f as int].wf());
            }
            let ghost es = files[f as int].reader.entries();
            let ghost o = offset_of(files, f as int) as int;
            let skip = bytes_lt(self.files[f].meta.largest_key.as_slice(), uk);
            let hit: Option<usize> = if skip {
                proof {
                    assert forall|i: int| 0 <= i < es.len() implies ik_lt(
                        (#[trigger] es[i]).0,
                        target@,
                    ) by {
                        assert(files[f as int].covers(user_of(es[i].0)));
                        files[f as int].reader.lemma_sorted();
                        lemma_lex_order(
                            user_of(es[i].0),
                            files[f as int].meta.largest_key@,
                            user_of(target@),
                        );
                        lemma_internal_order(es[i].0, target@);
                    }
                }
                None
            } else {
                table_first_from(&self.files[f].reader, target)
            };
            match hit {
                Some(i) => {
                    proof {
                        assert forall|j: int| 0 <= j < o + i implies ik_lt(
                            (#[trigger] run[j]).0,
                            target@,
                        ) by {
                            if j >= o {
                                assert(run[o + (j - o)] == es[j - o]);
                            }
                        }
                        assert(run[o + i] == es[i as int]);
                        lemma_first_from(run, target@, o + i);
                    }
                    self.pos = Some((f, i));
                    return;
                },
                None => {
                    proof {
                        assert forall|j: int| 0 <= j < offset_of(files, f + 1) implies ik_lt(
                            (#[trigger] run[j]).0,
                            target@,
                        ) by {
                            if j >= o {
                                assert(run[o + (j - o)] == es[j - o]);
                            }
                        }
                    }
                    f += 1;
                },
            }
        }
        self.pos = None;
        proof {
            lemma_offset_grows(files, 0, 0);
        }
    }

    /// Go to the last entry at or before `target`.
    pub fn seek_for_prev(&mut self, target: &[u8])
        requires
            old(self).wf(),
            is_internal(target@),
        ensures
            final(self).wf(),
            final(self).run() == old(self).run(),
            last_upto(old(self).run(), target@, final(self).cur()),
    {
        let ghost files = self.files@;
        let ghost run = all_entries(files);
        let uk = user_key_of(target);
        let mut f: usize = self.files.len();
        proof {
            lemma_offset_grows(files, 0, 0);
        }
        while f > 0
            invariant
                self.files == old(self).files,
                files == self.files@,
                run == all_entries(files),
                files_wf(files),
                sorted_entries(run),
                is_internal(target@),
                uk@ == user_of(target@),
                f <= files.len(),
                forall|j: int|
                    offset_of(files, f as int) <= j < run.len() ==> ik_lt(
                        target@,
                        (#[trigger] run[j]).0,
                    ),
            decreases f,
        {
            f -= 1;
            proof {
                lemma_offset(files, f as int);
                assert(files[f as int].wf());
            }
            let ghost es = files[f as int].reader.entries();
            let ghost o = offset_of(files, f as int) as int;
            let skip = bytes_lt(uk, self.files[f].meta.smallest_key.as_slice());
            let hit: Option<usize> = if skip {
                proof {
                    assert forall|i: int| 0 <= i < es.len() implies ik_lt(
                        target@,
                        (#[trigger] es[i]).0,
                    ) by {
                        assert(files[f as int].covers(user_of(es[i].0)));
                        files[f as int].reader.lemma_sorted();
                        lemma_lex_order(
                            user_of(target@),
                            files[f as int].meta.smallest_key@,
                            user_of(es[i].0),
                        );
                        lemma_internal_order(target@, es[i].0);
                    }
                }
                None
            } else {
                table_last_upto(&self.files[f].reader, target)
            };
            match hit {
                Some(i) => {
                    proof {
                        assert forall|j: int| o + i < j < run.len() implies ik_lt(
                            target@,
                            (#[trigger] run[j]).0,
                        ) by {
                            if j < o + es.len() {
                                assert(run[o + (j - o)] == es[j - o]);
                            }
                        }
                        assert(run[o + i] == es[i as int]);
                        lemma_last_upto(run, target@, o + i);
                    }
                    self.pos = Some((f, i));
                    return;
                },
                None => {
                    proof {
                        assert forall|j: int| o <= j < run.len() implies ik_lt(
                            target@,
                            (#[trigger] run[j]).0,
                        ) by {
                            if j < o + es.len() {
                                assert(run[o + (j - o)] == es[j - o]);
                            }
                        }
                    }
                },
            }
        }
        self.pos = None;
        proof {
            lemma_offset_grows(files, 0, 0);
        }
    }

    /// Go to the next entry, in this table or in the next one that has any.
    pub fn advance(&mut self)
        requires
            old(self).wf(),
        ensures
            final(self).wf(),
            final(self).run() == old(self).run(),
            final(self).cur() == pos_after(old(self).cur(), old(self).run().len()),
    {
        match self.pos {
            None => {},
            Some((f, i)) => {
                proof {
                    lemma_offset(self.files@, f as int);
                }
                let n: usize = self.files[f].reader.len();
                let count: usize = self.files.len();
                assert(f < count);
                if i + 1 < n {
                    self.pos = Some((f, i + 1));
                } else {
                    self.open_from(f + 1);
                }
            },
        }
    }

    /// Go to the entry before, in this table or in the one before that has
    /// any.
    pub fn advance_backward(&mut self)
        requires
            old(self).wf(),
        ensures
            final(self).wf(),
            final(self).run() == old(self).run(),
            final(self).cur() == pos_before(old(self).cur()),
    {
        match self.pos {
            None => {},
            Some((f, i)) => {
                if i > 0 {
                    self.pos = Some((f, i - 1));
                } else {
                    self.open_back(f);
                }
            },
        }
    }

    /// The current internal key.
    pub fn key(&self) -> (r: Option<&[u8]>)
        requires
            self.wf(),
        ensures
            match self.cur() {
                Some(i) => r matches Some(k) && k@ == self.run()[i].0,
                None => r is None,
            },
    {
        match self.pos {
            Some((f, i)) => {
                proof {
                    lemma_offset(self.files@, f as int);
                    assert(self.files@[f as int].reader.entries()[i as int] == self.files@[f as
                        int].reader.entries()[i as int]);
                }
                Some(self.files[f].reader.key_at(i))
            },
            None => None,
        }
    }

    /// The current value.
    pub fn value(&self) -> (r: Option<&[u8]>)
        requires
            self.wf(),
        ensures
            match self.cur() {
                Some(i) => r matches Some(v) && v@ == self.run()[i].1,
                None => r is None,
            },
    {
        match self.pos {
            Some((f, i)) => {
                proof {
                    lemma_offset(self.files@, f as int);
                    assert(self.files@[f as int].reader.entries()[i as int] == self.files@[f as
                        int].reader.entries()[i as int]);
                }
                Some(self.files[f].reader.value_at(i))
            },
            None => None,
        }
    }
}

// ── Any source ───────────────────────────────────────────────────

/// Cursor over one source.
pub enum LevelIter<'a> {
    Memtable(MemtableLevelIter<'a>),
    SsTable(SsTableLevelIter),
    LevelConcat(LevelConcatIter),
}

impl<'a> LevelIter<'a> {
    /// The entries of the source.
    pub open spec fn run(&self) -> Seq<Pair> {
        match self {
            LevelIter::Memtable(it) => it.run(),
            LevelIter::SsTable(it) => it.run(),
            LevelIter::LevelConcat(it) => it.run(),
        }
    }

    /// The position.
    pub open spec fn cur(&self) -> Option<int> {
        match self {
            LevelIter::Memtable(it) => it.cur(),
            LevelIter::SsTable(it) => it.cur(),
            LevelIter::LevelConcat(it) => it.cur(),
        }
    }

    /// The cursor is well formed.
    pub open spec fn wf(&self) -> bool {
        match self {
            LevelIter::Memtable(it) => it.wf(),
            LevelIter::SsTable(it) => it.wf(),
            LevelIter::LevelConcat(it) => it.wf(),
        }
    }

    /// The run is sorted and the position is in it.
    pub proof fn lemma_run(&self)
        requires
            self.wf(),
        ensures
            sorted_entries(self.run()),
            self.cur() matches Some(i) ==> 0 <= i < self.run().len(),
    {
        match self {
            LevelIter::Memtable(it) => it.lemma_run(),
            LevelIter::SsTable(it) => it.lemma_run(),
            LevelIter::LevelConcat(it) => it.lemma_run(),
        }
    }

    /// Go to the first entry.
    pub fn seek_to_first(&mut self)
        requires
            old(self).wf(),
        ensures
            final(self).wf(),
            final(self).run() == old(self).run(),
            final(self).cur() == first_pos(old(self).run().len()),
    {
        match self {
            LevelIter::Memtable(it) => it.seek_to_first(),
            LevelIter::SsTable(it) => it.seek_to_first(),
            LevelIter::LevelConcat(it) => it.seek_to_first(),
        }
    }

    /// Go to the last entry.
    pub fn seek_to_last(&mut self)
        requires
            old(self).wf(),
        ensures
            final(self).wf(),
            final(self).run() == old(self).run(),
            final(self).cur() == last_pos(old(self).run().len()),
    {
        match self {
            LevelIter::Memtable(it) => it.seek_to_last(),
            LevelIter::SsTable(it) => it.seek_to_last(),
            LevelIter::LevelConcat(it) => it.seek_to_last(),
        }
    }

    /// Go to the first entry at or after `target`.
    pub fn seek(&mut self, target: &[u8])
        requires
            old(self).wf(),
            is_internal(target@),
        ensures
            final(self).wf(),
            final(self).run() == old(self).run(),
            first_from(old(self).run(), target@, final(self).cur()),
    {
        match self {
            LevelIter::Memtable(it) => it.seek(target),
            LevelIter::SsTable(it) => it.seek(target),
            LevelIter::LevelConcat(it) => it.seek(target),
        }
    }

    /// Go to the last entry at or before `target`.
    pub fn seek_for_prev(&mut self, target: &[u8])
        requires
            old(self).wf(),
            is_internal(target@),
        ensures
            final(self).wf(),
            final(self).run() == old(self).run(),
            last_upto(old(self).run(), target@, final(self).cur()),
    {
        match self {
            LevelIter::Memtable(it) => it.seek_for_prev(target),
            LevelIter::SsTable(it) => it.seek_for_prev(target),
            LevelIter::LevelConcat(it) => it.seek_for_prev(target),
        }
    }

    /// Go to the next entry.
    pub fn advance(&mut self)
        requires
            old(self).wf(),
        ensures
            final(self).wf(),
            final(self).run() == old(self).run(),
            final(self).cur() == pos_after(old(self).cur(), old(self).run().len()),
    {
        match self {
            LevelIter::Memtable(it) => it.advance(),
            LevelIter::SsTable(it) => it.advance(),
            LevelIter::LevelConcat(it) => it.advance(),
        }
    }

    /// Go to the entry before.
    pub fn advance_backward(&mut self)
        requires
            old(self).wf(),
        ensures
            final(self).wf(),
            final(self).run() == old(self).run(),
            final(self).cur() == pos_before(old(self).cur()),
    {
        match self {
            LevelIter::Memtable(it) => it.advance_backward(),
            LevelIter::SsTable(it) => it.advance_backward(),
            LevelIter::LevelConcat(it) => it.advance_backward(),
        }
    }

    /// The current internal key.
    pub fn key(&self) -> (r: Option<&[u8]>)
        requires
            self.wf(),
        ensures
            match self.cur() {
                Some(i) => r matches Some(k) && k@ == self.run()[i].0,
                None => r is None,
            },
    {
        match self {
            LevelIter::Memtable(it) => it.key(),
            LevelIter::SsTable(it) => it.key(),
            LevelIter::LevelConcat(it) => it.key(),
        }
    }

    /// The current value.
    pub fn value(&self) -> (r: Option<&[u8]>)
        requires
            self.wf(),
        ensures
            match self.cur() {
                Some(i) => r matches Some(v) && v@ == self.run()[i].1,
                None => r is None,
            },
    {
        match self {
            LevelIter::Memtable(it) => it.value(),
            LevelIter::SsTable(it) => it.value(),
            LevelIter::LevelConcat(it) => it.value(),
        }
    }
}

/// Going on from the first position visits every position in turn and ends
/// after the last, and going back undoes it.
pub proof fn lemma_steps_visit_every_position(len: nat, i: int)
    requires
        0 <= i < len,
    ensures
        first_pos(len) == Some(0int),
        last_pos(len) == Some(len - 1),
        pos_after(last_pos(len), len) is None,
        i + 1 < len ==> pos_after(Some(i), len) == Some(i + 1) && pos_before(Some(i + 1)) == Some(i),
        pos_before(Some(i)) is None <==> Some(i) == first_pos(len),
        pos_after(Some(i), len) is None <==> Some(i) == last_pos(len),
        pos_after(None, len) is None,
        pos_before(None) is None,
        first_pos(0) is None,
        last_pos(0) is None,
{
}

} // verus!
