//! A cursor over the entries of all sources in one order.
//!
//! One cursor per source; in forward direction the smallest of their keys is
//! the current one, in reverse the largest. The winner is found by a linear
//! scan, which for so few sources beats a heap. An entry that stands in several
//! sources is met once.

use super::block::sorted_entries;
use super::block_entry::Pair;
use super::internal_key::ik_lt;
use super::internal_key::internal_key_lt;
use super::internal_key::is_internal;
use super::internal_key::lemma_internal_total_order;
use super::level_iter::first_from;
use super::level_iter::first_pos;
use super::level_iter::last_pos;
use super::level_iter::last_upto;
use super::level_iter::pos_after;
use super::level_iter::pos_before;
use super::level_iter::LevelIter;
use super::versions::lemma_one_value;
use crate::bytes::bytes_eq;
use crate::bytes::copy_bytes;
use vstd::prelude::*;

verus! {

// ── The union of sorted runs ─────────────────────────────────────

/// Run `l` holds `p`.
pub open spec fn run_holds(runs: Seq<Seq<Pair>>, l: int, p: Pair) -> bool {
    0 <= l < runs.len() && runs[l].contains(p)
}

/// Some run holds `p`.
pub open spec fn any_holds(runs: Seq<Seq<Pair>>, p: Pair) -> bool {
    exists|l: int| #[trigger] run_holds(runs, l, p)
}

/// The runs are sorted, and where two have a key in common they have the same
/// entry.
pub open spec fn agreeing_runs(runs: Seq<Seq<Pair>>) -> bool {
    &&& forall|l: int| 0 <= l < runs.len() ==> sorted_entries(#[trigger] runs[l])
    &&& forall|l: int, m: int, p: Pair, q: Pair| #[trigger]
        run_holds(runs, l, p) && #[trigger] run_holds(runs, m, q) && p.0 == q.0 ==> p == q
}

/// `all` holds the entries of all runs, in order.
pub open spec fn is_union(runs: Seq<Seq<Pair>>, all: Seq<Pair>) -> bool {
    &&& sorted_entries(all)
    &&& forall|p: Pair| #[trigger] all.contains(p) == any_holds(runs, p)
}

/// How many entries of a sorted run come before `target`.
pub proof fn lemma_split(all: Seq<Pair>, target: Seq<u8>) -> (s: int)
    requires
        sorted_entries(all),
        is_internal(target),
    ensures
        0 <= s <= all.len(),
        forall|j: int| 0 <= j < all.len() ==> (j < s <==> ik_lt((#[trigger] all[j]).0, target)),
    decreases all.len(),
{
    if all.len() == 0 {
        0
    } else {
        let d = all.drop_last();
        let last = all.len() - 1;
        assert(sorted_entries(d));
        let s = lemma_split(d, target);
        assert forall|j: int| 0 <= j < last implies d[j] == all[j] by {}
        if ik_lt(all[last].0, target) {
            assert forall|j: int| 0 <= j < all.len() implies ik_lt(
                (#[trigger] all[j]).0,
                target,
            ) by {
                if j < last {
                    lemma_internal_total_order(all[j].0, all[last].0, target);
                }
            }
            all.len() as int
        } else {
            assert forall|j: int| 0 <= j < all.len() implies (j < s <==> ik_lt(
                (#[trigger] all[j]).0,
                target,
            )) by {
                if j < last {
                    assert(d[j] == all[j]);
                }
            }
            s
        }
    }
}

proof fn lemma_insert_new(all: Seq<Pair>, p: Pair) -> (r: Seq<Pair>)
    requires
        sorted_entries(all),
        is_internal(p.0),
        forall|j: int| 0 <= j < all.len() ==> (#[trigger] all[j]).0 != p.0,
    ensures
        sorted_entries(r),
        forall|q: Pair| #[trigger] r.contains(q) == (all.contains(q) || q == p),
{
    let s = lemma_split(all, p.0);
    let r = all.insert(s, p);
    assert forall|i: int| 0 <= i < r.len() implies (#[trigger] r[i]) == if i < s {
        all[i]
    } else if i == s {
        p
    } else {
        all[i - 1]
    } by {}
    assert forall|i: int| 0 <= i < r.len() implies is_internal((#[trigger] r[i]).0) by {
        if i < s {
            assert(is_internal(all[i].0));
        } else if i > s {
            assert(is_internal(all[i - 1].0));
        }
    }
    assert forall|i: int, j: int| 0 <= i < j < r.len() implies ik_lt(
        (#[trigger] r[i]).0,
        (#[trigger] r[j]).0,
    ) by {
        if j < s {
            assert(ik_lt(all[i].0, all[j].0));
        } else if j == s {
            assert(ik_lt(all[i].0, p.0));
        } else if i > s {
            assert(ik_lt(all[i - 1].0, all[j - 1].0));
        } else if i == s {
            assert(!ik_lt(all[j - 1].0, p.0));
            lemma_internal_total_order(all[j - 1].0, p.0, p.0);
        } else {
            assert(ik_lt(all[i].0, all[j - 1].0));
        }
    }
    assert forall|q: Pair| #[trigger] r.contains(q) == (all.contains(q) || q == p) by {
        if all.contains(q) {
            let i = choose|i: int| 0 <= i < all.len() && all[i] == q;
            if i < s {
                assert(r[i] == q);
            } else {
                assert(r[i + 1] == q);
            }
        }
        if q == p {
            assert(r[s] == q);
        }
        if r.contains(q) {
            let i = choose|i: int| 0 <= i < r.len() && r[i] == q;
            if i < s {
                assert(all[i] == q);
            } else if i > s {
                assert(all[i - 1] == q);
            }
        }
    }
    r
}

proof fn lemma_insert(all: Seq<Pair>, p: Pair) -> (r: Seq<Pair>)
    requires
        sorted_entries(all),
        is_internal(p.0),
        forall|j: int| 0 <= j < all.len() && (#[trigger] all[j]).0 == p.0 ==> all[j] == p,
    ensures
        sorted_entries(r),
        forall|q: Pair| #[trigger] r.contains(q) == (all.contains(q) || q == p),
{
    if all.contains(p) {
        all
    } else {
        assert forall|j: int| 0 <= j < all.len() implies (#[trigger] all[j]).0 != p.0 by {
            assert(all.contains(all[j]));
        }
        lemma_insert_new(all, p)
    }
}

proof fn lemma_insert_run(all: Seq<Pair>, run: Seq<Pair>) -> (r: Seq<Pair>)
    requires
        sorted_entries(all),
        sorted_entries(run),
        forall|p: Pair, q: Pair| #[trigger]
            all.contains(p) && #[trigger] run.contains(q) && p.0 == q.0 ==> p == q,
    ensures
        sorted_entries(r),
        forall|q: Pair| #[trigger] r.contains(q) == (all.contains(q) || run.contains(q)),
    decreases run.len(),
{
    if run.len() == 0 {
        all
    } else {
        let d = run.drop_last();
        let p = run.last();
        let last = run.len() - 1;
        assert(sorted_entries(d));
        assert(run[last] == p);
        assert forall|a: Pair, q: Pair| #[trigger]
            all.contains(a) && #[trigger] d.contains(q) && a.0 == q.0 implies a == q by {
            let i = choose|i: int| 0 <= i < d.len() && d[i] == q;
            assert(run[i] == q);
            assert(run.contains(q));
        }
        let u = lemma_insert_run(all, d);
        assert forall|j: int| 0 <= j < u.len() && (#[trigger] u[j]).0 == p.0 implies u[j]
            == p by {
            assert(u.contains(u[j]));
            assert(run.contains(p));
            if d.contains(u[j]) {
                let i = choose|i: int| 0 <= i < d.len() && d[i] == u[j];
                assert(run[i] == u[j]);
                if u[j].0 == p.0 {
                    lemma_one_value(run, i, last);
                }
            }
        }
        let r = lemma_insert(u, p);
        assert forall|q: Pair| #[trigger] r.contains(q) == (all.contains(q) || run.contains(q)) by {
            assert(r.contains(q) == (u.contains(q) || q == p));
            if run.contains(q) {
                let i = choose|i: int| 0 <= i < run.len() && run[i] == q;
                if i < last {
                    assert(d[i] == q);
                }
            }
            if d.contains(q) {
                let i = choose|i: int| 0 <= i < d.len() && d[i] == q;
                assert(run[i] == q);
            }
        }
        r
    }
}

/// Runs that agree have a union.
pub proof fn lemma_union_exists(runs: Seq<Seq<Pair>>) -> (all: Seq<Pair>)
    requires
        agreeing_runs(runs),
    ensures
        is_union(runs, all),
    decreases runs.len(),
{
    if runs.len() == 0 {
        let all = Seq::<Pair>::empty();
        assert forall|p: Pair| #[trigger] all.contains(p) == any_holds(runs, p) by {
            if any_holds(runs, p) {
                let l = choose|l: int| #[trigger] run_holds(runs, l, p);
                assert(false);
            }
        }
        all
    } else {
        let d = runs.drop_last();
        let last = runs.len() - 1;
        assert forall|l: int, p: Pair| #[trigger] run_holds(d, l, p) implies run_holds(
            runs,
            l,
            p,
        ) by {
            assert(d[l] == runs[l]);
        }
        assert(agreeing_runs(d));
        let u = lemma_union_exists(d);
        assert(runs[last] == runs.last());
        assert forall|p: Pair, q: Pair| #[trigger]
            u.contains(p) && #[trigger] runs.last().contains(q) && p.0 == q.0 implies p == q by {
            assert(any_holds(d, p));
            let l = choose|l: int| #[trigger] run_holds(d, l, p);
            assert(run_holds(runs, l, p));
            assert(run_holds(runs, last, q));
        }
        let all = lemma_insert_run(u, runs.last());
        assert forall|p: Pair| #[trigger] all.contains(p) == any_holds(runs, p) by {
            assert(all.contains(p) == (u.contains(p) || runs.last().contains(p)));
            if u.contains(p) {
                let l = choose|l: int| #[trigger] run_holds(d, l, p);
                assert(run_holds(runs, l, p));
            }
            if runs.last().contains(p) {
                assert(run_holds(runs, last, p));
            }
            if any_holds(runs, p) {
                let l = choose|l: int| #[trigger] run_holds(runs, l, p);
                if l < last {
                    assert(d[l] == runs[l]);
                    assert(run_holds(d, l, p));
                }
            }
        }
        all
    }
}

// ── Positions ────────────────────────────────────────────────────

/// The key `k` is among the first `s` of all entries.
pub open spec fn among_first(all: Seq<Pair>, s: int, k: Seq<u8>) -> bool {
    s == all.len() || ik_lt(k, all[s].0)
}

/// The first `b` entries of a run are those among the first `s` of all.
pub open spec fn cut_at(run: Seq<Pair>, all: Seq<Pair>, s: int, b: int) -> bool {
    &&& 0 <= b <= run.len()
    &&& forall|i: int|
        0 <= i < run.len() ==> (i < b <==> among_first(all, s, (#[trigger] run[i]).0))
}

/// How many entries of the run lie behind the cursor.
pub open spec fn behind(cur: Option<int>, len: nat, forward: bool) -> int {
    match cur {
        Some(i) => if forward {
            i
        } else {
            i + 1
        },
        None => if forward {
            len as int
        } else {
            0
        },
    }
}

/// The runs of the cursors.
pub open spec fn runs_of(levels: Seq<LevelIter<'_>>) -> Seq<Seq<Pair>> {
    levels.map_values(|l: LevelIter<'_>| l.run())
}

/// All cursors are well formed.
pub open spec fn levels_wf(levels: Seq<LevelIter<'_>>) -> bool {
    forall|l: int| 0 <= l < levels.len() ==> (#[trigger] levels[l]).wf()
}

/// All cursors stand at the same place among all entries.
pub open spec fn levels_at(
    levels: Seq<LevelIter<'_>>,
    all: Seq<Pair>,
    s: int,
    forward: bool,
) -> bool {
    forall|l: int|
        0 <= l < levels.len() ==> cut_at(
            (#[trigger] levels[l]).run(),
            all,
            s,
            behind(levels[l].cur(), levels[l].run().len(), forward),
        )
}

/// An entry of a run stands somewhere among all.
proof fn lemma_find(levels: Seq<LevelIter<'_>>, all: Seq<Pair>, l: int, i: int) -> (j: int)
    requires
        levels_wf(levels),
        is_union(runs_of(levels), all),
        0 <= l < levels.len(),
        0 <= i < levels[l].run().len(),
    ensures
        0 <= j < all.len(),
        all[j] == levels[l].run()[i],
{
    let p = levels[l].run()[i];
    assert(runs_of(levels)[l].contains(p));
    assert(run_holds(runs_of(levels), l, p));
    assert(all.contains(p));
    choose|j: int| 0 <= j < all.len() && all[j] == p
}

/// Of all entries exactly those before number `s` are among the first `s`.
proof fn lemma_among(all: Seq<Pair>, s: int, j: int)
    requires
        sorted_entries(all),
        0 <= s <= all.len(),
        0 <= j < all.len(),
    ensures
        among_first(all, s, all[j].0) <==> j < s,
{
    if s < all.len() {
        if j > s {
            assert(ik_lt(all[s].0, all[j].0));
            lemma_internal_total_order(all[s].0, all[j].0, all[s].0);
        } else if j == s {
            lemma_internal_total_order(all[s].0, all[s].0, all[s].0);
        }
    }
}

/// A cursor at the entry `all[s]` that has gone one on, or one elsewhere that
/// has stayed, stands behind the first `s + 1` of all entries.
proof fn lemma_step_over<'a>(
    levels: Seq<LevelIter<'a>>,
    all: Seq<Pair>,
    l: int,
    s: int,
    after: LevelIter<'a>,
    here: bool,
)
    requires
        levels_wf(levels),
        is_union(runs_of(levels), all),
        levels_at(levels, all, s, true),
        0 <= s < all.len(),
        0 <= l < levels.len(),
        here == (levels[l].cur() matches Some(i) && levels[l].run()[i].0 == all[s].0),
        after.wf(),
        after.run() == levels[l].run(),
        after.cur() == if here {
            pos_after(levels[l].cur(), levels[l].run().len())
        } else {
            levels[l].cur()
        },
    ensures
        cut_at(after.run(), all, s + 1, behind(after.cur(), after.run().len(), true)),
{
    let run = after.run();
    levels[l].lemma_run();
    after.lemma_run();
    let b0 = behind(levels[l].cur(), run.len(), true);
    let b = behind(after.cur(), run.len(), true);
    assert(cut_at(run, all, s, b0));
    assert forall|x: int| 0 <= x < run.len() implies (x < b <==> among_first(
        all,
        s + 1,
        (#[trigger] run[x]).0,
    )) by {
        let j = lemma_find(levels, all, l, x);
        lemma_among(all, s, j);
        lemma_among(all, s + 1, j);
        assert(x < b0 <==> j < s);
        if x == b0 && here {
            lemma_one_value(all, j, s);
        }
        if x > b0 {
            let k = lemma_find(levels, all, l, b0);
            lemma_among(all, s, k);
            assert(ik_lt(run[b0].0, run[x].0));
            if j == s {
                if k > s {
                    assert(ik_lt(all[s].0, all[k].0));
                }
                lemma_internal_total_order(all[s].0, run[b0].0, run[x].0);
            }
        }
    }
}

/// A cursor at the entry `all[s - 1]` that has gone one back, or one elsewhere
/// that has stayed, stands behind the first `s - 1` of all entries.
proof fn lemma_step_back<'a>(
    levels: Seq<LevelIter<'a>>,
    all: Seq<Pair>,
    l: int,
    s: int,
    after: LevelIter<'a>,
    here: bool,
)
    requires
        levels_wf(levels),
        is_union(runs_of(levels), all),
        levels_at(levels, all, s, false),
        0 < s <= all.len(),
        0 <= l < levels.len(),
        here == (levels[l].cur() matches Some(i) && levels[l].run()[i].0 == all[s - 1].0),
        after.wf(),
        after.run() == levels[l].run(),
        after.cur() == if here {
            pos_before(levels[l].cur())
        } else {
            levels[l].cur()
        },
    ensures
        cut_at(after.run(), all, s - 1, behind(after.cur(), after.run().len(), false)),
{
    let run = after.run();
    levels[l].lemma_run();
    after.lemma_run();
    let b0 = behind(levels[l].cur(), run.len(), false);
    let b = behind(after.cur(), run.len(), false);
    assert(cut_at(run, all, s, b0));
    assert forall|x: int| 0 <= x < run.len() implies (x < b <==> among_first(
        all,
        s - 1,
        (#[trigger] run[x]).0,
    )) by {
        let j = lemma_find(levels, all, l, x);
        lemma_among(all, s, j);
        lemma_among(all, s - 1, j);
        assert(x < b0 <==> j < s);
        if x == b0 - 1 && here {
            lemma_one_value(all, j, s - 1);
        }
        if x < b0 - 1 {
            let k = lemma_find(levels, all, l, b0 - 1);
            lemma_among(all, s, k);
            assert(ik_lt(run[x].0, run[b0 - 1].0));
            if j == s - 1 {
                if k < s - 1 {
                    assert(ik_lt(all[k].0, all[s - 1].0));
                }
                lemma_internal_total_order(run[x].0, run[b0 - 1].0, run[x].0);
            }
        }
    }
}

/// Cursor over the union of several sources.
pub struct MergingIter<'a> {
    levels: Vec<LevelIter<'a>>,
    current_idx: Option<usize>,
    all: Ghost<Seq<Pair>>,
    split: Ghost<int>,
    forward: Ghost<bool>,
}

impl<'a> MergingIter<'a> {
    /// The entries of all sources, in order.
    pub closed spec fn all(&self) -> Seq<Pair> {
        self.all@
    }

    /// The position among all entries.
    pub closed spec fn cur(&self) -> Option<int> {
        match self.current_idx {
            Some(_) => Some(
                if self.forward@ {
                    self.split@
                } else {
                    self.split@ - 1
                },
            ),
            None => None,
        }
    }

    /// The cursor moves forward.
    pub closed spec fn goes_forward(&self) -> bool {
        self.forward@
    }

    /// The runs of the sources.
    pub closed spec fn runs(&self) -> Seq<Seq<Pair>> {
        runs_of(self.levels@)
    }

    closed spec fn base(&self) -> bool {
        &&& levels_wf(self.levels@)
        &&& agreeing_runs(runs_of(self.levels@))
        &&& is_union(runs_of(self.levels@), self.all@)
        &&& 0 <= self.split@ <= self.all@.len()
    }

    closed spec fn placed(&self) -> bool {
        levels_at(self.levels@, self.all@, self.split@, self.forward@)
    }

    closed spec fn current_ok(&self) -> bool {
        match self.current_idx {
            Some(c) => {
                &&& self.placed()
                &&& c < self.levels@.len()
                &&& self.levels@[c as int].cur() is Some
                &&& if self.forward@ {
                    self.split@ < self.all@.len() && self.levels@[c as int].run()[
                        self.levels@[c as int].cur()->0
                    ] == self.all@[self.split@]
                } else {
                    self.split@ > 0 && self.levels@[c as int].run()[
                        self.levels@[c as int].cur()->0
                    ] == self.all@[self.split@ - 1]
                }
            },
            None => true,
        }
    }

    /// The cursors are well formed and stand at the same place.
    pub closed spec fn wf(&self) -> bool {
        &&& self.base()
        &&& self.current_ok()
    }

    /// The union is sorted and the position is in it.
    pub proof fn lemma_all(&self)
        requires
            self.wf(),
        ensures
            sorted_entries(self.all()),
            is_union(self.runs(), self.all()),
            self.cur() matches Some(i) ==> 0 <= i < self.all().len(),
    {
    }

    /// The key of a cursor that has a position.
    fn current_key(&self, c: usize) -> (r: Vec<u8>)
        requires
            c < self.levels@.len(),
            self.levels@[c as int].wf(),
            self.levels@[c as int].cur() is Some,
        ensures
            r@ == self.levels@[c as int].run()[self.levels@[c as int].cur()->0].0,
    {
        match self.levels[c].key() {
            Some(k) => copy_bytes(k),
            None => Vec::new(),
        }
    }

    /// A cursor over the given sources, without a position.
    pub fn new(levels: Vec<LevelIter<'a>>) -> (r: Self)
        requires
            levels_wf(levels@),
            agreeing_runs(runs_of(levels@)),
        ensures
            r.wf(),
            r.runs() == runs_of(levels@),
            r.cur() is None,
    {
        let ghost all = lemma_union_exists(runs_of(levels@));
        MergingIter {
            levels,
            current_idx: None,
            all: Ghost(all),
            split: Ghost(0),
            forward: Ghost(true),
        }
    }

    /// Make the source with the smallest key the current one.
    fn pick_smallest(&mut self)
        requires
            old(self).base(),
            old(self).placed(),
            old(self).forward@,
        ensures
            final(self).wf(),
            final(self).levels == old(self).levels,
            final(self).all == old(self).all,
            final(self).split == old(self).split,
            final(self).forward == old(self).forward,
            final(self).current_idx is Some <==> old(self).split@ < old(self).all@.len(),
    {
        let ghost levels = self.levels@;
        let ghost all = self.all@;
        let ghost s = self.split@;
        let mut best: Option<usize> = None;
        let mut i: usize = 0;
        while i < self.levels.len()
            invariant
                *self == *old(self),
                levels == self.levels@,
                levels_wf(levels),
                i <= levels.len(),
                best is None ==> forall|l: int|
                    0 <= l < i ==> (#[trigger] levels[l]).cur() is None,
                best matches Some(b) ==> {
                    &&& b < i
                    &&& levels[b as int].cur() is Some
                    &&& forall|l: int|
                        0 <= l < i && (#[trigger] levels[l]).cur() is Some ==> !ik_lt(
                            levels[l].run()[levels[l].cur()->0].0,
                            levels[b as int].run()[levels[b as int].cur()->0].0,
                        )
                },
            decreases levels.len() - i,
        {
            proof {
                levels[i as int].lemma_run();
            }
            match self.levels[i].key() {
                None => {},
                Some(k) => match best {
                    None => {
                        best = Some(i);
                        proof {
                            let c = levels[i as int].cur()->0;
                            assert(is_internal(levels[i as int].run()[c].0));
                            lemma_internal_total_order(
                                levels[i as int].run()[c].0,
                                levels[i as int].run()[c].0,
                                levels[i as int].run()[c].0,
                            );
                        }
                    },
                    Some(b) => {
                        proof {
                            levels[b as int].lemma_run();
                            let c = levels[i as int].cur()->0;
                            let d = levels[b as int].cur()->0;
                            assert(is_internal(levels[i as int].run()[c].0));
                            assert(is_internal(levels[b as int].run()[d].0));
                        }
                        if let Some(bk) = self.levels[b].key() {
                            if internal_key_lt(k, bk) {
                                proof {
                                    let hb = levels[b as int].run()[levels[b as int].cur()->0].0;
                                    let hi = levels[i as int].run()[levels[i as int].cur()->0].0;
                                    assert forall|l: int|
                                        0 <= l < i + 1 && (#[trigger] levels[l]).cur()
                                            is Some implies !ik_lt(
                                        levels[l].run()[levels[l].cur()->0].0,
                                        hi,
                                    ) by {
                                        levels[l].lemma_run();
                                        let hl = levels[l].run()[levels[l].cur()->0].0;
                                        assert(is_internal(hl));
                                        lemma_internal_total_order(hl, hi, hb);
                                        lemma_internal_total_order(hi, hi, hi);
                                    }
                                }
                                best = Some(i);
                            }
                        }
                    },
                },
            }
            i += 1;
        }
        proof {
            if s < all.len() {
                let p = all[s];
                assert(all.contains(p));
                assert(any_holds(runs_of(levels), p));
                let l = choose|l: int| #[trigger] run_holds(runs_of(levels), l, p);
                let run = levels[l].run();
                let x = choose|x: int| 0 <= x < run.len() && run[x] == p;
                levels[l].lemma_run();
                lemma_among(all, s, s);
                assert(cut_at(run, all, s, behind(levels[l].cur(), run.len(), true)));
                assert(!among_first(all, s, run[x].0));
                assert(levels[l].cur() is Some);
                let h = levels[l].cur()->0;
                let j = lemma_find(levels, all, l, h);
                lemma_among(all, s, j);
                assert(!among_first(all, s, run[h].0));
                if h < x {
                    assert(ik_lt(run[h].0, run[x].0));
                    lemma_among(all, s, j);
                    assert(ik_lt(all[j].0, all[s].0));
                }
                assert(run[h] == p);
                let b = best->0 as int;
                levels[b].lemma_run();
                let hb = levels[b].cur()->0;
                let jb = lemma_find(levels, all, b, hb);
                lemma_among(all, s, jb);
                assert(cut_at(
                    levels[b].run(),
                    all,
                    s,
                    behind(levels[b].cur(), levels[b].run().len(), true),
                ));
                assert(!among_first(all, s, levels[b].run()[hb].0));
                assert(jb >= s);
                if jb > s {
                    assert(ik_lt(all[s].0, all[jb].0));
                }
                assert(levels[b].run()[hb] == all[s]);
            } else {
                assert forall|l: int| 0 <= l < levels.len() implies (#[trigger] levels[l]).cur()
                    is None by {
                    levels[l].lemma_run();
                    assert(cut_at(
                        levels[l].run(),
                        all,
                        s,
                        behind(levels[l].cur(), levels[l].run().len(), true),
                    ));
                    if levels[l].cur() is Some {
                        let h = levels[l].cur()->0;
                        assert(among_first(all, s, levels[l].run()[h].0));
                    }
                }
            }
        }
        self.current_idx = best;
    }

    /// Make the source with the largest key the current one.
    fn pick_largest(&mut self)
        requires
            old(self).base(),
            old(self).placed(),
            !old(self).forward@,
        ensures
            final(self).wf(),
            final(self).levels == old(self).levels,
            final(self).all == old(self).all,
            final(self).split == old(self).split,
            final(self).forward == old(self).forward,
            final(self).current_idx is Some <==> old(self).split@ > 0,
    {
        let ghost levels = self.levels@;
        let ghost all = self.all@;
        let ghost s = self.split@;
        let mut best: Option<usize> = None;
        let mut i: usize = 0;
        while i < self.levels.len()
            invariant
                *self == *old(self),
                levels == self.levels@,
                levels_wf(levels),
                i <= levels.len(),
                best is None ==> forall|l: int|
                    0 <= l < i ==> (#[trigger] levels[l]).cur() is None,
                best matches Some(b) ==> {
                    &&& b < i
                    &&& levels[b as int].cur() is Some
                    &&& forall|l: int|
                        0 <= l < i && (#[trigger] levels[l]).cur() is Some ==> !ik_lt(
                            levels[b as int].run()[levels[b as int].cur()->0].0,
                            levels[l].run()[levels[l].cur()->0].0,
                        )
                },
            decreases levels.len() - i,
        {
            proof {
                levels[i as int].lemma_run();
            }
            match self.levels[i].key() {
                None => {},
                Some(k) => match best {
                    None => {
                        best = Some(i);
                        proof {
                            let c = levels[i as int].cur()->0;
                            assert(is_internal(levels[i as int].run()[c].0));
                            lemma_internal_total_order(
                                levels[i as int].run()[c].0,
                                levels[i as int].run()[c].0,
                                levels[i as int].run()[c].0,
                            );
                        }
                    },
                    Some(b) => {
                        proof {
                            levels[b as int].lemma_run();
                            let c = levels[i as int].cur()->0;
                            let d = levels[b as int].cur()->0;
                            assert(is_internal(levels[i as int].run()[c].0));
                            assert(is_internal(levels[b as int].run()[d].0));
                        }
                        if let Some(bk) = self.levels[b].key() {
                            if internal_key_lt(bk, k) {
                                proof {
                                    let hb = levels[b as int].run()[levels[b as int].cur()->0].0;
                                    let hi = levels[i as int].run()[levels[i as int].cur()->0].0;
                                    assert forall|l: int|
                                        0 <= l < i + 1 && (#[trigger] levels[l]).cur()
                                            is Some implies !ik_lt(
                                        hi,
                                        levels[l].run()[levels[l].cur()->0].0,
                                    ) by {
                                        levels[l].lemma_run();
                                        let hl = levels[l].run()[levels[l].cur()->0].0;
                                        assert(is_internal(hl));
                                        lemma_internal_total_order(hb, hi, hl);
                                        lemma_internal_total_order(hi, hi, hi);
                                    }
                                }
                                best = Some(i);
                            }
                        }
                    },
                },
            }
            i += 1;
        }
        proof {
            if s > 0 {
                let p = all[s - 1];
                assert(all.contains(p));
                assert(any_holds(runs_of(levels), p));
                let l = choose|l: int| #[trigger] run_holds(runs_of(levels), l, p);
                let run = levels[l].run();
                let x = choose|x: int| 0 <= x < run.len() && run[x] == p;
                levels[l].lemma_run();
                lemma_among(all, s, s - 1);
                assert(cut_at(run, all, s, behind(levels[l].cur(), run.len(), false)));
                assert(among_first(all, s, run[x].0));
                assert(levels[l].cur() is Some);
                let h = levels[l].cur()->0;
                let j = lemma_find(levels, all, l, h);
                lemma_among(all, s, j);
                assert(among_first(all, s, run[h].0));
                if h > x {
                    assert(ik_lt(run[x].0, run[h].0));
                    assert(ik_lt(all[s - 1].0, all[j].0));
                    if j < s - 1 {
                        assert(ik_lt(all[j].0, all[s - 1].0));
                        lemma_internal_total_order(all[j].0, all[s - 1].0, all[j].0);
                    } else {
                        lemma_internal_total_order(all[s - 1].0, all[s - 1].0, all[s - 1].0);
                    }
                }
                assert(run[h] == p);
                let b = best->0 as int;
                levels[b].lemma_run();
                let hb = levels[b].cur()->0;
                let jb = lemma_find(levels, all, b, hb);
                lemma_among(all, s, jb);
                assert(cut_at(
                    levels[b].run(),
                    all,
                    s,
                    behind(levels[b].cur(), levels[b].run().len(), false),
                ));
                assert(among_first(all, s, levels[b].run()[hb].0));
                assert(jb < s);
                if jb < s - 1 {
                    assert(ik_lt(all[jb].0, all[s - 1].0));
                }
                assert(levels[b].run()[hb] == all[s - 1]);
            } else {
                assert forall|l: int| 0 <= l < levels.len() implies (#[trigger] levels[l]).cur()
                    is None by {
                    levels[l].lemma_run();
                    assert(cut_at(
                        levels[l].run(),
                        all,
                        s,
                        behind(levels[l].cur(), levels[l].run().len(), false),
                    ));
                    if levels[l].cur() is Some {
                        let h = levels[l].cur()->0;
                        let j = lemma_find(levels, all, l, h);
                        lemma_among(all, s, j);
                        assert(among_first(all, s, levels[l].run()[h].0));
                    }
                }
            }
        }
        self.current_idx = best;
    }

    /// Go to the first of all entries.
    pub fn seek_to_first(&mut self)
        requires
            old(self).wf(),
        ensures
            final(self).wf(),
            final(self).all() == old(self).all(),
            final(self).runs() == old(self).runs(),
            final(self).goes_forward(),
            final(self).cur() == first_pos(old(self).all().len()),
    {
        let ghost levels0 = self.levels@;
        let ghost all = self.all@;
        let mut i: usize = 0;
        while i < self.levels.len()
            invariant
                i <= self.levels@.len(),
                self.levels@.len() == levels0.len(),
                all == self.all@,
                self.split == old(self).split,
                self.all == old(self).all,
                levels_wf(levels0),
                forall|l: int|
                    0 <= l < levels0.len() ==> (#[trigger] self.levels@[l]).wf()
                        && self.levels@[l].run() == levels0[l].run(),
                forall|l: int|
                    0 <= l < i ==> (#[trigger] self.levels@[l]).cur() == first_pos(levels0[l].run().len()),
            decreases self.levels@.len() - i,
        {
            let ghost before = self.levels@;
            self.levels[i].seek_to_first();
            proof {
                assert forall|l: int| 0 <= l < levels0.len() && l != i implies (
                #[trigger] self.levels@[l]) == before[l] by {}
            }
            i += 1;
        }
        let ghost levels = self.levels@;
        let ghost mut s: int = 0;
        proof {
            assert(runs_of(levels) =~= runs_of(levels0));
            s = 0;
            assert forall|l: int| 0 <= l < levels.len() implies cut_at(
                (#[trigger] levels[l]).run(),
                all,
                s,
                behind(levels[l].cur(), levels[l].run().len(), true),
            ) by {
                let run = levels[l].run();
                levels[l].lemma_run();
                let b = behind(levels[l].cur(), run.len(), true);
                assert forall|x: int| 0 <= x < run.len() implies (x < b <==> among_first(
                    all,
                    s,
                    (#[trigger] run[x]).0,
                )) by {
                    let j = lemma_find(levels, all, l, x);
                    lemma_among(all, s, j);

                }
            }
        }
        self.split = Ghost(s);
        self.forward = Ghost(true);
        self.pick_smallest();
    }

    /// Go to the last of all entries.
    pub fn seek_to_last(&mut self)
        requires
            old(self).wf(),
        ensures
            final(self).wf(),
            final(self).all() == old(self).all(),
            final(self).runs() == old(self).runs(),
            !final(self).goes_forward(),
            final(self).cur() == last_pos(old(self).all().len()),
    {
        let ghost levels0 = self.levels@;
        let ghost all = self.all@;
        let mut i: usize = 0;
        while i < self.levels.len()
            invariant
                i <= self.levels@.len(),
                self.levels@.len() == levels0.len(),
                all == self.all@,
                self.split == old(self).split,
                self.all == old(self).all,
                levels_wf(levels0),
                forall|l: int|
                    0 <= l < levels0.len() ==> (#[trigger] self.levels@[l]).wf()
                        && self.levels@[l].run() == levels0[l].run(),
                forall|l: int|
                    0 <= l < i ==> (#[trigger] self.levels@[l]).cur() == last_pos(levels0[l].run().len()),
            decreases self.levels@.len() - i,
        {
            let ghost before = self.levels@;
            self.levels[i].seek_to_last();
            proof {
                assert forall|l: int| 0 <= l < levels0.len() && l != i implies (
                #[trigger] self.levels@[l]) == before[l] by {}
            }
            i += 1;
        }
        let ghost levels = self.levels@;
        let ghost mut s: int = 0;
        proof {
            assert(runs_of(levels) =~= runs_of(levels0));
            s = all.len() as int;
            assert forall|l: int| 0 <= l < levels.len() implies cut_at(
                (#[trigger] levels[l]).run(),
                all,
                s,
                behind(levels[l].cur(), levels[l].run().len(), false),
            ) by {
                let run = levels[l].run();
                levels[l].lemma_run();
                let b = behind(levels[l].cur(), run.len(), false);
                assert forall|x: int| 0 <= x < run.len() implies (x < b <==> among_first(
                    all,
                    s,
                    (#[trigger] run[x]).0,
                )) by {
                    let j = lemma_find(levels, all, l, x);
                    lemma_among(all, s, j);

                }
            }
        }
        self.split = Ghost(s);
        self.forward = Ghost(false);
        self.pick_largest();
    }

    /// Go to the first of all entries at or after `target`.
    pub fn seek(&mut self, target: &[u8])
        requires
            old(self).wf(),
            is_internal(target@),
        ensures
            final(self).wf(),
            final(self).all() == old(self).all(),
            final(self).runs() == old(self).runs(),
            final(self).goes_forward(),
            first_from(old(self).all(), target@, final(self).cur()),
    {
        let ghost levels0 = self.levels@;
        let ghost all = self.all@;
        let mut i: usize = 0;
        while i < self.levels.len()
            invariant
                i <= self.levels@.len(),
                self.levels@.len() == levels0.len(),
                all == self.all@,
                self.split == old(self).split,
                self.all == old(self).all,
                levels_wf(levels0),
                is_internal(target@),
                forall|l: int|
                    0 <= l < levels0.len() ==> (#[trigger] self.levels@[l]).wf()
                        && self.levels@[l].run() == levels0[l].run(),
                forall|l: int|
                    0 <= l < i ==> first_from(
                        levels0[l].run(),
                        target@,
                        (#[trigger] self.levels@[l]).cur(),
                    ),
            decreases self.levels@.len() - i,
        {
            let ghost before = self.levels@;
            self.levels[i].seek(target);
            proof {
                assert forall|l: int| 0 <= l < levels0.len() && l != i implies (
                #[trigger] self.levels@[l]) == before[l] by {}
            }
            i += 1;
        }
        let ghost levels = self.levels@;
        let ghost mut s: int = 0;
        proof {
            assert(runs_of(levels) =~= runs_of(levels0));
            s = lemma_split(all, target@);
            assert forall|l: int| 0 <= l < levels.len() implies cut_at(
                (#[trigger] levels[l]).run(),
                all,
                s,
                behind(levels[l].cur(), levels[l].run().len(), true),
            ) by {
                let run = levels[l].run();
                levels[l].lemma_run();
                let b = behind(levels[l].cur(), run.len(), true);
                assert forall|x: int| 0 <= x < run.len() implies (x < b <==> among_first(
                    all,
                    s,
                    (#[trigger] run[x]).0,
                )) by {
                    let j = lemma_find(levels, all, l, x);
                    lemma_among(all, s, j);
                    assert(first_from(run, target@, levels[l].cur()));
                    assert(ik_lt(all[j].0, target@) <==> j < s);
                }
            }
        }
        self.split = Ghost(s);
        self.forward = Ghost(true);
        self.pick_smallest();
    }

    /// Go to the last of all entries at or before `target`.
    pub fn seek_for_prev(&mut self, target: &[u8])
        requires
            old(self).wf(),
            is_internal(target@),
        ensures
            final(self).wf(),
            final(self).all() == old(self).all(),
            final(self).runs() == old(self).runs(),
            !final(self).goes_forward(),
            last_upto(old(self).all(), target@, final(self).cur()),
    {
        let ghost levels0 = self.levels@;
        let ghost all = self.all@;
        let mut i: usize = 0;
        while i < self.levels.len()
            invariant
                i <= self.levels@.len(),
                self.levels@.len() == levels0.len(),
                all == self.all@,
                self.split == old(self).split,
                self.all == old(self).all,
                levels_wf(levels0),
                is_internal(target@),
                forall|l: int|
                    0 <= l < levels0.len() ==> (#[trigger] self.levels@[l]).wf()
                        && self.levels@[l].run() == levels0[l].run(),
                forall|l: int|
                    0 <= l < i ==> last_upto(
                        levels0[l].run(),
                        target@,
                        (#[trigger] self.levels@[l]).cur(),
                    ),
            decreases self.levels@.len() - i,
        {
            let ghost before = self.levels@;
            self.levels[i].seek_for_prev(target);
            proof {
                assert forall|l: int| 0 <= l < levels0.len() && l != i implies (
                #[trigger] self.levels@[l]) == before[l] by {}
            }
            i += 1;
        }
        let ghost levels = self.levels@;
        let ghost mut s: int = 0;
        proof {
            assert(runs_of(levels) =~= runs_of(levels0));
            s = lemma_split_after(all, target@);
            assert forall|l: int| 0 <= l < levels.len() implies cut_at(
                (#[trigger] levels[l]).run(),
                all,
                s,
                behind(levels[l].cur(), levels[l].run().len(), false),
            ) by {
                let run = levels[l].run();
                levels[l].lemma_run();
                let b = behind(levels[l].cur(), run.len(), false);
                assert forall|x: int| 0 <= x < run.len() implies (x < b <==> among_first(
                    all,
                    s,
                    (#[trigger] run[x]).0,
                )) by {
                    let j = lemma_find(levels, all, l, x);
                    lemma_among(all, s, j);
                    assert(last_upto(run, target@, levels[l].cur()));
                    assert(!ik_lt(target@, all[j].0) <==> j < s);
                }
            }
        }
        self.split = Ghost(s);
        self.forward = Ghost(false);
        self.pick_largest();
    }

    /// Go to the next of all entries.
    pub fn advance(&mut self)
        requires
            old(self).wf(),
            old(self).goes_forward(),
            old(self).cur() is Some,
        ensures
            final(self).wf(),
            final(self).all() == old(self).all(),
            final(self).runs() == old(self).runs(),
            final(self).goes_forward(),
            final(self).cur() == pos_after(old(self).cur(), old(self).all().len()),
    {
        let ghost levels0 = self.levels@;
        let ghost all = self.all@;
        let ghost s = self.split@;
        if let Some(c) = self.current_idx {
            let key = self.current_key(c);
            let mut l: usize = 0;
            while l < self.levels.len()
                invariant
                    l <= self.levels@.len() == levels0.len(),
                    levels_wf(levels0),
                    is_union(runs_of(levels0), all),
                    levels_at(levels0, all, s, true),
                    0 <= s < all.len(),
                    key@ == all[s].0,
                    self.all@ == all,
                    self.split@ == s,
                    self.forward@,
                    forall|m: int|
                        0 <= m < levels0.len() ==> (#[trigger] self.levels@[m]).run()
                            == levels0[m].run() && self.levels@[m].wf(),
                    forall|m: int| l <= m < levels0.len() ==> #[trigger] self.levels@[m]
                        == levels0[m],
                    forall|m: int|
                        0 <= m < l ==> cut_at(
                            (#[trigger] self.levels@[m]).run(),
                            all,
                            s + 1,
                            behind(self.levels@[m].cur(), self.levels@[m].run().len(), true),
                        ),
                decreases levels0.len() - l,
            {
                let ghost before = self.levels@;
                assert(before[l as int] == levels0[l as int]);
                let here = match self.levels[l].key() {
                    Some(k) => bytes_eq(k, key.as_slice()),
                    None => false,
                };
                if here {
                    self.levels[l].advance();
                }
                proof {
                    lemma_step_over(levels0, all, l as int, s, self.levels@[l as int], here);
                    assert forall|m: int| 0 <= m < levels0.len() && m != l implies #[trigger]
                        self.levels@[m] == before[m] by {}
                }
                l += 1;
            }
            proof {
                assert(runs_of(self.levels@) =~= runs_of(levels0));
            }
            self.split = Ghost(s + 1);
        }
        self.pick_smallest();
    }

    /// Go to the one before of all entries.
    pub fn advance_backward(&mut self)
        requires
            old(self).wf(),
            !old(self).goes_forward(),
            old(self).cur() is Some,
        ensures
            final(self).wf(),
            final(self).all() == old(self).all(),
            final(self).runs() == old(self).runs(),
            !final(self).goes_forward(),
            final(self).cur() == pos_before(old(self).cur()),
    {
        let ghost levels0 = self.levels@;
        let ghost all = self.all@;
        let ghost s = self.split@;
        if let Some(c) = self.current_idx {
            let key = self.current_key(c);
            let mut l: usize = 0;
            while l < self.levels.len()
                invariant
                    l <= self.levels@.len() == levels0.len(),
                    levels_wf(levels0),
                    is_union(runs_of(levels0), all),
                    levels_at(levels0, all, s, false),
                    0 < s <= all.len(),
                    key@ == all[s - 1].0,
                    self.all@ == all,
                    self.split@ == s,
                    !self.forward@,
                    forall|m: int|
                        0 <= m < levels0.len() ==> (#[trigger] self.levels@[m]).run()
                            == levels0[m].run() && self.levels@[m].wf(),
                    forall|m: int| l <= m < levels0.len() ==> #[trigger] self.levels@[m]
                        == levels0[m],
                    forall|m: int|
                        0 <= m < l ==> cut_at(
                            (#[trigger] self.levels@[m]).run(),
                            all,
                            s - 1,
                            behind(self.levels@[m].cur(), self.levels@[m].run().len(), false),
                        ),
                decreases levels0.len() - l,
            {
                let ghost before = self.levels@;
                assert(before[l as int] == levels0[l as int]);
                let here = match self.levels[l].key() {
                    Some(k) => bytes_eq(k, key.as_slice()),
                    None => false,
                };
                if here {
                    self.levels[l].advance_backward();
                }
                proof {
                    lemma_step_back(levels0, all, l as int, s, self.levels@[l as int], here);
                    assert forall|m: int| 0 <= m < levels0.len() && m != l implies #[trigger]
                        self.levels@[m] == before[m] by {}
                }
                l += 1;
            }
            proof {
                assert(runs_of(self.levels@) =~= runs_of(levels0));
            }
            self.split = Ghost(s - 1);
        }
        self.pick_largest();
    }

    /// The current internal key.
    pub fn key(&self) -> (r: Option<&[u8]>)
        requires
            self.wf(),
        ensures
            match self.cur() {
                Some(i) => r matches Some(k) && k@ == self.all()[i].0,
                None => r is None,
            },
    {
        match self.current_idx {
            Some(c) => self.levels[c].key(),
            None => None,
        }
    }

    /// The current value.
    pub fn value(&self) -> (r: Option<&[u8]>)
        requires
            self.wf(),
        ensures
            match self.cur() {
                Some(i) => r matches Some(v) && v@ == self.all()[i].1,
                None => r is None,
            },
    {
        match self.current_idx {
            Some(c) => self.levels[c].value(),
            None => None,
        }
    }
}

/// How many entries of a sorted run come at or before `target`.
pub proof fn lemma_split_after(all: Seq<Pair>, target: Seq<u8>) -> (s: int)
    requires
        sorted_entries(all),
        is_internal(target),
    ensures
        0 <= s <= all.len(),
        forall|j: int| 0 <= j < all.len() ==> (j < s <==> !ik_lt(target, (#[trigger] all[j]).0)),
{
    let s = lemma_split(all, target);
    assert forall|j: int| 0 <= j < all.len() implies {
        &&& j < s ==> !ik_lt(target, (#[trigger] all[j]).0)
        &&& j > s ==> ik_lt(target, all[j].0)
    } by {
        lemma_internal_total_order(target, all[j].0, target);
        if j > s {
            assert(!ik_lt(all[s].0, target));
            assert(ik_lt(all[s].0, all[j].0));
            lemma_internal_total_order(target, all[s].0, all[j].0);
        }
    }
    if s < all.len() && !ik_lt(target, all[s].0) {
        s + 1
    } else {
        s
    }
}

} // verus!
