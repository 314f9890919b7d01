//! How the result of a compaction is cut into tables.
//!
//! A table ends where it is large enough and the user key changes, so all
//! versions of a user key go to one table. A large result is written by
//! several workers, each of which takes a range of user keys.

use super::block::pairs;
use super::block::sorted_entries;
use super::block_entry::Pair;
use super::compaction_merge::internal_keys;
use super::compaction_merge::Entries;
use super::internal_key::is_internal;
use super::internal_key::user_key_of;
use super::internal_key::user_of;
use super::memtable::lemma_user_ascends;
use crate::bytes::bytes_eq;
use crate::bytes::lemma_lex_order;
use vstd::prelude::*;

verus! {

/// Fewest user keys that a worker is started for.
pub const MIN_GROUPS_PER_SUBCOMPACTION: usize = 64;

/// A new user key starts at entry `i`.
pub open spec fn starts_group(es: Seq<Pair>, i: int) -> bool {
    i == 0 || user_of(es[i].0) != user_of(es[i - 1].0)
}

/// How many user keys the entries have, those that follow each other counted
/// once.
pub open spec fn group_count(es: Seq<Pair>) -> nat
    decreases es.len(),
{
    if es.len() == 0 {
        0
    } else {
        group_count(es.drop_last()) + if starts_group(es, es.len() - 1) {
            1nat
        } else {
            0nat
        }
    }
}

proof fn lemma_group_count_step(es: Seq<Pair>, i: int)
    requires
        0 <= i < es.len(),
    ensures
        group_count(es.take(i + 1)) == group_count(es.take(i)) + if starts_group(es, i) {
            1nat
        } else {
            0nat
        },
        group_count(es.take(i)) <= i,
    decreases i,
{
    let t = es.take(i + 1);
    assert(t.drop_last() =~= es.take(i));
    assert(t[i] == es[i]);
    if i > 0 {
        assert(t[i - 1] == es[i - 1]);
        lemma_group_count_step(es, i - 1);
    } else {
        assert(es.take(0).len() == 0);
    }
}

/// Whether a new user key starts at entry `i`.
fn at_boundary(entries: &Entries, i: usize) -> (r: bool)
    requires
        i < entries@.len(),
        internal_keys(pairs(entries@)),
    ensures
        r == starts_group(pairs(entries@), i as int),
{
    if i == 0 {
        return true;
    }
    proof {
        assert(is_internal(pairs(entries@)[i as int].0));
        assert(is_internal(pairs(entries@)[i - 1].0));
    }
    !bytes_eq(
        user_key_of(entries[i].0.as_slice()),
        user_key_of(entries[i - 1].0.as_slice()),
    )
}

/// Count the distinct user keys of a sorted list of entries.
pub fn count_user_key_groups(entries: &Entries) -> (r: usize)
    requires
        internal_keys(pairs(entries@)),
    ensures
        r == group_count(pairs(entries@)),
{
    let ghost es = pairs(entries@);
    let mut count: usize = 0;
    let mut i: usize = 0;
    assert(es.take(0) =~= Seq::<Pair>::empty());
    while i < entries.len()
        invariant
            i <= entries@.len(),
            es == pairs(entries@),
            internal_keys(es),
            count == group_count(es.take(i as int)),
            count <= i,
        decreases entries@.len() - i,
    {
        proof {
            lemma_group_count_step(es, i as int);
        }
        if at_boundary(entries, i) {
            count += 1;
        }
        i += 1;
    }
    assert(es.take(i as int) =~= es);
    count
}

/// How many workers write the result.
pub open spec fn worker_count_spec(groups: nat, requested: nat) -> nat {
    let r: nat = if requested == 0 {
        1
    } else {
        requested
    };
    let g: nat = if groups == 0 {
        1
    } else {
        groups
    };
    let w = if r < g {
        r
    } else {
        g
    };
    if w > 1 && groups / w >= MIN_GROUPS_PER_SUBCOMPACTION {
        w
    } else {
        1
    }
}

/// How many workers write a result with so many user keys, when so many may:
/// no more than there are user keys, and only one unless each gets enough of
/// them.
pub fn worker_count(groups: usize, requested: usize) -> (r: usize)
    ensures
        r == worker_count_spec(groups as nat, requested as nat),
        r >= 1,
        r > 1 ==> r <= groups,
{
    let requested: usize = if requested == 0 {
        1
    } else {
        requested
    };
    let cap: usize = if groups == 0 {
        1
    } else {
        groups
    };
    let workers: usize = if requested < cap {
        requested
    } else {
        cap
    };
    if workers > 1 && groups / workers >= MIN_GROUPS_PER_SUBCOMPACTION {
        workers
    } else {
        1
    }
}

/// Entry `i` is the first of the user key with number `g`, counted from 0.
pub open spec fn is_group_start(es: Seq<Pair>, i: int, g: int) -> bool {
    0 <= i < es.len() && starts_group(es, i) && group_count(es.take(i + 1)) == g + 1
}

/// `b` parts the entries among workers: each starts `groups / workers` user
/// keys after the one before.
pub open spec fn is_splits(es: Seq<Pair>, workers: nat, b: Seq<usize>) -> bool {
    &&& b.len() == workers + 1
    &&& b[0] == 0
    &&& b[workers as int] == es.len()
    &&& forall|k: int|
        0 < k < workers ==> is_group_start(
            es,
            (#[trigger] b[k]) as int,
            k * (group_count(es) as int / workers as int),
        )
}

proof fn lemma_boundary(len: int, per: int, workers: int, groups: int)
    requires
        1 <= len < workers,
        per == groups / workers,
        groups >= workers,
    ensures
        per >= 1,
        len * per + per <= groups,
        len * per < groups,
        (len + 1) * per == len * per + per,
{
    assert(per >= 1) by (nonlinear_arith)
        requires
            per == groups / workers,
            groups >= workers,
            workers > 1,
    ;
    assert(workers * per <= groups) by (nonlinear_arith)
        requires
            per == groups / workers,
            groups >= workers,
            workers > 1,
    ;
    assert(len * per + per <= workers * per) by (nonlinear_arith)
        requires
            len + 1 <= workers,
            per >= 1,
    ;
    assert((len + 1) * per == len * per + per) by (nonlinear_arith);
}

/// Where the workers start, and where the last one ends: every boundary is one
/// between user keys.
pub fn compute_subcompaction_splits(entries: &Entries, groups: usize, workers: usize) -> (r: Vec<
    usize,
>)
    requires
        internal_keys(pairs(entries@)),
        workers > 1,
        groups == group_count(pairs(entries@)),
        groups >= workers,
    ensures
        is_splits(pairs(entries@), workers as nat, r@),
{
    let ghost es = pairs(entries@);
    let per: usize = groups / workers;
    let mut result: Vec<usize> = Vec::new();
    result.push(0);
    let mut seen: usize = 0;
    let mut target: usize = per;
    let mut i: usize = 0;
    proof {
        assert(es.take(0) =~= Seq::<Pair>::empty());
        lemma_boundary(1, per as int, workers as int, groups as int);
        assert(1 * (per as int) == per as int) by (nonlinear_arith);
    }
    while i < entries.len()
        invariant
            i <= entries@.len(),
            es == pairs(entries@),
            internal_keys(es),
            workers > 1,
            groups == group_count(es),
            groups >= workers,
            per as int == groups as int / workers as int,
            per >= 1,
            seen == group_count(es.take(i as int)),
            seen <= i,
            1 <= result@.len() <= workers,
            result@.len() < workers ==> target == result@.len() * per && seen <= target,
            target <= groups,
            result@[0] == 0,
            forall|k: int|
                0 < k < result@.len() ==> is_group_start(
                    es,
                    (#[trigger] result@[k]) as int,
                    k * (per as int),
                ),
        decreases entries@.len() - i,
    {
        proof {
            lemma_group_count_step(es, i as int);
        }
        if at_boundary(entries, i) {
            seen += 1;
            if result.len() < workers && seen > target {
                proof {
                    lemma_boundary(
                        result@.len() as int,
                        per as int,
                        workers as int,
                        groups as int,
                    );
                    assert(is_group_start(es, i as int, result@.len() * (per as int)));
                }
                let ghost r0 = result@;
                result.push(i);
                target = target + per;
                proof {
                    assert forall|k: int| 0 < k < result@.len() implies is_group_start(
                        es,
                        (#[trigger] result@[k]) as int,
                        k * (per as int),
                    ) by {
                        if k < r0.len() {
                            assert(result@[k] == r0[k]);
                        }
                    }
                }
            }
        }
        i += 1;
    }
    proof {
        assert(es.take(i as int) =~= es);
        if result@.len() < workers {
            lemma_boundary(result@.len() as int, per as int, workers as int, groups as int);
            assert(false);
        }
    }
    let ghost r0 = result@;
    result.push(entries.len());
    proof {
        assert forall|k: int| 0 < k < workers implies is_group_start(
            es,
            (#[trigger] result@[k]) as int,
            k * (group_count(es) as int / workers as int),
        ) by {
            assert(result@[k] == r0[k]);
        }
    }
    result
}

// ── Cutting at the target size ───────────────────────────────────

/// The bytes of the keys and values of the entries `from..to`.
pub open spec fn bytes_between(es: Seq<Pair>, from: int, to: int) -> nat
    decreases to - from,
{
    if to <= from {
        0
    } else {
        bytes_between(es, from, to - 1) + es[to - 1].0.len() + es[to - 1].1.len()
    }
}

/// A table that starts at `start` ends before entry `i`: it has the target size
/// and the user key changes.
pub open spec fn cuts_at(es: Seq<Pair>, start: int, i: int, target: u64) -> bool {
    bytes_between(es, start, i) >= target && user_of(es[i].0) != user_of(es[i - 1].0)
}

/// The entries `start..end` go to one table.
pub open spec fn is_chunk(es: Seq<Pair>, start: int, end: int, limit: int, target: u64) -> bool {
    &&& start < end <= limit
    &&& forall|i: int| start < i < end ==> !#[trigger] cuts_at(es, start, i, target)
    &&& end == limit || cuts_at(es, start, end, target)
}

/// `r` cuts the entries `from..to` into tables.
pub open spec fn is_chunks(
    es: Seq<Pair>,
    from: int,
    to: int,
    target: u64,
    r: Seq<(usize, usize)>,
) -> bool {
    &&& from == to <==> r.len() == 0
    &&& r.len() > 0 ==> r[0].0 == from && r.last().1 == to
    &&& forall|k: int|
        0 <= k < r.len() ==> is_chunk(
            es,
            (#[trigger] r[k]).0 as int,
            r[k].1 as int,
            to,
            target,
        )
    &&& forall|k: int| 0 <= k < r.len() - 1 ==> (#[trigger] r[k]).1 == r[k + 1].0
}

/// Where the table ends that starts at `start`.
fn chunk_end(entries: &Entries, start: usize, limit: usize, target: u64) -> (end: usize)
    requires
        start < limit <= entries@.len(),
        internal_keys(pairs(entries@)),
        target > 0,
    ensures
        is_chunk(pairs(entries@), start as int, end as int, limit as int, target),
{
    let ghost es = pairs(entries@);
    let mut size: u64 = 0;
    let mut i: usize = start;
    while i < limit
        invariant
            start <= i <= limit <= entries@.len(),
            es == pairs(entries@),
            internal_keys(es),
            target > 0,
            size == bytes_between(es, start as int, i as int) || (size == u64::MAX
                && bytes_between(es, start as int, i as int) >= u64::MAX),
            forall|j: int| start < j < i ==> !#[trigger] cuts_at(es, start as int, j, target),
        decreases limit - i,
    {
        if size >= target && at_boundary(entries, i) {
            assert(i > start);
            assert(cuts_at(es, start as int, i as int, target));
            return i;
        }
        assert(i > start ==> !cuts_at(es, start as int, i as int, target));
        proof {
            assert(es[i as int].0.len() == entries@[i as int].0@.len());
            assert(es[i as int].1.len() == entries@[i as int].1@.len());
        }
        let k: u64 = entries[i].0.len() as u64;
        let v: u64 = entries[i].1.len() as u64;
        size = size.saturating_add(k).saturating_add(v);
        i += 1;
    }
    i
}

/// Cut the entries `from..to` into tables of at least the target size. The
/// target is not 0.
pub fn output_chunks(entries: &Entries, from: usize, to: usize, target: u64) -> (r: Vec<
    (usize, usize),
>)
    requires
        from <= to <= entries@.len(),
        internal_keys(pairs(entries@)),
        target > 0,
    ensures
        is_chunks(pairs(entries@), from as int, to as int, target, r@),
{
    let ghost es = pairs(entries@);
    let mut r: Vec<(usize, usize)> = Vec::new();
    let mut start: usize = from;
    while start < to
        invariant
            from <= start <= to <= entries@.len(),
            es == pairs(entries@),
            internal_keys(es),
            target > 0,
            from == start <==> r@.len() == 0,
            r@.len() > 0 ==> r@[0].0 == from && r@.last().1 == start,
            forall|k: int|
                0 <= k < r@.len() ==> is_chunk(
                    es,
                    (#[trigger] r@[k]).0 as int,
                    r@[k].1 as int,
                    to as int,
                    target,
                ),
            forall|k: int| 0 <= k < r@.len() - 1 ==> (#[trigger] r@[k]).1 == r@[k + 1].0,
        decreases to - start,
    {
        let end: usize = chunk_end(entries, start, to, target);
        let ghost r0 = r@;
        r.push((start, end));
        proof {
            assert forall|k: int| 0 <= k < r@.len() implies is_chunk(
                es,
                (#[trigger] r@[k]).0 as int,
                r@[k].1 as int,
                to as int,
                target,
            ) by {
                if k < r0.len() {
                    assert(r@[k] == r0[k]);
                }
            }
            assert forall|k: int| 0 <= k < r@.len() - 1 implies (#[trigger] r@[k]).1
                == r@[k + 1].0 by {
                assert(r@[k] == r0[k]);
                if k + 1 < r0.len() {
                    assert(r@[k + 1] == r0[k + 1]);
                } else {
                    assert(r0.last() == r0[k]);
                }
            }
        }
        start = end;
    }
    r
}

/// The chunks of each worker.
pub open spec fn is_plan(
    es: Seq<Pair>,
    workers: nat,
    target: u64,
    b: Seq<usize>,
    r: Seq<Vec<(usize, usize)>>,
) -> bool {
    &&& r.len() == workers
    &&& if workers == 1 {
        is_chunks(es, 0, es.len() as int, target, r[0]@)
    } else {
        &&& is_splits(es, workers, b)
        &&& forall|k: int|
            0 <= k < workers ==> is_chunks(
                es,
                b[k] as int,
                b[k + 1] as int,
                target,
                (#[trigger] r[k])@,
            )
    }
}

/// How the result is cut: for each worker the ranges of entries that go to one
/// table each. A result without entries goes to one table, which carries the
/// tombstones. The target size is not 0.
pub fn plan_outputs(entries: &Entries, max_subcompactions: usize, target_file_size: u64) -> (r: Vec<
    Vec<(usize, usize)>,
>)
    requires
        sorted_entries(pairs(entries@)),
        target_file_size > 0,
    ensures
        entries@.len() == 0 ==> r@.len() == 1 && r@[0]@ == seq![(0usize, 0usize)],
        entries@.len() > 0 ==> exists|b: Seq<usize>| #[trigger]
            is_plan(
                pairs(entries@),
                worker_count_spec(group_count(pairs(entries@)), max_subcompactions as nat),
                target_file_size,
                b,
                r@,
            ),
{
    let ghost es = pairs(entries@);
    let mut r: Vec<Vec<(usize, usize)>> = Vec::new();
    if entries.len() == 0 {
        let mut one: Vec<(usize, usize)> = Vec::new();
        one.push((0, 0));
        r.push(one);
        return r;
    }
    let groups: usize = count_user_key_groups(entries);
    let workers: usize = worker_count(groups, max_subcompactions);
    if workers == 1 {
        r.push(output_chunks(entries, 0, entries.len(), target_file_size));
        let ghost none: Seq<usize> = Seq::empty();
        assert(is_plan(es, 1, target_file_size, none, r@));
        return r;
    }
    let splits = compute_subcompaction_splits(entries, groups, workers);
    let mut k: usize = 0;
    proof {
        lemma_splits_ascend(es, workers as nat, splits@);
    }
    while k < workers
        invariant
            k <= workers,
            workers > 1,
            es == pairs(entries@),
            sorted_entries(es),
            target_file_size > 0,
            splits@.len() == workers + 1,
            splits@[workers as int] == es.len(),
            forall|a: int, b: int|
                0 <= a < b <= workers ==> (#[trigger] splits@[a]) <= (#[trigger] splits@[b]),
            r@.len() == k,
            forall|j: int|
                0 <= j < k ==> is_chunks(
                    es,
                    splits@[j] as int,
                    splits@[j + 1] as int,
                    target_file_size,
                    (#[trigger] r@[j])@,
                ),
        decreases workers - k,
    {
        proof {
            assert(splits@[k as int] <= splits@[k + 1]);
            if k + 1 < workers {
                assert(splits@[k + 1] <= splits@[workers as int]);
            }
        }
        r.push(output_chunks(entries, splits[k], splits[k + 1], target_file_size));
        k += 1;
    }
    assert(is_plan(es, workers as nat, target_file_size, splits@, r@));
    r
}

proof fn lemma_group_count_grows(es: Seq<Pair>, i: int, j: int)
    requires
        0 <= i <= j <= es.len(),
    ensures
        group_count(es.take(i)) <= group_count(es.take(j)),
    decreases j,
{
    if i < j {
        lemma_group_count_step(es, j - 1);
        lemma_group_count_grows(es, i, j - 1);
    }
}

pub proof fn lemma_splits_ascend(es: Seq<Pair>, workers: nat, b: Seq<usize>)
    requires
        workers > 1,
        is_splits(es, workers, b),
        group_count(es) >= workers,
    ensures
        forall|i: int, j: int|
            0 <= i < j <= workers ==> (#[trigger] b[i]) <= (#[trigger] b[j]),
{
    let per = group_count(es) as int / workers as int;
    assert forall|i: int, j: int| 0 <= i < j <= workers implies (#[trigger] b[i])
        <= (#[trigger] b[j]) by {
        if i > 0 && j < workers && b[j] < b[i] {
            lemma_group_count_grows(es, b[j] + 1, b[i] + 1);
            lemma_boundary(i, per, workers as int, group_count(es) as int);
            assert(i * per < j * per) by (nonlinear_arith)
                requires
                    i < j,
                    per >= 1,
            ;
        }
        if i > 0 && j == workers {
            assert(is_group_start(es, b[i] as int, i * per));
        }
    }
}

/// All versions of a user key go to one table: of two entries with the same
/// user key, both are in the chunk that one of them is in.
pub proof fn lemma_chunks_keep_user_keys_together(
    es: Seq<Pair>,
    from: int,
    to: int,
    target: u64,
    r: Seq<(usize, usize)>,
    k: int,
    i: int,
    j: int,
)
    requires
        sorted_entries(es),
        0 <= from,
        to <= es.len(),
        is_chunks(es, from, to, target, r),
        0 <= k < r.len(),
        from <= i < to,
        from <= j < to,
        r[k].0 <= i < r[k].1,
        user_of(es[i].0) == user_of(es[j].0),
    ensures
        r[k].0 <= j < r[k].1,
{
    assert(is_chunk(es, r[k].0 as int, r[k].1 as int, to, target));
    if j >= r[k].1 {
        let e = r[k].1 as int;
        assert(cuts_at(es, r[k].0 as int, e, target));
        lemma_between(es, i, e - 1, e, j);
    }
    if j < r[k].0 {
        assert(k > 0) by {
            if k == 0 {
                assert(r[0].0 == from);
            }
        }
        assert(r[k - 1].1 == r[k].0);
        assert(is_chunk(es, r[k - 1].0 as int, r[k - 1].1 as int, to, target));
        let e = r[k].0 as int;
        assert(cuts_at(es, r[k - 1].0 as int, e, target));
        lemma_between(es, j, e - 1, e, i);
    }
}

/// Between two entries of one user key there is no other user key.
pub proof fn lemma_between(es: Seq<Pair>, a: int, x: int, y: int, b: int)
    requires
        sorted_entries(es),
        0 <= a <= x <= y <= b < es.len(),
        user_of(es[a].0) == user_of(es[b].0),
    ensures
        user_of(es[x].0) == user_of(es[y].0),
{
    let u = user_of(es[a].0);
    lemma_user_ascends(es, a, x);
    lemma_user_ascends(es, x, b);
    lemma_user_ascends(es, a, y);
    lemma_user_ascends(es, y, b);
    lemma_lex_order(u, user_of(es[x].0), u);
    lemma_lex_order(u, user_of(es[y].0), u);
    lemma_lex_order(user_of(es[x].0), u, u);
    lemma_lex_order(user_of(es[y].0), u, u);
}

// ── What the plan is for ─────────────────────────────────────────

/// There is one worker at least, and never more than were asked for or than
/// there are user keys. Several share the work only where each gets enough
/// user keys, and then there are as many as that allows.
pub proof fn lemma_workers_get_enough(groups: nat, requested: nat)
    ensures
        ({
            let w = worker_count_spec(groups, requested);
            &&& w >= 1
            &&& w > 1 ==> w <= requested && w <= groups && w * MIN_GROUPS_PER_SUBCOMPACTION <= groups
            &&& 1 < requested <= groups && requested * MIN_GROUPS_PER_SUBCOMPACTION <= groups ==> w
                == requested
        }),
{
    let w = worker_count_spec(groups, requested);
    let m = MIN_GROUPS_PER_SUBCOMPACTION as nat;
    if w > 1 {
        assert(w * m <= groups) by (nonlinear_arith)
            requires
                w > 1,
                groups / w >= m,
        ;
    }
    if 1 < requested <= groups && requested * m <= groups {
        assert(groups / requested >= m) by (nonlinear_arith)
            requires
                requested > 1,
                requested * m <= groups,
        ;
    }
}

/// The user keys of entries.
pub open spec fn user_keys(es: Seq<Pair>) -> Set<Seq<u8>> {
    es.map_values(|p: Pair| user_of(p.0)).to_set()
}

/// User keys are counted once each.
pub proof fn lemma_groups_are_user_keys(es: Seq<Pair>)
    requires
        sorted_entries(es),
    ensures
        group_count(es) == user_keys(es).len(),
        user_keys(es).finite(),
    decreases es.len(),
{
    let us = es.map_values(|p: Pair| user_of(p.0));
    us.lemma_cardinality_of_set();
    vstd::seq_lib::seq_to_set_is_finite(us);
    if es.len() == 0 {
        assert(us =~= Seq::empty());
        assert(us.to_set() =~= Set::empty());
    } else {
        let front = es.drop_last();
        let fs = front.map_values(|p: Pair| user_of(p.0));
        let u = user_of(es.last().0);
        vstd::seq_lib::seq_to_set_is_finite(fs);
        assert(sorted_entries(front));
        lemma_groups_are_user_keys(front);
        assert(us =~= fs.push(u));
        assert(us.to_set() =~= fs.to_set().insert(u)) by {
            assert forall|k: Seq<u8>| #[trigger] us.to_set().contains(k) == fs.to_set().insert(
                u,
            ).contains(k) by {
                if fs.contains(k) {
                    let i = choose|i: int| 0 <= i < fs.len() && fs[i] == k;
                    assert(us[i] == k);
                }
                if us.contains(k) {
                    let i = choose|i: int| 0 <= i < us.len() && us[i] == k;
                    if i < fs.len() {
                        assert(fs[i] == k);
                    }
                }
                assert(us[us.len() - 1] == u);
            }
        }
        let n = es.len() - 1;
        if starts_group(es, n) {
            assert(!fs.contains(u)) by {
                if fs.contains(u) {
                    let i = choose|i: int| 0 <= i < fs.len() && fs[i] == u;
                    assert(user_of(es[i].0) == u);
                    lemma_between(es, i, n - 1, n, n);
                }
            }
        } else {
            assert(fs[n - 1] == u);
            assert(fs.contains(u));
            assert(fs.to_set().insert(u) =~= fs.to_set());
        }
    }
}

/// The bytes of the keys and values of entries, added up.
pub open spec fn entry_bytes(es: Seq<Pair>) -> int {
    es.fold_left(0int, |sum: int, p: Pair| sum + p.0.len() + p.1.len())
}

proof fn lemma_entry_bytes(es: Seq<Pair>, from: int, to: int)
    requires
        0 <= from <= to <= es.len(),
    ensures
        bytes_between(es, from, to) == entry_bytes(es.subrange(from, to)),
    decreases to - from,
{
    let s = es.subrange(from, to);
    if from < to {
        lemma_entry_bytes(es, from, to - 1);
        assert(s.drop_last() =~= es.subrange(from, to - 1));
        assert(s.last() == es[to - 1]);
    }
}

/// Tables are as large as they are meant to be, and no larger than whole user
/// keys make them: each but the last of a range has the target size, and
/// without its last user key it would not have it.
pub proof fn lemma_tables_have_the_target_size(
    es: Seq<Pair>,
    from: int,
    to: int,
    target: u64,
    r: Seq<(usize, usize)>,
    k: int,
)
    requires
        0 <= from,
        to <= es.len(),
        is_chunks(es, from, to, target, r),
        0 <= k < r.len(),
    ensures
        k + 1 < r.len() ==> entry_bytes(es.subrange(r[k].0 as int, r[k].1 as int)) >= target,
        forall|i: int|
            r[k].0 < i < r[k].1 && user_of(es[i].0) != user_of(es[i - 1].0) ==> entry_bytes(
                #[trigger] es.subrange(r[k].0 as int, i),
            ) < target,
{
    let (a, b) = (r[k].0 as int, r[k].1 as int);
    assert(is_chunk(es, a, b, to, target));
    lemma_chunk_starts(es, from, to, target, r, k);
    lemma_entry_bytes(es, a, b);
    assert forall|i: int| a < i < b && user_of(es[i].0) != user_of(es[i - 1].0) implies entry_bytes(
        #[trigger] es.subrange(a, i),
    ) < target by {
        lemma_entry_bytes(es, a, i);
        assert(!cuts_at(es, a, i, target));
    }
    if k + 1 < r.len() {
        assert(r[k].1 == r[k + 1].0);
        assert(is_chunk(es, r[k + 1].0 as int, r[k + 1].1 as int, to, target));
    }
}

proof fn lemma_chunk_starts(
    es: Seq<Pair>,
    from: int,
    to: int,
    target: u64,
    r: Seq<(usize, usize)>,
    k: int,
)
    requires
        is_chunks(es, from, to, target, r),
        0 <= k < r.len(),
    ensures
        from <= r[k].0 < r[k].1 <= to,
    decreases k,
{
    assert(is_chunk(es, r[k].0 as int, r[k].1 as int, to, target));
    if k > 0 {
        lemma_chunk_starts(es, from, to, target, r, k - 1);
        assert(r[k - 1].1 == r[k - 1 + 1].0);
    }
}

proof fn lemma_count_of_rest(es: Seq<Pair>, i: int, j: int)
    requires
        0 <= i <= j <= es.len(),
        i < j ==> starts_group(es, i),
    ensures
        group_count(es.take(j)) == group_count(es.take(i)) + group_count(es.subrange(i, j)),
    decreases j - i,
{
    let s = es.subrange(i, j);
    if i < j {
        lemma_count_of_rest(es, i, j - 1);
        lemma_group_count_step(es, j - 1);
        assert(s.drop_last() =~= es.subrange(i, j - 1));
        assert(s[s.len() - 1] == es[j - 1]);
        if j - 1 > i {
            assert(s[s.len() - 2] == es[j - 2]);
        }
    }
}

/// Workers share the user keys evenly: each but the last gets the same number,
/// no two get parts of one user key, and the last gets what is left.
pub proof fn lemma_workers_share_evenly(es: Seq<Pair>, workers: nat, b: Seq<usize>, k: int)
    requires
        workers > 1,
        is_splits(es, workers, b),
        group_count(es) >= workers,
        0 <= k < workers,
    ensures
        b[k] <= b[k + 1] <= es.len(),
        ({
            let part = es.subrange(b[k] as int, b[k + 1] as int);
            let share = group_count(es) as int / workers as int;
            &&& k + 1 < workers ==> group_count(part) == share
            &&& k + 1 == workers ==> group_count(part) == group_count(es) - (workers - 1) * share
            &&& 0 < k ==> user_of(es[b[k] as int].0) != user_of(es[b[k] - 1].0)
        }),
{
    let share = group_count(es) as int / workers as int;
    lemma_splits_ascend(es, workers, b);
    assert(b[k] <= b[k + 1]);
    assert(b[k + 1] <= b[workers as int] || k + 1 == workers);
    let (i, j) = (b[k] as int, b[k + 1] as int);
    assert(es.take(es.len() as int) =~= es);
    assert(es.take(0) =~= Seq::<Pair>::empty());
    assert(group_count(es.take(i)) == k * share) by {
        if k > 0 {
            assert(is_group_start(es, i, k * share));
            lemma_group_count_step(es, i);
        }
    }
    assert(group_count(es.take(j)) == if k + 1 < workers {
        (k + 1) * share
    } else {
        group_count(es) as int
    }) by {
        if k + 1 < workers {
            assert(is_group_start(es, j, (k + 1) * share));
            lemma_group_count_step(es, j);
        }
    }
    if k > 0 {
        assert(is_group_start(es, i, k * share));
        assert(i > 0) by {
            if i == 0 {
                assert(es.take(1).drop_last() =~= Seq::<Pair>::empty());
                lemma_boundary(k, share, workers as int, group_count(es) as int);
                assert(k * share > 0) by (nonlinear_arith)
                    requires
                        k > 0,
                        share >= 1,
                ;
            }
        }
    }
    lemma_count_of_rest(es, i, j);
    assert((k + 1) * share == k * share + share) by (nonlinear_arith);
}

} // verus!
