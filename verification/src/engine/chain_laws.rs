//! What a lookup that follows merge operands means: its chain is that of all
//! versions of the key in one order, down to the newest tombstone.

use super::block::sorted_entries;
use super::block_entry::Pair;
use super::internal_key::ik_lt;
use super::internal_key::is_internal;
use super::internal_key::lemma_internal_order;
use super::internal_key::lemma_internal_total_order;
use super::internal_key::seq_of;
use super::internal_key::type_of;
use super::internal_key::user_of;
use super::internal_key::VALUE_TYPE_DELETION;
use super::internal_key::VALUE_TYPE_MERGE;
use super::lookup::aged;
use super::lookup::cover;
use super::lookup::deletes_at;
use super::lookup::found_first;
use super::lookup::in_layers;
use super::lookup::in_run;
use super::lookup::in_set;
use super::lookup::layer_shields;
use super::lookup::lemma_cover;
use super::lookup::max_seq;
use super::lookup::reads_alike;
use super::lookup::settled;
use super::lookup::taken;
use super::lookup::taken_runs;
use super::lookup::unless_deleted;
use super::lookup::walk;
use super::lookup::walk_chain;
use super::lookup::Layer;
use super::range_tombstone::RangeTombstone;
use super::scan::lemma_same_outcome;
use super::scan::outcome_of;
use super::scan::same_but_end;
use super::versions::chain;
use super::versions::lemma_sorted_skip;
use super::versions::newest;
use super::versions::value_of;
use super::versions::visible;
use super::versions::Link;
use crate::bytes::lemma_lex_order;
use vstd::prelude::*;

verus! {

// ── Versions and links ───────────────────────────────────────────

/// The visible versions of a key in a run, in order.
pub open spec fn seen(es: Seq<Pair>, key: Seq<u8>, snapshot_seq: u64) -> Seq<Pair>
    decreases es.len(),
{
    if es.len() == 0 {
        es
    } else if visible(es[0], key, snapshot_seq) {
        seq![es[0]] + seen(es.skip(1), key, snapshot_seq)
    } else {
        seen(es.skip(1), key, snapshot_seq)
    }
}

/// The link that a version is.
pub open spec fn link_of(p: Pair) -> Link {
    (seq_of(p.0), type_of(p.0), p.1)
}

/// The links of versions, up to and with the first that is no operand.
pub open spec fn until(ps: Seq<Pair>) -> Seq<Link>
    decreases ps.len(),
{
    if ps.len() == 0 {
        Seq::empty()
    } else if type_of(ps[0].0) == VALUE_TYPE_MERGE {
        seq![link_of(ps[0])] + until(ps.skip(1))
    } else {
        seq![link_of(ps[0])]
    }
}

/// A chain is the links of the visible versions.
pub proof fn lemma_chain_is_until(es: Seq<Pair>, key: Seq<u8>, snapshot_seq: u64)
    ensures
        chain(es, key, snapshot_seq) == until(seen(es, key, snapshot_seq)),
    decreases es.len(),
{
    if es.len() > 0 {
        lemma_chain_is_until(es.skip(1), key, snapshot_seq);
        if visible(es[0], key, snapshot_seq) {
            let rest = seen(es.skip(1), key, snapshot_seq);
            let all = seq![es[0]] + rest;
            assert(all.skip(1) =~= rest);
        }
    }
}

/// What is seen of a run are its visible versions, in order.
pub proof fn lemma_seen(es: Seq<Pair>, key: Seq<u8>, snapshot_seq: u64)
    requires
        sorted_entries(es),
    ensures
        sorted_entries(seen(es, key, snapshot_seq)),
        forall|p: Pair| #[trigger]
            seen(es, key, snapshot_seq).contains(p) == (es.contains(p) && visible(
                p,
                key,
                snapshot_seq,
            )),
    decreases es.len(),
{
    if es.len() > 0 {
        lemma_sorted_skip(es);
        let tail = es.skip(1);
        let rest = seen(tail, key, snapshot_seq);
        let r = seen(es, key, snapshot_seq);
        lemma_seen(tail, key, snapshot_seq);
        assert forall|p: Pair| #[trigger] es.contains(p) == (p == es[0] || tail.contains(p)) by {
            if es.contains(p) {
                let i = choose|i: int| 0 <= i < es.len() && es[i] == p;
                if i > 0 {
                    assert(tail[i - 1] == p);
                }
            }
            if tail.contains(p) {
                let i = choose|i: int| 0 <= i < tail.len() && tail[i] == p;
                assert(es[i + 1] == p);
            }
        }
        if visible(es[0], key, snapshot_seq) {
            let head = seq![es[0]];
            assert(is_internal(es[0].0));
            assert(sorted_entries(head));
            assert forall|p: Pair, q: Pair| #[trigger]
                head.contains(p) && #[trigger] rest.contains(q) implies ik_lt(p.0, q.0) by {
                assert(tail.contains(q));
                let i = choose|i: int| 0 <= i < tail.len() && tail[i] == q;
                assert(es[i + 1] == q);
            }
            lemma_join(head, rest);
            assert(head.contains(es[0])) by {
                assert(head[0] == es[0]);
            }
        }
    }
}

/// Runs of which one comes before the other make one run.
pub proof fn lemma_join(a: Seq<Pair>, b: Seq<Pair>)
    requires
        sorted_entries(a),
        sorted_entries(b),
        forall|p: Pair, q: Pair| #[trigger]
            a.contains(p) && #[trigger] b.contains(q) ==> ik_lt(p.0, q.0),
    ensures
        sorted_entries(a + b),
        forall|p: Pair| #[trigger] (a + b).contains(p) == (a.contains(p) || b.contains(p)),
{
    let c = a + b;
    let n = a.len() as int;
    assert forall|i: int| 0 <= i < c.len() implies is_internal((#[trigger] c[i]).0) by {
        if i < n {
            assert(c[i] == a[i]);
        } else {
            assert(c[i] == b[i - n]);
        }
    }
    assert forall|i: int, j: int| 0 <= i < j < c.len() implies ik_lt(
        (#[trigger] c[i]).0,
        (#[trigger] c[j]).0,
    ) by {
        if j < n {
            assert(c[i] == a[i] && c[j] == a[j]);
        } else if i >= n {
            assert(c[i] == b[i - n] && c[j] == b[j - n]);
        } else {
            assert(a.contains(a[i]) && b.contains(b[j - n]));
        }
    }
    assert forall|p: Pair| #[trigger] c.contains(p) == (a.contains(p) || b.contains(p)) by {
        if a.contains(p) {
            let i = choose|i: int| 0 <= i < a.len() && a[i] == p;
            assert(c[i] == p);
        }
        if b.contains(p) {
            let i = choose|i: int| 0 <= i < b.len() && b[i] == p;
            assert(c[n + i] == p);
        }
        if c.contains(p) {
            let i = choose|i: int| 0 <= i < c.len() && c[i] == p;
            if i < n {
                assert(a[i] == p);
            } else {
                assert(b[i - n] == p);
            }
        }
    }
}

/// Runs with the same entries are the same.
pub proof fn lemma_same_run(a: Seq<Pair>, b: Seq<Pair>)
    requires
        sorted_entries(a),
        sorted_entries(b),
        forall|p: Pair| #[trigger] a.contains(p) == b.contains(p),
    ensures
        a == b,
    decreases a.len(),
{
    if a.len() == 0 {
        if b.len() > 0 {
            assert(b.contains(b[0]));
            assert(a.contains(b[0]));
        }
        assert(a =~= b);
    } else {
        assert(a.contains(a[0]));
        assert(b.contains(a[0]));
        let j = choose|j: int| 0 <= j < b.len() && b[j] == a[0];
        assert(b.contains(b[0]));
        assert(a.contains(b[0]));
        let i = choose|i: int| 0 <= i < a.len() && a[i] == b[0];
        if i > 0 && j > 0 {
            assert(ik_lt(a[0].0, a[i].0));
            assert(ik_lt(b[0].0, b[j].0));
            lemma_internal_total_order(a[0].0, b[0].0, a[0].0);
        }
        assert(a[0] == b[0]);
        let x = a.skip(1);
        let y = b.skip(1);
        lemma_sorted_skip(a);
        lemma_sorted_skip(b);
        assert forall|p: Pair| #[trigger] x.contains(p) == y.contains(p) by {
            lemma_tail_holds(a, p);
            lemma_tail_holds(b, p);
        }
        lemma_same_run(x, y);
        assert(a =~= seq![a[0]] + x);
        assert(b =~= seq![b[0]] + y);
    }
}

proof fn lemma_tail_holds(a: Seq<Pair>, p: Pair)
    requires
        sorted_entries(a),
        a.len() > 0,
    ensures
        a.skip(1).contains(p) == (a.contains(p) && p != a[0]),
{
    let x = a.skip(1);
    if x.contains(p) {
        let i = choose|i: int| 0 <= i < x.len() && x[i] == p;
        assert(a[i + 1] == p);
        assert(ik_lt(a[0].0, a[i + 1].0));
        lemma_internal_total_order(a[0].0, a[0].0, a[0].0);
    }
    if a.contains(p) && p != a[0] {
        let i = choose|i: int| 0 <= i < a.len() && a[i] == p;
        assert(x[i - 1] == p);
    }
}

// ── Chains over several runs ─────────────────────────────────────

/// What is taken of versions goes on with the next ones, unless it is settled.
pub proof fn lemma_taken_on(a: Seq<Pair>, b: Seq<Pair>, m: u64)
    ensures
        taken(until(a + b), m) == if settled(taken(until(a), m)) {
            taken(until(a), m)
        } else {
            taken(until(a), m) + taken(until(b), m)
        },
    decreases a.len(),
{
    let t = taken(until(a), m);
    if a.len() == 0 {
        assert(a + b =~= b);
        assert(t + taken(until(b), m) =~= taken(until(b), m));
    } else {
        let c = a + b;
        let l = link_of(a[0]);
        let rest = a.skip(1);
        assert(c.skip(1) =~= rest + b);
        assert(c[0] == a[0]);
        lemma_taken_on(rest, b, m);
        let t1 = taken(until(rest), m);
        if l.1 == VALUE_TYPE_MERGE {
            assert(until(a).skip(1) =~= until(rest));
            assert(until(c).skip(1) =~= until(rest + b));
            if l.0 > m {
                assert(t == seq![l] + t1);
                assert(taken(until(c), m) == seq![l] + taken(until(rest + b), m));
                if t1.len() > 0 {
                    assert(t.last() == t1.last());
                }
                assert(settled(t) == settled(t1));
                if !settled(t1) {
                    assert(seq![l] + (t1 + taken(until(b), m)) =~= t + taken(until(b), m));
                }
            }
        }
    }
}

/// The versions of a key in runs, one run after the other.
pub open spec fn cat_runs(runs: Seq<Seq<Pair>>, key: Seq<u8>, snapshot_seq: u64) -> Seq<Pair>
    decreases runs.len(),
{
    if runs.len() == 0 {
        Seq::empty()
    } else {
        seen(runs[0], key, snapshot_seq) + cat_runs(runs.skip(1), key, snapshot_seq)
    }
}

/// The versions of a key in layers, one layer after the other.
pub open spec fn cat(layers: Seq<Layer>, key: Seq<u8>, snapshot_seq: u64) -> Seq<Pair>
    decreases layers.len(),
{
    if layers.len() == 0 {
        Seq::empty()
    } else {
        cat_runs(layers[0].runs, key, snapshot_seq) + cat(layers.skip(1), key, snapshot_seq)
    }
}

/// The newest tombstone of all layers that covers a key.
pub open spec fn cover_all(layers: Seq<Layer>, key: Seq<u8>, snapshot_seq: u64) -> u64
    decreases layers.len(),
{
    if layers.len() == 0 {
        0
    } else {
        max_seq(
            cover(layers[0].rts, key, snapshot_seq),
            cover_all(layers.skip(1), key, snapshot_seq),
        )
    }
}

proof fn lemma_taken_runs(runs: Seq<Seq<Pair>>, key: Seq<u8>, snapshot_seq: u64, m: u64)
    ensures
        taken_runs(runs, key, snapshot_seq, m) == taken(
            until(cat_runs(runs, key, snapshot_seq)),
            m,
        ),
    decreases runs.len(),
{
    if runs.len() > 0 {
        lemma_taken_runs(runs.skip(1), key, snapshot_seq, m);
        lemma_chain_is_until(runs[0], key, snapshot_seq);
        lemma_taken_on(
            seen(runs[0], key, snapshot_seq),
            cat_runs(runs.skip(1), key, snapshot_seq),
            m,
        );
    }
}

/// A tombstone that is older than all versions hides none of them.
proof fn lemma_taken_above(ps: Seq<Pair>, m: u64, n: u64)
    requires
        m <= n,
        m == n || forall|p: Pair| #[trigger] ps.contains(p) ==> seq_of(p.0) > n,
    ensures
        taken(until(ps), m) == taken(until(ps), n),
    decreases ps.len(),
{
    if ps.len() > 0 && m != n {
        assert(ps.contains(ps[0]));
        let rest = ps.skip(1);
        assert forall|p: Pair| #[trigger] rest.contains(p) implies seq_of(p.0) > n by {
            let i = choose|i: int| 0 <= i < rest.len() && rest[i] == p;
            assert(ps[i + 1] == p);
            assert(ps.contains(p));
        }
        lemma_taken_above(rest, m, n);
        if type_of(ps[0].0) == VALUE_TYPE_MERGE {
            assert(until(ps).skip(1) =~= until(rest));
        }
    }
}

/// The versions in runs that are in order of age are in order.
proof fn lemma_cat_runs(layers: Seq<Layer>, i: int, from: int, key: Seq<u8>, snapshot_seq: u64)
    requires
        aged(layers, key),
        0 <= i < layers.len(),
        0 <= from <= layers[i].runs.len(),
    ensures
        sorted_entries(cat_runs(layers[i].runs.skip(from), key, snapshot_seq)),
        forall|p: Pair| #[trigger]
            cat_runs(layers[i].runs.skip(from), key, snapshot_seq).contains(p) == (visible(
                p,
                key,
                snapshot_seq,
            ) && exists|r: int| from <= r && #[trigger] in_run(layers, i, r, p)),
    decreases layers[i].runs.len() - from,
{
    let runs = layers[i].runs.skip(from);
    let c = cat_runs(runs, key, snapshot_seq);
    if from == layers[i].runs.len() {
        assert forall|p: Pair| #[trigger] c.contains(p) == (visible(p, key, snapshot_seq) && exists|
            r: int,
        | from <= r && #[trigger] in_run(layers, i, r, p)) by {}
    } else {
        let run = layers[i].runs[from];
        assert(runs[0] == run);
        assert(runs.skip(1) =~= layers[i].runs.skip(from + 1));
        lemma_cat_runs(layers, i, from + 1, key, snapshot_seq);
        lemma_seen(run, key, snapshot_seq);
        let a = seen(run, key, snapshot_seq);
        let b = cat_runs(runs.skip(1), key, snapshot_seq);
        assert forall|p: Pair, q: Pair| #[trigger]
            a.contains(p) && #[trigger] b.contains(q) implies ik_lt(p.0, q.0) by {
            let r = choose|r: int| from + 1 <= r && #[trigger] in_run(layers, i, r, q);
            assert(in_run(layers, i, from, p));
        }
        lemma_join(a, b);
        assert forall|p: Pair| #[trigger] c.contains(p) == (visible(p, key, snapshot_seq) && exists|
            r: int,
        | from <= r && #[trigger] in_run(layers, i, r, p)) by {
            if a.contains(p) {
                assert(in_run(layers, i, from, p));
            }
            if b.contains(p) {
                let r = choose|r: int| from + 1 <= r && #[trigger] in_run(layers, i, r, p);
                assert(in_run(layers, i, r, p));
            }
            if visible(p, key, snapshot_seq) && exists|r: int|
                from <= r && #[trigger] in_run(layers, i, r, p) {
                let r = choose|r: int| from <= r && #[trigger] in_run(layers, i, r, p);
                if r > from {
                    assert(in_run(layers, i, r, p));
                    assert(b.contains(p));
                } else {
                    assert(a.contains(p));
                }
            }
        }
    }
}

proof fn lemma_aged_skip(layers: Seq<Layer>, key: Seq<u8>)
    requires
        aged(layers, key),
        layers.len() > 0,
    ensures
        aged(layers.skip(1), key),
        forall|i: int, r: int, p: Pair| #[trigger]
            in_run(layers.skip(1), i, r, p) == (i >= 0 && in_run(layers, i + 1, r, p)),
        forall|i: int, r: int, t: RangeTombstone| #[trigger]
            in_set(layers.skip(1), i, r, t) == (i >= 0 && in_set(layers, i + 1, r, t)),
{
    let rest = layers.skip(1);
    assert forall|i: int, r: int, p: Pair| #[trigger] in_run(rest, i, r, p) == (i >= 0 && in_run(
        layers,
        i + 1,
        r,
        p,
    )) by {
        if 0 <= i < rest.len() {
            assert(rest[i] == layers[i + 1]);
        }
    }
    assert forall|i: int, r: int, t: RangeTombstone| #[trigger] in_set(rest, i, r, t) == (i >= 0
        && in_set(layers, i + 1, r, t)) by {
        if 0 <= i < rest.len() {
            assert(rest[i] == layers[i + 1]);
        }
    }
    assert forall|i: int, r: int|
        0 <= i < rest.len() && 0 <= r < rest[i].runs.len() implies sorted_entries(
        #[trigger] rest[i].runs[r],
    ) by {
        assert(rest[i] == layers[i + 1]);
        assert(sorted_entries(layers[i + 1].runs[r]));
    }
    assert forall|i: int, r: int, p: Pair, j: int, s: int, q: Pair|
        #![trigger in_run(rest, i, r, p), in_run(rest, j, s, q)]
        in_run(rest, i, r, p) && in_run(rest, j, s, q) && user_of(p.0) == key && user_of(q.0) == key
            && (i < j || i == j && r < s) implies ik_lt(p.0, q.0) by {
        assert(in_run(layers, i + 1, r, p) && in_run(layers, j + 1, s, q));
    }
    assert forall|i: int, r: int, p: Pair, j: int, s: int, t: RangeTombstone|
        #![trigger in_run(rest, i, r, p), in_set(rest, j, s, t)]
        in_run(rest, i, r, p) && in_set(rest, j, s, t) && user_of(p.0) == key && t@.covers(key) && i
            < j implies t.seq < seq_of(p.0) || layer_shields(rest, i, key, t.seq) by {
        assert(in_run(layers, i + 1, r, p) && in_set(layers, j + 1, s, t));
        if layer_shields(layers, i + 1, key, t.seq) {
            let (a, u) = choose|a: int, u: RangeTombstone| #[trigger]
                in_set(layers, i + 1, a, u) && u@.covers(key) && u.seq == t.seq;
            assert(in_set(rest, i, a, u));
        }
    }
}

/// The versions in layers that are in order of age are in order, and are all
/// visible versions of the key.
pub proof fn lemma_cat(layers: Seq<Layer>, key: Seq<u8>, snapshot_seq: u64)
    requires
        aged(layers, key),
    ensures
        sorted_entries(cat(layers, key, snapshot_seq)),
        forall|p: Pair| #[trigger]
            cat(layers, key, snapshot_seq).contains(p) == (in_layers(layers, p) && visible(
                p,
                key,
                snapshot_seq,
            )),
    decreases layers.len(),
{
    let c = cat(layers, key, snapshot_seq);
    if layers.len() == 0 {
        assert forall|p: Pair| #[trigger] c.contains(p) == (in_layers(layers, p) && visible(
            p,
            key,
            snapshot_seq,
        )) by {
            if in_layers(layers, p) {
                let (i, r) = choose|i: int, r: int| #[trigger] in_run(layers, i, r, p);
                assert(in_run(layers, i, r, p));
            }
        }
    } else {
        let rest = layers.skip(1);
        lemma_aged_skip(layers, key);
        lemma_cat(rest, key, snapshot_seq);
        lemma_cat_runs(layers, 0, 0, key, snapshot_seq);
        assert(layers[0].runs.skip(0) =~= layers[0].runs);
        let a = cat_runs(layers[0].runs, key, snapshot_seq);
        let b = cat(rest, key, snapshot_seq);
        assert forall|p: Pair, q: Pair| #[trigger]
            a.contains(p) && #[trigger] b.contains(q) implies ik_lt(p.0, q.0) by {
            let r = choose|r: int| 0 <= r && #[trigger] in_run(layers, 0, r, p);
            let (j, s) = choose|j: int, s: int| #[trigger] in_run(rest, j, s, q);
            assert(in_run(rest, j, s, q));
            assert(in_run(layers, 0, r, p) && in_run(layers, j + 1, s, q));
        }
        lemma_join(a, b);
        assert forall|p: Pair| #[trigger] c.contains(p) == (in_layers(layers, p) && visible(
            p,
            key,
            snapshot_seq,
        )) by {
            if a.contains(p) {
                let r = choose|r: int| 0 <= r && #[trigger] in_run(layers, 0, r, p);
                assert(in_run(layers, 0, r, p));
            }
            if b.contains(p) {
                let (j, s) = choose|j: int, s: int| #[trigger] in_run(rest, j, s, p);
                assert(in_run(rest, j, s, p));
                assert(in_run(layers, j + 1, s, p));
            }
            if in_layers(layers, p) && visible(p, key, snapshot_seq) {
                let (i, r) = choose|i: int, r: int| #[trigger] in_run(layers, i, r, p);
                if i == 0 {
                    assert(in_run(layers, 0, r, p));
                    assert(a.contains(p));
                } else {
                    assert(in_run(rest, i - 1, r, p));
                    assert(in_layers(rest, p));
                    assert(b.contains(p));
                }
            }
        }
    }
}

/// The newest tombstone of all layers is one of them.
pub proof fn lemma_cover_all(layers: Seq<Layer>, key: Seq<u8>, snapshot_seq: u64)
    ensures
        forall|seq: u64| #[trigger]
            deletes_at(layers, key, snapshot_seq, seq) ==> seq <= cover_all(
                layers,
                key,
                snapshot_seq,
            ),
        cover_all(layers, key, snapshot_seq) != 0 ==> deletes_at(
            layers,
            key,
            snapshot_seq,
            cover_all(layers, key, snapshot_seq),
        ),
    decreases layers.len(),
{
    let c = cover_all(layers, key, snapshot_seq);
    if layers.len() > 0 {
        let rest = layers.skip(1);
        lemma_cover_all(rest, key, snapshot_seq);
        lemma_cover(layers[0].rts, key, snapshot_seq);
        assert forall|seq: u64| #[trigger] deletes_at(layers, key, snapshot_seq, seq) implies seq
            <= c by {
            let (i, r, t) = choose|i: int, r: int, t: RangeTombstone| #[trigger]
                in_set(layers, i, r, t) && t@.covers(key) && t.seq <= snapshot_seq && t.seq == seq;
            if i == 0 {
                assert(layers[0].rts[r].contains(t));
            } else {
                assert(rest[i - 1] == layers[i]);
                assert(in_set(rest, i - 1, r, t));
                assert(deletes_at(rest, key, snapshot_seq, seq));
            }
        }
        if c != 0 {
            if c == cover_all(rest, key, snapshot_seq) {
                let (i, r, t) = choose|i: int, r: int, t: RangeTombstone| #[trigger]
                    in_set(rest, i, r, t) && t@.covers(key) && t.seq <= snapshot_seq && t.seq == c;
                assert(rest[i] == layers[i + 1]);
                assert(in_set(layers, i + 1, r, t));
            } else {
                let (r, t) = choose|r: int, t: RangeTombstone|
                    0 <= r < layers[0].rts.len() && #[trigger] layers[0].rts[r].contains(t)
                        && t@.covers(key) && t.seq <= snapshot_seq && t.seq == c;
                assert(in_set(layers, 0, r, t));
            }
        }
    }
}

/// The first layer has no tombstone beyond the newest that it has.
proof fn lemma_no_shield(layers: Seq<Layer>, key: Seq<u8>, snapshot_seq: u64, seq: u64)
    requires
        layers.len() > 0,
        seq <= snapshot_seq,
        seq > cover(layers[0].rts, key, snapshot_seq),
    ensures
        !layer_shields(layers, 0, key, seq),
{
    lemma_cover(layers[0].rts, key, snapshot_seq);
    if layer_shields(layers, 0, key, seq) {
        let (a, u) = choose|a: int, u: RangeTombstone| #[trigger]
            in_set(layers, 0, a, u) && u@.covers(key) && u.seq == seq;
        assert(layers[0].rts[a].contains(u));
    }
}

/// The chain that a lookup follows through layers in order of age is the chain
/// of all versions of the key in one order, down to the newest tombstone.
pub proof fn lemma_walk_is_one_chain(
    layers: Seq<Layer>,
    key: Seq<u8>,
    snapshot_seq: u64,
    max_rt: u64,
)
    requires
        aged(layers, key),
    ensures
        walk_chain(layers, key, snapshot_seq, max_rt) == taken(
            until(cat(layers, key, snapshot_seq)),
            max_seq(max_rt, cover_all(layers, key, snapshot_seq)),
        ),
    decreases layers.len(),
{
    if layers.len() > 0 {
        let rest = layers.skip(1);
        let m = max_seq(max_rt, cover(layers[0].rts, key, snapshot_seq));
        let later = cover_all(rest, key, snapshot_seq);
        let n = max_seq(m, later);
        let a = cat_runs(layers[0].runs, key, snapshot_seq);
        let b = cat(rest, key, snapshot_seq);
        lemma_aged_skip(layers, key);
        lemma_walk_is_one_chain(rest, key, snapshot_seq, m);
        lemma_taken_runs(layers[0].runs, key, snapshot_seq, m);
        lemma_cat_runs(layers, 0, 0, key, snapshot_seq);
        assert(layers[0].runs.skip(0) =~= layers[0].runs);
        if later > m {
            lemma_cover_all(rest, key, snapshot_seq);
            let (j, s, t) = choose|j: int, s: int, t: RangeTombstone| #[trigger]
                in_set(rest, j, s, t) && t@.covers(key) && t.seq <= snapshot_seq && t.seq == later;
            assert(in_set(rest, j, s, t));
            lemma_no_shield(layers, key, snapshot_seq, later);
            assert forall|p: Pair| #[trigger] a.contains(p) implies seq_of(p.0) > n by {
                let r = choose|r: int| 0 <= r && #[trigger] in_run(layers, 0, r, p);
                assert(in_run(layers, 0, r, p) && in_set(layers, j + 1, s, t));
            }
        }
        lemma_taken_above(a, m, n);
        lemma_taken_on(a, b, n);
    }
}

/// What a lookup says of a version that is the newest one.
pub open spec fn newest_says(ps: Seq<Pair>, m: u64) -> Option<Seq<u8>> {
    if ps.len() == 0 {
        None
    } else {
        unless_deleted((seq_of(ps[0].0), value_of(ps[0])), m)
    }
}

proof fn lemma_found_is_seen(es: Seq<Pair>, key: Seq<u8>, snapshot_seq: u64)
    ensures
        match newest(es, key, snapshot_seq) {
            Some(p) => seen(es, key, snapshot_seq).len() > 0 && seen(es, key, snapshot_seq)[0] == p,
            None => seen(es, key, snapshot_seq).len() == 0,
        },
    decreases es.len(),
{
    if es.len() > 0 {
        lemma_found_is_seen(es.skip(1), key, snapshot_seq);
    }
}

proof fn lemma_found_first_is_seen(runs: Seq<Seq<Pair>>, key: Seq<u8>, snapshot_seq: u64)
    ensures
        found_first(runs, key, snapshot_seq) == if cat_runs(runs, key, snapshot_seq).len() == 0 {
            None
        } else {
            let p = cat_runs(runs, key, snapshot_seq)[0];
            Some((seq_of(p.0), value_of(p)))
        },
    decreases runs.len(),
{
    if runs.len() > 0 {
        lemma_found_is_seen(runs[0], key, snapshot_seq);
        lemma_found_first_is_seen(runs.skip(1), key, snapshot_seq);
    }
}

/// A lookup in layers in order of age says what the newest version says, unless
/// the newest tombstone hides it.
pub proof fn lemma_walk_is_newest(
    layers: Seq<Layer>,
    key: Seq<u8>,
    snapshot_seq: u64,
    max_rt: u64,
)
    requires
        aged(layers, key),
    ensures
        walk(layers, key, snapshot_seq, max_rt) == newest_says(
            cat(layers, key, snapshot_seq),
            max_seq(max_rt, cover_all(layers, key, snapshot_seq)),
        ),
    decreases layers.len(),
{
    if layers.len() > 0 {
        let rest = layers.skip(1);
        let m = max_seq(max_rt, cover(layers[0].rts, key, snapshot_seq));
        let later = cover_all(rest, key, snapshot_seq);
        let a = cat_runs(layers[0].runs, key, snapshot_seq);
        lemma_aged_skip(layers, key);
        lemma_walk_is_newest(rest, key, snapshot_seq, m);
        lemma_found_first_is_seen(layers[0].runs, key, snapshot_seq);
        if a.len() == 0 {
            assert(a + cat(rest, key, snapshot_seq) =~= cat(rest, key, snapshot_seq));
        } else if later > m {
            lemma_cat_runs(layers, 0, 0, key, snapshot_seq);
            assert(layers[0].runs.skip(0) =~= layers[0].runs);
            lemma_cover_all(rest, key, snapshot_seq);
            let (j, s, t) = choose|j: int, s: int, t: RangeTombstone| #[trigger]
                in_set(rest, j, s, t) && t@.covers(key) && t.seq <= snapshot_seq && t.seq == later;
            assert(in_set(rest, j, s, t));
            assert(a.contains(a[0]));
            let r = choose|r: int| 0 <= r && #[trigger] in_run(layers, 0, r, a[0]);
            lemma_no_shield(layers, key, snapshot_seq, later);
            assert(in_run(layers, 0, r, a[0]) && in_set(layers, j + 1, s, t));
        }
    }
}

// ── Rewriting the tree ───────────────────────────────────────────

/// Versions without those that lie under a tombstone, or under a version that
/// is no operand, come to the same.
proof fn lemma_thinned(a: Seq<Pair>, b: Seq<Pair>, key: Seq<u8>, m: u64)
    requires
        sorted_entries(a),
        sorted_entries(b),
        forall|p: Pair| #[trigger] a.contains(p) ==> user_of(p.0) == key,
        forall|p: Pair| #[trigger] b.contains(p) ==> a.contains(p),
        forall|q: Pair| #[trigger]
            a.contains(q) && !b.contains(q) ==> seq_of(q.0) < m || exists|j: Pair| #[trigger]
                b.contains(j) && type_of(j.0) != VALUE_TYPE_MERGE && ik_lt(j.0, q.0),
    ensures
        same_but_end(taken(until(b), m), taken(until(a), m), m),
    decreases a.len(),
{
    if a.len() == 0 {
        if b.len() > 0 {
            assert(b.contains(b[0]));
            assert(a.contains(b[0]));
        }
    } else {
        let x = a[0];
        let l = link_of(x);
        assert(a.contains(x));
        if b.contains(x) {
            let k = choose|k: int| 0 <= k < b.len() && b[k] == x;
            assert(b.contains(b[0]));
            assert(a.contains(b[0]));
            let h = choose|h: int| 0 <= h < a.len() && a[h] == b[0];
            if k > 0 {
                assert(ik_lt(b[0].0, b[k].0));
                if h > 0 {
                    assert(ik_lt(a[0].0, a[h].0));
                }
                lemma_internal_total_order(a[0].0, b[0].0, a[0].0);
            }
            assert(b[0] == x);
            if l.0 > m && l.1 == VALUE_TYPE_MERGE {
                let a1 = a.skip(1);
                let b1 = b.skip(1);
                lemma_sorted_skip(a);
                lemma_sorted_skip(b);
                assert forall|p: Pair| #[trigger] a1.contains(p) implies user_of(p.0) == key by {
                    lemma_tail_holds(a, p);
                }
                assert forall|p: Pair| #[trigger] b1.contains(p) implies a1.contains(p) by {
                    lemma_tail_holds(a, p);
                    lemma_tail_holds(b, p);
                }
                assert forall|q: Pair| #[trigger] a1.contains(q) && !b1.contains(q) implies seq_of(
                    q.0,
                ) < m || exists|j: Pair| #[trigger]
                    b1.contains(j) && type_of(j.0) != VALUE_TYPE_MERGE && ik_lt(j.0, q.0) by {
                    lemma_tail_holds(a, q);
                    lemma_tail_holds(b, q);
                    assert(a.contains(q) && !b.contains(q));
                    if !(seq_of(q.0) < m) {
                        let j = choose|j: Pair| #[trigger]
                            b.contains(j) && type_of(j.0) != VALUE_TYPE_MERGE && ik_lt(j.0, q.0);
                        lemma_tail_holds(b, j);
                        assert(b1.contains(j));
                    }
                }
                lemma_thinned(a1, b1, key, m);
                let ta = taken(until(a1), m);
                let tb = taken(until(b1), m);
                assert(until(a).skip(1) =~= until(a1));
                assert(until(b).skip(1) =~= until(b1));
                if ta != tb {
                    let del = (m, VALUE_TYPE_DELETION, Seq::<u8>::empty());
                    let w = seq![l] + tb;
                    assert(seq![l] + tb.push(del) =~= w.push(del));
                    assert forall|i: int| 0 <= i < w.len() implies (#[trigger] w[i]).1
                        == VALUE_TYPE_MERGE by {
                        if i > 0 {
                            assert(w[i] == tb[i - 1]);
                        }
                    }
                }
            }
        } else {
            if exists|j: Pair| #[trigger]
                b.contains(j) && type_of(j.0) != VALUE_TYPE_MERGE && ik_lt(j.0, x.0) {
                let j = choose|j: Pair| #[trigger]
                    b.contains(j) && type_of(j.0) != VALUE_TYPE_MERGE && ik_lt(j.0, x.0);
                assert(a.contains(j));
                let h = choose|h: int| 0 <= h < a.len() && a[h] == j;
                if h > 0 {
                    assert(ik_lt(a[0].0, a[h].0));
                }
                lemma_internal_total_order(x.0, j.0, x.0);
            }
            assert(l.0 < m);
            let del = (m, VALUE_TYPE_DELETION, Seq::<u8>::empty());
            assert(taken(until(a), m) == seq![del]);
            if b.len() > 0 {
                assert(b.contains(b[0]));
                assert(a.contains(b[0]));
                let h = choose|h: int| 0 <= h < a.len() && a[h] == b[0];
                assert(ik_lt(a[0].0, a[h].0));
                lemma_internal_order(a[0].0, a[h].0);
                lemma_lex_order(key, key, key);
            } else {
                assert(Seq::<Link>::empty().push(del) =~= seq![del]);
            }
        }
    }
}

/// Rewriting the tree in a way that [`reads_alike`] describes changes no chain:
/// the base value and the operands stay the same.
pub proof fn lemma_rewriting_keeps_chains(
    before: Seq<Layer>,
    after: Seq<Layer>,
    key: Seq<u8>,
    snapshot_seq: u64,
)
    requires
        aged(before, key),
        aged(after, key),
        reads_alike(before, after, key, snapshot_seq),
    ensures
        outcome_of(walk_chain(after, key, snapshot_seq, 0)) == outcome_of(
            walk_chain(before, key, snapshot_seq, 0),
        ),
{
    let a = cat(before, key, snapshot_seq);
    let b = cat(after, key, snapshot_seq);
    let m = cover_all(before, key, snapshot_seq);
    lemma_cat(before, key, snapshot_seq);
    lemma_cat(after, key, snapshot_seq);
    lemma_cover_all(before, key, snapshot_seq);
    lemma_cover_all(after, key, snapshot_seq);
    assert(cover_all(after, key, snapshot_seq) == m) by {
        let n = cover_all(after, key, snapshot_seq);
        if m != 0 {
            assert(deletes_at(after, key, snapshot_seq, m));
        }
        if n != 0 {
            assert(deletes_at(before, key, snapshot_seq, n));
        }
    }
    lemma_walk_is_one_chain(before, key, snapshot_seq, 0);
    lemma_walk_is_one_chain(after, key, snapshot_seq, 0);
    assert forall|q: Pair| #[trigger] a.contains(q) && !b.contains(q) implies seq_of(q.0) < m
        || exists|j: Pair| #[trigger]
        b.contains(j) && type_of(j.0) != VALUE_TYPE_MERGE && ik_lt(j.0, q.0) by {
        assert(in_layers(before, q) && !in_layers(after, q));
        if exists|seq: u64| #[trigger]
            deletes_at(after, key, snapshot_seq, seq) && seq > seq_of(q.0) {
            let seq = choose|seq: u64| #[trigger]
                deletes_at(after, key, snapshot_seq, seq) && seq > seq_of(q.0);
            assert(seq <= m);
        } else {
            let j = choose|j: Pair| #[trigger]
                in_layers(after, j) && visible(j, key, snapshot_seq) && type_of(j.0)
                    != VALUE_TYPE_MERGE && ik_lt(j.0, q.0);
            assert(b.contains(j));
        }
    }
    lemma_thinned(a, b, key, m);
    lemma_same_outcome(taken(until(b), m), taken(until(a), m), m);
}

} // verus!
