//! Point lookups over the layers of the tree, as mathematics.
//!
//! A [`Layer`] is what a lookup visits at once: a memtable, a table of level
//! 0, or the tables of a deeper level that may hold the key. A lookup visits
//! the layers from the newest to the oldest.

use super::block::sorted_entries;
use super::block_entry::Pair;
use super::internal_key::ik_le;
use super::internal_key::ik_lt;
use super::internal_key::is_internal;
use super::internal_key::lemma_internal_order;
use super::internal_key::lemma_internal_total_order;
use super::internal_key::seq_of;
use super::internal_key::type_of;
use super::internal_key::user_of;
use super::internal_key::VALUE_TYPE_DELETION;
use super::internal_key::VALUE_TYPE_MERGE;
use super::internal_key::VALUE_TYPE_VALUE;
use super::range_tombstone::lemma_max_covering;
use super::range_tombstone::max_covering;
use super::range_tombstone::RangeTombstone;
use super::versions::chain;
use super::versions::found;
use super::versions::lemma_newest;
use super::versions::newest;
use super::versions::value_of;
use super::versions::visible;
use super::versions::Link;
use crate::bytes::lemma_lex_order;
use vstd::prelude::*;

verus! {

/// What a lookup visits at once: the range tombstones first, then the runs of
/// point entries, in this order.
#[verifier::ext_equal]
pub struct Layer {
    pub rts: Seq<Seq<RangeTombstone>>,
    pub runs: Seq<Seq<Pair>>,
}

/// The larger of two sequence numbers.
pub open spec fn max_seq(a: u64, b: u64) -> u64 {
    if b > a {
        b
    } else {
        a
    }
}

/// The largest covering sequence number among several sets of tombstones.
pub open spec fn cover(rts: Seq<Seq<RangeTombstone>>, key: Seq<u8>, snapshot_seq: u64) -> u64
    decreases rts.len(),
{
    if rts.len() == 0 {
        0
    } else {
        max_seq(
            max_covering(rts[0], key, snapshot_seq),
            cover(rts.skip(1), key, snapshot_seq),
        )
    }
}

/// What the first run finds that finds anything.
pub open spec fn found_first(runs: Seq<Seq<Pair>>, key: Seq<u8>, snapshot_seq: u64) -> Option<
    (u64, Option<Seq<u8>>),
>
    decreases runs.len(),
{
    if runs.len() == 0 {
        None
    } else if found(runs[0], key, snapshot_seq) is Some {
        found(runs[0], key, snapshot_seq)
    } else {
        found_first(runs.skip(1), key, snapshot_seq)
    }
}

/// A version counts only if it is newer than every tombstone seen so far.
pub open spec fn unless_deleted(f: (u64, Option<Seq<u8>>), max_rt: u64) -> Option<Seq<u8>> {
    if f.0 > max_rt {
        f.1
    } else {
        None
    }
}

/// What a lookup says that visits the layers in this order, having seen
/// tombstones up to `max_rt`: the first layer with a version of the key
/// decides, unless a tombstone of this layer or of a newer one hides it.
pub open spec fn walk(layers: Seq<Layer>, key: Seq<u8>, snapshot_seq: u64, max_rt: u64) -> Option<
    Seq<u8>,
>
    decreases layers.len(),
{
    if layers.len() == 0 {
        None
    } else {
        let m = max_seq(max_rt, cover(layers[0].rts, key, snapshot_seq));
        match found_first(layers[0].runs, key, snapshot_seq) {
            Some(f) => unless_deleted(f, m),
            None => walk(layers.skip(1), key, snapshot_seq, m),
        }
    }
}

/// The sequence number of the newest version in the first layer that has one.
pub open spec fn first_seq(layers: Seq<Layer>, key: Seq<u8>, snapshot_seq: u64) -> Option<u64>
    decreases layers.len(),
{
    if layers.len() == 0 {
        None
    } else {
        match found_first(layers[0].runs, key, snapshot_seq) {
            Some(f) => Some(f.0),
            None => first_seq(layers.skip(1), key, snapshot_seq),
        }
    }
}

// ── Merge chains ─────────────────────────────────────────────────

/// What is taken of the links of one run, newest first, when tombstones up to
/// `max_rt` cover the key: everything up to the first version that is no merge
/// operand, or up to the first that a tombstone hides, in whose place a
/// deletion stands.
pub open spec fn taken(ls: Seq<Link>, max_rt: u64) -> Seq<Link>
    decreases ls.len(),
{
    if ls.len() == 0 {
        ls
    } else if ls[0].0 <= max_rt {
        seq![(max_rt, VALUE_TYPE_DELETION, Seq::<u8>::empty())]
    } else if ls[0].1 != VALUE_TYPE_MERGE {
        seq![ls[0]]
    } else {
        seq![ls[0]] + taken(ls.skip(1), max_rt)
    }
}

/// A chain needs no older run.
pub open spec fn settled(ls: Seq<Link>) -> bool {
    ls.len() > 0 && ls.last().1 != VALUE_TYPE_MERGE
}

/// What is taken of the runs of a layer.
pub open spec fn taken_runs(
    runs: Seq<Seq<Pair>>,
    key: Seq<u8>,
    snapshot_seq: u64,
    max_rt: u64,
) -> Seq<Link>
    decreases runs.len(),
{
    if runs.len() == 0 {
        Seq::empty()
    } else {
        let t = taken(chain(runs[0], key, snapshot_seq), max_rt);
        if settled(t) {
            t
        } else {
            t + taken_runs(runs.skip(1), key, snapshot_seq, max_rt)
        }
    }
}

/// The merge chain of a key over all layers, newest version first.
pub open spec fn walk_chain(
    layers: Seq<Layer>,
    key: Seq<u8>,
    snapshot_seq: u64,
    max_rt: u64,
) -> Seq<Link>
    decreases layers.len(),
{
    if layers.len() == 0 {
        Seq::empty()
    } else {
        let m = max_seq(max_rt, cover(layers[0].rts, key, snapshot_seq));
        let t = taken_runs(layers[0].runs, key, snapshot_seq, m);
        if settled(t) {
            t
        } else {
            t + walk_chain(layers.skip(1), key, snapshot_seq, m)
        }
    }
}

/// The chain ends in a value or a deletion.
pub open spec fn has_terminator(c: Seq<Link>) -> bool {
    c.len() > 0 && (c.last().1 == VALUE_TYPE_VALUE || c.last().1 == VALUE_TYPE_DELETION)
}

/// The value that the operands of a chain are layered on.
pub open spec fn chain_base(c: Seq<Link>) -> Option<Seq<u8>> {
    if has_terminator(c) && c.last().1 == VALUE_TYPE_VALUE {
        Some(c.last().2)
    } else {
        None
    }
}

/// How many links of a chain are operands.
pub open spec fn chain_operand_count(c: Seq<Link>) -> nat {
    if has_terminator(c) {
        (c.len() - 1) as nat
    } else {
        c.len()
    }
}

/// The operands of a chain, oldest first.
pub open spec fn chain_operands(c: Seq<Link>) -> Seq<Seq<u8>> {
    let n = chain_operand_count(c);
    Seq::new(n, |i: int| c[n - 1 - i].2)
}

// ── What a lookup means ──────────────────────────────────────────

/// Some run of some layer holds `p`.
pub open spec fn in_layers(layers: Seq<Layer>, p: Pair) -> bool {
    exists|i: int, r: int| #[trigger] in_run(layers, i, r, p)
}

/// Run `r` of layer `i` holds `p`.
pub open spec fn in_run(layers: Seq<Layer>, i: int, r: int, p: Pair) -> bool {
    0 <= i < layers.len() && 0 <= r < layers[i].runs.len() && layers[i].runs[r].contains(p)
}

/// Set `r` of layer `i` holds the tombstone `t`.
pub open spec fn in_set(layers: Seq<Layer>, i: int, r: int, t: RangeTombstone) -> bool {
    0 <= i < layers.len() && 0 <= r < layers[i].rts.len() && layers[i].rts[r].contains(t)
}

/// `p` is what the key has as its value at `snapshot_seq`: no version in the
/// tree is newer, and no tombstone deletes it.
pub open spec fn is_live(layers: Seq<Layer>, key: Seq<u8>, snapshot_seq: u64, p: Pair) -> bool {
    &&& in_layers(layers, p)
    &&& visible(p, key, snapshot_seq)
    &&& forall|i: int, r: int, q: Pair|
        #[trigger] in_run(layers, i, r, q) && visible(q, key, snapshot_seq) ==> ik_le(p.0, q.0)
    &&& forall|i: int, r: int, t: RangeTombstone|
        #[trigger] in_set(layers, i, r, t) && t@.covers(key) && t.seq <= snapshot_seq ==> t.seq
            < seq_of(p.0)
}

/// A tombstone of layer `i` covers `key` and has the sequence number `seq`.
pub open spec fn layer_shields(layers: Seq<Layer>, i: int, key: Seq<u8>, seq: u64) -> bool {
    exists|r: int, t: RangeTombstone| #[trigger]
        in_set(layers, i, r, t) && t@.covers(key) && t.seq == seq
}

/// The runs are sorted, and as far as `key` goes the layers, and the runs of
/// one layer, are ordered by age: a version is newer than the versions of older
/// layers and of later runs, and newer than the tombstones of older layers,
/// but for those that its own layer has as well.
pub open spec fn aged(layers: Seq<Layer>, key: Seq<u8>) -> bool {
    &&& forall|i: int, r: int|
        0 <= i < layers.len() && 0 <= r < layers[i].runs.len() ==> sorted_entries(
            #[trigger] layers[i].runs[r],
        )
    &&& forall|i: int, r: int, p: Pair, j: int, s: int, q: Pair|
        #![trigger in_run(layers, i, r, p), in_run(layers, j, s, q)]
        in_run(layers, i, r, p) && in_run(layers, j, s, q) && user_of(p.0) == key && user_of(q.0)
            == key && (i < j || i == j && r < s) ==> ik_lt(p.0, q.0)
    &&& forall|i: int, r: int, p: Pair, j: int, s: int, t: RangeTombstone|
        #![trigger in_run(layers, i, r, p), in_set(layers, j, s, t)]
        in_run(layers, i, r, p) && in_set(layers, j, s, t) && user_of(p.0) == key && t@.covers(key)
            && i < j ==> t.seq < seq_of(p.0) || layer_shields(layers, i, key, t.seq)
}

pub proof fn lemma_cover(rts: Seq<Seq<RangeTombstone>>, key: Seq<u8>, snapshot_seq: u64)
    ensures
        forall|r: int, t: RangeTombstone|
            0 <= r < rts.len() && #[trigger] rts[r].contains(t) && t@.covers(key) && t.seq
                <= snapshot_seq ==> t.seq <= cover(rts, key, snapshot_seq),
        cover(rts, key, snapshot_seq) != 0 ==> exists|r: int, t: RangeTombstone|
            0 <= r < rts.len() && #[trigger] rts[r].contains(t) && t@.covers(key) && t.seq
                <= snapshot_seq && t.seq == cover(rts, key, snapshot_seq),
    decreases rts.len(),
{
    if rts.len() > 0 {
        let rest = rts.skip(1);
        let head = rts[0];
        lemma_cover(rest, key, snapshot_seq);
        lemma_max_covering(head, key, snapshot_seq);
        let c = cover(rts, key, snapshot_seq);
        assert forall|r: int, t: RangeTombstone|
            0 <= r < rts.len() && #[trigger] rts[r].contains(t) && t@.covers(key) && t.seq
                <= snapshot_seq implies t.seq <= c by {
            if r > 0 {
                assert(rest[r - 1].contains(t));
            } else {
                let i = choose|i: int| 0 <= i < head.len() && head[i] == t;
                assert(head[i]@.covers(key));
            }
        }
        if c != 0 {
            if c == cover(rest, key, snapshot_seq) {
                let (r, t) = choose|r: int, t: RangeTombstone|
                    0 <= r < rest.len() && #[trigger] rest[r].contains(t) && t@.covers(key)
                        && t.seq <= snapshot_seq && t.seq == c;
                assert(rts[r + 1].contains(t));
            } else {
                let i = choose|i: int|
                    0 <= i < head.len() && (#[trigger] head[i])@.covers(key) && head[i].seq
                        <= snapshot_seq && head[i].seq == c;
                assert(rts[0].contains(head[i]));
            }
        }
    }
}

/// What the first run of a layer finds is one of its versions, and the first in
/// order of all versions in the layer.
proof fn lemma_found_first(
    layers: Seq<Layer>,
    i: int,
    from: int,
    key: Seq<u8>,
    snapshot_seq: u64,
) -> (p: Option<Pair>)
    requires
        aged(layers, key),
        0 <= i < layers.len(),
        0 <= from <= layers[i].runs.len(),
    ensures
        found_first(layers[i].runs.skip(from), key, snapshot_seq) == match p {
            Some(p) => Some((seq_of(p.0), value_of(p))),
            None => None,
        },
        p matches Some(p) ==> visible(p, key, snapshot_seq) && exists|r: int|
            from <= r && #[trigger] in_run(layers, i, r, p),
        p matches Some(p) ==> forall|r: int, q: Pair|
            from <= r && #[trigger] in_run(layers, i, r, q) && visible(q, key, snapshot_seq)
                ==> ik_le(p.0, q.0),
        p is None ==> forall|r: int, q: Pair|
            from <= r && #[trigger] in_run(layers, i, r, q) ==> !visible(q, key, snapshot_seq),
    decreases layers[i].runs.len() - from,
{
    let runs = layers[i].runs;
    let rest = runs.skip(from);
    if from == runs.len() {
        None
    } else {
        assert(rest[0] == runs[from]);
        assert(rest.skip(1) =~= runs.skip(from + 1));
        assert(sorted_entries(layers[i].runs[from]));
        lemma_newest(runs[from], key, snapshot_seq);
        let n = newest(runs[from], key, snapshot_seq);
        match n {
            Some(p) => {
                assert(in_run(layers, i, from, p));
                assert forall|r: int, q: Pair|
                    from <= r && #[trigger] in_run(layers, i, r, q) && visible(
                        q,
                        key,
                        snapshot_seq,
                    ) implies ik_le(p.0, q.0) by {
                    if r == from {
                        let j = choose|j: int| 0 <= j < runs[from].len() && runs[from][j] == q;
                        assert(visible(runs[from][j], key, snapshot_seq));
                    } else {
                        assert(ik_lt(p.0, q.0));
                    }
                }
                Some(p)
            },
            None => {
                let p = lemma_found_first(layers, i, from + 1, key, snapshot_seq);
                assert forall|r: int, q: Pair|
                    r == from && #[trigger] in_run(layers, i, r, q) implies !visible(
                    q,
                    key,
                    snapshot_seq,
                ) by {
                    let j = choose|j: int| 0 <= j < runs[from].len() && runs[from][j] == q;
                    assert(!visible(runs[from][j], key, snapshot_seq));
                }
                p
            },
        }
    }
}

/// The rest of a lookup, once the layers before `n` have been visited.
proof fn lemma_walk_from(
    layers: Seq<Layer>,
    n: int,
    key: Seq<u8>,
    snapshot_seq: u64,
    max_rt: u64,
    p: Pair,
)
    requires
        aged(layers, key),
        0 <= n <= layers.len(),
        forall|i: int, r: int, q: Pair|
            i < n && #[trigger] in_run(layers, i, r, q) ==> !visible(q, key, snapshot_seq),
        forall|i: int, r: int, t: RangeTombstone|
            i < n && #[trigger] in_set(layers, i, r, t) && t@.covers(key) && t.seq <= snapshot_seq
                ==> t.seq <= max_rt,
        max_rt != 0 ==> exists|i: int, r: int, t: RangeTombstone|
            i < n && #[trigger] in_set(layers, i, r, t) && t@.covers(key) && t.seq <= snapshot_seq
                && t.seq == max_rt,
    ensures
        is_live(layers, key, snapshot_seq, p) && seq_of(p.0) > 0 ==> walk(
            layers.skip(n),
            key,
            snapshot_seq,
            max_rt,
        ) == value_of(p),
        walk(layers.skip(n), key, snapshot_seq, max_rt) is Some ==> exists|q: Pair| #[trigger]
            is_live(layers, key, snapshot_seq, q) && walk(
                layers.skip(n),
                key,
                snapshot_seq,
                max_rt,
            ) == value_of(q),
    decreases layers.len() - n,
{
    let rest = layers.skip(n);
    if n == layers.len() {
        assert forall|i: int, r: int| !(#[trigger] in_run(layers, i, r, p) && visible(p, key, snapshot_seq)) by {}
        assert(rest.len() == 0);
    } else {
        assert(rest[0] == layers[n]);
        assert(rest.skip(1) =~= layers.skip(n + 1));
        let m = max_seq(max_rt, cover(layers[n].rts, key, snapshot_seq));
        lemma_cover(layers[n].rts, key, snapshot_seq);
        assert forall|i: int, r: int, t: RangeTombstone|
            i < n + 1 && #[trigger] in_set(layers, i, r, t) && t@.covers(key) && t.seq
                <= snapshot_seq implies t.seq <= m by {
            if i == n {
                assert(layers[n].rts[r].contains(t));
            }
        }
        if m != 0 {
            if m == max_rt {
                let (i, r, t) = choose|i: int, r: int, t: RangeTombstone|
                    i < n && #[trigger] in_set(layers, i, r, t) && t@.covers(key) && t.seq
                        <= snapshot_seq && t.seq == max_rt;
                assert(in_set(layers, i, r, t));
            } else {
                let (r, t) = choose|r: int, t: RangeTombstone|
                    0 <= r < layers[n].rts.len() && #[trigger] layers[n].rts[r].contains(t)
                        && t@.covers(key) && t.seq <= snapshot_seq && t.seq == m;
                assert(in_set(layers, n, r, t));
            }
        }
        assert(layers[n].runs.skip(0) =~= layers[n].runs);
        let f = lemma_found_first(layers, n, 0, key, snapshot_seq);
        match f {
            Some(f) => {
                let fr = choose|r: int| 0 <= r && #[trigger] in_run(layers, n, r, f);
                assert(in_run(layers, n, fr, f));
                assert forall|i: int, r: int, q: Pair|
                    #[trigger] in_run(layers, i, r, q) && visible(
                        q,
                        key,
                        snapshot_seq,
                    ) implies ik_le(f.0, q.0) by {
                    if i > n {
                        assert(ik_lt(f.0, q.0));
                    }
                }
                if seq_of(f.0) > m {
                    assert(is_live(layers, key, snapshot_seq, f)) by {
                        assert(in_layers(layers, f));
                        assert forall|i: int, r: int, t: RangeTombstone|
                            #[trigger] in_set(layers, i, r, t) && t@.covers(key) && t.seq
                                <= snapshot_seq implies t.seq < seq_of(f.0) by {
                            if i <= n {
                                assert(t.seq <= m);
                            } else if layer_shields(layers, n, key, t.seq) {
                                let (a, u) = choose|a: int, u: RangeTombstone| #[trigger]
                                    in_set(layers, n, a, u) && u@.covers(key) && u.seq == t.seq;
                                assert(u.seq <= m);
                            }
                        }
                    }
                    if is_live(layers, key, snapshot_seq, p) {
                        lemma_one_live(layers, key, snapshot_seq, f, p);
                    }
                } else if is_live(layers, key, snapshot_seq, p) && seq_of(p.0) > 0 {
                    assert(ik_le(p.0, f.0));
                    let (pi, pr) = choose|i: int, r: int| #[trigger] in_run(layers, i, r, p);
                    assert(in_run(layers, pi, pr, p));
                    lemma_same_place(layers, key, snapshot_seq, f, p, n, fr, pi, pr);
                    if m != 0 {
                        let (i, r, t) = choose|i: int, r: int, t: RangeTombstone|
                            i < n + 1 && #[trigger] in_set(layers, i, r, t) && t@.covers(key)
                                && t.seq <= snapshot_seq && t.seq == m;
                        assert(t.seq < seq_of(p.0));
                    }
                }
            },
            None => {
                assert forall|i: int, r: int, q: Pair|
                    i < n + 1 && #[trigger] in_run(layers, i, r, q) implies !visible(
                    q,
                    key,
                    snapshot_seq,
                ) by {
                    if i == n {
                        assert(0 <= r);
                    }
                }
                lemma_walk_from(layers, n + 1, key, snapshot_seq, m, p);
            },
        }
    }
}

/// Two versions that are first in order are one.
proof fn lemma_same_place(
    layers: Seq<Layer>,
    key: Seq<u8>,
    snapshot_seq: u64,
    f: Pair,
    p: Pair,
    fi: int,
    fr: int,
    pi: int,
    pr: int,
)
    requires
        aged(layers, key),
        in_run(layers, fi, fr, f),
        in_run(layers, pi, pr, p),
        visible(f, key, snapshot_seq),
        visible(p, key, snapshot_seq),
        ik_le(p.0, f.0),
        ik_le(f.0, p.0),
    ensures
        f == p,
{
    let a = layers[fi].runs[fr];
    let b = layers[pi].runs[pr];
    assert(sorted_entries(layers[fi].runs[fr]));
    assert(sorted_entries(layers[pi].runs[pr]));
    let x = choose|x: int| 0 <= x < a.len() && a[x] == f;
    let y = choose|y: int| 0 <= y < b.len() && b[y] == p;
    assert(is_internal(a[x].0));
    assert(is_internal(b[y].0));
    lemma_internal_total_order(f.0, p.0, f.0);
    lemma_internal_total_order(p.0, f.0, p.0);
    assert(f.0 == p.0);
    assert(fi == pi && fr == pr);
    super::versions::lemma_one_value(a, x, y);
}

/// There is at most one live version.
pub proof fn lemma_one_live(
    layers: Seq<Layer>,
    key: Seq<u8>,
    snapshot_seq: u64,
    p: Pair,
    q: Pair,
)
    requires
        aged(layers, key),
        is_live(layers, key, snapshot_seq, p),
        is_live(layers, key, snapshot_seq, q),
    ensures
        p == q,
{
    let (pi, pr) = choose|i: int, r: int| #[trigger] in_run(layers, i, r, p);
    let (qi, qr) = choose|i: int, r: int| #[trigger] in_run(layers, i, r, q);
    assert(ik_le(p.0, q.0));
    assert(ik_le(q.0, p.0));
    lemma_same_place(layers, key, snapshot_seq, p, q, pi, pr, qi, qr);
}

/// A lookup finds the value of the live version of the key, if there is one:
/// the newest visible version in the whole tree, unless a visible tombstone at
/// or after it covers the key. Where there is none it finds nothing. Sequence
/// numbers of entries start at 1.
pub proof fn lemma_walk_finds_live(
    layers: Seq<Layer>,
    key: Seq<u8>,
    snapshot_seq: u64,
    p: Pair,
)
    requires
        aged(layers, key),
    ensures
        is_live(layers, key, snapshot_seq, p) && seq_of(p.0) > 0 ==> walk(
            layers,
            key,
            snapshot_seq,
            0,
        ) == value_of(p),
        (forall|q: Pair| !#[trigger] is_live(layers, key, snapshot_seq, q)) ==> walk(
            layers,
            key,
            snapshot_seq,
            0,
        ) is None,
{
    assert(layers.skip(0) =~= layers);
    assert forall|i: int, r: int, q: Pair| i < 0 implies !#[trigger] in_run(layers, i, r, q) by {}
    assert forall|i: int, r: int, t: RangeTombstone| i < 0 implies !#[trigger] in_set(
        layers,
        i,
        r,
        t,
    ) by {}
    lemma_walk_from(layers, 0, key, snapshot_seq, 0, p);
}

// ── Rewriting the tree ───────────────────────────────────────────

/// Some set of some layer has a tombstone that covers `key`, is visible at
/// `snapshot_seq` and has the sequence number `seq`.
pub open spec fn deletes_at(layers: Seq<Layer>, key: Seq<u8>, snapshot_seq: u64, seq: u64) -> bool {
    exists|i: int, r: int, t: RangeTombstone| #[trigger]
        in_set(layers, i, r, t) && t@.covers(key) && t.seq <= snapshot_seq && t.seq == seq
}

/// `after` is `before` without versions of `key` that a read at `snapshot_seq`
/// can do without: it holds no other versions, its tombstones delete the same,
/// and what is gone was deleted, or a newer version that is no merge operand
/// stands before it.
pub open spec fn reads_alike(
    before: Seq<Layer>,
    after: Seq<Layer>,
    key: Seq<u8>,
    snapshot_seq: u64,
) -> bool {
    &&& forall|p: Pair| #[trigger]
        in_layers(after, p) && visible(p, key, snapshot_seq) ==> in_layers(before, p)
    &&& forall|seq: u64| #[trigger]
        deletes_at(before, key, snapshot_seq, seq) == deletes_at(after, key, snapshot_seq, seq)
    &&& forall|q: Pair| #[trigger]
        in_layers(before, q) && visible(q, key, snapshot_seq) && !in_layers(after, q) ==> {
            ||| exists|seq: u64| #[trigger]
                deletes_at(after, key, snapshot_seq, seq) && seq > seq_of(q.0)
            ||| exists|j: Pair| #[trigger]
                in_layers(after, j) && visible(j, key, snapshot_seq) && type_of(j.0)
                    != VALUE_TYPE_MERGE && ik_lt(j.0, q.0)
        }
}

/// The keys in sorted runs are internal keys.
proof fn lemma_in_layers_internal(layers: Seq<Layer>, key: Seq<u8>, p: Pair)
    requires
        aged(layers, key),
        in_layers(layers, p),
    ensures
        is_internal(p.0),
{
    let (i, r) = choose|i: int, r: int| #[trigger] in_run(layers, i, r, p);
    let run = layers[i].runs[r];
    assert(sorted_entries(layers[i].runs[r]));
    let x = choose|x: int| 0 <= x < run.len() && run[x] == p;
    assert(is_internal(run[x].0));
}

proof fn lemma_live_stays(
    before: Seq<Layer>,
    after: Seq<Layer>,
    key: Seq<u8>,
    snapshot_seq: u64,
    p: Pair,
)
    requires
        aged(before, key),
        aged(after, key),
        reads_alike(before, after, key, snapshot_seq),
        is_live(before, key, snapshot_seq, p),
    ensures
        is_live(after, key, snapshot_seq, p),
{
    lemma_in_layers_internal(before, key, p);
    lemma_internal_total_order(p.0, p.0, p.0);
    if !in_layers(after, p) {
        if exists|seq: u64| #[trigger]
            deletes_at(after, key, snapshot_seq, seq) && seq > seq_of(p.0) {
            let seq = choose|seq: u64| #[trigger]
                deletes_at(after, key, snapshot_seq, seq) && seq > seq_of(p.0);
            assert(deletes_at(before, key, snapshot_seq, seq));
            let (i, r, t) = choose|i: int, r: int, t: RangeTombstone| #[trigger]
                in_set(before, i, r, t) && t@.covers(key) && t.seq <= snapshot_seq && t.seq == seq;
            assert(t.seq < seq_of(p.0));
        } else {
            let j = choose|j: Pair| #[trigger]
                in_layers(after, j) && visible(j, key, snapshot_seq) && ik_lt(j.0, p.0);
            assert(in_layers(before, j));
            let (i, r) = choose|i: int, r: int| #[trigger] in_run(before, i, r, j);
            assert(ik_le(p.0, j.0));
            lemma_in_layers_internal(before, key, j);
            lemma_internal_total_order(p.0, j.0, p.0);
        }
    }
    assert forall|i: int, r: int, q: Pair|
        #[trigger] in_run(after, i, r, q) && visible(q, key, snapshot_seq) implies ik_le(
        p.0,
        q.0,
    ) by {
        assert(in_layers(after, q));
        assert(in_layers(before, q));
        let (a, b) = choose|i: int, r: int| #[trigger] in_run(before, i, r, q);
        assert(in_run(before, a, b, q));
    }
    assert forall|i: int, r: int, t: RangeTombstone|
        #[trigger] in_set(after, i, r, t) && t@.covers(key) && t.seq <= snapshot_seq implies t.seq
        < seq_of(p.0) by {
        assert(deletes_at(after, key, snapshot_seq, t.seq));
        assert(deletes_at(before, key, snapshot_seq, t.seq));
        let (a, b, u) = choose|a: int, b: int, u: RangeTombstone| #[trigger]
            in_set(before, a, b, u) && u@.covers(key) && u.seq <= snapshot_seq && u.seq == t.seq;
        assert(u.seq < seq_of(p.0));
    }
}

proof fn lemma_live_was(
    before: Seq<Layer>,
    after: Seq<Layer>,
    key: Seq<u8>,
    snapshot_seq: u64,
    p: Pair,
)
    requires
        aged(before, key),
        aged(after, key),
        reads_alike(before, after, key, snapshot_seq),
        is_live(after, key, snapshot_seq, p),
    ensures
        is_live(before, key, snapshot_seq, p),
{
    lemma_in_layers_internal(after, key, p);
    assert forall|i: int, r: int, q: Pair|
        #[trigger] in_run(before, i, r, q) && visible(q, key, snapshot_seq) implies ik_le(
        p.0,
        q.0,
    ) by {
        assert(in_layers(before, q));
        lemma_in_layers_internal(before, key, q);
        if in_layers(after, q) {
            let (a, b) = choose|i: int, r: int| #[trigger] in_run(after, i, r, q);
            assert(in_run(after, a, b, q));
        } else if exists|seq: u64| #[trigger]
            deletes_at(after, key, snapshot_seq, seq) && seq > seq_of(q.0) {
            let seq = choose|seq: u64| #[trigger]
                deletes_at(after, key, snapshot_seq, seq) && seq > seq_of(q.0);
            let (a, b, t) = choose|a: int, b: int, t: RangeTombstone| #[trigger]
                in_set(after, a, b, t) && t@.covers(key) && t.seq <= snapshot_seq && t.seq == seq;
            assert(t.seq < seq_of(p.0));
            lemma_internal_order(p.0, q.0);
        } else {
            let j = choose|j: Pair| #[trigger]
                in_layers(after, j) && visible(j, key, snapshot_seq) && ik_lt(j.0, q.0);
            let (a, b) = choose|i: int, r: int| #[trigger] in_run(after, i, r, j);
            assert(ik_le(p.0, j.0));
            lemma_in_layers_internal(after, key, j);
            lemma_internal_total_order(p.0, j.0, q.0);
        }
    }
    assert forall|i: int, r: int, t: RangeTombstone|
        #[trigger] in_set(before, i, r, t) && t@.covers(key) && t.seq <= snapshot_seq implies t.seq
        < seq_of(p.0) by {
        assert(deletes_at(before, key, snapshot_seq, t.seq));
        assert(deletes_at(after, key, snapshot_seq, t.seq));
        let (a, b, u) = choose|a: int, b: int, u: RangeTombstone| #[trigger]
            in_set(after, a, b, u) && u@.covers(key) && u.seq <= snapshot_seq && u.seq == t.seq;
        assert(u.seq < seq_of(p.0));
    }
}

/// Rewriting the tree in a way that [`reads_alike`] describes changes no
/// lookup: the same version is live, and a lookup says the same. Sequence
/// numbers of entries start at 1.
pub proof fn lemma_rewriting_keeps_lookups(
    before: Seq<Layer>,
    after: Seq<Layer>,
    key: Seq<u8>,
    snapshot_seq: u64,
)
    requires
        aged(before, key),
        aged(after, key),
        reads_alike(before, after, key, snapshot_seq),
        forall|p: Pair| #[trigger] in_layers(before, p) ==> seq_of(p.0) > 0,
    ensures
        forall|p: Pair| #[trigger]
            is_live(before, key, snapshot_seq, p) == is_live(after, key, snapshot_seq, p),
        walk(after, key, snapshot_seq, 0) == walk(before, key, snapshot_seq, 0),
{
    assert forall|p: Pair| #[trigger]
        is_live(before, key, snapshot_seq, p) == is_live(after, key, snapshot_seq, p) by {
        if is_live(before, key, snapshot_seq, p) {
            lemma_live_stays(before, after, key, snapshot_seq, p);
        }
        if is_live(after, key, snapshot_seq, p) {
            lemma_live_was(before, after, key, snapshot_seq, p);
        }
    }
    if exists|p: Pair| #[trigger] is_live(before, key, snapshot_seq, p) {
        let p = choose|p: Pair| #[trigger] is_live(before, key, snapshot_seq, p);
        lemma_walk_finds_live(before, key, snapshot_seq, p);
        lemma_walk_finds_live(after, key, snapshot_seq, p);
        assert(in_layers(before, p));
    } else {
        let any: Pair = (Seq::empty(), Seq::empty());
        assert forall|q: Pair| !#[trigger] is_live(after, key, snapshot_seq, q) by {
            assert(!is_live(before, key, snapshot_seq, q));
        }
        lemma_walk_finds_live(before, key, snapshot_seq, any);
        lemma_walk_finds_live(after, key, snapshot_seq, any);
    }
}

proof fn lemma_first_seq_from(layers: Seq<Layer>, n: int, key: Seq<u8>)
    requires
        aged(layers, key),
        0 <= n <= layers.len(),
    ensures
        forall|i: int, r: int, q: Pair|
            n <= i && #[trigger] in_run(layers, i, r, q) && user_of(q.0) == key ==> first_seq(
                layers.skip(n),
                key,
                u64::MAX,
            ) is Some && seq_of(q.0) <= first_seq(layers.skip(n), key, u64::MAX)->0,
    decreases layers.len() - n,
{
    if n < layers.len() {
        let rest = layers.skip(n);
        assert(rest[0] == layers[n]);
        assert(rest.skip(1) =~= layers.skip(n + 1));
        lemma_first_seq_from(layers, n + 1, key);
        let p = lemma_found_first(layers, n, 0, key, u64::MAX);
        assert(layers[n].runs.skip(0) =~= layers[n].runs);
        assert forall|i: int, r: int, q: Pair|
            n <= i && #[trigger] in_run(layers, i, r, q) && user_of(q.0) == key implies first_seq(
            rest,
            key,
            u64::MAX,
        ) is Some && seq_of(q.0) <= first_seq(rest, key, u64::MAX)->0 by {
            assert(visible(q, key, u64::MAX));
            match p {
                Some(f) => {
                    let s = choose|s: int| 0 <= s && #[trigger] in_run(layers, n, s, f);
                    lemma_in_layers_internal_at(layers, key, n, s, f);
                    lemma_in_layers_internal_at(layers, key, i, r, q);
                    if i == n {
                        assert(ik_le(f.0, q.0));
                    } else {
                        assert(ik_lt(f.0, q.0));
                    }
                    lemma_internal_order(f.0, q.0);
                    lemma_lex_order(key, key, key);
                },
                None => {
                    assert(i > n);
                },
            }
        }
    }
}

/// What stands in a run is under an internal key.
pub proof fn lemma_in_layers_internal_at(layers: Seq<Layer>, key: Seq<u8>, i: int, r: int, p: Pair)
    requires
        aged(layers, key),
        in_run(layers, i, r, p),
    ensures
        is_internal(p.0),
{
    let run = layers[i].runs[r];
    assert(sorted_entries(layers[i].runs[r]));
    let x = choose|x: int| 0 <= x < run.len() && run[x] == p;
    assert(is_internal(run[x].0));
}

/// The version that a lookup without a snapshot finds first is the newest of
/// all versions of the key in the tree.
pub proof fn lemma_first_seq_is_latest(layers: Seq<Layer>, key: Seq<u8>, p: Pair)
    requires
        aged(layers, key),
        in_layers(layers, p),
        user_of(p.0) == key,
    ensures
        first_seq(layers, key, u64::MAX) matches Some(seq) && seq_of(p.0) <= seq,
{
    let (i, r) = choose|i: int, r: int| #[trigger] in_run(layers, i, r, p);
    lemma_first_seq_from(layers, 0, key);
    assert(layers.skip(0) =~= layers);
    assert(in_run(layers, i, r, p));
}

proof fn lemma_found_first_at(runs: Seq<Seq<Pair>>, key: Seq<u8>) -> (at: (int, Pair))
    requires
        forall|r: int| 0 <= r < runs.len() ==> sorted_entries(#[trigger] runs[r]),
    ensures
        found_first(runs, key, u64::MAX) matches Some(f) ==> 0 <= at.0 < runs.len()
            && runs[at.0].contains(at.1) && user_of(at.1.0) == key && seq_of(at.1.0) == f.0,
    decreases runs.len(),
{
    if runs.len() == 0 {
        arbitrary()
    } else if found(runs[0], key, u64::MAX) is Some {
        lemma_newest(runs[0], key, u64::MAX);
        (0, newest(runs[0], key, u64::MAX)->0)
    } else {
        let rest = runs.skip(1);
        assert forall|r: int| 0 <= r < rest.len() implies sorted_entries(#[trigger] rest[r]) by {
            assert(rest[r] == runs[r + 1]);
        }
        let at = lemma_found_first_at(rest, key);
        (at.0 + 1, at.1)
    }
}

proof fn lemma_first_seq_at(layers: Seq<Layer>, key: Seq<u8>) -> (p: Pair)
    requires
        forall|i: int, r: int|
            0 <= i < layers.len() && 0 <= r < layers[i].runs.len() ==> sorted_entries(
                #[trigger] layers[i].runs[r],
            ),
    ensures
        first_seq(layers, key, u64::MAX) matches Some(seq) ==> in_layers(layers, p) && user_of(p.0)
            == key && seq_of(p.0) == seq,
    decreases layers.len(),
{
    if layers.len() == 0 {
        arbitrary()
    } else if found_first(layers[0].runs, key, u64::MAX) is Some {
        let (r, p) = lemma_found_first_at(layers[0].runs, key);
        assert(in_run(layers, 0, r, p));
        p
    } else {
        let rest = layers.skip(1);
        assert forall|i: int, r: int|
            0 <= i < rest.len() && 0 <= r < rest[i].runs.len() implies sorted_entries(
            #[trigger] rest[i].runs[r],
        ) by {
            assert(sorted_entries(layers[i + 1].runs[r]));
        }
        let p = lemma_first_seq_at(rest, key);
        if first_seq(rest, key, u64::MAX) is Some {
            let (i, r) = choose|i: int, r: int| #[trigger] in_run(rest, i, r, p);
            assert(in_run(layers, i + 1, r, p));
        }
        p
    }
}

/// The sequence number that a lookup without a snapshot finds first is that of
/// a version of the key.
pub proof fn lemma_first_seq_is_met(layers: Seq<Layer>, key: Seq<u8>)
    requires
        aged(layers, key),
    ensures
        first_seq(layers, key, u64::MAX) matches Some(seq) ==> exists|p: Pair| #[trigger]
            in_layers(layers, p) && user_of(p.0) == key && seq_of(p.0) == seq,
{
    let p = lemma_first_seq_at(layers, key);
}

} // verus!
