//! What merge operands come to, said of the versions of a key and of their
//! sequence numbers alone: by a lookup, by a scan, and before and after a
//! compaction.

use super::age_laws::in_age_order;
use super::age_laws::lemma_age_order_serves_lookups;
use super::block::sorted_entries;
use super::block_entry::Pair;
use super::chain_laws::cat;
use super::chain_laws::lemma_cat;
use super::chain_laws::lemma_chain_is_until;
use super::chain_laws::lemma_seen;
use super::chain_laws::lemma_walk_is_newest;
use super::chain_laws::lemma_walk_is_one_chain;
use super::chain_laws::link_of;
use super::chain_laws::seen;
use super::chain_laws::until;
use super::compaction::compacts;
use super::compaction::lemma_collapsed_group;
use super::compaction::lemma_collapsed_sorted;
use super::compaction::lemma_collected_drops;
use super::compaction::lemma_merged_members;
use super::compaction::lemma_unshadowed_drops;
use super::compaction::may_compact;
use super::compaction::one_value;
use super::compaction_laws::has_table;
use super::compaction_laws::in_memory;
use super::compaction_laws::in_tables;
use super::compaction_laws::lemma_in_layers;
use super::compaction_laws::table_at;
use super::compaction_merge::base_of;
use super::compaction_merge::is_last_group;
use super::compaction_merge::lemma_collected_sorted;
use super::compaction_merge::lemma_operand_count;
use super::compaction_merge::lemma_unshadowed_sorted;
use super::compaction_merge::may_collapse;
use super::compaction_merge::may_collapse_all;
use super::compaction_merge::may_fold;
use super::compaction_merge::may_fold_on;
use super::compaction_merge::operand_count;
use super::compaction_merge::operands_oldest_first;
use super::compaction_merge::shadowed;
use super::compaction_merge::terminator;
use super::compaction_merge::unshadowed;
use super::copy_laws::in_tables_alone;
use super::hooks::opt_bytes;
use super::hooks::CompactionFilter;
use super::hooks::MergeOperator;
use super::internal_key::ik_lt;
use super::internal_key::internal_key;
use super::internal_key::is_internal;
use super::internal_key::lemma_decode_encoded;
use super::internal_key::lemma_internal_order;
use super::internal_key::lemma_internal_total_order;
use super::internal_key::seq_of;
use super::internal_key::type_of;
use super::internal_key::user_of;
use super::internal_key::VALUE_TYPE_DELETION;
use super::internal_key::VALUE_TYPE_MERGE;
use super::internal_key::VALUE_TYPE_VALUE;
use super::iterator::is_at;
use super::iterator::op_may;
use super::iterator::tells;
use super::lark_engine::holds_data;
use super::lark_engine::no_tables;
use super::lookup::chain_base;
use super::lookup::chain_operand_count;
use super::lookup::chain_operands;
use super::lookup::taken;
use super::lookup::walk;
use super::lookup::walk_chain;
use super::memtable::lemma_user_ascends;
use super::order_laws::in_order;
use super::range_tombstone::holds;
use super::range_tombstone::lemma_max_covering;
use super::range_tombstone::max_covering;
use super::range_tombstone::tombstone_views;
use super::range_tombstone::RangeTombstone;
use super::range_tombstone::TombstoneView;
use super::read_view::may_read;
use super::read_view::says;
use super::read_view::ReadView;
use super::scan::lemma_no_version;
use super::scan::Scan;
use super::scan_laws::is_scan_of;
use super::scan_laws::lemma_covering_all;
use super::sstable::LiveSst;
use super::versions::lemma_one_value;
use super::versions::Link;
use crate::bytes::lemma_lex_irreflexive;
use crate::bytes::lemma_lex_order;
use crate::error::Error;
use crate::error::ErrorKind;
use std::sync::Arc;
use vstd::prelude::*;

verus! {

// ── Which operands, on which value ───────────────────────────────

/// The operand counts: no tombstone up to `h` hides it, and every value and
/// every deletion of the key is older.
pub open spec fn counts(vs: Set<Pair>, h: u64, p: Pair) -> bool {
    &&& vs.contains(p)
    &&& type_of(p.0) == VALUE_TYPE_MERGE
    &&& seq_of(p.0) > h
    &&& forall|q: Pair| #[trigger]
        vs.contains(q) && type_of(q.0) != VALUE_TYPE_MERGE ==> seq_of(q.0) < seq_of(p.0)
}

/// The value is what the operands are layered on: no tombstone hides it, and
/// every other value and every deletion is older.
pub open spec fn underlies(vs: Set<Pair>, h: u64, p: Pair) -> bool {
    &&& vs.contains(p)
    &&& type_of(p.0) == VALUE_TYPE_VALUE
    &&& seq_of(p.0) > h
    &&& forall|q: Pair| #[trigger]
        vs.contains(q) && type_of(q.0) != VALUE_TYPE_MERGE && q != p ==> seq_of(q.0) < seq_of(p.0)
}

/// `ps` are the operands that count, and their sequence numbers ascend.
pub open spec fn ascend(vs: Set<Pair>, h: u64, ps: Seq<Pair>) -> bool {
    &&& forall|i: int, j: int|
        0 <= i < j < ps.len() ==> seq_of((#[trigger] ps[i]).0) < seq_of((#[trigger] ps[j]).0)
    &&& forall|p: Pair| #[trigger] ps.contains(p) <==> counts(vs, h, p)
}

/// `base` is the value that the operands are layered on.
pub open spec fn based_on(vs: Set<Pair>, h: u64, base: Option<Seq<u8>>) -> bool {
    match base {
        Some(v) => exists|p: Pair| #[trigger] underlies(vs, h, p) && p.1 == v,
        None => forall|p: Pair| !#[trigger] underlies(vs, h, p),
    }
}

/// The versions come to these operands on this base: the operands are the
/// values of those that count, from the smallest sequence number to the
/// largest.
pub open spec fn comes_to(
    vs: Set<Pair>,
    h: u64,
    base: Option<Seq<u8>>,
    operands: Seq<Seq<u8>>,
) -> bool {
    &&& based_on(vs, h, base)
    &&& exists|ps: Seq<Pair>| #[trigger]
        ascend(vs, h, ps) && operands.len() == ps.len() && forall|j: int|
            0 <= j < ps.len() ==> operands[j] == (#[trigger] ps[j]).1
}

/// `r` is what a read may say of the versions: without operands the value that
/// would underlie them; otherwise what the operator makes of them, and where it
/// makes nothing, that the data is invalid.
pub open spec fn merged_read<M: MergeOperator>(
    op: M,
    key: Seq<u8>,
    vs: Set<Pair>,
    h: u64,
    r: Result<Option<Seq<u8>>, ErrorKind>,
) -> bool {
    exists|base: Option<Seq<u8>>, operands: Seq<Seq<u8>>| #[trigger]
        comes_to(vs, h, base, operands) && if operands.len() == 0 {
            r == Ok::<Option<Seq<u8>>, ErrorKind>(base)
        } else {
            exists|made: Option<Seq<u8>>| #[trigger]
                op.full_may(key, base, operands, made) && r == match made {
                    Some(v) => Ok::<Option<Seq<u8>>, ErrorKind>(Some(v)),
                    None => Err(ErrorKind::InvalidData),
                }
        }
}

/// What a result says.
pub open spec fn result_of(r: Result<Option<Vec<u8>>, Error>) -> Result<
    Option<Seq<u8>>,
    ErrorKind,
> {
    match r {
        Ok(v) => Ok(opt_bytes(v)),
        Err(e) => Err(e.kind),
    }
}

/// The versions are of one key, have one of the known types, and one key and
/// type makes one version.
pub open spec fn one_key(vs: Set<Pair>, key: Seq<u8>) -> bool {
    &&& forall|p: Pair| #[trigger]
        vs.contains(p) ==> is_internal(p.0) && user_of(p.0) == key && type_of(p.0)
            <= VALUE_TYPE_MERGE
    &&& forall|p: Pair, q: Pair| #[trigger]
        vs.contains(p) && #[trigger] vs.contains(q) && p.0 == q.0 ==> p == q
}

// ── A chain ──────────────────────────────────────────────────────

/// Where what is taken of a run stops.
proof fn lemma_taken_shape(a: Seq<Pair>, h: u64) -> (n: int)
    ensures
        0 <= n <= a.len(),
        forall|i: int|
            0 <= i < n ==> type_of((#[trigger] a[i]).0) == VALUE_TYPE_MERGE && seq_of(a[i].0) > h
                && taken(until(a), h)[i] == link_of(a[i]),
        taken(until(a), h).len() == if n == a.len() {
            n
        } else {
            n + 1
        },
        n < a.len() ==> if seq_of(a[n].0) <= h {
            taken(until(a), h)[n].1 == VALUE_TYPE_DELETION
        } else {
            type_of(a[n].0) != VALUE_TYPE_MERGE && taken(until(a), h)[n] == link_of(a[n])
        },
    decreases a.len(),
{
    if a.len() == 0 {
        0
    } else {
        let ls = until(a);
        let t = taken(ls, h);
        let rest = a.skip(1);
        assert(ls[0] == link_of(a[0]));
        if seq_of(a[0].0) <= h || type_of(a[0].0) != VALUE_TYPE_MERGE {
            0
        } else {
            let k = lemma_taken_shape(rest, h);
            assert(ls.skip(1) =~= until(rest));
            assert forall|i: int| 0 <= i < k + 1 implies type_of((#[trigger] a[i]).0)
                == VALUE_TYPE_MERGE && seq_of(a[i].0) > h && t[i] == link_of(a[i]) by {
                if i > 0 {
                    assert(rest[i - 1] == a[i]);
                    assert(t[i] == taken(until(rest), h)[i - 1]);
                }
            }
            if k + 1 < a.len() {
                assert(rest[k] == a[k + 1]);
                assert(t[k + 1] == taken(until(rest), h)[k]);
            }
            k + 1
        }
    }
}

/// In a run of versions of one key the sequence numbers do not ascend, and a
/// value or a deletion comes before the operand with its number.
proof fn lemma_run_descends(a: Seq<Pair>, key: Seq<u8>, i: int, j: int)
    requires
        sorted_entries(a),
        forall|k: int|
            0 <= k < a.len() ==> user_of((#[trigger] a[k]).0) == key && type_of(a[k].0)
                <= VALUE_TYPE_MERGE,
        0 <= i < j < a.len(),
    ensures
        seq_of(a[i].0) >= seq_of(a[j].0),
        seq_of(a[i].0) == seq_of(a[j].0) ==> type_of(a[i].0) < type_of(a[j].0),
{
    lemma_internal_order(a[i].0, a[j].0);
    lemma_lex_irreflexive(key);
}

/// What is taken of a run of versions of one key is what the versions come to.
proof fn lemma_taken_comes_to(a: Seq<Pair>, key: Seq<u8>, vs: Set<Pair>, h: u64)
    requires
        sorted_entries(a),
        one_key(vs, key),
        forall|p: Pair| #[trigger] vs.contains(p) == a.contains(p),
    ensures
        comes_to(
            vs,
            h,
            chain_base(taken(until(a), h)),
            chain_operands(taken(until(a), h)),
        ),
{
    let c = taken(until(a), h);
    let n = lemma_taken_shape(a, h);
    assert forall|k: int| 0 <= k < a.len() implies vs.contains(#[trigger] a[k]) by {
        assert(a.contains(a[k]));
    }
    assert(c.len() > 0 ==> c.last() == c[c.len() - 1]);
    assert(chain_operand_count(c) == n);
    let ps = Seq::new(n as nat, |i: int| a[n - 1 - i]);
    let operands = chain_operands(c);
    assert forall|i: int, j: int| 0 <= i < j < ps.len() implies seq_of((#[trigger] ps[i]).0)
        < seq_of((#[trigger] ps[j]).0) by {
        lemma_run_descends(a, key, n - 1 - j, n - 1 - i);
    }
    assert forall|p: Pair| #[trigger] ps.contains(p) <==> counts(vs, h, p) by {
        if ps.contains(p) {
            let i = choose|i: int| 0 <= i < ps.len() && ps[i] == p;
            let k = n - 1 - i;
            assert(a[k] == p);
            assert forall|q: Pair| #[trigger]
                vs.contains(q) && type_of(q.0) != VALUE_TYPE_MERGE implies seq_of(q.0) < seq_of(
                p.0,
            ) by {
                let j = choose|j: int| 0 <= j < a.len() && a[j] == q;
                lemma_run_descends(a, key, k, j);
            }
        }
        if counts(vs, h, p) {
            let k = choose|k: int| 0 <= k < a.len() && a[k] == p;
            if k >= n {
                if k > n {
                    lemma_run_descends(a, key, n, k);
                }
                assert(vs.contains(a[n]));
                assert(false);
            }
            assert(ps[n - 1 - k] == p);
        }
    }
    assert(ascend(vs, h, ps));
    assert forall|j: int| 0 <= j < ps.len() implies operands[j] == (#[trigger] ps[j]).1 by {
        assert(c[n - 1 - j] == link_of(a[n - 1 - j]));
    }
    match chain_base(c) {
        Some(v) => {
            assert(n < a.len());
            let p = a[n];
            assert forall|q: Pair| #[trigger]
                vs.contains(q) && type_of(q.0) != VALUE_TYPE_MERGE && q != p implies seq_of(q.0)
                < seq_of(p.0) by {
                let j = choose|j: int| 0 <= j < a.len() && a[j] == q;
                lemma_run_descends(a, key, n, j);
            }
            assert(underlies(vs, h, p) && p.1 == v);
        },
        None => {
            assert forall|p: Pair| !#[trigger] underlies(vs, h, p) by {
                if underlies(vs, h, p) {
                    let k = choose|k: int| 0 <= k < a.len() && a[k] == p;
                    assert(k >= n);
                    if k > n {
                        lemma_run_descends(a, key, n, k);
                        assert(vs.contains(a[n]));
                    }
                    assert(false);
                }
            }
        },
    }
}

// ── Lookups ──────────────────────────────────────────────────────

/// The versions of a key that a view has at a snapshot.
pub open spec fn met(v: ReadView, key: Seq<u8>, snapshot_seq: u64) -> Set<Pair> {
    Set::new(|p: Pair| v.meets(p) && user_of(p.0) == key && seq_of(p.0) <= snapshot_seq)
}

/// `h` is the sequence number of the newest tombstone over the key that a view
/// has at a snapshot, and 0 where there is none.
pub open spec fn newest_over(v: ReadView, key: Seq<u8>, snapshot_seq: u64, h: u64) -> bool {
    &&& forall|t: TombstoneView| #[trigger]
        v.deletes(t) && t.covers(key) && t.seq <= snapshot_seq ==> t.seq <= h
    &&& h == 0 || exists|t: TombstoneView| #[trigger]
        v.deletes(t) && t.covers(key) && t.seq <= snapshot_seq && t.seq == h
}

/// A lookup with a merge operator hands it the operands of the key that it
/// sees, from the smallest sequence number to the largest, each of them once:
/// all that are newer than the newest tombstone and than every value and
/// deletion. They are layered on the newest value, unless something newer
/// deletes it.
pub proof fn lemma_lookups_merge_in_order<M: MergeOperator>(
    v: ReadView,
    op: M,
    key: Seq<u8>,
    snapshot_seq: u64,
    h: u64,
    r: Result<Option<Vec<u8>>, Error>,
)
    requires
        v.wf(),
        in_order(v),
        newest_over(v, key, snapshot_seq, h),
        may_read(op, key, walk_chain(v.layers(key), key, snapshot_seq, 0), r),
    ensures
        merged_read(op, key, met(v, key, snapshot_seq), h, result_of(r)),
{
    let ls = v.layers(key);
    let vs = met(v, key, snapshot_seq);
    let a = cat(ls, key, snapshot_seq);
    assert(in_age_order(v, key));
    lemma_age_order_serves_lookups(v, key);
    lemma_cat(ls, key, snapshot_seq);
    lemma_walk_is_one_chain(ls, key, snapshot_seq, 0);
    lemma_covering_all(v, key, snapshot_seq, h);
    assert forall|p: Pair| #[trigger] vs.contains(p) == a.contains(p) by {
        if user_of(p.0) == key {
            lemma_in_layers(v, key, p);
        }
    }
    assert forall|p: Pair| #[trigger] vs.contains(p) implies is_internal(p.0) by {
        let i = choose|i: int| 0 <= i < a.len() && a[i] == p;
        assert(is_internal(a[i].0));
    }
    assert forall|p: Pair, q: Pair| #[trigger]
        vs.contains(p) && #[trigger] vs.contains(q) && p.0 == q.0 implies p == q by {
        let i = choose|i: int| 0 <= i < a.len() && a[i] == p;
        let j = choose|j: int| 0 <= j < a.len() && a[j] == q;
        lemma_one_value(a, i, j);
    }
    lemma_taken_comes_to(a, key, vs, h);
    lemma_reads_chain(op, key, taken(until(a), h), vs, h, r);
}

/// The version comes before all others: it is the newest.
pub open spec fn is_newest(vs: Set<Pair>, p: Pair) -> bool {
    vs.contains(p) && forall|q: Pair| #[trigger] vs.contains(q) && q != p ==> ik_lt(p.0, q.0)
}

/// `found` is what the newest version says: the value of a put, the bytes of an
/// operand as they are, and nothing where it is a deletion or no newer than a
/// tombstone, or where there is no version.
pub open spec fn plain_read(vs: Set<Pair>, h: u64, found: Option<Seq<u8>>) -> bool {
    match found {
        Some(v) => exists|p: Pair| #[trigger]
            is_newest(vs, p) && seq_of(p.0) > h && type_of(p.0) != VALUE_TYPE_DELETION && p.1 == v,
        None => forall|p: Pair| #[trigger]
            is_newest(vs, p) ==> seq_of(p.0) <= h || type_of(p.0) == VALUE_TYPE_DELETION,
    }
}

/// A plain lookup says what the newest version of the key says that it sees.
pub proof fn lemma_plain_lookups_find_the_newest(
    v: ReadView,
    key: Seq<u8>,
    snapshot_seq: u64,
    h: u64,
)
    requires
        v.wf(),
        in_order(v),
        newest_over(v, key, snapshot_seq, h),
    ensures
        plain_read(met(v, key, snapshot_seq), h, walk(v.layers(key), key, snapshot_seq, 0)),
{
    let ls = v.layers(key);
    let vs = met(v, key, snapshot_seq);
    let a = cat(ls, key, snapshot_seq);
    assert(in_age_order(v, key));
    lemma_age_order_serves_lookups(v, key);
    lemma_cat(ls, key, snapshot_seq);
    lemma_walk_is_newest(ls, key, snapshot_seq, 0);
    lemma_covering_all(v, key, snapshot_seq, h);
    assert forall|q: Pair| #[trigger] vs.contains(q) == a.contains(q) by {
        if user_of(q.0) == key {
            lemma_in_layers(v, key, q);
        }
    }
    if a.len() > 0 {
        assert(a.contains(a[0]));
        assert(vs.contains(a[0]));
        assert forall|q: Pair| #[trigger] vs.contains(q) && q != a[0] implies ik_lt(a[0].0, q.0) by {
            let i = choose|i: int| 0 <= i < a.len() && a[i] == q;
            assert(ik_lt(a[0].0, a[i].0));
        }
        assert(is_newest(vs, a[0]));
        assert forall|p: Pair| #[trigger] is_newest(vs, p) implies p == a[0] by {
            if p != a[0] {
                let i = choose|i: int| 0 <= i < a.len() && a[i] == p;
                lemma_internal_total_order(a[0].0, a[i].0, a[0].0);
            }
        }
    }
}

/// What a read makes of a chain is what it may make of the versions that come
/// to that chain.
proof fn lemma_reads_chain<M: MergeOperator>(
    op: M,
    key: Seq<u8>,
    c: Seq<Link>,
    vs: Set<Pair>,
    h: u64,
    r: Result<Option<Vec<u8>>, Error>,
)
    requires
        comes_to(vs, h, chain_base(c), chain_operands(c)),
        may_read(op, key, c, r),
    ensures
        merged_read(op, key, vs, h, result_of(r)),
{
    let (base, operands) = (chain_base(c), chain_operands(c));
    if operands.len() > 0 {
        let made = choose|made: Option<Seq<u8>>| #[trigger]
            op.full_may(key, base, operands, made) && says(made, r);
        assert(op.full_may(key, base, operands, made));
    }
    assert(comes_to(vs, h, base, operands));
}

/// Of a chain whose links descend, the operands that a read hands to the
/// operator ascend: operand `j` is that with the smallest sequence number but
/// `j`, with a base and without one.
pub proof fn lemma_operands_ascend(c: Seq<Link>, j: int)
    requires
        forall|i: int, k: int| 0 <= i < k < c.len() ==> (#[trigger] c[i]).0 > (#[trigger] c[k]).0,
        forall|i: int| 0 <= i < c.len() ==> (#[trigger] c[i]).1 <= VALUE_TYPE_MERGE,
        forall|i: int| 0 <= i < c.len() - 1 ==> (#[trigger] c[i]).1 == VALUE_TYPE_MERGE,
        0 <= j < chain_operands(c).len(),
    ensures
        exists|i: int|
            0 <= i < c.len() && (#[trigger] c[i]).1 == VALUE_TYPE_MERGE && c[i].2
                == chain_operands(c)[j] && is_rank(c, c[i].0, j),
        chain_operands(c).len() == c.len() || c.last().1 != VALUE_TYPE_MERGE
            && chain_operands(c).len() == c.len() - 1,
{
    let n = chain_operands(c).len() as int;
    let i = n - 1 - j;
    assert(c[c.len() - 1] == c.last());
    assert(c[i].1 == VALUE_TYPE_MERGE);
    assert forall|k: int| 0 <= k < n implies (#[trigger] c[k]).0 < c[i].0 <==> k > i by {}
    assert(is_rank(c, c[i].0, j)) by {
        let below = |k: int| 0 <= k < c.len() && c[k].1 == VALUE_TYPE_MERGE && c[k].0 < c[i].0;
        assert forall|k: int| i + 1 <= k < n implies #[trigger] below(k) by {
            assert(c[k].0 < c[i].0);
        }
        assert forall|k: int| #[trigger] below(k) implies i + 1 <= k < n by {
            if k <= i {
                assert(k == i || c[k].0 > c[i].0);
            }
        }
        vstd::set_lib::lemma_int_range(i + 1, n);
        assert(Set::new(below) =~= vstd::set_lib::set_int_range(i + 1, n));
    }
}

/// `j` operands of the chain have a smaller sequence number.
pub open spec fn is_rank(c: Seq<Link>, seq: u64, j: int) -> bool {
    Set::new(
        |k: int| 0 <= k < c.len() && c[k].1 == VALUE_TYPE_MERGE && c[k].0 < seq,
    ).len() == j
}

// ── Scans ────────────────────────────────────────────────────────

/// The versions of a key that a scan goes over.
pub open spec fn scanned(scan: Scan, key: Seq<u8>) -> Set<Pair> {
    Set::new(
        |p: Pair|
            scan.all.contains(p) && user_of(p.0) == key && seq_of(p.0) <= scan.snapshot_seq,
    )
}

/// A tombstone of the scan hides what has a sequence number up to `h`: it hides
/// what it is strictly newer than.
pub open spec fn hides_up_to(scan: Scan, key: Seq<u8>, h: u64) -> bool {
    &&& forall|t: TombstoneView| #[trigger]
        holds(scan.rts, t) && t.covers(key) && t.seq <= scan.snapshot_seq ==> t.seq <= h + 1
    &&& h == 0 || exists|t: TombstoneView| #[trigger]
        holds(scan.rts, t) && t.covers(key) && t.seq <= scan.snapshot_seq && t.seq == h + 1
}

proof fn lemma_scan_comes_to(scan: Scan, key: Seq<u8>, h: u64)
    requires
        scan.wf(),
        hides_up_to(scan, key, h),
    ensures
        scan.rt(key) == h,
        comes_to(
            scanned(scan, key),
            h,
            chain_base(taken(scan.chain(key), h)),
            chain_operands(taken(scan.chain(key), h)),
        ),
{
    let s = scan.snapshot_seq;
    let vs = scanned(scan, key);
    let a = seen(scan.all, key, s);
    let m = max_covering(scan.rts, key, s);
    lemma_max_covering(scan.rts, key, s);
    if m != 0 {
        let i = choose|i: int|
            0 <= i < scan.rts.len() && (#[trigger] scan.rts[i])@.covers(key) && scan.rts[i].seq <= s
                && scan.rts[i].seq == m;
        assert(holds(scan.rts, scan.rts[i]@));
    }
    if h != 0 {
        let t = choose|t: TombstoneView| #[trigger]
            holds(scan.rts, t) && t.covers(key) && t.seq <= s && t.seq == h + 1;
        let i = choose|i: int| 0 <= i < scan.rts.len() && (#[trigger] scan.rts[i])@ == t;
        assert(scan.rts[i].seq == h + 1);
    }
    lemma_seen(scan.all, key, s);
    lemma_chain_is_until(scan.all, key, s);
    assert forall|p: Pair| #[trigger] vs.contains(p) == a.contains(p) by {}
    assert forall|p: Pair| #[trigger] vs.contains(p) implies is_internal(p.0) && type_of(p.0)
        <= VALUE_TYPE_MERGE by {
        let i = choose|i: int| 0 <= i < scan.all.len() && scan.all[i] == p;
        assert(is_internal(scan.all[i].0));
    }
    assert forall|p: Pair, q: Pair| #[trigger]
        vs.contains(p) && #[trigger] vs.contains(q) && p.0 == q.0 implies p == q by {
        let i = choose|i: int| 0 <= i < a.len() && a[i] == p;
        let j = choose|j: int| 0 <= j < a.len() && a[j] == q;
        lemma_one_value(a, i, j);
    }
    lemma_taken_comes_to(a, key, vs, h);
}

/// Where a scan with a merge operator stands at a key, it says of the versions
/// of that key what a read may say: the operands go to the operator from the
/// smallest sequence number to the largest, on the newest value, and a failure
/// of the operator is told as one.
pub proof fn lemma_scans_merge_in_order<M: MergeOperator>(
    scan: Scan,
    op: M,
    key: Seq<u8>,
    h: u64,
    current: Option<Pair>,
    error: Option<Error>,
)
    requires
        scan.wf(),
        hides_up_to(scan, key, h),
        tells(scan, Some(&op), Some(key), current, error),
    ensures
        merged_read(
            op,
            key,
            scanned(scan, key),
            h,
            match error {
                Some(e) => Err(e.kind),
                None => Ok(Some((current->0).1)),
            },
        ),
        match error {
            Some(_) => current is None,
            None => current is Some && (current->0).0 == key,
        },
{
    lemma_scan_comes_to(scan, key, h);
    let c = taken(scan.chain(key), h);
    let vs = scanned(scan, key);
    let (base, operands) = (chain_base(c), chain_operands(c));
    assert(comes_to(vs, h, base, operands));
    if operands.len() > 0 {
        let made = choose|made: Option<Seq<u8>>| #[trigger]
            op_may(Some(&op), key, base, operands, made) && match made {
                Some(v) => is_at(current, key, v) && error is None,
                None => current is None && (error matches Some(e) && e.kind
                    == ErrorKind::InvalidData),
            };
        assert(op.full_may(key, base, operands, made));
    }
}

/// A scan stops at the keys that come to something: at a value that no
/// tombstone hides, or, with a merge operator, at operands. Without an operator
/// it goes past operands.
pub proof fn lemma_scans_stop_where_something_is(
    scan: Scan,
    key: Seq<u8>,
    h: u64,
    base: Option<Seq<u8>>,
    operands: Seq<Seq<u8>>,
)
    requires
        scan.wf(),
        hides_up_to(scan, key, h),
        comes_to(scanned(scan, key), h, base, operands),
    ensures
        scan.shows(key) == if operands.len() == 0 {
            base is Some
        } else {
            scan.merges
        },
{
    lemma_scan_comes_to(scan, key, h);
    let c = taken(scan.chain(key), h);
    lemma_comes_to_one_thing(
        scanned(scan, key),
        h,
        base,
        operands,
        chain_base(c),
        chain_operands(c),
    );
}

/// Versions come to one thing.
pub proof fn lemma_comes_to_one_thing(
    vs: Set<Pair>,
    h: u64,
    base: Option<Seq<u8>>,
    operands: Seq<Seq<u8>>,
    other_base: Option<Seq<u8>>,
    other_operands: Seq<Seq<u8>>,
)
    requires
        comes_to(vs, h, base, operands),
        comes_to(vs, h, other_base, other_operands),
    ensures
        base == other_base,
        operands == other_operands,
{
    if base is Some && other_base is Some {
        let p = choose|p: Pair| #[trigger] underlies(vs, h, p) && p.1 == base->0;
        let q = choose|q: Pair| #[trigger] underlies(vs, h, q) && q.1 == other_base->0;
        assert(vs.contains(p) && vs.contains(q));
        assert(p == q);
    }
    let ps = choose|ps: Seq<Pair>| #[trigger]
        ascend(vs, h, ps) && operands.len() == ps.len() && forall|j: int|
            0 <= j < ps.len() ==> operands[j] == (#[trigger] ps[j]).1;
    let qs = choose|qs: Seq<Pair>| #[trigger]
        ascend(vs, h, qs) && other_operands.len() == qs.len() && forall|j: int|
            0 <= j < qs.len() ==> other_operands[j] == (#[trigger] qs[j]).1;
    assert forall|p: Pair| #[trigger] ps.contains(p) == qs.contains(p) by {
        assert(counts(vs, h, p) == ps.contains(p));
        assert(counts(vs, h, p) == qs.contains(p));
    }
    lemma_same_ascending(ps, qs);
    assert forall|j: int| 0 <= j < operands.len() implies operands[j] == other_operands[j] by {
        assert(operands[j] == ps[j].1);
    }
    assert(operands =~= other_operands);
}

/// Lists with the same members, both ascending, are the same.
proof fn lemma_same_ascending(a: Seq<Pair>, b: Seq<Pair>)
    requires
        forall|i: int, j: int|
            0 <= i < j < a.len() ==> seq_of((#[trigger] a[i]).0) < seq_of((#[trigger] a[j]).0),
        forall|i: int, j: int|
            0 <= i < j < b.len() ==> seq_of((#[trigger] b[i]).0) < seq_of((#[trigger] b[j]).0),
        forall|p: Pair| #[trigger] a.contains(p) == b.contains(p),
    ensures
        a == b,
    decreases a.len(),
{
    if a.len() == 0 {
        if b.len() > 0 {
            assert(b.contains(b[0]));
            assert(a.contains(b[0]));
        }
        assert(a =~= b);
    } else {
        assert(a.contains(a[a.len() - 1]));
        assert(b.len() > 0);
        let (x, y) = (a.last(), b.last());
        assert(b.contains(b[b.len() - 1]));
        assert(a.contains(b[b.len() - 1]));
        let i = choose|i: int| 0 <= i < b.len() && b[i] == x;
        let j = choose|j: int| 0 <= j < a.len() && a[j] == y;
        assert(a[a.len() - 1] == x && b[b.len() - 1] == y);
        assert(x == y);
        let (c, d) = (a.drop_last(), b.drop_last());
        assert forall|p: Pair| #[trigger] c.contains(p) == d.contains(p) by {
            if c.contains(p) {
                let k = choose|k: int| 0 <= k < c.len() && c[k] == p;
                assert(a[k] == p);
                assert(a.contains(p));
                let l = choose|l: int| 0 <= l < b.len() && b[l] == p;
                assert(seq_of(a[k].0) < seq_of(a[a.len() - 1].0));
                assert(d[l] == p);
            }
            if d.contains(p) {
                let k = choose|k: int| 0 <= k < d.len() && d[k] == p;
                assert(b[k] == p);
                assert(b.contains(p));
                assert(a.contains(p));
                let l = choose|l: int| 0 <= l < a.len() && a[l] == p;
                assert(seq_of(b[k].0) < seq_of(b[b.len() - 1].0));
                assert(c[l] == p);
            }
        }
        lemma_same_ascending(c, d);
        assert(c.push(x) =~= a);
        assert(d.push(y) =~= b);
    }
}

// ── Rewriting versions ───────────────────────────────────────────

/// `after` is `before` without versions that a read past tombstones up to `h`
/// can do without: what is gone is hidden, or a value or a deletion that stays
/// is newer.
pub open spec fn does_without(before: Set<Pair>, after: Set<Pair>, h: u64) -> bool {
    &&& forall|p: Pair| #[trigger] after.contains(p) ==> before.contains(p)
    &&& forall|p: Pair| #[trigger]
        before.contains(p) && !after.contains(p) ==> seq_of(p.0) <= h || exists|q: Pair| #[trigger]
            after.contains(q) && type_of(q.0) != VALUE_TYPE_MERGE && ik_lt(q.0, p.0)
}

proof fn lemma_older(vs: Set<Pair>, key: Seq<u8>, q: Pair, p: Pair)
    requires
        one_key(vs, key),
        vs.contains(p),
        vs.contains(q),
        ik_lt(q.0, p.0),
    ensures
        seq_of(q.0) >= seq_of(p.0),
        seq_of(q.0) == seq_of(p.0) ==> type_of(q.0) < type_of(p.0),
        q != p,
{
    lemma_internal_order(q.0, p.0);
    lemma_lex_irreflexive(key);
}

/// Dropping what a read can do without changes nothing of what the versions
/// come to.
pub proof fn lemma_doing_without_changes_no_read(
    before: Set<Pair>,
    after: Set<Pair>,
    key: Seq<u8>,
    h: u64,
    base: Option<Seq<u8>>,
    operands: Seq<Seq<u8>>,
)
    requires
        one_key(before, key),
        does_without(before, after, h),
    ensures
        comes_to(after, h, base, operands) == comes_to(before, h, base, operands),
{
    assert forall|p: Pair| counts(after, h, p) == #[trigger] counts(before, h, p) by {
        if counts(before, h, p) {
            if !after.contains(p) {
                let q = choose|q: Pair| #[trigger]
                    after.contains(q) && type_of(q.0) != VALUE_TYPE_MERGE && ik_lt(q.0, p.0);
                assert(before.contains(q));
                lemma_older(before, key, q, p);
                assert(false);
            }
            assert forall|q: Pair| #[trigger]
                after.contains(q) && type_of(q.0) != VALUE_TYPE_MERGE implies seq_of(q.0) < seq_of(
                p.0,
            ) by {
                assert(before.contains(q));
            }
            assert(counts(after, h, p));
        }
        if counts(after, h, p) {
            assert(before.contains(p));
            assert forall|q: Pair| #[trigger]
                before.contains(q) && type_of(q.0) != VALUE_TYPE_MERGE implies seq_of(q.0) < seq_of(
                p.0,
            ) by {
                if !after.contains(q) && seq_of(q.0) > h {
                    let x = choose|x: Pair| #[trigger]
                        after.contains(x) && type_of(x.0) != VALUE_TYPE_MERGE && ik_lt(x.0, q.0);
                    assert(before.contains(x));
                    lemma_older(before, key, x, q);
                }
            }
        }
    }
    assert forall|p: Pair| underlies(after, h, p) == #[trigger] underlies(before, h, p) by {
        if underlies(before, h, p) {
            if !after.contains(p) {
                let q = choose|q: Pair| #[trigger]
                    after.contains(q) && type_of(q.0) != VALUE_TYPE_MERGE && ik_lt(q.0, p.0);
                assert(before.contains(q));
                lemma_older(before, key, q, p);
                assert(false);
            }
            assert forall|q: Pair| #[trigger]
                after.contains(q) && type_of(q.0) != VALUE_TYPE_MERGE && q != p implies seq_of(q.0)
                < seq_of(p.0) by {
                assert(before.contains(q));
            }
            assert(underlies(after, h, p));
        }
        if underlies(after, h, p) {
            assert(before.contains(p));
            assert forall|q: Pair| #[trigger]
                before.contains(q) && type_of(q.0) != VALUE_TYPE_MERGE && q != p implies seq_of(q.0)
                < seq_of(p.0) by {
                if !after.contains(q) && seq_of(q.0) > h {
                    let x = choose|x: Pair| #[trigger]
                        after.contains(x) && type_of(x.0) != VALUE_TYPE_MERGE && ik_lt(x.0, q.0);
                    assert(before.contains(x));
                    lemma_older(before, key, x, q);
                }
            }
        }
    }
    if comes_to(after, h, base, operands) {
        lemma_same_parts(after, before, h, base, operands);
    }
    if comes_to(before, h, base, operands) {
        lemma_same_parts(before, after, h, base, operands);
    }
}

proof fn lemma_same_parts(
    a: Set<Pair>,
    b: Set<Pair>,
    h: u64,
    base: Option<Seq<u8>>,
    operands: Seq<Seq<u8>>,
)
    requires
        forall|p: Pair| #[trigger] counts(a, h, p) == #[trigger] counts(b, h, p),
        forall|p: Pair| #[trigger] underlies(a, h, p) == #[trigger] underlies(b, h, p),
        comes_to(a, h, base, operands),
    ensures
        comes_to(b, h, base, operands),
{
    let ps = choose|ps: Seq<Pair>| #[trigger]
        ascend(a, h, ps) && operands.len() == ps.len() && forall|j: int|
            0 <= j < ps.len() ==> operands[j] == (#[trigger] ps[j]).1;
    assert forall|p: Pair| #[trigger] ps.contains(p) <==> counts(b, h, p) by {
        assert(counts(a, h, p) == counts(b, h, p));
    }
    assert(ascend(b, h, ps));
    match base {
        Some(v) => {
            let p = choose|p: Pair| #[trigger] underlies(a, h, p) && p.1 == v;
            assert(underlies(b, h, p));
        },
        None => {
            assert forall|p: Pair| !#[trigger] underlies(b, h, p) by {
                assert(underlies(a, h, p) == underlies(b, h, p));
            }
        },
    }
}

// ── Collapsing ───────────────────────────────────────────────────

/// The versions of a list.
pub open spec fn of(es: Seq<Pair>) -> Set<Pair> {
    Set::new(|p: Pair| es.contains(p))
}

/// The versions of a key in a list.
pub open spec fn of_key(es: Seq<Pair>, key: Seq<u8>) -> Set<Pair> {
    Set::new(|p: Pair| es.contains(p) && user_of(p.0) == key)
}

/// All of `older` is older than all of `vs`.
pub open spec fn all_older(older: Set<Pair>, vs: Set<Pair>) -> bool {
    forall|p: Pair, q: Pair| #[trigger]
        older.contains(p) && #[trigger] vs.contains(q) ==> seq_of(p.0) < seq_of(q.0)
}

/// A partial merge has the effect of the two operands that it stands for: what
/// the operator makes with the one, it may make with the two.
pub open spec fn is_faithful<M: MergeOperator>(op: M, key: Seq<u8>) -> bool {
    forall|
        base: Option<Seq<u8>>,
        before: Seq<Seq<u8>>,
        left: Seq<u8>,
        right: Seq<u8>,
        both: Seq<u8>,
        after: Seq<Seq<u8>>,
        made: Option<Seq<u8>>,
    |
        #![trigger op.partial_may(key, left, right, Some(both)), op.full_may(key, base, before.push(both) + after, made)]
        op.partial_may(key, left, right, Some(both)) && op.full_may(
            key,
            base,
            before.push(both) + after,
            made,
        ) ==> op.full_may(key, base, before.push(left).push(right) + after, made)
}

/// A folded operand does what its operands do.
proof fn lemma_fold_is_faithful<M: MergeOperator>(
    op: M,
    key: Seq<u8>,
    base: Option<Seq<u8>>,
    before: Seq<Seq<u8>>,
    operands: Seq<Seq<u8>>,
    folded: Seq<u8>,
    after: Seq<Seq<u8>>,
    made: Option<Seq<u8>>,
)
    requires
        is_faithful(op, key),
        may_fold(op, key, operands, Some(folded)),
        op.full_may(key, base, before.push(folded) + after, made),
    ensures
        op.full_may(key, base, before + operands + after, made),
    decreases operands.len(),
{
    if operands.len() == 1 {
        assert(before.push(folded) + after =~= before + operands + after);
    } else {
        let some: Option<Seq<u8>> = Some(folded);
        let acc = choose|acc: Option<Seq<u8>>| #[trigger]
            may_fold_on(op, key, acc, operands.last(), some) && may_fold(
                op,
                key,
                operands.drop_last(),
                acc,
            );
        let a = acc->0;
        let right = operands.last();
        assert(op.partial_may(key, a, right, Some(folded)));
        assert(op.full_may(key, base, before.push(a).push(right) + after, made));
        assert(before.push(a).push(right) + after =~= before.push(a) + (seq![right] + after));
        lemma_fold_is_faithful(
            op,
            key,
            base,
            before,
            operands.drop_last(),
            a,
            seq![right] + after,
            made,
        );
        assert(before + operands.drop_last() + (seq![right] + after) =~= before + operands + after);
    }
}

/// What a list of versions of one key comes to on top of older ones, where
/// its last operand is entry `n - 1`.
proof fn lemma_on_top(
    group: Seq<Pair>,
    n: int,
    key: Seq<u8>,
    older: Set<Pair>,
    h: u64,
    base: Option<Seq<u8>>,
    operands: Seq<Seq<u8>>,
)
    requires
        sorted_entries(group),
        one_key(of(group).union(older), key),
        all_older(older, of(group)),
        forall|i: int| 0 <= i < group.len() ==> seq_of((#[trigger] group[i]).0) > h,
        0 <= n <= group.len(),
        forall|i: int| 0 <= i < n ==> type_of((#[trigger] group[i]).0) == VALUE_TYPE_MERGE,
        n < group.len() ==> type_of(group[n].0) != VALUE_TYPE_MERGE,
        if n < group.len() {
            &&& base == if type_of(group[n].0) == VALUE_TYPE_VALUE {
                Some(group[n].1)
            } else {
                None
            }
            &&& operands.len() == n
            &&& forall|j: int| 0 <= j < n ==> operands[j] == (#[trigger] group[n - 1 - j]).1
        } else {
            exists|under: Seq<Seq<u8>>| #[trigger]
                comes_to(older, h, base, under) && operands == under + Seq::new(
                    n as nat,
                    |j: int| group[n - 1 - j].1,
                )
        },
    ensures
        comes_to(of(group).union(older), h, base, operands),
{
    let vs = of(group).union(older);
    assert forall|k: int| 0 <= k < group.len() implies #[trigger] of(group).contains(group[k])
        && vs.contains(group[k]) by {
        assert(group.contains(group[k]));
    }
    assert forall|i: int| 0 <= i < group.len() implies user_of((#[trigger] group[i]).0) == key
        && type_of(group[i].0) <= VALUE_TYPE_MERGE by {
        assert(vs.contains(group[i]));
    }
    let top = Seq::new(n as nat, |j: int| group[n - 1 - j]);
    // The operands of the list count as long as what is under them is older.
    assert forall|k: int| 0 <= k < n implies #[trigger] counts(vs, h, group[k]) by {
        assert forall|q: Pair| #[trigger]
            vs.contains(q) && type_of(q.0) != VALUE_TYPE_MERGE implies seq_of(q.0) < seq_of(
            group[k].0,
        ) by {
            if of(group).contains(q) {
                let j = choose|j: int| 0 <= j < group.len() && group[j] == q;
                lemma_run_descends(group, key, k, j);
            } else {
                assert(older.contains(q) && of(group).contains(group[k]));
            }
        }
    }
    if n < group.len() {
        let t = group[n];
        assert(of(group).contains(t));
        assert forall|p: Pair| #[trigger] top.contains(p) <==> counts(vs, h, p) by {
            if top.contains(p) {
                let j = choose|j: int| 0 <= j < top.len() && top[j] == p;
                assert(counts(vs, h, group[n - 1 - j]));
            }
            if counts(vs, h, p) {
                assert(vs.contains(t));
                if of(group).contains(p) {
                    let k = choose|k: int| 0 <= k < group.len() && group[k] == p;
                    if k > n {
                        lemma_run_descends(group, key, n, k);
                    }
                    assert(top[n - 1 - k] == p);
                } else {
                    assert(older.contains(p));
                    assert(false);
                }
            }
        }
        assert forall|i: int, j: int| 0 <= i < j < top.len() implies seq_of((#[trigger] top[i]).0)
            < seq_of((#[trigger] top[j]).0) by {
            lemma_run_descends(group, key, n - 1 - j, n - 1 - i);
        }
        assert(ascend(vs, h, top));
        assert forall|p: Pair| #[trigger] underlies(vs, h, p) implies p == t by {
            if p != t {
                assert(vs.contains(t));
                if of(group).contains(p) {
                    let k = choose|k: int| 0 <= k < group.len() && group[k] == p;
                    if k > n {
                        lemma_run_descends(group, key, n, k);
                    }
                } else {
                    assert(older.contains(p));
                }
                assert(false);
            }
        }
        if type_of(t.0) == VALUE_TYPE_VALUE {
            assert forall|q: Pair| #[trigger]
                vs.contains(q) && type_of(q.0) != VALUE_TYPE_MERGE && q != t implies seq_of(q.0)
                < seq_of(t.0) by {
                if of(group).contains(q) {
                    let j = choose|j: int| 0 <= j < group.len() && group[j] == q;
                    lemma_run_descends(group, key, n, j);
                } else {
                    assert(older.contains(q));
                }
            }
            assert(underlies(vs, h, t));
        }
    } else {
        let under = choose|under: Seq<Seq<u8>>| #[trigger]
            comes_to(older, h, base, under) && operands == under + Seq::new(
                n as nat,
                |j: int| group[n - 1 - j].1,
            );
        let us = choose|us: Seq<Pair>| #[trigger]
            ascend(older, h, us) && under.len() == us.len() && forall|j: int|
                0 <= j < us.len() ==> under[j] == (#[trigger] us[j]).1;
        let ps = us + top;
        assert forall|p: Pair| older.contains(p) implies counts(vs, h, p) == #[trigger] counts(
            older,
            h,
            p,
        ) && underlies(vs, h, p) == underlies(older, h, p) by {
            assert(forall|q: Pair| #[trigger]
                vs.contains(q) && type_of(q.0) != VALUE_TYPE_MERGE ==> older.contains(q)) by {
                assert forall|q: Pair| #[trigger]
                    vs.contains(q) && type_of(q.0) != VALUE_TYPE_MERGE implies older.contains(
                    q,
                ) by {
                    if of(group).contains(q) {
                        let j = choose|j: int| 0 <= j < group.len() && group[j] == q;
                    }
                }
            }
            assert forall|q: Pair| #[trigger] older.contains(q) implies vs.contains(q) by {}
        }
        assert forall|p: Pair| #[trigger] ps.contains(p) <==> counts(vs, h, p) by {
            if ps.contains(p) {
                let j = choose|j: int| 0 <= j < ps.len() && ps[j] == p;
                if j < us.len() {
                    assert(us.contains(us[j]));
                    assert(counts(older, h, p));
                } else {
                    assert(top[j - us.len()] == p);
                    assert(counts(vs, h, group[n - 1 - (j - us.len())]));
                }
            }
            if counts(vs, h, p) {
                if of(group).contains(p) {
                    let k = choose|k: int| 0 <= k < group.len() && group[k] == p;
                    assert(top[n - 1 - k] == p);
                    assert(ps[us.len() + (n - 1 - k)] == p);
                } else {
                    assert(counts(older, h, p));
                    assert(us.contains(p));
                    let j = choose|j: int| 0 <= j < us.len() && us[j] == p;
                    assert(ps[j] == p);
                }
            }
        }
        assert forall|i: int, j: int| 0 <= i < j < ps.len() implies seq_of((#[trigger] ps[i]).0)
            < seq_of((#[trigger] ps[j]).0) by {
            let u = us.len() as int;
            if j < u {
                assert(ps[i] == us[i] && ps[j] == us[j]);
            } else if i >= u {
                lemma_run_descends(group, key, n - 1 - (j - u), n - 1 - (i - u));
            } else {
                assert(us.contains(us[i]));
                assert(counts(older, h, us[i]));
                assert(of(group).contains(group[n - 1 - (j - u)]));
            }
        }
        assert(ascend(vs, h, ps));
        assert forall|j: int| 0 <= j < ps.len() implies operands[j] == (#[trigger] ps[j]).1 by {
            if j < us.len() {
                assert(ps[j] == us[j]);
            }
        }
        match base {
            Some(v) => {
                let p = choose|p: Pair| #[trigger] underlies(older, h, p) && p.1 == v;
                assert(counts(older, h, p) == counts(vs, h, p));
                assert(underlies(vs, h, p));
            },
            None => {
                assert forall|p: Pair| !#[trigger] underlies(vs, h, p) by {
                    if underlies(vs, h, p) {
                        if of(group).contains(p) {
                            let k = choose|k: int| 0 <= k < group.len() && group[k] == p;
                            assert(type_of(group[k].0) == VALUE_TYPE_MERGE);
                        } else {
                            assert(counts(older, h, p) == counts(vs, h, p));
                            assert(underlies(older, h, p));
                        }
                    }
                }
            },
        }
    }
}

/// What one operand on top of older versions comes to, parted.
proof fn lemma_one_operand_parts(
    x: Pair,
    key: Seq<u8>,
    older: Set<Pair>,
    h: u64,
    base: Option<Seq<u8>>,
    operands: Seq<Seq<u8>>,
)
    requires
        type_of(x.0) == VALUE_TYPE_MERGE,
        seq_of(x.0) > h,
        all_older(older, of(seq![x])),
        comes_to(of(seq![x]).union(older), h, base, operands),
    ensures
        operands.len() > 0,
        operands.last() == x.1,
        comes_to(older, h, base, operands.drop_last()),
{
    let vs = of(seq![x]).union(older);
    assert(seq![x][0] == x);
    assert(of(seq![x]).contains(x) && vs.contains(x));
    assert forall|q: Pair| #[trigger] of(seq![x]).contains(q) implies q == x by {}
    let ps = choose|ps: Seq<Pair>| #[trigger]
        ascend(vs, h, ps) && operands.len() == ps.len() && forall|j: int|
            0 <= j < ps.len() ==> operands[j] == (#[trigger] ps[j]).1;
    assert forall|q: Pair| #[trigger]
        vs.contains(q) && type_of(q.0) != VALUE_TYPE_MERGE implies older.contains(q) && seq_of(q.0)
        < seq_of(x.0) by {
        assert(of(seq![x]).contains(q) || older.contains(q));
    }
    assert(counts(vs, h, x));
    assert(ps.contains(x));
    let k = choose|k: int| 0 <= k < ps.len() && ps[k] == x;
    if k < ps.len() - 1 {
        let y = ps[ps.len() - 1];
        assert(seq_of(ps[k].0) < seq_of(y.0));
        assert(ps.contains(y));
        assert(counts(vs, h, y));
        assert(older.contains(y));
        assert(false);
    }
    assert(ps.last() == x);
    let us = ps.drop_last();
    assert forall|p: Pair| older.contains(p) implies counts(vs, h, p) == #[trigger] counts(
        older,
        h,
        p,
    ) && underlies(vs, h, p) == underlies(older, h, p) by {
        assert forall|q: Pair| #[trigger] older.contains(q) implies vs.contains(q) by {}
    }
    assert forall|p: Pair| #[trigger] us.contains(p) <==> counts(older, h, p) by {
        if us.contains(p) {
            let j = choose|j: int| 0 <= j < us.len() && us[j] == p;
            assert(ps[j] == p);
            assert(ps.contains(p));
            assert(counts(vs, h, p));
            assert(seq_of(ps[j].0) < seq_of(ps[ps.len() - 1].0));
            assert(older.contains(p));
        }
        if counts(older, h, p) {
            assert(older.contains(p) && of(seq![x]).contains(x));
            assert(counts(vs, h, p));
            assert(ps.contains(p));
            let j = choose|j: int| 0 <= j < ps.len() && ps[j] == p;
            assert(us[j] == p);
        }
    }
    assert forall|i: int, j: int| 0 <= i < j < us.len() implies seq_of((#[trigger] us[i]).0)
        < seq_of((#[trigger] us[j]).0) by {
        assert(us[i] == ps[i] && us[j] == ps[j]);
    }
    assert(ascend(older, h, us));
    let rest = operands.drop_last();
    assert forall|j: int| 0 <= j < us.len() implies rest[j] == (#[trigger] us[j]).1 by {
        assert(us[j] == ps[j]);
        assert(operands[j] == ps[j].1);
    }
    assert(operands[ps.len() - 1] == ps[ps.len() - 1].1);
    match base {
        Some(v) => {
            let p = choose|p: Pair| #[trigger] underlies(vs, h, p) && p.1 == v;
            assert(older.contains(p));
            assert(counts(older, h, p) == counts(vs, h, p));
            assert(underlies(older, h, p));
        },
        None => {
            assert forall|p: Pair| !#[trigger] underlies(older, h, p) by {
                if underlies(older, h, p) {
                    assert(counts(older, h, p) == counts(vs, h, p));
                    assert(underlies(vs, h, p));
                }
            }
        },
    }
}

/// A value or a deletion that no tombstone hides ends the versions.
pub open spec fn is_ended(vs: Set<Pair>, h: u64) -> bool {
    exists|p: Pair| #[trigger]
        vs.contains(p) && type_of(p.0) != VALUE_TYPE_MERGE && seq_of(p.0) > h
}

/// Collapsing the versions of a key changes no read, whatever older versions
/// lie below: what is read of the result on top of them may be read of the
/// versions on top of them. Versions that end in a value or a deletion still
/// do, so that the older ones are needed only where they were before. Where
/// operands alone are folded into one, the operator's partial merges have to be
/// faithful.
pub proof fn lemma_collapsing_changes_no_read<M: MergeOperator>(
    op: M,
    key: Seq<u8>,
    group: Seq<Pair>,
    out: Seq<Pair>,
    older: Set<Pair>,
    h: u64,
    r: Result<Option<Seq<u8>>, ErrorKind>,
)
    requires
        sorted_entries(group),
        group.len() > 0,
        one_key(of(group).union(older), key),
        all_older(older, of(group)),
        forall|p: Pair| #[trigger] of(group).contains(p) ==> seq_of(p.0) > h,
        may_collapse(op, key, group, out),
        is_ended(of(group), h) || is_faithful(op, key),
    ensures
        is_ended(of(out), h) == is_ended(of(group), h),
        merged_read(op, key, of(out).union(older), h, r) ==> merged_read(
            op,
            key,
            of(group).union(older),
            h,
            r,
        ),
{
    let n = operand_count(group);
    lemma_operand_count(group);
    assert forall|k: int| 0 <= k < group.len() implies #[trigger] of(group).contains(group[k]) by {
        assert(group.contains(group[k]));
    }
    assert forall|k: int| 0 <= k < group.len() implies seq_of((#[trigger] group[k]).0) > h
        && type_of(group[k].0) <= VALUE_TYPE_MERGE by {
        assert(of(group).contains(group[k]));
        assert(of(group).union(older).contains(group[k]));
    }
    if out != group {
        let vs = of(out).union(older);
        match terminator(group) {
            Some(t) => {
                let b = base_of(t);
                let operands = operands_oldest_first(group, n);
                let made = choose|made: Option<Seq<u8>>| #[trigger]
                    op.full_may(key, b, operands, made) && match made {
                        Some(v) => out == seq![
                            (internal_key(key, seq_of(group[0].0), VALUE_TYPE_VALUE), v),
                        ],
                        None => out == group,
                    };
                let v = made->0;
                let x = out[0];
                lemma_decode_encoded(key, seq_of(group[0].0), VALUE_TYPE_VALUE);
                lemma_single_on_top(group, x, key, older, h);
                assert(of(group).contains(t));
                assert(of(out).contains(x) && type_of(x.0) != VALUE_TYPE_MERGE);
                if merged_read(op, key, vs, h, r) {
                    let (base, got) = choose|base: Option<Seq<u8>>, got: Seq<Seq<u8>>|
                     #[trigger]
                        comes_to(vs, h, base, got) && if got.len() == 0 {
                            r == Ok::<Option<Seq<u8>>, ErrorKind>(base)
                        } else {
                            exists|made: Option<Seq<u8>>| #[trigger]
                                op.full_may(key, base, got, made) && r == match made {
                                    Some(v) => Ok::<Option<Seq<u8>>, ErrorKind>(Some(v)),
                                    None => Err(ErrorKind::InvalidData),
                                }
                        };
                    lemma_on_top(out, 0, key, older, h, Some(v), Seq::empty());
                    lemma_comes_to_one_thing(vs, h, base, got, Some(v), Seq::empty());
                    lemma_on_top(group, n as int, key, older, h, b, operands);
                    assert(op.full_may(key, b, operands, Some(v)));
                }
            },
            None => {
                assert(n == group.len());
                let operands = operands_oldest_first(group, n);
                let folded = choose|folded: Option<Seq<u8>>| #[trigger]
                    may_fold(op, key, operands, folded) && match folded {
                        Some(v) => out == seq![
                            (internal_key(key, seq_of(group[0].0), VALUE_TYPE_MERGE), v),
                        ],
                        None => out == group,
                    };
                let v = folded->0;
                let x = out[0];
                lemma_decode_encoded(key, seq_of(group[0].0), VALUE_TYPE_MERGE);
                lemma_single_on_top(group, x, key, older, h);
                assert(!is_ended(of(group), h)) by {
                    if is_ended(of(group), h) {
                        let p = choose|p: Pair| #[trigger]
                            of(group).contains(p) && type_of(p.0) != VALUE_TYPE_MERGE && seq_of(p.0)
                                > h;
                        let k = choose|k: int| 0 <= k < group.len() && group[k] == p;
                        assert(type_of(group[k].0) == VALUE_TYPE_MERGE);
                    }
                }
                assert forall|p: Pair| #[trigger] of(out).contains(p) implies p == x by {}
                if merged_read(op, key, vs, h, r) {
                    let (base, got) = choose|base: Option<Seq<u8>>, got: Seq<Seq<u8>>|
                     #[trigger]
                        comes_to(vs, h, base, got) && if got.len() == 0 {
                            r == Ok::<Option<Seq<u8>>, ErrorKind>(base)
                        } else {
                            exists|made: Option<Seq<u8>>| #[trigger]
                                op.full_may(key, base, got, made) && r == match made {
                                    Some(v) => Ok::<Option<Seq<u8>>, ErrorKind>(Some(v)),
                                    None => Err(ErrorKind::InvalidData),
                                }
                        };
                    assert(out =~= seq![x]);
                    lemma_one_operand_parts(x, key, older, h, base, got);
                    let under = got.drop_last();
                    let made = choose|made: Option<Seq<u8>>| #[trigger]
                        op.full_may(key, base, got, made) && r == match made {
                            Some(v) => Ok::<Option<Seq<u8>>, ErrorKind>(Some(v)),
                            None => Err(ErrorKind::InvalidData),
                        };
                    let none = Seq::<Seq<u8>>::empty();
                    assert(under.push(v) + none =~= got);
                    lemma_fold_is_faithful(op, key, base, under, operands, v, none, made);
                    let all = under + operands;
                    assert(under + operands + none =~= all);
                    assert(operands =~= Seq::new(n as nat, |j: int| group[n - 1 - j].1));
                    lemma_on_top(group, n as int, key, older, h, base, all);
                    assert(all.len() > 0);
                    assert(comes_to(of(group).union(older), h, base, all));
                    assert(op.full_may(key, base, all, made));
                }
            },
        }
    }
}

/// One version at the newest sequence number of a list stands where the list
/// stood.
proof fn lemma_single_on_top(group: Seq<Pair>, x: Pair, key: Seq<u8>, older: Set<Pair>, h: u64)
    requires
        sorted_entries(group),
        group.len() > 0,
        one_key(of(group).union(older), key),
        all_older(older, of(group)),
        forall|p: Pair| #[trigger] of(group).contains(p) ==> seq_of(p.0) > h,
        is_internal(x.0),
        user_of(x.0) == key,
        seq_of(x.0) == seq_of(group[0].0),
        type_of(x.0) <= VALUE_TYPE_MERGE,
    ensures
        sorted_entries(seq![x]),
        of(seq![x]).contains(x),
        seq_of(x.0) > h,
        all_older(older, of(seq![x])),
        one_key(of(seq![x]).union(older), key),
{
    let one = seq![x];
    assert(one[0] == x);
    assert(of(one).contains(x));
    assert(group.contains(group[0]));
    assert(of(group).contains(group[0]));
    assert forall|p: Pair| #[trigger] of(one).contains(p) implies p == x by {}
    let vs = of(one).union(older);
    assert forall|p: Pair| #[trigger] vs.contains(p) implies is_internal(p.0) && user_of(p.0)
        == key && type_of(p.0) <= VALUE_TYPE_MERGE by {
        if older.contains(p) {
            assert(of(group).union(older).contains(p));
        } else {
            assert(of(one).contains(p));
        }
    }
    assert forall|p: Pair, q: Pair| #[trigger]
        vs.contains(p) && #[trigger] vs.contains(q) && p.0 == q.0 implies p == q by {
        assert(of(one).contains(p) || older.contains(p));
        assert(of(one).contains(q) || older.contains(q));
        if older.contains(p) && older.contains(q) {
            assert(of(group).union(older).contains(p) && of(group).union(older).contains(q));
        }
    }
}

/// Versions that an operator can always combine become one, at the newest
/// sequence number; where it fails, they stay as they are. What has no operand
/// in front is not touched.
pub proof fn lemma_collapsing_leaves_one_version<M: MergeOperator>(
    op: M,
    key: Seq<u8>,
    group: Seq<Pair>,
    out: Seq<Pair>,
)
    requires
        group.len() > 0,
        forall|i: int| 0 <= i < group.len() ==> type_of((#[trigger] group[i]).0) <= VALUE_TYPE_MERGE,
        may_collapse(op, key, group, out),
    ensures
        out == group || type_of(group[0].0) == VALUE_TYPE_MERGE && group.len() > 1 && out.len() == 1
            && user_of(out[0].0) == key && seq_of(out[0].0) == seq_of(group[0].0),
        type_of(group[0].0) == VALUE_TYPE_MERGE && group.len() > 1 && (forall|
            base: Option<Seq<u8>>,
            operands: Seq<Seq<u8>>,
            made: Option<Seq<u8>>,
        | #[trigger]
            op.full_may(key, base, operands, made) ==> made is Some) && (forall|
            left: Seq<u8>,
            right: Seq<u8>,
            made: Option<Seq<u8>>,
        | #[trigger]
            op.partial_may(key, left, right, made) ==> made is Some) ==> out.len() == 1,
{
    let n = operand_count(group);
    lemma_operand_count(group);
    lemma_decode_encoded(key, seq_of(group[0].0), VALUE_TYPE_VALUE);
    lemma_decode_encoded(key, seq_of(group[0].0), VALUE_TYPE_MERGE);
    if n > 0 {
        match terminator(group) {
            Some(t) => {
                let made = choose|made: Option<Seq<u8>>| #[trigger]
                    op.full_may(key, base_of(t), operands_oldest_first(group, n), made)
                        && match made {
                        Some(v) => out == seq![
                            (internal_key(key, seq_of(group[0].0), VALUE_TYPE_VALUE), v),
                        ],
                        None => out == group,
                    };
            },
            None => {
                if n < group.len() {
                    assert(type_of(group[n as int].0) <= VALUE_TYPE_MERGE);
                }
                if n > 1 {
                    let operands = operands_oldest_first(group, n);
                    let made = choose|made: Option<Seq<u8>>| #[trigger]
                        may_fold(op, key, operands, made) && match made {
                            Some(v) => out == seq![
                                (internal_key(key, seq_of(group[0].0), VALUE_TYPE_MERGE), v),
                            ],
                            None => out == group,
                        };
                    if forall|left: Seq<u8>, right: Seq<u8>, made: Option<Seq<u8>>| #[trigger]
                        op.partial_may(key, left, right, made) ==> made is Some {
                        lemma_fold_succeeds(op, key, operands, made);
                    }
                }
            },
        }
    }
}

proof fn lemma_fold_succeeds<M: MergeOperator>(
    op: M,
    key: Seq<u8>,
    operands: Seq<Seq<u8>>,
    made: Option<Seq<u8>>,
)
    requires
        may_fold(op, key, operands, made),
        forall|left: Seq<u8>, right: Seq<u8>, made: Option<Seq<u8>>| #[trigger]
            op.partial_may(key, left, right, made) ==> made is Some,
    ensures
        made is Some,
    decreases operands.len(),
{
    if operands.len() > 1 {
        let acc = choose|acc: Option<Seq<u8>>| #[trigger]
            may_fold_on(op, key, acc, operands.last(), made) && may_fold(
                op,
                key,
                operands.drop_last(),
                acc,
            );
        lemma_fold_succeeds(op, key, operands.drop_last(), acc);
        assert(op.partial_may(key, acc->0, operands.last(), made));
    }
}

/// The versions of one key, and what was made of them.
pub proof fn lemma_collapsed_key<M: MergeOperator>(
    op: M,
    es: Seq<Pair>,
    out: Seq<Pair>,
    key: Seq<u8>,
) -> (gm: (Seq<Pair>, Seq<Pair>))
    requires
        sorted_entries(es),
        may_collapse_all(op, es, out),
    ensures
        sorted_entries(gm.0),
        of(gm.0) == of_key(es, key),
        of(gm.1) == of_key(out, key),
        gm.0.len() > 0 ==> may_collapse(op, key, gm.0, gm.1),
        gm.0.len() == 0 ==> gm.1.len() == 0,
    decreases es.len(),
{
    let none = Seq::<Pair>::empty();
    if es.len() == 0 {
        assert(of(none) =~= of_key(es, key));
        assert(of(none) =~= of_key(out, key));
        (none, none)
    } else {
        let last = user_of(es.last().0);
        let (start, n) = choose|start: int, n: int|
            0 <= start < es.len() && 0 <= n <= out.len() && #[trigger] is_last_group(es, start)
                && #[trigger] may_collapse(op, last, es.skip(start), out.skip(n))
                && may_collapse_all(op, es.take(start), out.take(n));
        let (front, head) = (es.take(start), out.take(n));
        let (group, made) = (es.skip(start), out.skip(n));
        assert forall|i: int| 0 <= i < group.len() implies is_internal((#[trigger] group[i]).0)
            && user_of(group[i].0) == last by {
            assert(group[i] == es[start + i]);
        }
        assert forall|i: int, j: int| 0 <= i < j < group.len() implies ik_lt(
            (#[trigger] group[i]).0,
            (#[trigger] group[j]).0,
        ) by {
            assert(group[i] == es[start + i] && group[j] == es[start + j]);
        }
        lemma_collapsed_sorted(op, front, head);
        lemma_collapsed_group(op, last, group, made);
        assert forall|i: int| 0 <= i < front.len() implies user_of((#[trigger] front[i]).0)
            != last by {
            lemma_user_ascends(es, i, start - 1);
            lemma_user_ascends(es, start - 1, es.len() - 1);
            lemma_lex_order(user_of(es[i].0), user_of(es[start - 1].0), last);
            lemma_lex_order(user_of(es[start - 1].0), last, user_of(es[i].0));
        }
        assert forall|i: int| 0 <= i < head.len() implies user_of((#[trigger] head[i]).0)
            != last by {
            let j = choose|j: int|
                0 <= j < front.len() && user_of(head[i].0) == user_of((#[trigger] front[j]).0);
        }
        assert forall|p: Pair| #[trigger] es.contains(p) == (front.contains(p) || group.contains(
            p,
        )) by {
            lemma_parts_hold(es, start, p);
        }
        assert forall|p: Pair| #[trigger] out.contains(p) == (head.contains(p) || made.contains(
            p,
        )) by {
            lemma_parts_hold(out, n, p);
        }
        if key == last {
            assert(of(group) =~= of_key(es, key)) by {
                assert forall|p: Pair| #[trigger] of(group).contains(p) == of_key(
                    es,
                    key,
                ).contains(p) by {
                    assert(es.contains(p) == (front.contains(p) || group.contains(p)));
                }
            }
            assert(of(made) =~= of_key(out, key)) by {
                assert forall|p: Pair| #[trigger] of(made).contains(p) == of_key(
                    out,
                    key,
                ).contains(p) by {
                    assert(out.contains(p) == (head.contains(p) || made.contains(p)));
                }
            }
            (group, made)
        } else {
            let gm = lemma_collapsed_key(op, front, head, key);
            assert(of_key(front, key) =~= of_key(es, key)) by {
                assert forall|p: Pair| #[trigger] of_key(front, key).contains(p) == of_key(
                    es,
                    key,
                ).contains(p) by {
                    assert(es.contains(p) == (front.contains(p) || group.contains(p)));
                }
            }
            assert(of_key(head, key) =~= of_key(out, key)) by {
                assert forall|p: Pair| #[trigger] of_key(head, key).contains(p) == of_key(
                    out,
                    key,
                ).contains(p) by {
                    assert(out.contains(p) == (head.contains(p) || made.contains(p)));
                }
            }
            gm
        }
    }
}

proof fn lemma_parts_hold(s: Seq<Pair>, n: int, p: Pair)
    requires
        0 <= n <= s.len(),
    ensures
        s.contains(p) == (s.take(n).contains(p) || s.skip(n).contains(p)),
{
    let (a, b) = (s.take(n), s.skip(n));
    if s.contains(p) {
        let i = choose|i: int| 0 <= i < s.len() && s[i] == p;
        if i < n {
            assert(a[i] == p);
        } else {
            assert(b[i - n] == p);
        }
    }
    if a.contains(p) {
        let i = choose|i: int| 0 <= i < a.len() && a[i] == p;
        assert(s[i] == p);
    }
    if b.contains(p) {
        let i = choose|i: int| 0 <= i < b.len() && b[i] == p;
        assert(s[n + i] == p);
    }
}

/// The merge operator's part of a compaction changes no read of any key,
/// whatever older versions lie below.
pub proof fn lemma_collapsing_all_changes_no_read<M: MergeOperator>(
    op: M,
    es: Seq<Pair>,
    out: Seq<Pair>,
    key: Seq<u8>,
    older: Set<Pair>,
    h: u64,
    r: Result<Option<Seq<u8>>, ErrorKind>,
)
    requires
        sorted_entries(es),
        may_collapse_all(op, es, out),
        one_key(of_key(es, key).union(older), key),
        all_older(older, of_key(es, key)),
        forall|p: Pair| #[trigger] of_key(es, key).contains(p) ==> seq_of(p.0) > h,
        is_ended(of_key(es, key), h) || is_faithful(op, key),
    ensures
        is_ended(of_key(out, key), h) == is_ended(of_key(es, key), h),
        merged_read(op, key, of_key(out, key).union(older), h, r) ==> merged_read(
            op,
            key,
            of_key(es, key).union(older),
            h,
            r,
        ),
{
    let (group, made) = lemma_collapsed_key(op, es, out, key);
    if group.len() > 0 {
        lemma_collapsing_changes_no_read(op, key, group, made, older, h, r);
    } else {
        assert(of(made) =~= of(group));
    }
}

/// The older versions may lie below the inputs of a compaction. `h` is a
/// tombstone that hides what the inputs' own tombstones hide of the key, and
/// nothing more of their versions. Operands that nothing settles may be folded,
/// so then the operator has to be faithful.
pub open spec fn may_lie_below<M: MergeOperator>(
    inputs: Seq<Pair>,
    input_rts: Seq<TombstoneView>,
    op: M,
    key: Seq<u8>,
    older: Set<Pair>,
    h: u64,
) -> bool {
    let was = of_key(inputs, key);
    &&& one_key(was.union(older), key)
    &&& all_older(older, was)
    &&& forall|t: TombstoneView| #[trigger] input_rts.contains(t) && t.covers(key) ==> t.seq <= h
    &&& forall|p: Pair| #[trigger]
        was.contains(p) ==> seq_of(p.0) > h || exists|t: TombstoneView| #[trigger]
            input_rts.contains(t) && t.covers(key) && t.seq > seq_of(p.0)
    &&& is_ended(was, h) || is_faithful(op, key)
}

/// Whatever older versions of the key lie below, what is read of the output on
/// top of them may be read of the inputs on top of them, and a key that the
/// inputs settle stays settled.
pub open spec fn keeps_merged_read<M: MergeOperator>(
    inputs: Seq<Pair>,
    input_rts: Seq<TombstoneView>,
    op: M,
    out: Seq<Pair>,
    key: Seq<u8>,
    older: Set<Pair>,
    h: u64,
    r: Result<Option<Seq<u8>>, ErrorKind>,
) -> bool {
    may_lie_below(inputs, input_rts, op, key, older, h) ==> {
        &&& is_ended(of_key(out, key), h) == is_ended(of_key(inputs, key), h)
        &&& merged_read(op, key, of_key(out, key).union(older), h, r) ==> merged_read(
            op,
            key,
            of_key(inputs, key).union(older),
            h,
            r,
        )
    }
}

/// A compaction without live snapshots and without a filter changes no read of
/// any key through the merge operator. Whatever older versions lie below, what
/// is read of the output on top of them may be read of the inputs on top of
/// them; and a key that its inputs settle stays settled.
pub proof fn lemma_compaction_changes_no_merged_read<F: CompactionFilter, M: MergeOperator>(
    inputs: Seq<Pair>,
    input_rts: Seq<TombstoneView>,
    level: nat,
    op: &M,
    out: Seq<Pair>,
    out_rts: Seq<TombstoneView>,
    key: Seq<u8>,
    older: Set<Pair>,
    h: u64,
    r: Result<Option<Seq<u8>>, ErrorKind>,
)
    requires
        may_compact::<F, M>(inputs, input_rts, level, u64::MAX, None, Some(op), out, out_rts),
        one_value(inputs),
        may_lie_below(inputs, input_rts, *op, key, older, h),
    ensures
        is_ended(of_key(out, key), h) == is_ended(of_key(inputs, key), h),
        merged_read(*op, key, of_key(out, key).union(older), h, r) ==> merged_read(
            *op,
            key,
            of_key(inputs, key).union(older),
            h,
            r,
        ),
{
    let none: Option<&F> = None;
    let max = u64::MAX;
    let (merged, rts, kept) = choose|merged: Seq<Pair>, rts: Seq<RangeTombstone>, kept: Seq<Pair>|
     #[trigger]
        compacts(
            inputs,
            input_rts,
            level,
            max,
            none,
            Some(op),
            merged,
            rts,
            kept,
            out,
            out_rts,
        );
    let u = unshadowed(merged, rts, max);
    lemma_unshadowed_sorted(merged, rts, max);
    lemma_collected_sorted(u, max);
    let (was, now) = (of_key(inputs, key), of_key(kept, key));
    lemma_max_covering(rts, key, max);
    assert forall|p: Pair| #[trigger] now.contains(p) implies was.contains(p) && seq_of(p.0) > h by {
        let i = choose|i: int| 0 <= i < kept.len() && kept[i] == p;
        assert(u.contains(kept[i]));
        lemma_unshadowed_drops(merged, rts, max, p);
        lemma_merged_members(inputs, merged, p);
        assert(was.contains(p));
        if seq_of(p.0) <= h {
            let t = choose|t: TombstoneView| #[trigger]
                input_rts.contains(t) && t.covers(key) && t.seq > seq_of(p.0);
            let k = choose|k: int| 0 <= k < input_rts.len() && input_rts[k] == t;
            assert(tombstone_views(rts)[k] == rts[k]@);
            assert(rts[k]@.covers(key) && rts[k].seq == t.seq);
        }
    }
    let (before, after) = (was.union(older), now.union(older));
    assert forall|p: Pair| #[trigger] was.contains(p) && !now.contains(p) implies seq_of(p.0) <= h
        || exists|q: Pair| #[trigger]
        now.contains(q) && type_of(q.0) != VALUE_TYPE_MERGE && ik_lt(q.0, p.0) by {
        lemma_merged_members(inputs, merged, p);
        lemma_unshadowed_drops(merged, rts, max, p);
        if shadowed(p, rts, max) {
            let k = choose|k: int|
                0 <= k < rts.len() && (#[trigger] rts[k])@.covers(key) && rts[k].seq <= max
                    && rts[k].seq == max_covering(rts, key, max);
            assert(input_rts[k] == rts[k]@);
            assert(input_rts.contains(rts[k]@));
        } else {
            lemma_collected_drops(u, max, p);
            let q = choose|q: Pair| #[trigger]
                kept.contains(q) && user_of(q.0) == user_of(p.0) && seq_of(q.0) <= max && type_of(
                    q.0,
                ) != VALUE_TYPE_MERGE && ik_lt(q.0, p.0);
            assert(now.contains(q));
        }
    }
    assert forall|p: Pair| #[trigger] before.contains(p) && !after.contains(p) implies seq_of(p.0)
        <= h || exists|q: Pair| #[trigger]
        after.contains(q) && type_of(q.0) != VALUE_TYPE_MERGE && ik_lt(q.0, p.0) by {
        assert(was.contains(p) && !now.contains(p));
        if seq_of(p.0) > h {
            let q = choose|q: Pair| #[trigger]
                now.contains(q) && type_of(q.0) != VALUE_TYPE_MERGE && ik_lt(q.0, p.0);
            assert(after.contains(q));
        }
    }
    assert forall|p: Pair| #[trigger] after.contains(p) implies before.contains(p) by {
        if now.contains(p) {
            assert(was.contains(p));
        }
    }
    assert(does_without(before, after, h));
    assert(one_key(after, key)) by {
        assert forall|p: Pair, q: Pair| #[trigger]
            after.contains(p) && #[trigger] after.contains(q) && p.0 == q.0 implies p == q by {
            assert(before.contains(p) && before.contains(q));
        }
        assert forall|p: Pair| #[trigger] after.contains(p) implies is_internal(p.0) && user_of(p.0)
            == key && type_of(p.0) <= VALUE_TYPE_MERGE by {
            assert(before.contains(p));
        }
    }
    assert(is_ended(now, h) == is_ended(was, h)) by {
        if is_ended(was, h) {
            let p = choose|p: Pair| #[trigger]
                was.contains(p) && type_of(p.0) != VALUE_TYPE_MERGE && seq_of(p.0) > h;
            if now.contains(p) {
                assert(is_ended(now, h));
            } else {
                let q = choose|q: Pair| #[trigger]
                    now.contains(q) && type_of(q.0) != VALUE_TYPE_MERGE && ik_lt(q.0, p.0);
                assert(seq_of(q.0) > h);
            }
        }
        if is_ended(now, h) {
            let p = choose|p: Pair| #[trigger]
                now.contains(p) && type_of(p.0) != VALUE_TYPE_MERGE && seq_of(p.0) > h;
            assert(was.contains(p));
        }
    }
    assert forall|p: Pair, q: Pair| #[trigger]
        older.contains(p) && #[trigger] now.contains(q) implies seq_of(p.0) < seq_of(q.0) by {
        assert(was.contains(q));
    }
    lemma_collapsing_all_changes_no_read(*op, kept, out, key, older, h, r);
    if merged_read(*op, key, after, h, r) {
        let (base, got) = choose|base: Option<Seq<u8>>, got: Seq<Seq<u8>>| #[trigger]
            comes_to(after, h, base, got) && if got.len() == 0 {
                r == Ok::<Option<Seq<u8>>, ErrorKind>(base)
            } else {
                exists|made: Option<Seq<u8>>| #[trigger]
                    op.full_may(key, base, got, made) && r == match made {
                        Some(v) => Ok::<Option<Seq<u8>>, ErrorKind>(Some(v)),
                        None => Err(ErrorKind::InvalidData),
                    }
            };
        lemma_doing_without_changes_no_read(before, after, key, h, base, got);
        assert(comes_to(before, h, base, got));
    }
}

// ── Nothing ──────────────────────────────────────────────────────

/// Once all data has been dropped, nothing is read any more: no lookup of any
/// key finds anything at any snapshot, and no scan stops anywhere.
pub proof fn lemma_nothing_is_read_of_nothing(
    v: ReadView,
    key: Seq<u8>,
    snapshot_seq: u64,
    scan: Scan,
)
    requires
        v.wf(),
        in_order(v),
        in_tables_alone(v),
        no_tables(v.version),
    ensures
        walk(v.layers(key), key, snapshot_seq, 0) is None,
        walk_chain(v.layers(key), key, snapshot_seq, 0).len() == 0,
        is_scan_of(v, scan) ==> !scan.shows(key),
{
    let ls = v.layers(key);
    let a = cat(ls, key, snapshot_seq);
    assert(in_age_order(v, key));
    lemma_age_order_serves_lookups(v, key);
    lemma_cat(ls, key, snapshot_seq);
    lemma_walk_is_newest(ls, key, snapshot_seq, 0);
    lemma_walk_is_one_chain(ls, key, snapshot_seq, 0);
    assert forall|p: Pair| !#[trigger] v.meets(p) by {
        lemma_nothing_is_met(v, p);
    }
    if a.len() > 0 {
        assert(a.contains(a[0]));
        lemma_in_layers(v, key, a[0]);
        assert(v.meets(a[0]));
    }
    if is_scan_of(v, scan) {
        if scan.all.len() > 0 {
            assert(scan.all.contains(scan.all[0]));
            assert(v.meets(scan.all[0]));
        }
        lemma_no_version(scan, key);
    }
}

proof fn lemma_nothing_is_met(v: ReadView, p: Pair)
    requires
        in_tables_alone(v),
        no_tables(v.version),
    ensures
        !v.meets(p),
{
    if in_memory(v, p) && !v.active.entries().contains(p) {
        let i = choose|i: int|
            0 <= i < v.frozen@.len() && (#[trigger] v.frozen@[i]).entries().contains(p);
        assert(!holds_data(v.frozen@[i]));
    }
    if in_tables(v.version, p) {
        let t = choose|t: Arc<LiveSst>| #[trigger]
            has_table(v.version, t) && t.reader.entries().contains(p);
        let (l, i) = choose|l: int, i: int| #[trigger]
            table_at(v.version, l, i, t);
        assert(v.version.levels@[l]@.len() == 0);
    }
}

} // verus!
