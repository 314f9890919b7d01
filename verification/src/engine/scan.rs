//! What a scan of the tree shows, as mathematics.
//!
//! A scan goes over the user keys in order. What it shows of a user key
//! depends on the merge chain of the key at the snapshot and on the newest
//! range tombstone that covers it.

use super::block::sorted_entries;
use super::block_entry::Pair;
use super::internal_key::lemma_internal_order;
use super::internal_key::seq_of;
use super::internal_key::type_of;
use super::internal_key::user_of;
use super::internal_key::VALUE_TYPE_DELETION;
use super::internal_key::VALUE_TYPE_MERGE;
use super::lookup::chain_base;
use super::lookup::chain_operand_count;
use super::lookup::chain_operands;
use super::lookup::has_terminator;
use super::lookup::taken;
use super::range_tombstone::max_covering;
use super::range_tombstone::RangeTombstone;
use super::versions::chain;
use super::versions::lemma_skip_invisible;
use super::versions::lemma_sorted_skip;
use super::versions::visible;
use super::versions::Link;
use crate::bytes::lemma_lex_order;
use crate::bytes::lex_le;
use crate::bytes::lex_lt;
use vstd::prelude::*;

verus! {

/// What becomes of a user key.
#[verifier::ext_equal]
pub enum Outcome {
    /// It is not there.
    Absent,
    /// It has this value.
    Value(Seq<u8>),
    /// The merge operator makes its value of a base value and operands, oldest
    /// first.
    Merge(Option<Seq<u8>>, Seq<Seq<u8>>),
}

/// What a merge chain comes to.
pub open spec fn outcome_of(t: Seq<Link>) -> Outcome {
    if chain_operand_count(t) > 0 {
        Outcome::Merge(chain_base(t), chain_operands(t))
    } else {
        match chain_base(t) {
            Some(v) => Outcome::Value(v),
            None => Outcome::Absent,
        }
    }
}

/// The newest sequence number that a tombstone with the number `rt` hides: it
/// is strictly newer than what it hides. Where there is none, `rt` is 0.
pub open spec fn hidden_up_to(rt: u64) -> u64 {
    if rt == 0 {
        0
    } else {
        (rt - 1) as u64
    }
}

/// What a scan sees: the entries of all sources in order, all range
/// tombstones, the snapshot, and whether there is a merge operator.
pub struct Scan {
    pub all: Seq<Pair>,
    pub rts: Seq<RangeTombstone>,
    pub snapshot_seq: u64,
    pub merges: bool,
}

impl Scan {
    /// The entries are in order, have one of the known types, and a sequence
    /// number that was given out.
    pub open spec fn wf(self) -> bool {
        &&& sorted_entries(self.all)
        &&& forall|i: int|
            0 <= i < self.all.len() ==> seq_of((#[trigger] self.all[i]).0) > 0 && type_of(
                self.all[i].0,
            ) <= VALUE_TYPE_MERGE
    }

    /// The merge chain of a user key.
    pub open spec fn chain(self, u: Seq<u8>) -> Seq<Link> {
        chain(self.all, u, self.snapshot_seq)
    }

    /// The newest sequence number that a tombstone over a user key hides.
    pub open spec fn rt(self, u: Seq<u8>) -> u64 {
        hidden_up_to(max_covering(self.rts, u, self.snapshot_seq))
    }

    /// What becomes of a user key. A tombstone hides what it is strictly newer
    /// than.
    pub open spec fn outcome(self, u: Seq<u8>) -> Outcome {
        outcome_of(taken(self.chain(u), self.rt(u)))
    }

    /// The scan stops at a user key. Without a merge operator merge operands
    /// have no value.
    pub open spec fn shows(self, u: Seq<u8>) -> bool {
        match self.outcome(u) {
            Outcome::Absent => false,
            Outcome::Value(_) => true,
            Outcome::Merge(_, _) => self.merges,
        }
    }
}

/// A user key is at or after the lower bound (after it, if `strict`).
pub open spec fn at_or_after(u: Seq<u8>, lo: Option<Seq<u8>>, strict: bool) -> bool {
    match lo {
        Some(l) => if strict {
            lex_lt(l, u)
        } else {
            lex_le(l, u)
        },
        None => true,
    }
}

/// A user key is at or before the upper bound (before it, if `strict`).
pub open spec fn at_or_before(u: Seq<u8>, hi: Option<Seq<u8>>, strict: bool) -> bool {
    match hi {
        Some(h) => if strict {
            lex_lt(u, h)
        } else {
            lex_le(u, h)
        },
        None => true,
    }
}

/// `r` is the first user key from the lower bound on, and before `end`, at
/// which a forward scan stops.
pub open spec fn is_first_shown(
    scan: Scan,
    lo: Option<Seq<u8>>,
    strict: bool,
    end: Option<Seq<u8>>,
    r: Option<Seq<u8>>,
) -> bool {
    match r {
        Some(u) => {
            &&& at_or_after(u, lo, strict) && at_or_before(u, end, true) && scan.shows(u)
            &&& forall|v: Seq<u8>| #[trigger]
                scan.shows(v) && at_or_after(v, lo, strict) && at_or_before(v, end, true)
                    ==> lex_le(u, v)
        },
        None => forall|v: Seq<u8>| #[trigger]
            scan.shows(v) ==> !(at_or_after(v, lo, strict) && at_or_before(v, end, true)),
    }
}

/// `r` is the last user key up to the upper bound at which a reverse scan
/// stops.
pub open spec fn is_last_shown(
    scan: Scan,
    hi: Option<Seq<u8>>,
    strict: bool,
    r: Option<Seq<u8>>,
) -> bool {
    match r {
        Some(u) => {
            &&& at_or_before(u, hi, strict) && scan.shows(u)
            &&& forall|v: Seq<u8>| #[trigger]
                scan.shows(v) && at_or_before(v, hi, strict) ==> lex_le(v, u)
        },
        None => forall|v: Seq<u8>| #[trigger]
            scan.shows(v) ==> !at_or_before(v, hi, strict),
    }
}

// ── Where a user key stands ──────────────────────────────────────

/// No entry before `i` is a visible version of `u`.
pub open spec fn clear_before(scan: Scan, i: int, u: Seq<u8>) -> bool {
    forall|j: int| 0 <= j < i ==> !visible(#[trigger] scan.all[j], u, scan.snapshot_seq)
}

/// A user key without a visible version is absent.
pub proof fn lemma_no_version(scan: Scan, u: Seq<u8>)
    requires
        clear_before(scan, scan.all.len() as int, u),
    ensures
        scan.chain(u).len() == 0,
        !scan.shows(u),
{
    super::versions::lemma_none_visible(scan.all, u, scan.snapshot_seq);
    assert(taken(scan.chain(u), scan.rt(u)).len() == 0);
}

/// Where the first visible version of `u` is entry `i`, the chain of `u`
/// starts there.
pub proof fn lemma_chain_from(scan: Scan, i: int, u: Seq<u8>)
    requires
        0 <= i <= scan.all.len(),
        clear_before(scan, i, u),
    ensures
        scan.chain(u) == chain(scan.all.skip(i), u, scan.snapshot_seq),
{
    lemma_skip_invisible(scan.all, u, scan.snapshot_seq, i);
}

// ── Chains from the oldest version on ────────────────────────────

/// The chain of `u` without what the tombstone hides: visible versions newer
/// than `rt`, newest first, up to and with the first that is no operand.
pub open spec fn chain_over(es: Seq<Pair>, u: Seq<u8>, s: u64, rt: u64) -> Seq<Link>
    decreases es.len(),
{
    if es.len() == 0 {
        Seq::empty()
    } else if !visible(es[0], u, s) || (rt != 0 && seq_of(es[0].0) <= rt) {
        chain_over(es.skip(1), u, s, rt)
    } else {
        let link = (seq_of(es[0].0), type_of(es[0].0), es[0].1);
        if link.1 == VALUE_TYPE_MERGE {
            seq![link] + chain_over(es.skip(1), u, s, rt)
        } else {
            seq![link]
        }
    }
}

/// `b` is `a`, or `a` are operands and `b` has a deletion at its end.
pub open spec fn same_but_end(a: Seq<Link>, b: Seq<Link>, rt: u64) -> bool {
    ||| a == b
    ||| b == a.push((rt, VALUE_TYPE_DELETION, Seq::<u8>::empty())) && forall|i: int|
        0 <= i < a.len() ==> (#[trigger] a[i]).1 == VALUE_TYPE_MERGE
}

/// A deletion below operands makes no difference.
pub proof fn lemma_same_outcome(a: Seq<Link>, b: Seq<Link>, rt: u64)
    requires
        same_but_end(a, b, rt),
    ensures
        outcome_of(a) == outcome_of(b),
        chain_operand_count(a) == chain_operand_count(b),
        chain_base(a) == chain_base(b),
        chain_operands(a) == chain_operands(b),
{
    if a != b {
        assert(b.last() == (rt, VALUE_TYPE_DELETION, Seq::<u8>::empty()));
        assert(has_terminator(b));
        assert(!has_terminator(a)) by {
            if a.len() > 0 {
                assert(a[a.len() - 1].1 == VALUE_TYPE_MERGE);
            }
        }
        assert(chain_operands(a) =~= chain_operands(b));
    }
}

proof fn lemma_hidden_rest(es: Seq<Pair>, u: Seq<u8>, s: u64, rt: u64, top: u64)
    requires
        sorted_entries(es),
        rt != 0,
        top <= rt,
        forall|i: int|
            0 <= i < es.len() && user_of((#[trigger] es[i]).0) == u ==> seq_of(es[i].0) <= top,
    ensures
        chain_over(es, u, s, rt) == Seq::<Link>::empty(),
    decreases es.len(),
{
    if es.len() > 0 {
        lemma_sorted_skip(es);
        let rest = es.skip(1);
        assert forall|i: int| 0 <= i < rest.len() && user_of((#[trigger] rest[i]).0) == u implies
            seq_of(rest[i].0) <= top by {
            assert(rest[i] == es[i + 1]);
        }
        lemma_hidden_rest(rest, u, s, rt, top);
        assert(visible(es[0], u, s) ==> seq_of(es[0].0) <= top);
    }
}

proof fn lemma_over_is_taken(es: Seq<Pair>, u: Seq<u8>, s: u64, rt: u64)
    requires
        sorted_entries(es),
        forall|i: int| 0 <= i < es.len() ==> seq_of((#[trigger] es[i]).0) > 0,
    ensures
        same_but_end(chain_over(es, u, s, rt), taken(chain(es, u, s), rt), rt),
    decreases es.len(),
{
    if es.len() > 0 {
        lemma_sorted_skip(es);
        let rest = es.skip(1);
        assert forall|i: int| 0 <= i < rest.len() implies seq_of((#[trigger] rest[i]).0) > 0 by {
            assert(rest[i] == es[i + 1]);
        }
        lemma_over_is_taken(rest, u, s, rt);
        let a = chain_over(rest, u, s, rt);
        let b = taken(chain(rest, u, s), rt);
        let c = chain(es, u, s);
        let link = (seq_of(es[0].0), type_of(es[0].0), es[0].1);
        let del = (rt, VALUE_TYPE_DELETION, Seq::<u8>::empty());
        assert(seq_of(es[0].0) > 0);
        if visible(es[0], u, s) {
            assert(c[0] == link);
            if link.0 <= rt {
                assert(taken(c, rt) == seq![del]);
                assert forall|i: int|
                    0 <= i < rest.len() && user_of((#[trigger] rest[i]).0) == u implies seq_of(
                    rest[i].0,
                ) <= link.0 by {
                    assert(rest[i] == es[i + 1]);
                    lemma_internal_order(es[0].0, es[i + 1].0);
                    lemma_lex_order(u, u, u);
                }
                lemma_hidden_rest(rest, u, s, rt, link.0);
                assert(seq![del] =~= Seq::<Link>::empty().push(del));
            } else if link.1 == VALUE_TYPE_MERGE {
                assert(c == seq![link] + chain(rest, u, s));
                assert(c.skip(1) =~= chain(rest, u, s));
                assert(taken(c, rt) == seq![link] + b);
                assert(chain_over(es, u, s, rt) == seq![link] + a);
                if a != b {
                    assert(seq![link] + a.push(del) =~= (seq![link] + a).push(del));
                    let x = seq![link] + a;
                    assert forall|i: int| 0 <= i < x.len() implies (#[trigger] x[i]).1
                        == VALUE_TYPE_MERGE by {
                        if i > 0 {
                            assert(x[i] == a[i - 1]);
                        }
                    }
                }
            } else {
                assert(c =~= seq![link]);
            }
        }
    }
}

/// What is left of a chain without what a tombstone hides comes to the same as
/// the chain that stops at the tombstone.
pub proof fn lemma_chain_over(scan: Scan, u: Seq<u8>)
    requires
        scan.wf(),
    ensures
        outcome_of(chain_over(scan.all, u, scan.snapshot_seq, scan.rt(u))) == scan.outcome(u),
{
    lemma_over_is_taken(scan.all, u, scan.snapshot_seq, scan.rt(u));
    lemma_same_outcome(
        chain_over(scan.all, u, scan.snapshot_seq, scan.rt(u)),
        taken(scan.chain(u), scan.rt(u)),
        scan.rt(u),
    );
}

/// Entries that are no versions of `u` do not matter to its chain.
pub proof fn lemma_chain_over_skip(es: Seq<Pair>, u: Seq<u8>, s: u64, rt: u64, n: int)
    requires
        0 <= n <= es.len(),
        forall|i: int| 0 <= i < n ==> user_of((#[trigger] es[i]).0) != u,
    ensures
        chain_over(es, u, s, rt) == chain_over(es.skip(n), u, s, rt),
    decreases n,
{
    if n == 0 {
        assert(es.skip(0) =~= es);
    } else {
        assert(user_of(es[0].0) != u);
        let rest = es.skip(1);
        assert forall|i: int| 0 <= i < n - 1 implies user_of((#[trigger] rest[i]).0) != u by {
            assert(rest[i] == es[i + 1]);
        }
        lemma_chain_over_skip(rest, u, s, rt, n - 1);
        assert(rest.skip(n - 1) =~= es.skip(n));
    }
}

} // verus!
