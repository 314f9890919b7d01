//! Where the seeks of an iterator lead: to the nearest key with a value, with
//! none passed over.

use super::block_entry::Pair;
use super::hooks::MergeOperator;
use super::iterator::tells;
use super::iterator::went_back;
use super::iterator::went_first;
use super::iterator::went_last;
use super::iterator::went_on;
use super::iterator::went_to;
use super::iterator::went_to_prefix;
use super::iterator::went_up_to;
use super::iterator::LarkIterator;
use super::scan::at_or_after;
use super::scan::at_or_before;
use super::scan::is_first_shown;
use super::scan::is_last_shown;
use super::scan::Scan;
use super::walk_laws::lemma_tells_where;
use crate::bytes::has_prefix;
use crate::bytes::lemma_lex_order;
use crate::bytes::lemma_prefix_range;
use crate::bytes::lex_le;
use crate::bytes::lex_lt;
use crate::bytes::prefix_successor;
use crate::error::Error;
use vstd::prelude::*;

verus! {

/// The entry is that of the least key with a value among those that `among`
/// lets in; there is none where there is no entry.
pub open spec fn is_least(
    scan: Scan,
    among: spec_fn(Seq<u8>) -> bool,
    current: Option<Pair>,
) -> bool {
    match current {
        Some(p) => {
            &&& scan.shows(p.0) && among(p.0)
            &&& forall|v: Seq<u8>| #[trigger] scan.shows(v) && among(v) ==> !lex_lt(v, p.0)
        },
        None => forall|v: Seq<u8>| #[trigger] scan.shows(v) ==> !among(v),
    }
}

/// The entry is that of the greatest key with a value among those that `among`
/// lets in.
pub open spec fn is_greatest(
    scan: Scan,
    among: spec_fn(Seq<u8>) -> bool,
    current: Option<Pair>,
) -> bool {
    match current {
        Some(p) => {
            &&& scan.shows(p.0) && among(p.0)
            &&& forall|v: Seq<u8>| #[trigger] scan.shows(v) && among(v) ==> !lex_lt(p.0, v)
        },
        None => forall|v: Seq<u8>| #[trigger] scan.shows(v) ==> !among(v),
    }
}

proof fn lemma_not_before(a: Seq<u8>, b: Seq<u8>)
    ensures
        lex_le(a, b) == !lex_lt(b, a),
{
    lemma_lex_order(a, b, a);
    lemma_lex_order(b, a, b);
}

proof fn lemma_first<M: MergeOperator>(
    scan: Scan,
    op: Option<&M>,
    lo: Option<Seq<u8>>,
    strict: bool,
    end: Option<Seq<u8>>,
    u: Option<Seq<u8>>,
    current: Option<Pair>,
    error: Option<Error>,
    among: spec_fn(Seq<u8>) -> bool,
)
    requires
        is_first_shown(scan, lo, strict, end, u),
        tells(scan, op, u, current, error),
        error is None,
        forall|v: Seq<u8>| #[trigger]
            among(v) <==> (lo is Some ==> if strict {
                lex_lt(lo->0, v)
            } else {
                !lex_lt(v, lo->0)
            }) && (end is Some ==> lex_lt(v, end->0)),
    ensures
        is_least(scan, among, current),
{
    lemma_tells_where(scan, op, u, current, error);
    assert forall|v: Seq<u8>| #[trigger] scan.shows(v) implies among(v) == (
    at_or_after(v, lo, strict) && at_or_before(v, end, true)) by {
        if lo is Some {
            lemma_not_before(lo->0, v);
        }
    }
    if let Some(p) = current {
        assert forall|v: Seq<u8>| #[trigger] scan.shows(v) && among(v) implies !lex_lt(v, p.0) by {
            lemma_not_before(p.0, v);
        }
    }
}

proof fn lemma_last<M: MergeOperator>(
    scan: Scan,
    op: Option<&M>,
    hi: Option<Seq<u8>>,
    strict: bool,
    u: Option<Seq<u8>>,
    current: Option<Pair>,
    error: Option<Error>,
    among: spec_fn(Seq<u8>) -> bool,
)
    requires
        is_last_shown(scan, hi, strict, u),
        tells(scan, op, u, current, error),
        error is None,
        forall|v: Seq<u8>| #[trigger]
            among(v) <==> (hi is Some ==> if strict {
                lex_lt(v, hi->0)
            } else {
                !lex_lt(hi->0, v)
            }),
    ensures
        is_greatest(scan, among, current),
{
    lemma_tells_where(scan, op, u, current, error);
    assert forall|v: Seq<u8>| #[trigger] scan.shows(v) implies among(v)
        == at_or_before(v, hi, strict) by {
        if hi is Some {
            lemma_not_before(v, hi->0);
        }
    }
    if let Some(p) = current {
        assert forall|v: Seq<u8>| #[trigger] scan.shows(v) && among(v) implies !lex_lt(p.0, v) by {
            lemma_not_before(v, p.0);
        }
    }
}

/// A seek leads to the least key with a value that is not before its target,
/// and from the front of the database to the least of all.
pub proof fn lemma_seeks_lead_to_the_next_key<M: MergeOperator>(
    a: LarkIterator<'_, M>,
    b: LarkIterator<'_, M>,
    target: Seq<u8>,
)
    requires
        b.err() is None,
    ensures
        went_to(a, b, target) ==> is_least(
            a.scan(),
            |v: Seq<u8>| !lex_lt(v, target),
            b.current(),
        ),
        went_first(a, b) ==> is_least(a.scan(), |v: Seq<u8>| true, b.current()),
{
    let (scan, op) = (a.scan(), a.op());
    let none: Option<Seq<u8>> = None;
    if went_to(a, b, target) {
        let u = choose|u: Option<Seq<u8>>| #[trigger]
            is_first_shown(scan, Some(target), false, None, u) && tells(
                scan,
                op,
                u,
                b.current(),
                b.err(),
            );
        let among = |v: Seq<u8>| !lex_lt(v, target);
        lemma_first(scan, op, Some(target), false, none, u, b.current(), b.err(), among);
    }
    if went_first(a, b) {
        let u = choose|u: Option<Seq<u8>>| #[trigger]
            is_first_shown(scan, None, false, None, u) && tells(
                scan,
                op,
                u,
                b.current(),
                b.err(),
            );
        let among = |v: Seq<u8>| true;
        lemma_first(scan, op, none, false, none, u, b.current(), b.err(), among);
    }
}

/// A reverse seek leads to the greatest key with a value that is not past its
/// target, or that is before its bound, and from the back of the database to the
/// greatest of all.
pub proof fn lemma_reverse_seeks_lead_to_the_key_before<M: MergeOperator>(
    a: LarkIterator<'_, M>,
    b: LarkIterator<'_, M>,
    bound: Seq<u8>,
)
    requires
        b.err() is None,
    ensures
        went_up_to(a, b, bound, false) ==> is_greatest(
            a.scan(),
            |v: Seq<u8>| !lex_lt(bound, v),
            b.current(),
        ),
        went_up_to(a, b, bound, true) ==> is_greatest(
            a.scan(),
            |v: Seq<u8>| lex_lt(v, bound),
            b.current(),
        ),
        went_last(a, b) ==> is_greatest(a.scan(), |v: Seq<u8>| true, b.current()),
{
    let (scan, op) = (a.scan(), a.op());
    let none: Option<Seq<u8>> = None;
    if went_up_to(a, b, bound, false) {
        let u = choose|u: Option<Seq<u8>>| #[trigger]
            is_last_shown(scan, Some(bound), false, u) && tells(scan, op, u, b.current(), b.err());
        let among = |v: Seq<u8>| !lex_lt(bound, v);
        lemma_last(scan, op, Some(bound), false, u, b.current(), b.err(), among);
    }
    if went_up_to(a, b, bound, true) {
        let u = choose|u: Option<Seq<u8>>| #[trigger]
            is_last_shown(scan, Some(bound), true, u) && tells(scan, op, u, b.current(), b.err());
        let among = |v: Seq<u8>| lex_lt(v, bound);
        lemma_last(scan, op, Some(bound), true, u, b.current(), b.err(), among);
    }
    if went_last(a, b) {
        let u = choose|u: Option<Seq<u8>>| #[trigger]
            is_last_shown(scan, None, false, u) && tells(scan, op, u, b.current(), b.err());
        let among = |v: Seq<u8>| true;
        lemma_last(scan, op, none, false, u, b.current(), b.err(), among);
    }
}

/// From a key, going on leads to the least key with a value after it, and going
/// back to the greatest before it. A forward scan that ends somewhere ends there.
pub proof fn lemma_steps_lead_to_the_neighbours<M: MergeOperator>(
    a: LarkIterator<'_, M>,
    b: LarkIterator<'_, M>,
    key: Seq<u8>,
)
    requires
        b.err() is None,
        a.current() matches Some(c) && c.0 == key,
    ensures
        went_on(a, b) ==> is_least(
            a.scan(),
            |v: Seq<u8>| lex_lt(key, v) && (a.end() is Some ==> lex_lt(v, a.end()->0)),
            b.current(),
        ),
        went_back(a, b) ==> is_greatest(a.scan(), |v: Seq<u8>| lex_lt(v, key), b.current()),
{
    let (scan, op) = (a.scan(), a.op());
    if went_on(a, b) {
        let u = choose|u: Option<Seq<u8>>| #[trigger]
            is_first_shown(scan, Some(key), true, a.end(), u) && tells(
                scan,
                op,
                u,
                b.current(),
                b.err(),
            );
        let among = |v: Seq<u8>| lex_lt(key, v) && (a.end() is Some ==> lex_lt(v, a.end()->0));
        lemma_first(scan, op, Some(key), true, a.end(), u, b.current(), b.err(), among);
    }
    if went_back(a, b) {
        let u = choose|u: Option<Seq<u8>>| #[trigger]
            is_last_shown(scan, Some(key), true, u) && tells(scan, op, u, b.current(), b.err());
        let among = |v: Seq<u8>| lex_lt(v, key);
        lemma_last(scan, op, Some(key), true, u, b.current(), b.err(), among);
    }
}

/// A prefix scan stands at the keys that start with the prefix: the seek leads
/// to the least of them that has a value, and going on from one of them leads to
/// the least after it, and to none where there is none left.
pub proof fn lemma_prefix_scans_stay_within_the_prefix<M: MergeOperator>(
    a: LarkIterator<'_, M>,
    b: LarkIterator<'_, M>,
    prefix: Seq<u8>,
)
    requires
        b.err() is None,
    ensures
        went_to_prefix(a, b, prefix) ==> b.end() == prefix_successor(prefix) && is_least(
            a.scan(),
            |v: Seq<u8>| has_prefix(v, prefix),
            b.current(),
        ),
        went_on(a, b) && a.end() == prefix_successor(prefix) && (a.current() matches Some(c)
            && has_prefix(c.0, prefix)) ==> b.end() == prefix_successor(prefix) && is_least(
            a.scan(),
            |v: Seq<u8>| has_prefix(v, prefix) && lex_lt((a.current()->0).0, v),
            b.current(),
        ),
{
    let (scan, op) = (a.scan(), a.op());
    let end = prefix_successor(prefix);
    if went_to_prefix(a, b, prefix) {
        let u = choose|u: Option<Seq<u8>>| #[trigger]
            is_first_shown(scan, Some(prefix), false, end, u) && tells(
                scan,
                op,
                u,
                b.current(),
                b.err(),
            );
        let among = |v: Seq<u8>| has_prefix(v, prefix);
        assert forall|v: Seq<u8>| #[trigger] among(v) <==> !lex_lt(v, prefix) && (end is Some
            ==> lex_lt(v, end->0)) by {
            lemma_prefix_range(prefix, v);
            lemma_not_before(prefix, v);
        }
        lemma_first(scan, op, Some(prefix), false, end, u, b.current(), b.err(), among);
    }
    if went_on(a, b) && a.end() == end && (a.current() matches Some(c) && has_prefix(c.0, prefix)) {
        let key = (a.current()->0).0;
        let u = choose|u: Option<Seq<u8>>| #[trigger]
            is_first_shown(scan, Some(key), true, a.end(), u) && tells(
                scan,
                op,
                u,
                b.current(),
                b.err(),
            );
        let among = |v: Seq<u8>| has_prefix(v, prefix) && lex_lt(key, v);
        assert forall|v: Seq<u8>| #[trigger] among(v) <==> lex_lt(key, v) && (end is Some ==> lex_lt(
            v,
            end->0,
        )) by {
            lemma_prefix_range(prefix, v);
            lemma_prefix_range(prefix, key);
            lemma_not_before(prefix, v);
            lemma_not_before(prefix, key);
            lemma_lex_order(prefix, key, v);
        }
        lemma_first(scan, op, Some(key), true, end, u, b.current(), b.err(), among);
    }
}

} // verus!
