//! What full walks of an iterator come to.

use super::age_laws::in_age_order;
use super::age_laws::lemma_age_order_serves_lookups;
use super::block_entry::Pair;
use super::hooks::MergeOperator;
use super::internal_key::type_of;
use super::internal_key::VALUE_TYPE_MERGE;
use super::iterator::tells;
use super::iterator::went_back;
use super::iterator::went_first;
use super::iterator::went_last;
use super::iterator::went_on;
use super::iterator::LarkIterator;
use super::lookup::aged;
use super::lookup::walk;
use super::lookup::walk_chain;
use super::order_laws::in_order;
use super::read_view::ReadView;
use super::scan::at_or_after;
use super::scan::at_or_before;
use super::scan::is_first_shown;
use super::scan::is_last_shown;
use super::scan::outcome_of;
use super::scan::Outcome;
use super::scan::Scan;
use super::scan_laws::is_scan_of;
use super::scan_laws::is_tie;
use super::scan_laws::lemma_scans_agree_with_lookups;
use super::versions::chain;
use super::versions::visible;
use crate::bytes::lemma_lex_order;
use crate::bytes::lex_le;
use crate::bytes::lex_lt;
use crate::error::Error;
use vstd::prelude::*;

verus! {

/// Element `i` of a walk, and nothing behind its end.
pub open spec fn stop(ks: Seq<Seq<u8>>, i: int) -> Option<Seq<u8>> {
    if 0 <= i < ks.len() {
        Some(ks[i])
    } else {
        None
    }
}

/// `ks` are the keys at which an iterator stands that starts at the first and
/// goes on to the next until there is none.
pub open spec fn is_forward_walk(scan: Scan, ks: Seq<Seq<u8>>) -> bool {
    &&& is_first_shown(scan, None, false, None, stop(ks, 0))
    &&& forall|i: int| 0 <= i < ks.len() ==> #[trigger] goes_on(scan, ks, i)
}

/// Behind key `i` comes the next.
pub open spec fn goes_on(scan: Scan, ks: Seq<Seq<u8>>, i: int) -> bool {
    is_first_shown(scan, Some(ks[i]), true, None, stop(ks, i + 1))
}

/// Before key `i` comes the next.
pub open spec fn goes_back(scan: Scan, ks: Seq<Seq<u8>>, i: int) -> bool {
    is_last_shown(scan, Some(ks[i]), true, stop(ks, i + 1))
}

/// `ks` are the keys at which an iterator stands that starts at the last and
/// goes back to the one before until there is none.
pub open spec fn is_backward_walk(scan: Scan, ks: Seq<Seq<u8>>) -> bool {
    &&& is_last_shown(scan, None, false, stop(ks, 0))
    &&& forall|i: int| 0 <= i < ks.len() ==> #[trigger] goes_back(scan, ks, i)
}

/// The keys ascend.
pub open spec fn keys_ascend(ks: Seq<Seq<u8>>) -> bool {
    forall|i: int, j: int| 0 <= i < j < ks.len() ==> lex_lt(#[trigger] ks[i], #[trigger] ks[j])
}

/// A walk has passed `u` or is before it.
proof fn lemma_forward_reach(scan: Scan, ks: Seq<Seq<u8>>, u: Seq<u8>, n: int)
    requires
        is_forward_walk(scan, ks),
        scan.shows(u),
        0 <= n <= ks.len(),
    ensures
        ks.take(n).contains(u) || n == 0 || lex_lt(ks[n - 1], u),
        n == ks.len() ==> ks.contains(u),
    decreases n,
{
    if n == 0 {
        assert(at_or_after(u, None, false) && at_or_before(u, None, true));
    } else {
        lemma_forward_reach(scan, ks, u, n - 1);
        let k = ks[n - 1];
        if ks.take(n - 1).contains(u) {
            let t = ks.take(n - 1);
            let i = choose|i: int| 0 <= i < t.len() && t[i] == u;
            assert(ks.take(n)[i] == u);
            assert(ks[i] == u);
        } else {
            if n == 1 {
                assert(is_first_shown(scan, None, false, None, Some(k)));
                assert(lex_le(k, u));
            } else {
                assert(goes_on(scan, ks, n - 2));
                assert(lex_le(k, u));
            }
            if k == u {
                assert(ks.take(n)[n - 1] == u);
            } else if n == ks.len() {
                assert(goes_on(scan, ks, n - 1));
                assert(at_or_after(u, Some(k), true) && at_or_before(u, None, true));
            }
        }
    }
}

proof fn lemma_forward_ascends(scan: Scan, ks: Seq<Seq<u8>>, i: int, j: int)
    requires
        is_forward_walk(scan, ks),
        0 <= i < j < ks.len(),
    ensures
        lex_lt(ks[i], ks[j]),
    decreases j - i,
{
    assert(goes_on(scan, ks, j - 1));
    if i < j - 1 {
        lemma_forward_ascends(scan, ks, i, j - 1);
        lemma_lex_order(ks[i], ks[j - 1], ks[j]);
    }
}

/// A full forward walk stands at every key that has a value, once, in order,
/// and at no other.
pub proof fn lemma_forward_walk_shows_all(scan: Scan, ks: Seq<Seq<u8>>)
    requires
        is_forward_walk(scan, ks),
    ensures
        keys_ascend(ks),
        forall|u: Seq<u8>| #[trigger] ks.contains(u) == scan.shows(u),
{
    assert forall|i: int, j: int| 0 <= i < j < ks.len() implies lex_lt(
        #[trigger] ks[i],
        #[trigger] ks[j],
    ) by {
        lemma_forward_ascends(scan, ks, i, j);
    }
    assert forall|u: Seq<u8>| #[trigger] ks.contains(u) == scan.shows(u) by {
        if scan.shows(u) {
            lemma_forward_reach(scan, ks, u, ks.len() as int);
        }
        if ks.contains(u) {
            let i = choose|i: int| 0 <= i < ks.len() && ks[i] == u;
            if i == 0 {
                assert(is_first_shown(scan, None, false, None, Some(ks[0])));
            } else {
                assert(goes_on(scan, ks, i - 1));
            }
        }
    }
}

proof fn lemma_backward_reach(scan: Scan, ks: Seq<Seq<u8>>, u: Seq<u8>, n: int)
    requires
        is_backward_walk(scan, ks),
        scan.shows(u),
        0 <= n <= ks.len(),
    ensures
        ks.take(n).contains(u) || n == 0 || lex_lt(u, ks[n - 1]),
        n == ks.len() ==> ks.contains(u),
    decreases n,
{
    if n == 0 {
        assert(at_or_before(u, None, false));
    } else {
        lemma_backward_reach(scan, ks, u, n - 1);
        let k = ks[n - 1];
        if ks.take(n - 1).contains(u) {
            let t = ks.take(n - 1);
            let i = choose|i: int| 0 <= i < t.len() && t[i] == u;
            assert(ks.take(n)[i] == u);
            assert(ks[i] == u);
        } else {
            if n == 1 {
                assert(is_last_shown(scan, None, false, Some(k)));
                assert(lex_le(u, k));
            } else {
                assert(goes_back(scan, ks, n - 2));
                assert(lex_le(u, k));
            }
            if k == u {
                assert(ks.take(n)[n - 1] == u);
            } else if n == ks.len() {
                assert(goes_back(scan, ks, n - 1));
                assert(at_or_before(u, Some(k), true));
            }
        }
    }
}

proof fn lemma_backward_descends(scan: Scan, ks: Seq<Seq<u8>>, i: int, j: int)
    requires
        is_backward_walk(scan, ks),
        0 <= i < j < ks.len(),
    ensures
        lex_lt(ks[j], ks[i]),
    decreases j - i,
{
    assert(goes_back(scan, ks, j - 1));
    if i < j - 1 {
        lemma_backward_descends(scan, ks, i, j - 1);
        lemma_lex_order(ks[j], ks[j - 1], ks[i]);
    }
}

/// Ascending keys are determined by which they are.
proof fn lemma_one_order(a: Seq<Seq<u8>>, b: Seq<Seq<u8>>)
    requires
        keys_ascend(a),
        keys_ascend(b),
        forall|u: Seq<u8>| #[trigger] a.contains(u) == b.contains(u),
    ensures
        a == b,
    decreases a.len(),
{
    if a.len() == 0 {
        if b.len() > 0 {
            assert(b.contains(b[0]));
            assert(a.contains(b[0]));
        }
        assert(a =~= b);
    } else {
        let x = a.last();
        assert(a.contains(a[a.len() - 1]));
        let j = choose|j: int| 0 <= j < b.len() && b[j] == x;
        let y = b[b.len() - 1];
        assert(b.contains(y));
        assert(a.contains(y));
        let i = choose|i: int| 0 <= i < a.len() && a[i] == y;
        lemma_lex_order(x, y, x);
        if i < a.len() - 1 {
            assert(lex_lt(a[i], a[a.len() - 1]));
            if j < b.len() - 1 {
                assert(lex_lt(b[j], b[b.len() - 1]));
            }
        }
        assert(x == y);
        let (c, d) = (a.drop_last(), b.drop_last());
        assert forall|u: Seq<u8>| #[trigger] c.contains(u) == d.contains(u) by {
            lemma_but_last(a, u);
            lemma_but_last(b, u);
        }
        lemma_one_order(c, d);
        assert(a =~= c.push(x) && b =~= d.push(y));
    }
}

proof fn lemma_but_last(a: Seq<Seq<u8>>, u: Seq<u8>)
    requires
        keys_ascend(a),
        a.len() > 0,
    ensures
        a.drop_last().contains(u) == (a.contains(u) && u != a.last()),
{
    let c = a.drop_last();
    lemma_lex_order(u, u, u);
    if c.contains(u) {
        let i = choose|i: int| 0 <= i < c.len() && c[i] == u;
        assert(a[i] == u);
        assert(lex_lt(a[i], a[a.len() - 1]));
    }
    if a.contains(u) && u != a.last() {
        let i = choose|i: int| 0 <= i < a.len() && a[i] == u;
        assert(c[i] == u);
    }
}

/// A full backward walk is the forward one reversed.
pub proof fn lemma_backward_walk_is_reversed(
    scan: Scan,
    forward: Seq<Seq<u8>>,
    backward: Seq<Seq<u8>>,
)
    requires
        is_forward_walk(scan, forward),
        is_backward_walk(scan, backward),
    ensures
        backward == forward.reverse(),
{
    let r = backward.reverse();
    let n = backward.len() as int;
    lemma_forward_walk_shows_all(scan, forward);
    assert forall|i: int, j: int| 0 <= i < j < r.len() implies lex_lt(
        #[trigger] r[i],
        #[trigger] r[j],
    ) by {
        lemma_backward_descends(scan, backward, n - 1 - j, n - 1 - i);
    }
    assert forall|u: Seq<u8>| #[trigger] r.contains(u) == forward.contains(u) by {
        if forward.contains(u) {
            lemma_backward_reach(scan, backward, u, n);
            let i = choose|i: int| 0 <= i < n && backward[i] == u;
            assert(r[n - 1 - i] == u);
        }
        if r.contains(u) {
            let i = choose|i: int| 0 <= i < n && r[i] == u;
            let j = n - 1 - i;
            assert(backward[j] == u);
            if j == 0 {
                assert(is_last_shown(scan, None, false, Some(backward[0])));
            } else {
                assert(goes_back(scan, backward, j - 1));
            }
        }
    }
    lemma_one_order(r, forward);
    assert(backward =~= forward.reverse());
}

/// A lookup finds something. Without a merge operator operands have no value.
pub open spec fn finds(o: Outcome, merges: bool) -> bool {
    match o {
        Outcome::Absent => false,
        Outcome::Value(_) => true,
        Outcome::Merge(_, _) => merges,
    }
}

/// A full forward walk of a view whose sources are in order of age stands at
/// exactly the keys that a lookup at the same snapshot finds, and shows of each
/// what the lookup finds. Left out are versions with the very sequence number
/// of the tombstone that covers them.
pub proof fn lemma_walk_shows_what_lookups_find(v: ReadView, scan: Scan, ks: Seq<Seq<u8>>)
    requires
        v.wf(),
        forall|key: Seq<u8>| #[trigger] aged(v.layers(key), key),
        is_scan_of(v, scan),
        scan.wf(),
        forall|key: Seq<u8>| !#[trigger] is_tie(scan, key),
        is_forward_walk(scan, ks),
    ensures
        keys_ascend(ks),
        forall|u: Seq<u8>| #[trigger]
            ks.contains(u) == finds(
                outcome_of(walk_chain(v.layers(u), u, scan.snapshot_seq, 0)),
                scan.merges,
            ),
        forall|i: int|
            0 <= i < ks.len() ==> scan.outcome(#[trigger] ks[i]) == outcome_of(
                walk_chain(v.layers(ks[i]), ks[i], scan.snapshot_seq, 0),
            ),
{
    lemma_forward_walk_shows_all(scan, ks);
    assert forall|u: Seq<u8>| scan.outcome(u) == outcome_of(
        #[trigger] walk_chain(v.layers(u), u, scan.snapshot_seq, 0),
    ) by {
        assert(aged(v.layers(u), u));
        assert(!is_tie(scan, u));
        lemma_scans_agree_with_lookups(v, scan, u);
    }
    assert forall|u: Seq<u8>| #[trigger] ks.contains(u) == finds(
        outcome_of(walk_chain(v.layers(u), u, scan.snapshot_seq, 0)),
        scan.merges,
    ) by {}
}

// ── Walks call by call ───────────────────────────────────────────

/// Where the iterator stands, it goes on to the next.
pub open spec fn calls_next<M: MergeOperator>(its: Seq<LarkIterator<'_, M>>, i: int) -> bool {
    its[i].current() is Some && went_on(its[i], its[i + 1])
}

/// Where the iterator stands, it goes back to the one before.
pub open spec fn calls_prev<M: MergeOperator>(its: Seq<LarkIterator<'_, M>>, i: int) -> bool {
    its[i].current() is Some && went_back(its[i], its[i + 1])
}

/// An iterator before [`LarkIterator::seek_to_first`], after it, and after each
/// [`LarkIterator::next`], until it stands at nothing and has not failed.
pub open spec fn walks_forward<M: MergeOperator>(its: Seq<LarkIterator<'_, M>>) -> bool {
    &&& its.len() >= 2
    &&& went_first(its[0], its[1])
    &&& forall|i: int| 1 <= i < its.len() - 1 ==> #[trigger] calls_next(its, i)
    &&& its.last().current() is None
    &&& its.last().err() is None
}

/// An iterator before [`LarkIterator::seek_to_last`], after it, and after each
/// [`LarkIterator::prev`], until it stands at nothing and has not failed.
pub open spec fn walks_backward<M: MergeOperator>(its: Seq<LarkIterator<'_, M>>) -> bool {
    &&& its.len() >= 2
    &&& went_last(its[0], its[1])
    &&& forall|i: int| 1 <= i < its.len() - 1 ==> #[trigger] calls_prev(its, i)
    &&& its.last().current() is None
    &&& its.last().err() is None
}

/// The keys and values at which the iterator stood.
pub open spec fn shown<M: MergeOperator>(its: Seq<LarkIterator<'_, M>>) -> Seq<Pair> {
    Seq::new((its.len() - 2) as nat, |i: int| its[i + 1].current()->0)
}

/// The keys of pairs.
pub open spec fn keys_of(ps: Seq<Pair>) -> Seq<Seq<u8>> {
    ps.map_values(|p: Pair| p.0)
}

/// The scan meets no merge operands.
pub open spec fn no_operands(scan: Scan) -> bool {
    forall|i: int|
        0 <= i < scan.all.len() ==> type_of((#[trigger] scan.all[i]).0) != VALUE_TYPE_MERGE
}

/// What the iterator says gives away where it stopped.
pub proof fn lemma_tells_where<M: MergeOperator>(
    scan: Scan,
    op: Option<&M>,
    u: Option<Seq<u8>>,
    current: Option<Pair>,
    error: Option<Error>,
)
    requires
        tells(scan, op, u, current, error),
        current is Some || error is None,
    ensures
        u == match current {
            Some(p) => Some(p.0),
            None => None,
        },
        error is None,
{
}

/// The scan stays the same along a walk.
proof fn lemma_forward_same<M: MergeOperator>(its: Seq<LarkIterator<'_, M>>, n: int)
    requires
        walks_forward(its),
        1 <= n < its.len(),
    ensures
        its[n].scan() == its[0].scan(),
        its[n].op() == its[0].op(),
        its[n].end() is None,
    decreases n,
{
    if n > 1 {
        lemma_forward_same(its, n - 1);
        assert(calls_next(its, n - 1));
    }
}

proof fn lemma_backward_same<M: MergeOperator>(its: Seq<LarkIterator<'_, M>>, n: int)
    requires
        walks_backward(its),
        1 <= n < its.len(),
    ensures
        its[n].scan() == its[0].scan(),
        its[n].op() == its[0].op(),
    decreases n,
{
    if n > 1 {
        lemma_backward_same(its, n - 1);
        assert(calls_prev(its, n - 1));
    }
}

/// The calls of a full forward walk stand at the keys of one, and say of each
/// what the scan has there.
pub proof fn lemma_calls_walk_forward<M: MergeOperator>(its: Seq<LarkIterator<'_, M>>)
    requires
        walks_forward(its),
    ensures
        is_forward_walk(its[0].scan(), keys_of(shown(its))),
        forall|i: int|
            0 <= i < shown(its).len() ==> tells(
                its[0].scan(),
                its[0].op(),
                Some((#[trigger] shown(its)[i]).0),
                Some(shown(its)[i]),
                None,
            ),
{
    let scan = its[0].scan();
    let op = its[0].op();
    let ks = keys_of(shown(its));
    let n = its.len() - 2;
    assert forall|i: int| 0 <= i <= n implies stop(ks, i) == match (#[trigger] its[i + 1]).current() {
        Some(p) => Some(p.0),
        None => None,
    } by {
        if i < n {
            assert(calls_next(its, i + 1));
            assert(ks[i] == shown(its)[i].0);
        } else {
            assert(its[i + 1] == its.last());
        }
    }
    let u = choose|u: Option<Seq<u8>>| #[trigger]
        is_first_shown(scan, None, false, None, u) && tells(
            scan,
            op,
            u,
            its[1].current(),
            its[1].err(),
        );
    if n > 0 {
        assert(calls_next(its, 1));
    } else {
        assert(its[1] == its.last());
    }
    lemma_tells_where(scan, op, u, its[1].current(), its[1].err());
    assert(stop(ks, 0) == u);
    assert forall|i: int| 0 <= i < ks.len() implies #[trigger] goes_on(scan, ks, i) by {
        lemma_forward_step(its, i);
        assert(stop(ks, i + 1) == match its[i + 2].current() {
            Some(p) => Some(p.0),
            None => None,
        }) by {
            let j = i + 1;
            assert(its[j + 1] == its[i + 2]);
        }
    }
    assert forall|i: int| 0 <= i < shown(its).len() implies tells(
        scan,
        op,
        Some((#[trigger] shown(its)[i]).0),
        Some(shown(its)[i]),
        None,
    ) by {
        assert(calls_next(its, i + 1));
        if i > 0 {
            lemma_forward_step(its, i - 1);
        }
    }
}

/// One call of a forward walk.
proof fn lemma_forward_step<M: MergeOperator>(its: Seq<LarkIterator<'_, M>>, i: int)
    requires
        walks_forward(its),
        0 <= i < its.len() - 2,
    ensures
        ({
            let u = match its[i + 2].current() {
                Some(p) => Some(p.0),
                None => None,
            };
            &&& is_first_shown(its[0].scan(), Some(shown(its)[i].0), true, None, u)
            &&& tells(its[0].scan(), its[0].op(), u, its[i + 2].current(), None)
        }),
{
    let scan = its[0].scan();
    let op = its[0].op();
    lemma_forward_same(its, i + 1);
    assert(calls_next(its, i + 1));
    let c = its[i + 1].current()->0;
    let b = its[i + 2];
    let u = choose|u: Option<Seq<u8>>| #[trigger]
        is_first_shown(scan, Some(c.0), true, None, u) && tells(
            scan,
            op,
            u,
            b.current(),
            b.err(),
        );
    if i + 2 < its.len() - 1 {
        assert(calls_next(its, i + 2));
    } else {
        assert(b == its.last());
    }
    lemma_tells_where(scan, op, u, b.current(), b.err());
}

/// The calls of a full backward walk stand at the keys of one, and say of each
/// what the scan has there.
pub proof fn lemma_calls_walk_backward<M: MergeOperator>(its: Seq<LarkIterator<'_, M>>)
    requires
        walks_backward(its),
    ensures
        is_backward_walk(its[0].scan(), keys_of(shown(its))),
        forall|i: int|
            0 <= i < shown(its).len() ==> tells(
                its[0].scan(),
                its[0].op(),
                Some((#[trigger] shown(its)[i]).0),
                Some(shown(its)[i]),
                None,
            ),
{
    let scan = its[0].scan();
    let op = its[0].op();
    let ks = keys_of(shown(its));
    let n = its.len() - 2;
    assert forall|i: int| 0 <= i <= n implies stop(ks, i) == match (#[trigger] its[i + 1]).current() {
        Some(p) => Some(p.0),
        None => None,
    } by {
        if i < n {
            assert(calls_prev(its, i + 1));
            assert(ks[i] == shown(its)[i].0);
        } else {
            assert(its[i + 1] == its.last());
        }
    }
    let u = choose|u: Option<Seq<u8>>| #[trigger]
        is_last_shown(scan, None, false, u) && tells(scan, op, u, its[1].current(), its[1].err());
    if n > 0 {
        assert(calls_prev(its, 1));
    } else {
        assert(its[1] == its.last());
    }
    lemma_tells_where(scan, op, u, its[1].current(), its[1].err());
    assert(stop(ks, 0) == u);
    assert forall|i: int| 0 <= i < ks.len() implies #[trigger] goes_back(scan, ks, i) by {
        lemma_backward_step(its, i);
        assert(stop(ks, i + 1) == match its[i + 2].current() {
            Some(p) => Some(p.0),
            None => None,
        }) by {
            let j = i + 1;
            assert(its[j + 1] == its[i + 2]);
        }
    }
    assert forall|i: int| 0 <= i < shown(its).len() implies tells(
        scan,
        op,
        Some((#[trigger] shown(its)[i]).0),
        Some(shown(its)[i]),
        None,
    ) by {
        assert(calls_prev(its, i + 1));
        if i > 0 {
            lemma_backward_step(its, i - 1);
        }
    }
}

/// One call of a backward walk.
proof fn lemma_backward_step<M: MergeOperator>(its: Seq<LarkIterator<'_, M>>, i: int)
    requires
        walks_backward(its),
        0 <= i < its.len() - 2,
    ensures
        ({
            let u = match its[i + 2].current() {
                Some(p) => Some(p.0),
                None => None,
            };
            &&& is_last_shown(its[0].scan(), Some(shown(its)[i].0), true, u)
            &&& tells(its[0].scan(), its[0].op(), u, its[i + 2].current(), None)
        }),
{
    let scan = its[0].scan();
    let op = its[0].op();
    lemma_backward_same(its, i + 1);
    assert(calls_prev(its, i + 1));
    let c = its[i + 1].current()->0;
    let b = its[i + 2];
    let u = choose|u: Option<Seq<u8>>| #[trigger]
        is_last_shown(scan, Some(c.0), true, u) && tells(scan, op, u, b.current(), b.err());
    if i + 2 < its.len() - 1 {
        assert(calls_prev(its, i + 2));
    } else {
        assert(b == its.last());
    }
    lemma_tells_where(scan, op, u, b.current(), b.err());
}

/// Two pairs that the iterator says of one key are the same where no merge
/// operator has a say.
proof fn lemma_one_value<M: MergeOperator>(
    scan: Scan,
    op: Option<&M>,
    p: Pair,
    q: Pair,
)
    requires
        scan.wf(),
        no_operands(scan),
        p.0 == q.0,
        tells(scan, op, Some(p.0), Some(p), None),
        tells(scan, op, Some(q.0), Some(q), None),
    ensures
        p == q,
        scan.outcome(p.0) == Outcome::Value(p.1),
{
    lemma_plain_outcome(scan, p.0);
}

/// What a full backward walk shows, call by call, is what a forward one shows,
/// reversed: the same keys, and where no merge operator has a say the same
/// values.
pub proof fn lemma_backward_calls_reverse_forward_calls<M: MergeOperator>(
    forward: Seq<LarkIterator<'_, M>>,
    backward: Seq<LarkIterator<'_, M>>,
)
    requires
        forward.len() > 0 && forward[0].wf(),
        walks_forward(forward),
        walks_backward(backward),
        backward[0].same_scan(&forward[0]),
    ensures
        keys_of(shown(backward)) == keys_of(shown(forward)).reverse(),
        no_operands(forward[0].scan()) ==> shown(backward) == shown(forward).reverse(),
{
    let scan = forward[0].scan();
    forward[0].lemma_scan_wf();
    let (f, b) = (shown(forward), shown(backward));
    lemma_calls_walk_forward(forward);
    lemma_calls_walk_backward(backward);
    lemma_backward_walk_is_reversed(scan, keys_of(f), keys_of(b));
    assert(keys_of(f).len() == f.len() && keys_of(b).len() == b.len());
    assert(keys_of(f).reverse().len() == f.len());
    if no_operands(scan) {
        assert forall|i: int| 0 <= i < b.len() implies b[i] == f.reverse()[i] by {
            let j = f.len() - 1 - i;
            assert(keys_of(b)[i] == b[i].0);
            assert(keys_of(f)[j] == f[j].0);
            assert(keys_of(f).reverse()[i] == keys_of(f)[j]);
            lemma_one_value(scan, forward[0].op(), f[j], b[i]);
        }
        assert(b =~= f.reverse());
    }
}

/// From a key of a forward walk, going back leads to the key just before it in
/// the walk, and from the first key to none.
pub proof fn lemma_going_back_undoes_going_on<M: MergeOperator>(
    its: Seq<LarkIterator<'_, M>>,
    i: int,
    b: LarkIterator<'_, M>,
)
    requires
        its.len() > 0 && its[0].wf(),
        walks_forward(its),
        0 <= i < shown(its).len(),
        went_back(its[i + 1], b),
        b.err() is None,
    ensures
        i == 0 ==> b.current() is None,
        i > 0 ==> (b.current() matches Some(p) && p.0 == shown(its)[i - 1].0),
        i > 0 && no_operands(its[0].scan()) ==> b.current() == Some(shown(its)[i - 1]),
{
    let scan = its[0].scan();
    let op = its[0].op();
    let ks = keys_of(shown(its));
    its[0].lemma_scan_wf();
    lemma_calls_walk_forward(its);
    lemma_forward_walk_shows_all(scan, ks);
    lemma_forward_same(its, i + 1);
    assert(calls_next(its, i + 1));
    let c = its[i + 1].current()->0;
    assert(shown(its)[i] == c && ks[i] == c.0);
    let u = choose|u: Option<Seq<u8>>| #[trigger]
        is_last_shown(scan, Some(c.0), true, u) && tells(scan, op, u, b.current(), b.err());
    lemma_tells_where(scan, op, u, b.current(), b.err());
    if i > 0 {
        assert(ks[i - 1] == shown(its)[i - 1].0);
        assert(ks.contains(ks[i - 1]));
        assert(scan.shows(ks[i - 1]));
        assert(lex_lt(ks[i - 1], ks[i]));
        assert(at_or_before(ks[i - 1], Some(c.0), true));
        assert(u is Some);
    }
    if u is Some {
        let k = u->0;
        assert(scan.shows(k));
        assert(ks.contains(k));
        let j = choose|j: int| 0 <= j < ks.len() && ks[j] == k;
        lemma_lex_order(k, ks[i], k);
        if j > i {
            assert(lex_lt(ks[i], ks[j]));
        }
        assert(j < i);
        if j < i - 1 {
            assert(lex_lt(ks[j], ks[i - 1]));
            assert(lex_le(ks[i - 1], k));
            lemma_lex_order(ks[j], ks[i - 1], ks[j]);
        }
    }
    if i > 0 && no_operands(scan) {
        lemma_one_value(scan, op, shown(its)[i - 1], b.current()->0);
    }
}

/// A full forward walk, call by call, of a view whose sources are in order
/// shows, in ascending order, exactly the keys and values that lookups at the
/// same snapshot find. No merge operator has a say; left out are versions with
/// the very sequence number of the tombstone that covers them.
pub proof fn lemma_calls_show_what_lookups_find<M: MergeOperator>(
    v: ReadView,
    its: Seq<LarkIterator<'_, M>>,
)
    requires
        v.wf(),
        in_order(v),
        its.len() > 0 && its[0].wf(),
        is_scan_of(v, its[0].scan()),
        no_operands(its[0].scan()),
        forall|key: Seq<u8>| !#[trigger] is_tie(its[0].scan(), key),
        walks_forward(its),
    ensures
        keys_ascend(keys_of(shown(its))),
        forall|p: Pair| #[trigger]
            shown(its).contains(p) == (walk(v.layers(p.0), p.0, its[0].scan().snapshot_seq, 0)
                == Some(p.1)),
{
    let scan = its[0].scan();
    let op = its[0].op();
    let ps = shown(its);
    let ks = keys_of(ps);
    its[0].lemma_scan_wf();
    lemma_calls_walk_forward(its);
    lemma_forward_walk_shows_all(scan, ks);
    assert forall|p: Pair| #[trigger] ps.contains(p) == (walk(
        v.layers(p.0),
        p.0,
        scan.snapshot_seq,
        0,
    ) == Some(p.1)) by {
        assert(in_age_order(v, p.0));
        lemma_age_order_serves_lookups(v, p.0);
        assert(!is_tie(scan, p.0));
        lemma_scans_agree_with_lookups(v, scan, p.0);
        lemma_plain_outcome(scan, p.0);
        if ps.contains(p) {
            let i = choose|i: int| 0 <= i < ps.len() && ps[i] == p;
            assert(tells(scan, op, Some(ps[i].0), Some(ps[i]), None));
            lemma_one_value(scan, op, p, p);
        }
        if walk(v.layers(p.0), p.0, scan.snapshot_seq, 0) == Some(p.1) {
            assert(scan.outcome(p.0) == Outcome::Value(p.1));
            assert(scan.shows(p.0));
            assert(ks.contains(p.0));
            let i = choose|i: int| 0 <= i < ks.len() && ks[i] == p.0;
            assert(ks[i] == ps[i].0);
            assert(tells(scan, op, Some(ps[i].0), Some(ps[i]), None));
            assert(ps[i] == p);
        }
    }
}

/// A key has a value or none where no merge operator has a say.
proof fn lemma_plain_outcome(scan: Scan, u: Seq<u8>)
    requires
        scan.wf(),
        no_operands(scan),
    ensures
        !(scan.outcome(u) is Merge),
        scan.chain(u).len() > 0 ==> scan.chain(u)[0].1 != VALUE_TYPE_MERGE,
{
    let c = scan.chain(u);
    if c.len() > 0 {
        let i = lemma_chain_head(scan.all, u, scan.snapshot_seq);
        assert(type_of(scan.all[i].0) <= VALUE_TYPE_MERGE);
    }
}

/// The newest link of a chain is one of the entries.
proof fn lemma_chain_head(es: Seq<Pair>, u: Seq<u8>, snapshot_seq: u64) -> (i: int)
    requires
        chain(es, u, snapshot_seq).len() > 0,
    ensures
        0 <= i < es.len(),
        chain(es, u, snapshot_seq)[0].1 == type_of(es[i].0),
    decreases es.len(),
{
    if visible(es[0], u, snapshot_seq) {
        0
    } else {
        lemma_chain_head(es.skip(1), u, snapshot_seq) + 1
    }
}

} // verus!
