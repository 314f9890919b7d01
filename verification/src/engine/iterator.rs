//! The streaming iterator over memtables and tables at a snapshot.
//!
//! The sources are merged into one stream of internal keys. The iterator drops
//! what the snapshot does not see, keeps of each user key the newest version,
//! leaves deleted keys out and lets the merge operator make values of merge
//! chains. Forward, the versions of a user key come newest first, so the first
//! visible one decides; in reverse they come oldest first, so the whole group
//! is gone through before it is decided. Turning round seeks past the current
//! user key in the new direction.

use super::block_entry::Pair;
use super::hooks::MergeOperator;
use super::internal_key::decode_internal_key;
use super::internal_key::encode_internal_key;
use super::internal_key::ik_lt;
use super::internal_key::internal_key;
use super::internal_key::is_internal;
use super::internal_key::lemma_decode_encoded;
use super::internal_key::lemma_internal_order;
use super::internal_key::seq_of;
use super::internal_key::type_of;
use super::internal_key::user_key_of;
use super::internal_key::user_of;
use super::internal_key::VALUE_TYPE_DELETION;
use super::internal_key::VALUE_TYPE_MERGE;
use super::internal_key::VALUE_TYPE_VALUE;
use super::lookup::chain_base;
use super::lookup::chain_operand_count;
use super::lookup::chain_operands;
use super::lookup::taken;
use super::memtable::lemma_user_ascends;
use super::memtable::links;
use super::merging_iter::MergingIter;
use super::range_tombstone::RangeTombstoneSet;
use super::read_view::materialize;
use super::read_view::may_read;
use super::read_view::says;
use super::scan::at_or_after;
use super::scan::at_or_before;
use super::scan::chain_over;
use super::scan::clear_before;
use super::scan::is_first_shown;
use super::scan::is_last_shown;
use super::scan::lemma_chain_from;
use super::scan::lemma_chain_over;
use super::scan::lemma_chain_over_skip;
use super::scan::lemma_no_version;
use super::scan::outcome_of;
use super::scan::Outcome;
use super::scan::Scan;
use super::versions::chain;
use super::versions::lemma_none_visible;
use super::versions::visible;
use super::versions::Link;
use crate::bytes::bytes_eq;
use crate::bytes::bytes_lt;
use crate::bytes::copy_bytes;
use crate::bytes::lemma_lex_order;
use crate::bytes::lex_le;
use crate::bytes::lex_lt;
use crate::bytes::prefix_successor;
use crate::error::Error;
use crate::error::ErrorKind;
use vstd::prelude::*;

verus! {

/// The direction of a scan.
#[derive(Debug, Clone, Copy, PartialEq, Eq, Structural)]
pub enum Direction {
    Forward,
    Reverse,
}

// ── Groups of versions ───────────────────────────────────────────

/// Position `p` parts the entries: those before it have a user key before the
/// bound.
pub open spec fn starts_at(
    all: Seq<Pair>,
    p: Option<int>,
    lo: Option<Seq<u8>>,
    strict: bool,
) -> bool {
    match p {
        Some(i) => 0 <= i < all.len() && forall|j: int|
            0 <= j < all.len() ==> (j >= i <==> at_or_after(
                user_of((#[trigger] all[j]).0),
                lo,
                strict,
            )),
        None => forall|j: int|
            0 <= j < all.len() ==> !at_or_after(user_of((#[trigger] all[j]).0), lo, strict),
    }
}

/// Position `p` parts the entries: those after it have a user key after the
/// bound.
pub open spec fn ends_at(
    all: Seq<Pair>,
    p: Option<int>,
    hi: Option<Seq<u8>>,
    strict: bool,
) -> bool {
    match p {
        Some(i) => 0 <= i < all.len() && forall|j: int|
            0 <= j < all.len() ==> (j <= i <==> at_or_before(
                user_of((#[trigger] all[j]).0),
                hi,
                strict,
            )),
        None => forall|j: int|
            0 <= j < all.len() ==> !at_or_before(user_of((#[trigger] all[j]).0), hi, strict),
    }
}

/// Position `q` is the first from `p` on with another user key than `u`.
pub open spec fn past_user(all: Seq<Pair>, p: Option<int>, q: Option<int>, u: Seq<u8>) -> bool {
    match p {
        Some(i) => match q {
            Some(k) => i <= k < all.len() && user_of(all[k].0) != u && forall|j: int|
                i <= j < k ==> user_of((#[trigger] all[j]).0) == u,
            None => forall|j: int| i <= j < all.len() ==> user_of((#[trigger] all[j]).0) == u,
        },
        None => q is None,
    }
}

/// Go past every entry with this user key.
fn consume_user_key_forward(inner: &mut MergingIter<'_>, user_key: &[u8])
    requires
        old(inner).wf(),
        old(inner).goes_forward(),
    ensures
        final(inner).wf(),
        final(inner).goes_forward(),
        final(inner).all() == old(inner).all(),
        final(inner).runs() == old(inner).runs(),
        past_user(old(inner).all(), old(inner).cur(), final(inner).cur(), user_key@),
{
    let ghost all = inner.all();
    let ghost p = inner.cur();
    let mut going = true;
    proof {
        inner.lemma_all();
    }
    while going
        invariant
            inner.wf(),
            inner.goes_forward(),
            all == inner.all(),
            inner.runs() == old(inner).runs(),
            all == old(inner).all(),
            p == old(inner).cur(),
            p matches Some(i) ==> 0 <= i < all.len(),
            p is None ==> inner.cur() is None,
            p matches Some(i) ==> match inner.cur() {
                Some(k) => i <= k < all.len() && forall|j: int|
                    i <= j < k ==> user_of((#[trigger] all[j]).0) == user_key@,
                None => forall|j: int|
                    i <= j < all.len() ==> user_of((#[trigger] all[j]).0) == user_key@,
            },
            !going ==> past_user(all, p, inner.cur(), user_key@),
        decreases
                match inner.cur() {
                    Some(k) => all.len() - k,
                    None => 0,
                },
                if going {
                    1int
                } else {
                    0int
                },
    {
        proof {
            inner.lemma_all();
        }
        let matches = match inner.key() {
            None => false,
            Some(ik) => {
                assert(is_internal(all[inner.cur()->0].0));
                bytes_eq(user_key_of(ik), user_key)
            },
        };
        if matches {
            inner.advance();
            proof {
                inner.lemma_all();
            }
        } else {
            going = false;
        }
    }
}

/// A user key that a scan stops at has a visible version.
proof fn lemma_shown_has_version(scan: Scan, v: Seq<u8>) -> (j: int)
    requires
        scan.shows(v),
    ensures
        0 <= j < scan.all.len(),
        visible(scan.all[j], v, scan.snapshot_seq),
{
    if forall|j: int|
        0 <= j < scan.all.len() ==> !visible(#[trigger] scan.all[j], v, scan.snapshot_seq) {
        lemma_no_version(scan, v);
    }
    choose|j: int| 0 <= j < scan.all.len() && visible(#[trigger] scan.all[j], v, scan.snapshot_seq)
}

/// A forward scan from the bound has come to position `p` without a user key to
/// stop at.
spec fn nothing_before(scan: Scan, p: Option<int>, lo: Option<Seq<u8>>, strict: bool) -> bool {
    &&& forall|v: Seq<u8>| #[trigger]
        scan.shows(v) && at_or_after(v, lo, strict) ==> match p {
            Some(i) => !lex_lt(v, user_of(scan.all[i].0)),
            None => false,
        }
    &&& p matches Some(i) ==> {
        &&& 0 <= i < scan.all.len()
        &&& at_or_after(user_of(scan.all[i].0), lo, strict)
        &&& clear_before(scan, i, user_of(scan.all[i].0))
    }
}

proof fn lemma_forward_start(scan: Scan, p: Option<int>, lo: Option<Seq<u8>>, strict: bool)
    requires
        scan.wf(),
        starts_at(scan.all, p, lo, strict),
    ensures
        nothing_before(scan, p, lo, strict),
{
    assert forall|v: Seq<u8>| #[trigger]
        scan.shows(v) && at_or_after(v, lo, strict) implies match p {
        Some(i) => !lex_lt(v, user_of(scan.all[i].0)),
        None => false,
    } by {
        let j = lemma_shown_has_version(scan, v);
        assert(user_of(scan.all[j].0) == v);
        if let Some(i) = p {
            lemma_user_ascends(scan.all, i, j);
            lemma_lex_order(v, user_of(scan.all[i].0), v);
        }
    }
    if let Some(i) = p {
        let u = user_of(scan.all[i].0);
        assert(at_or_after(u, lo, strict));
        assert forall|j: int| 0 <= j < i implies !visible(
            #[trigger] scan.all[j],
            u,
            scan.snapshot_seq,
        ) by {
            assert(!at_or_after(user_of(scan.all[j].0), lo, strict));
        }
    }
}

/// Leaving entries of one user key behind.
proof fn lemma_forward_step(
    scan: Scan,
    i: int,
    q: Option<int>,
    lo: Option<Seq<u8>>,
    strict: bool,
)
    requires
        scan.wf(),
        nothing_before(scan, Some(i), lo, strict),
        match q {
            Some(k) => {
                &&& i < k < scan.all.len()
                &&& forall|j: int|
                    i <= j < k ==> user_of((#[trigger] scan.all[j]).0) == user_of(scan.all[i].0)
                &&& if user_of(scan.all[k].0) == user_of(scan.all[i].0) {
                    clear_before(scan, k, user_of(scan.all[i].0))
                } else {
                    !scan.shows(user_of(scan.all[i].0))
                }
            },
            None => {
                &&& forall|j: int|
                    i <= j < scan.all.len() ==> user_of((#[trigger] scan.all[j]).0) == user_of(
                        scan.all[i].0,
                    )
                &&& !scan.shows(user_of(scan.all[i].0))
            },
        },
    ensures
        nothing_before(scan, q, lo, strict),
{
    let u = user_of(scan.all[i].0);
    assert forall|v: Seq<u8>| #[trigger]
        scan.shows(v) && at_or_after(v, lo, strict) implies match q {
        Some(k) => !lex_lt(v, user_of(scan.all[k].0)),
        None => false,
    } by {
        assert(!lex_lt(v, u));
        let j = lemma_shown_has_version(scan, v);
        if j < i {
            lemma_user_ascends(scan.all, j, i);
            lemma_lex_order(v, u, v);
        }
        if let Some(k) = q {
            if j >= k {
                lemma_user_ascends(scan.all, k, j);
                lemma_lex_order(v, user_of(scan.all[k].0), v);
            } else if j >= i {
                assert(user_of(scan.all[j].0) == u);
            }
            if v == u {
                assert(user_of(scan.all[k].0) == u);
                lemma_lex_order(u, u, u);
            }
        } else if j >= i {
            assert(user_of(scan.all[j].0) == u);
        }
    }
    if let Some(k) = q {
        let w = user_of(scan.all[k].0);
        lemma_user_ascends(scan.all, i, k);
        if let Some(l) = lo {
            lemma_lex_order(l, u, w);
        }
        if w != u {
            assert forall|j: int| 0 <= j < k implies !visible(
                #[trigger] scan.all[j],
                w,
                scan.snapshot_seq,
            ) by {
                if j < i {
                    lemma_user_ascends(scan.all, j, i);
                    lemma_lex_order(user_of(scan.all[j].0), u, w);
                    lemma_lex_order(w, w, w);
                    if user_of(scan.all[j].0) == w {
                        lemma_lex_order(u, w, u);
                    }
                } else {
                    assert(user_of(scan.all[j].0) == u);
                }
            }
        }
    }
}

/// A reverse scan from the bound has come to position `p` without a user key
/// to stop at.
spec fn nothing_after(scan: Scan, p: Option<int>, hi: Option<Seq<u8>>, strict: bool) -> bool {
    &&& forall|v: Seq<u8>| #[trigger]
        scan.shows(v) && at_or_before(v, hi, strict) ==> match p {
            Some(i) => !lex_lt(user_of(scan.all[i].0), v),
            None => false,
        }
    &&& p matches Some(i) ==> {
        &&& 0 <= i < scan.all.len()
        &&& at_or_before(user_of(scan.all[i].0), hi, strict)
        &&& forall|j: int|
            i < j < scan.all.len() ==> user_of((#[trigger] scan.all[j]).0) != user_of(scan.all[i].0)
    }
}

proof fn lemma_reverse_start(scan: Scan, p: Option<int>, hi: Option<Seq<u8>>, strict: bool)
    requires
        scan.wf(),
        ends_at(scan.all, p, hi, strict),
    ensures
        nothing_after(scan, p, hi, strict),
{
    assert forall|v: Seq<u8>| #[trigger]
        scan.shows(v) && at_or_before(v, hi, strict) implies match p {
        Some(i) => !lex_lt(user_of(scan.all[i].0), v),
        None => false,
    } by {
        let j = lemma_shown_has_version(scan, v);
        assert(user_of(scan.all[j].0) == v);
        if let Some(i) = p {
            lemma_user_ascends(scan.all, j, i);
            lemma_lex_order(v, user_of(scan.all[i].0), v);
        }
    }
    if let Some(i) = p {
        assert(at_or_before(user_of(scan.all[i].0), hi, strict));
        assert forall|j: int| i < j < scan.all.len() implies user_of((#[trigger] scan.all[j]).0)
            != user_of(scan.all[i].0) by {
            assert(!at_or_before(user_of(scan.all[j].0), hi, strict));
        }
    }
}

/// Leaving all versions of a user key behind.
proof fn lemma_reverse_step(
    scan: Scan,
    i: int,
    q: Option<int>,
    hi: Option<Seq<u8>>,
    strict: bool,
)
    requires
        scan.wf(),
        nothing_after(scan, Some(i), hi, strict),
        !scan.shows(user_of(scan.all[i].0)),
        match q {
            Some(k) => 0 <= k < i && user_of(scan.all[k].0) != user_of(scan.all[i].0) && forall|
                j: int,
            |
                k < j <= i ==> user_of((#[trigger] scan.all[j]).0) == user_of(scan.all[i].0),
            None => forall|j: int|
                0 <= j <= i ==> user_of((#[trigger] scan.all[j]).0) == user_of(scan.all[i].0),
        },
    ensures
        nothing_after(scan, q, hi, strict),
{
    let u = user_of(scan.all[i].0);
    assert forall|v: Seq<u8>| #[trigger]
        scan.shows(v) && at_or_before(v, hi, strict) implies match q {
        Some(k) => !lex_lt(user_of(scan.all[k].0), v),
        None => false,
    } by {
        assert(!lex_lt(u, v));
        let j = lemma_shown_has_version(scan, v);
        if j > i {
            lemma_user_ascends(scan.all, i, j);
            lemma_lex_order(u, v, u);
        }
        if let Some(k) = q {
            if j <= k {
                lemma_user_ascends(scan.all, j, k);
                lemma_lex_order(v, user_of(scan.all[k].0), v);
            } else if j <= i {
                assert(user_of(scan.all[j].0) == u);
            }
        } else if j <= i {
            assert(user_of(scan.all[j].0) == u);
        }
    }
    if let Some(k) = q {
        let w = user_of(scan.all[k].0);
        lemma_user_ascends(scan.all, k, i);
        if let Some(h) = hi {
            lemma_lex_order(w, u, h);
        }
        assert forall|j: int| k < j < scan.all.len() implies user_of((#[trigger] scan.all[j]).0)
            != w by {
            if j > i {
                lemma_user_ascends(scan.all, i, j);
                lemma_lex_order(w, u, w);
            } else {
                assert(user_of(scan.all[j].0) == u);
            }
        }
    }
}

// ── Merge chains ─────────────────────────────────────────────────

/// Past the versions of a user key there is nothing left of its chain.
proof fn lemma_chain_done(scan: Scan, i: int, k: int, u: Seq<u8>)
    requires
        scan.wf(),
        0 <= i < k <= scan.all.len(),
        user_of(scan.all[i].0) == u,
        k < scan.all.len() ==> user_of(scan.all[k].0) != u,
    ensures
        chain(scan.all.skip(k), u, scan.snapshot_seq) == Seq::<Link>::empty(),
{
    let rest = scan.all.skip(k);
    assert forall|j: int| 0 <= j < rest.len() implies !visible(
        #[trigger] rest[j],
        u,
        scan.snapshot_seq,
    ) by {
        assert(rest[j] == scan.all[k + j]);
        lemma_user_ascends(scan.all, i, k);
        lemma_user_ascends(scan.all, k, k + j);
        let w = user_of(scan.all[k].0);
        lemma_lex_order(u, w, u);
        lemma_lex_order(u, w, user_of(scan.all[k + j].0));
        lemma_lex_order(w, u, w);
    }
    lemma_none_visible(rest, u, scan.snapshot_seq);
}

/// Collect the merge chain of the current user key, newest version first, and
/// go past all of its versions. A range tombstone at `rt_seq` stands as a
/// deletion.
fn collect_chain_forward(
    inner: &mut MergingIter<'_>,
    user_key: &[u8],
    snapshot_seq: u64,
    rt_seq: u64,
    Ghost(scan): Ghost<Scan>,
) -> (r: Vec<(u64, u8, Vec<u8>)>)
    requires
        old(inner).wf(),
        old(inner).goes_forward(),
        scan.wf(),
        scan.all == old(inner).all(),
        scan.snapshot_seq == snapshot_seq,
        rt_seq == scan.rt(user_key@),
        old(inner).cur() matches Some(i) && user_of(scan.all[i].0) == user_key@ && clear_before(
            scan,
            i,
            user_key@,
        ),
    ensures
        final(inner).wf(),
        final(inner).goes_forward(),
        final(inner).all() == old(inner).all(),
        final(inner).runs() == old(inner).runs(),
        past_user(old(inner).all(), old(inner).cur(), final(inner).cur(), user_key@),
        links(r@) == taken(scan.chain(user_key@), rt_seq),
{
    let ghost all = inner.all();
    let ghost i = inner.cur()->0;
    let ghost u = user_key@;
    let ghost whole = taken(scan.chain(u), rt_seq);
    let mut out: Vec<(u64, u8, Vec<u8>)> = Vec::new();
    let mut going = true;
    proof {
        inner.lemma_all();
        lemma_chain_from(scan, i, u);
        assert(links(out@) =~= Seq::<Link>::empty());
        assert(links(out@) + whole =~= whole);
    }
    while going
        invariant
            inner.wf(),
            inner.goes_forward(),
            all == inner.all(),
            inner.runs() == old(inner).runs(),
            all == old(inner).all(),
            all == scan.all,
            scan.wf(),
            scan.snapshot_seq == snapshot_seq,
            u == user_key@,
            old(inner).cur() == Some(i),
            0 <= i < all.len(),
            user_of(all[i].0) == u,
            whole == taken(scan.chain(u), rt_seq),
            match inner.cur() {
                Some(k) => i <= k < all.len() && forall|j: int|
                    i <= j < k ==> user_of((#[trigger] all[j]).0) == u,
                None => forall|j: int| i <= j < all.len() ==> user_of((#[trigger] all[j]).0) == u,
            },
            going ==> whole == links(out@) + taken(
                chain(
                    all.skip(
                        match inner.cur() {
                            Some(k) => k,
                            None => all.len() as int,
                        },
                    ),
                    u,
                    snapshot_seq,
                ),
                rt_seq,
            ),
            !going ==> whole == links(out@),
        decreases
                match inner.cur() {
                    Some(k) => all.len() - k,
                    None => 0,
                },
                if going {
                    1int
                } else {
                    0int
                },
    {
        proof {
            inner.lemma_all();
        }
        let ghost at: int = match inner.cur() {
            Some(k) => k,
            None => all.len() as int,
        };
        let ghost before = links(out@);
        let (same, seq, vt) = match inner.key() {
            None => (false, 0, 0),
            Some(ik) => {
                assert(is_internal(all[at].0));
                let (uk, seq, vt) = decode_internal_key(ik);
                (bytes_eq(uk, user_key), seq, vt)
            },
        };
        if !same {
            proof {
                lemma_chain_done(scan, i, at, u);
                assert(taken(Seq::<Link>::empty(), rt_seq) =~= Seq::<Link>::empty());
                assert(before + Seq::<Link>::empty() =~= before);
            }
            going = false;
        } else {
            proof {
                assert(all.skip(at)[0] == all[at]);
                assert(all.skip(at).skip(1) =~= all.skip(at + 1));
                assert(seq_of(all[at].0) > 0);
            }
            let ghost c = chain(all.skip(at), u, snapshot_seq);
            let ghost l: Link = (seq_of(all[at].0), type_of(all[at].0), all[at].1);
            if seq > snapshot_seq {
                inner.advance();
                proof {
                    inner.lemma_all();
                }
            } else if rt_seq > 0 && seq <= rt_seq {
                let none: Vec<u8> = Vec::new();
                assert(none@ =~= Seq::<u8>::empty());
                out.push((rt_seq, VALUE_TYPE_DELETION, none));
                proof {
                    let d: Link = (rt_seq, VALUE_TYPE_DELETION, Seq::<u8>::empty());
                    assert(c[0] == l);
                    assert(links(out@) =~= before + seq![d]);
                }
                going = false;
            } else {
                let value = match inner.value() {
                    Some(v) => copy_bytes(v),
                    None => Vec::new(),
                };
                out.push((seq, vt, value));
                proof {
                    assert(c[0] == l);
                    assert(links(out@) =~= before + seq![l]);
                }
                if vt == VALUE_TYPE_MERGE {
                    inner.advance();
                    proof {
                        inner.lemma_all();
                        let rest = chain(all.skip(at + 1), u, snapshot_seq);
                        assert(c == seq![l] + rest);
                        assert(c.skip(1) =~= rest);
                        assert(before + (seq![l] + taken(rest, rt_seq)) =~= (before + seq![l])
                            + taken(rest, rt_seq));
                    }
                } else {
                    going = false;
                }
            }
        }
    }
    consume_user_key_forward(inner, user_key);
    proof {
        inner.lemma_all();
    }
    out
}

/// Collect what is left of the merge chain of the current user key without what
/// the tombstone hides, going backward past all of its versions; oldest version
/// first.
fn collect_chain_reverse(
    inner: &mut MergingIter<'_>,
    user_key: &[u8],
    snapshot_seq: u64,
    rt_seq: u64,
    Ghost(scan): Ghost<Scan>,
) -> (r: Vec<(u64, u8, Vec<u8>)>)
    requires
        old(inner).wf(),
        !old(inner).goes_forward(),
        scan.wf(),
        scan.all == old(inner).all(),
        scan.snapshot_seq == snapshot_seq,
        rt_seq == scan.rt(user_key@),
        old(inner).cur() matches Some(i) && user_of(scan.all[i].0) == user_key@ && forall|j: int|
            i < j < scan.all.len() ==> user_of((#[trigger] scan.all[j]).0) != user_key@,
    ensures
        final(inner).wf(),
        !final(inner).goes_forward(),
        final(inner).all() == old(inner).all(),
        final(inner).runs() == old(inner).runs(),
        match final(inner).cur() {
            Some(k) => 0 <= k < old(inner).cur()->0 && user_of(scan.all[k].0) != user_key@
                && forall|j: int|
                k < j <= old(inner).cur()->0 ==> user_of((#[trigger] scan.all[j]).0) == user_key@,
            None => forall|j: int|
                0 <= j <= old(inner).cur()->0 ==> user_of((#[trigger] scan.all[j]).0)
                    == user_key@,
        },
        links(r@).reverse() == chain_over(scan.all, user_key@, snapshot_seq, rt_seq),
{
    let ghost all = inner.all();
    let ghost i = inner.cur()->0;
    let ghost u = user_key@;
    let mut out: Vec<(u64, u8, Vec<u8>)> = Vec::new();
    let mut going = true;
    proof {
        inner.lemma_all();
        let tail = all.skip(i + 1);
        assert forall|j: int| 0 <= j < tail.len() implies user_of((#[trigger] tail[j]).0) != u by {
            assert(tail[j] == all[i + 1 + j]);
        }
        lemma_chain_over_skip(tail, u, snapshot_seq, rt_seq, tail.len() as int);
        assert(tail.skip(tail.len() as int).len() == 0);
        assert(links(out@).reverse() =~= Seq::<Link>::empty());
    }
    while going
        invariant
            inner.wf(),
            !inner.goes_forward(),
            all == inner.all(),
            inner.runs() == old(inner).runs(),
            all == old(inner).all(),
            all == scan.all,
            scan.wf(),
            u == user_key@,
            old(inner).cur() == Some(i),
            0 <= i < all.len(),
            user_of(all[i].0) == u,
            match inner.cur() {
                Some(k) => 0 <= k <= i && forall|j: int|
                    k < j <= i ==> user_of((#[trigger] all[j]).0) == u,
                None => forall|j: int| 0 <= j <= i ==> user_of((#[trigger] all[j]).0) == u,
            },
            !going ==> (inner.cur() matches Some(k) ==> user_of(all[k].0) != u),
            links(out@).reverse() == chain_over(
                all.skip(
                    match inner.cur() {
                        Some(k) => k + 1,
                        None => 0,
                    },
                ),
                u,
                snapshot_seq,
                rt_seq,
            ),
        decreases
                match inner.cur() {
                    Some(k) => k + 1,
                    None => 0,
                },
                if going {
                    1int
                } else {
                    0int
                },
    {
        proof {
            inner.lemma_all();
        }
        let ghost at: int = match inner.cur() {
            Some(k) => k,
            None => -1,
        };
        let ghost before = links(out@);
        let (same, seq, vt) = match inner.key() {
            None => (false, 0, 0),
            Some(ik) => {
                assert(is_internal(all[at].0));
                let (uk, seq, vt) = decode_internal_key(ik);
                (bytes_eq(uk, user_key), seq, vt)
            },
        };
        if !same {
            going = false;
        } else {
            proof {
                assert(all.skip(at)[0] == all[at]);
                assert(all.skip(at).skip(1) =~= all.skip(at + 1));
            }
            if seq <= snapshot_seq && (rt_seq == 0 || seq > rt_seq) {
                let value = match inner.value() {
                    Some(v) => copy_bytes(v),
                    None => Vec::new(),
                };
                let ghost l: Link = (seq, vt, value@);
                if vt != VALUE_TYPE_MERGE {
                    out.clear();
                }
                out.push((seq, vt, value));
                proof {
                    if vt != VALUE_TYPE_MERGE {
                        assert(links(out@) =~= seq![l]);
                        assert(links(out@).reverse() =~= seq![l]);
                    } else {
                        assert(links(out@) =~= before.push(l));
                        assert(links(out@).reverse() =~= seq![l] + before.reverse());
                    }
                }
            }
            inner.advance_backward();
            proof {
                inner.lemma_all();
            }
        }
    }
    proof {
        let n: int = match inner.cur() {
            Some(k) => k + 1,
            None => 0,
        };
        assert forall|j: int| 0 <= j < n implies user_of((#[trigger] all[j]).0) != u by {
            let k = n - 1;
            lemma_user_ascends(all, j, k);
            lemma_user_ascends(all, k, i);
            lemma_lex_order(user_of(all[j].0), user_of(all[k].0), u);
            lemma_lex_order(user_of(all[k].0), u, user_of(all[k].0));
        }
        lemma_chain_over_skip(all, u, snapshot_seq, rt_seq, n);
        if let Some(k) = inner.cur() {
            assert(k != i);
        }
    }
    out
}

/// The links in the other order.
fn reversed(list: Vec<(u64, u8, Vec<u8>)>) -> (r: Vec<(u64, u8, Vec<u8>)>)
    ensures
        links(r@) == links(list@).reverse(),
{
    let ghost whole = list@;
    let mut list = list;
    let mut r: Vec<(u64, u8, Vec<u8>)> = Vec::new();
    let ghost n = list@.len();
    while list.len() > 0
        invariant
            n == whole.len(),
            list@.len() <= n,
            list@ == whole.take(list@.len() as int),
            r@.len() == n - list@.len(),
            forall|i: int| 0 <= i < r@.len() ==> (#[trigger] r@[i]) == whole[n - 1 - i],
        decreases list@.len(),
    {
        let ghost l = list@;
        if let Some(x) = list.pop() {
            assert(x == whole[l.len() - 1]);
            assert(list@ =~= whole.take(l.len() - 1));
            r.push(x);
        }
    }
    assert(links(r@) =~= links(whole).reverse());
    r
}

/// The value that a chain has without a merge operator: that of a plain value.
fn plain_value(list: &Vec<(u64, u8, Vec<u8>)>) -> (r: Option<Vec<u8>>)
    ensures
        match outcome_of(links(list@)) {
            Outcome::Value(v) => r matches Some(b) && b@ == v,
            _ => r is None,
        },
{
    let ghost c = links(list@);
    if list.len() == 1 && list[0].1 == VALUE_TYPE_VALUE {
        assert(c.last() == (list@[0].0, list@[0].1, list@[0].2@));
        return Some(copy_bytes(list[0].2.as_slice()));
    }
    proof {
        if c.len() == 1 {
            assert(c.last() == (list@[0].0, list@[0].1, list@[0].2@));
        }
    }
    None
}

// ── The iterator ─────────────────────────────────────────────────

/// Iterator over the user keys of the tree at a snapshot.
pub struct LarkIterator<'a, M: MergeOperator> {
    inner: MergingIter<'a>,
    snapshot_seq: u64,
    direction: Direction,
    curr: Option<(Vec<u8>, Vec<u8>)>,
    pending_consume: bool,
    range_tombstones: RangeTombstoneSet,
    error: Option<Error>,
    terminal_error: bool,
    upper_bound: Option<Vec<u8>>,
    merge_operator: Option<&'a M>,
}

/// The current user key is `u` and its value `v`.
pub open spec fn is_at(current: Option<Pair>, u: Seq<u8>, v: Seq<u8>) -> bool {
    current matches Some(p) && p.0 == u && p.1 == v
}

/// The merge operator may make `merged` of a base value and operands.
pub open spec fn op_may<M: MergeOperator>(
    op: Option<&M>,
    u: Seq<u8>,
    base: Option<Seq<u8>>,
    operands: Seq<Seq<u8>>,
    merged: Option<Seq<u8>>,
) -> bool {
    op matches Some(o) && o.full_may(u, base, operands, merged)
}

/// What the iterator says when the scan has stopped at `u`, or come to its end.
pub open spec fn tells<M: MergeOperator>(
    scan: Scan,
    op: Option<&M>,
    u: Option<Seq<u8>>,
    current: Option<Pair>,
    error: Option<Error>,
) -> bool {
    match u {
        None => current is None && error is None,
        Some(u) => match scan.outcome(u) {
            Outcome::Absent => false,
            Outcome::Value(v) => is_at(current, u, v) && error is None,
            Outcome::Merge(base, operands) => exists|merged: Option<Seq<u8>>| #[trigger]
                op_may(op, u, base, operands, merged) && match merged {
                    Some(v) => is_at(current, u, v) && error is None,
                    None => current is None && (error matches Some(e) && e.kind
                        == ErrorKind::InvalidData),
                },
        },
    }
}

/// `b` is `a` gone to the first key with a value.
pub open spec fn went_first<'a, M: MergeOperator>(
    a: LarkIterator<'a, M>,
    b: LarkIterator<'a, M>,
) -> bool {
    &&& b.same_scan(&a)
    &&& b.end() is None
    &&& exists|u: Option<Seq<u8>>| #[trigger]
        is_first_shown(a.scan(), None, false, None, u) && tells(
            a.scan(),
            a.op(),
            u,
            b.current(),
            b.err(),
        )
}

/// `b` is `a` gone to the last key with a value.
pub open spec fn went_last<'a, M: MergeOperator>(
    a: LarkIterator<'a, M>,
    b: LarkIterator<'a, M>,
) -> bool {
    &&& b.same_scan(&a)
    &&& b.end() is None
    &&& exists|u: Option<Seq<u8>>| #[trigger]
        is_last_shown(a.scan(), None, false, u) && tells(
            a.scan(),
            a.op(),
            u,
            b.current(),
            b.err(),
        )
}

/// `b` is `a` gone on to the next key with a value. Nothing changes where `a`
/// stood at none.
pub open spec fn went_on<'a, M: MergeOperator>(
    a: LarkIterator<'a, M>,
    b: LarkIterator<'a, M>,
) -> bool {
    &&& b.same_scan(&a)
    &&& b.end() == a.end()
    &&& a.current() is None ==> b == a
    &&& a.current() matches Some(c) ==> exists|u: Option<Seq<u8>>| #[trigger]
        is_first_shown(a.scan(), Some(c.0), true, a.end(), u) && tells(
            a.scan(),
            a.op(),
            u,
            b.current(),
            b.err(),
        )
}

/// `b` is `a` gone back to the key with a value before. Nothing changes where
/// `a` stood at none.
pub open spec fn went_back<'a, M: MergeOperator>(
    a: LarkIterator<'a, M>,
    b: LarkIterator<'a, M>,
) -> bool {
    &&& b.same_scan(&a)
    &&& b.end() == a.end()
    &&& a.current() is None ==> b == a
    &&& a.current() matches Some(c) ==> exists|u: Option<Seq<u8>>| #[trigger]
        is_last_shown(a.scan(), Some(c.0), true, u) && tells(
            a.scan(),
            a.op(),
            u,
            b.current(),
            b.err(),
        )
}

/// `b` is `a` gone to the first key with a value at or after `target`.
pub open spec fn went_to<'a, M: MergeOperator>(
    a: LarkIterator<'a, M>,
    b: LarkIterator<'a, M>,
    target: Seq<u8>,
) -> bool {
    &&& b.same_scan(&a)
    &&& b.end() is None
    &&& exists|u: Option<Seq<u8>>| #[trigger]
        is_first_shown(a.scan(), Some(target), false, None, u) && tells(
            a.scan(),
            a.op(),
            u,
            b.current(),
            b.err(),
        )
}

/// `b` is `a` gone to the first key with a value at or after `prefix`, at the
/// start of a scan that ends with the keys that start with it.
pub open spec fn went_to_prefix<'a, M: MergeOperator>(
    a: LarkIterator<'a, M>,
    b: LarkIterator<'a, M>,
    prefix: Seq<u8>,
) -> bool {
    &&& b.same_scan(&a)
    &&& b.end() == prefix_successor(prefix)
    &&& exists|u: Option<Seq<u8>>| #[trigger]
        is_first_shown(a.scan(), Some(prefix), false, prefix_successor(prefix), u) && tells(
            a.scan(),
            a.op(),
            u,
            b.current(),
            b.err(),
        )
}

/// `b` is `a` gone to the last key with a value at or before `bound` (before
/// it, if `strict`).
pub open spec fn went_up_to<'a, M: MergeOperator>(
    a: LarkIterator<'a, M>,
    b: LarkIterator<'a, M>,
    bound: Seq<u8>,
    strict: bool,
) -> bool {
    &&& b.same_scan(&a)
    &&& b.end() is None
    &&& exists|u: Option<Seq<u8>>| #[trigger]
        is_last_shown(a.scan(), Some(bound), strict, u) && tells(
            a.scan(),
            a.op(),
            u,
            b.current(),
            b.err(),
        )
}

/// What an optional bound says.
pub open spec fn opt_key(k: Option<Vec<u8>>) -> Option<Seq<u8>> {
    match k {
        Some(b) => Some(b@),
        None => None,
    }
}

impl<'a, M: MergeOperator> LarkIterator<'a, M> {
    /// What the scan sees.
    pub closed spec fn scan(&self) -> Scan {
        Scan {
            all: self.inner.all(),
            rts: self.range_tombstones.items(),
            snapshot_seq: self.snapshot_seq,
            merges: self.merge_operator is Some,
        }
    }

    /// The runs of the sources.
    pub closed spec fn runs(&self) -> Seq<Seq<Pair>> {
        self.inner.runs()
    }

    /// The merge operator.
    pub closed spec fn op(&self) -> Option<&M> {
        self.merge_operator
    }

    /// The current user key and value.
    pub closed spec fn current(&self) -> Option<Pair> {
        match self.curr {
            Some((k, v)) => Some((k@, v@)),
            None => None,
        }
    }

    /// The error that the iterator stopped at.
    pub closed spec fn err(&self) -> Option<Error> {
        self.error
    }

    /// The error is final.
    pub closed spec fn terminal(&self) -> bool {
        self.terminal_error
    }

    /// The user keys of a prefix scan end here.
    pub closed spec fn end(&self) -> Option<Seq<u8>> {
        opt_key(self.upper_bound)
    }

    /// The cursor stands where the next step expects it.
    closed spec fn placed(&self) -> bool {
        self.curr matches Some(c) ==> match self.direction {
            Direction::Forward => self.inner.goes_forward() && if self.pending_consume {
                self.inner.cur() matches Some(i) && user_of(self.inner.all()[i].0) == c.0@
            } else {
                starts_at(self.inner.all(), self.inner.cur(), Some(c.0@), true)
            },
            Direction::Reverse => !self.inner.goes_forward() && ends_at(
                self.inner.all(),
                self.inner.cur(),
                Some(c.0@),
                true,
            ),
        }
    }

    /// The iterator is well formed.
    pub closed spec fn wf(&self) -> bool {
        &&& self.inner.wf()
        &&& self.range_tombstones.wf()
        &&& self.scan().wf()
        &&& self.error is Some ==> self.curr is None
        &&& self.terminal_error ==> self.error is Some
        &&& self.placed()
    }

    /// What a well-formed iterator sees is well formed.
    pub proof fn lemma_scan_wf(&self)
        requires
            self.wf(),
        ensures
            self.scan().wf(),
    {
    }

    /// Nothing but the position differs.
    pub open spec fn same_scan(&self, other: &Self) -> bool {
        &&& self.scan() == other.scan()
        &&& self.runs() == other.runs()
        &&& self.op() == other.op()
        &&& self.terminal() == other.terminal()
    }

    /// An iterator without a position over the given sources.
    pub(crate) fn over(
        inner: MergingIter<'a>,
        range_tombstones: RangeTombstoneSet,
        snapshot_seq: u64,
        merge_operator: Option<&'a M>,
    ) -> (r: Self)
        requires
            inner.wf(),
            range_tombstones.wf(),
            (Scan {
                all: inner.all(),
                rts: range_tombstones.items(),
                snapshot_seq,
                merges: merge_operator is Some,
            }).wf(),
        ensures
            r.wf(),
            r.scan() == (Scan {
                all: inner.all(),
                rts: range_tombstones.items(),
                snapshot_seq,
                merges: merge_operator is Some,
            }),
            r.runs() == inner.runs(),
            r.op() == merge_operator,
            r.current() is None,
            r.err() is None,
            !r.terminal(),
    {
        LarkIterator {
            inner,
            snapshot_seq,
            direction: Direction::Forward,
            curr: None,
            pending_consume: false,
            range_tombstones,
            error: None,
            terminal_error: false,
            upper_bound: None,
            merge_operator,
        }
    }

    /// Walk forward to the first user key that has a value.
    fn materialize_next_visible(&mut self, Ghost(lo): Ghost<Option<Seq<u8>>>, Ghost(strict): Ghost<bool>)
        requires
            old(self).wf(),
            old(self).error is None,
            old(self).inner.goes_forward(),
            starts_at(old(self).inner.all(), old(self).inner.cur(), lo, strict),
        ensures
            final(self).wf(),
            final(self).same_scan(old(self)),
            final(self).end() == old(self).end(),
            exists|u: Option<Seq<u8>>| #[trigger]
                is_first_shown(old(self).scan(), lo, strict, old(self).end(), u) && tells(
                    old(self).scan(),
                    old(self).op(),
                    u,
                    final(self).current(),
                    final(self).err(),
                ),
    {
        let ghost scan = self.scan();
        let ghost all = self.inner.all();
        let ghost end = self.end();
        let ghost none: Option<Seq<u8>> = None;
        self.direction = Direction::Forward;
        self.curr = None;
        self.pending_consume = false;
        proof {
            lemma_forward_start(scan, self.inner.cur(), lo, strict);
        }
        loop
            invariant
                self.wf(),
                self.scan() == scan,
                scan == old(self).scan(),
                self.runs() == old(self).runs(),
                self.op() == old(self).op(),
                self.terminal() == old(self).terminal(),
                self.end() == end,
                end == old(self).end(),
                scan.wf(),
                all == self.inner.all(),
                all == scan.all,
                self.error is None,
                self.curr is None,
                !self.pending_consume,
                self.direction == Direction::Forward,
                self.inner.goes_forward(),
                none is None,
                nothing_before(scan, self.inner.cur(), lo, strict),
            decreases
                    match self.inner.cur() {
                        Some(k) => all.len() - k,
                        None => 0,
                    },
        {
            proof {
                self.inner.lemma_all();
            }
            let (uk, seq, vt) = match self.inner.key() {
                None => {
                    assert(is_first_shown(scan, lo, strict, end, none));
                    return;
                },
                Some(ik) => {
                    assert(is_internal(all[self.inner.cur()->0].0));
                    let (uk, seq, vt) = decode_internal_key(ik);
                    (copy_bytes(uk), seq, vt)
                },
            };
            let ghost i = self.inner.cur()->0;
            let ghost u = uk@;
            let ghost c = scan.chain(u);
            proof {
                lemma_chain_from(scan, i, u);
                assert(all.skip(i)[0] == all[i]);
                assert(seq > 0 && vt <= VALUE_TYPE_MERGE);
            }
            let past_end = match &self.upper_bound {
                Some(ub) => !bytes_lt(uk.as_slice(), ub.as_slice()),
                None => false,
            };
            if past_end {
                proof {
                    assert forall|v: Seq<u8>| #[trigger] scan.shows(v) implies !(at_or_after(
                        v,
                        lo,
                        strict,
                    ) && at_or_before(v, end, true)) by {
                        if at_or_after(v, lo, strict) && at_or_before(v, end, true) {
                            let e = end->0;
                            lemma_lex_order(u, v, e);
                        }
                    }
                    assert(is_first_shown(scan, lo, strict, end, none));
                }
                return;
            }
            if seq > self.snapshot_seq {
                self.inner.advance();
                proof {
                    self.inner.lemma_all();
                    let q = self.inner.cur();
                    assert(clear_before(scan, i + 1, u));
                    if q is None || user_of(all[i + 1].0) != u {
                        assert forall|j: int| 0 <= j < all.len() implies !visible(
                            #[trigger] scan.all[j],
                            u,
                            scan.snapshot_seq,
                        ) by {
                            if j > i {
                                lemma_user_ascends(all, i, i + 1);
                                lemma_user_ascends(all, i + 1, j);
                                let w = user_of(all[i + 1].0);
                                lemma_lex_order(u, w, user_of(all[j].0));
                                lemma_lex_order(u, w, u);
                                lemma_lex_order(w, u, w);
                            }
                        }
                        lemma_no_version(scan, u);
                    }
                    lemma_forward_step(scan, i, q, lo, strict);
                }
                continue;
            }
            let covering: u64 = self.range_tombstones.max_covering_seq(
                uk.as_slice(),
                self.snapshot_seq,
            );
            let rt_seq: u64 = covering.saturating_sub(1);
            proof {
                assert(c.len() > 0 && c[0] == (seq, vt, all[i].1));
                lemma_at_user(scan, i, lo, strict, end, u);
            }
            if rt_seq >= seq || vt == VALUE_TYPE_DELETION {
                proof {
                    let t = taken(c, rt_seq);
                    assert(t.len() == 1 && t.last().1 == VALUE_TYPE_DELETION);
                    assert(!scan.shows(u));
                }
                consume_user_key_forward(&mut self.inner, uk.as_slice());
                proof {
                    self.inner.lemma_all();
                    lemma_forward_step(scan, i, self.inner.cur(), lo, strict);
                }
                continue;
            }
            if vt == VALUE_TYPE_MERGE {
                match self.merge_operator {
                    None => {
                        proof {
                            if seq <= rt_seq {
                                assert(taken(c, rt_seq).last().1 == VALUE_TYPE_DELETION);
                            } else {
                                lemma_merge_head(c, rt_seq);
                            }
                            assert(!scan.shows(u));
                        }
                        consume_user_key_forward(&mut self.inner, uk.as_slice());
                        proof {
                            self.inner.lemma_all();
                            lemma_forward_step(scan, i, self.inner.cur(), lo, strict);
                        }
                        continue;
                    },
                    Some(op) => {
                        let list = collect_chain_forward(
                            &mut self.inner,
                            uk.as_slice(),
                            self.snapshot_seq,
                            rt_seq,
                            Ghost(scan),
                        );
                        let ghost t = taken(c, rt_seq);
                        let r = materialize(op, uk.as_slice(), &list);
                        proof {
                            self.inner.lemma_all();
                            lemma_read_tells(scan, op, u, t, r);
                        }
                        match r {
                            Ok(Some(v)) => {
                                proof {
                                    assert(is_first_shown(scan, lo, strict, end, Some(u)));
                                    lemma_past_starts(scan, i, self.inner.cur(), u);
                                }
                                self.curr = Some((uk, v));
                                return;
                            },
                            Ok(None) => {
                                proof {
                                    lemma_forward_step(scan, i, self.inner.cur(), lo, strict);
                                }
                                continue;
                            },
                            Err(e) => {
                                assert(is_first_shown(scan, lo, strict, end, Some(u)));
                                self.error = Some(e);
                                return;
                            },
                        }
                    },
                }
            }
            let value = match self.inner.value() {
                Some(v) => copy_bytes(v),
                None => Vec::new(),
            };
            proof {
                assert(vt == VALUE_TYPE_VALUE);
                assert(taken(c, rt_seq) == seq![c[0]]);
                assert(seq![c[0]].last() == c[0]);
                assert(scan.outcome(u) == Outcome::Value(value@));
                assert(is_first_shown(scan, lo, strict, end, Some(u)));
            }
            self.curr = Some((uk, value));
            self.pending_consume = true;
            return;
        }
    }

    /// Walk backward to the last user key that has a value.
    fn materialize_prev_visible(&mut self, Ghost(hi): Ghost<Option<Seq<u8>>>, Ghost(strict): Ghost<bool>)
        requires
            old(self).wf(),
            old(self).error is None,
            !old(self).inner.goes_forward(),
            ends_at(old(self).inner.all(), old(self).inner.cur(), hi, strict),
        ensures
            final(self).wf(),
            final(self).same_scan(old(self)),
            final(self).end() == old(self).end(),
            exists|u: Option<Seq<u8>>| #[trigger]
                is_last_shown(old(self).scan(), hi, strict, u) && tells(
                    old(self).scan(),
                    old(self).op(),
                    u,
                    final(self).current(),
                    final(self).err(),
                ),
    {
        let ghost scan = self.scan();
        let ghost all = self.inner.all();
        let ghost none: Option<Seq<u8>> = None;
        self.direction = Direction::Reverse;
        self.curr = None;
        self.pending_consume = false;
        proof {
            lemma_reverse_start(scan, self.inner.cur(), hi, strict);
        }
        loop
            invariant
                self.wf(),
                self.scan() == scan,
                scan == old(self).scan(),
                self.runs() == old(self).runs(),
                self.op() == old(self).op(),
                self.terminal() == old(self).terminal(),
                self.end() == old(self).end(),
                scan.wf(),
                all == self.inner.all(),
                all == scan.all,
                self.error is None,
                self.curr is None,
                self.direction == Direction::Reverse,
                !self.inner.goes_forward(),
                none is None,
                nothing_after(scan, self.inner.cur(), hi, strict),
            decreases
                    match self.inner.cur() {
                        Some(k) => k + 1,
                        None => 0,
                    },
        {
            proof {
                self.inner.lemma_all();
            }
            let uk = match self.inner.key() {
                None => {
                    assert(is_last_shown(scan, hi, strict, none));
                    return;
                },
                Some(ik) => {
                    assert(is_internal(all[self.inner.cur()->0].0));
                    copy_bytes(user_key_of(ik))
                },
            };
            let ghost i = self.inner.cur()->0;
            let ghost u = uk@;
            let covering: u64 = self.range_tombstones.max_covering_seq(
                uk.as_slice(),
                self.snapshot_seq,
            );
            let rt_seq: u64 = covering.saturating_sub(1);
            let list = collect_chain_reverse(
                &mut self.inner,
                uk.as_slice(),
                self.snapshot_seq,
                rt_seq,
                Ghost(scan),
            );
            let ghost t = chain_over(all, u, scan.snapshot_seq, rt_seq);
            let list = reversed(list);
            proof {
                self.inner.lemma_all();
                lemma_chain_over(scan, u);
                assert(links(list@) == t);
                lemma_at_user_reverse(scan, i, hi, strict, u);
            }
            match self.merge_operator {
                None => match plain_value(&list) {
                    Some(v) => {
                        proof {
                            assert(is_last_shown(scan, hi, strict, Some(u)));
                            lemma_before_ends(scan, i, self.inner.cur(), u);
                        }
                        self.curr = Some((uk, v));
                        return;
                    },
                    None => {
                        proof {
                            lemma_reverse_step(scan, i, self.inner.cur(), hi, strict);
                        }
                    },
                },
                Some(op) => {
                    let r = materialize(op, uk.as_slice(), &list);
                    proof {
                        lemma_read_tells(scan, op, u, t, r);
                    }
                    match r {
                        Ok(Some(v)) => {
                            proof {
                                assert(is_last_shown(scan, hi, strict, Some(u)));
                                lemma_before_ends(scan, i, self.inner.cur(), u);
                            }
                            self.curr = Some((uk, v));
                            return;
                        },
                        Ok(None) => {
                            proof {
                                lemma_reverse_step(scan, i, self.inner.cur(), hi, strict);
                            }
                        },
                        Err(e) => {
                            assert(is_last_shown(scan, hi, strict, Some(u)));
                            self.error = Some(e);
                            return;
                        },
                    }
                },
            }
        }
    }

    /// Forget the position and the error.
    fn reset(&mut self)
        requires
            old(self).wf(),
            !old(self).terminal_error,
        ensures
            final(self).wf(),
            final(self).same_scan(old(self)),
            final(self).inner == old(self).inner,
            final(self).error is None,
            final(self).curr is None,
            final(self).end() is None,
    {
        self.error = None;
        self.curr = None;
        self.pending_consume = false;
        self.upper_bound = None;
    }

    /// Go to the first user key.
    pub fn seek_to_first(&mut self)
        requires
            old(self).wf(),
        ensures
            final(self).wf(),
            old(self).terminal() ==> *final(self) == *old(self),
            !old(self).terminal() ==> went_first(*old(self), *final(self)),
    {
        if self.terminal_error {
            return;
        }
        self.reset();
        self.inner.seek_to_first();
        let ghost lo: Option<Seq<u8>> = None;
        self.materialize_next_visible(Ghost(lo), Ghost(false));
    }

    /// Go to the last user key.
    pub fn seek_to_last(&mut self)
        requires
            old(self).wf(),
        ensures
            final(self).wf(),
            old(self).terminal() ==> *final(self) == *old(self),
            !old(self).terminal() ==> went_last(*old(self), *final(self)),
    {
        if self.terminal_error {
            return;
        }
        self.reset();
        self.inner.seek_to_last();
        let ghost hi: Option<Seq<u8>> = None;
        self.materialize_prev_visible(Ghost(hi), Ghost(false));
    }

    /// Position the cursor at the first entry of a user key at or after
    /// `target`.
    fn start_from(&mut self, target: &[u8])
        requires
            old(self).wf(),
            old(self).curr is None,
        ensures
            final(self).wf(),
            final(self).same_scan(old(self)),
            final(self).inner.all() == old(self).inner.all(),
            final(self).error == old(self).error,
            final(self).curr is None,
            final(self).end() == old(self).end(),
            final(self).inner.goes_forward(),
            starts_at(final(self).inner.all(), final(self).inner.cur(), Some(target@), false),
    {
        // The smallest internal key of the target user key.
        let probe = encode_internal_key(target, u64::MAX, VALUE_TYPE_DELETION);
        proof {
            lemma_decode_encoded(target@, u64::MAX, VALUE_TYPE_DELETION);
            self.inner.lemma_all();
        }
        let ghost all = self.inner.all();
        self.inner.seek(probe.as_slice());
        proof {
            self.inner.lemma_all();
            assert forall|j: int| 0 <= j < all.len() implies (ik_lt((#[trigger] all[j]).0, probe@)
                <==> !lex_le(target@, user_of(all[j].0))) by {
                lemma_internal_order(all[j].0, probe@);
                lemma_lex_order(user_of(all[j].0), target@, user_of(all[j].0));
            }
        }
    }

    /// Position the cursor at the last entry of a user key before `bound`.
    fn end_before(&mut self, bound: &[u8])
        requires
            old(self).wf(),
            old(self).curr is None,
        ensures
            final(self).wf(),
            final(self).same_scan(old(self)),
            final(self).inner.all() == old(self).inner.all(),
            final(self).error == old(self).error,
            final(self).curr is None,
            final(self).end() == old(self).end(),
            !final(self).inner.goes_forward(),
            ends_at(final(self).inner.all(), final(self).inner.cur(), Some(bound@), true),
    {
        let probe = encode_internal_key(bound, u64::MAX, VALUE_TYPE_DELETION);
        proof {
            lemma_decode_encoded(bound@, u64::MAX, VALUE_TYPE_DELETION);
            self.inner.lemma_all();
        }
        let ghost all = self.inner.all();
        self.inner.seek_for_prev(probe.as_slice());
        proof {
            self.inner.lemma_all();
            assert forall|j: int| 0 <= j < all.len() && lex_lt(
                user_of((#[trigger] all[j]).0),
                bound@,
            ) implies !ik_lt(probe@, all[j].0) by {
                lemma_internal_order(probe@, all[j].0);
                lemma_lex_order(user_of(all[j].0), bound@, user_of(all[j].0));
            }
        }
        // Step back over a version of `bound` itself that equals the probe.
        let mut going = true;
        while going
            invariant
                self.wf(),
                self.scan() == old(self).scan(),
                self.runs() == old(self).runs(),
                self.op() == old(self).op(),
                self.terminal() == old(self).terminal(),
                self.error == old(self).error,
                self.curr is None,
                self.end() == old(self).end(),
                all == self.inner.all(),
                all == old(self).inner.all(),
                self.scan().wf(),
                self.scan().all == all,
                !self.inner.goes_forward(),
                self.inner.cur() matches Some(i) ==> 0 <= i < all.len(),
                forall|j: int|
                    0 <= j < all.len() && lex_lt(user_of((#[trigger] all[j]).0), bound@)
                        ==> match self.inner.cur() {
                        Some(i) => j <= i,
                        None => false,
                    },
                !going ==> (self.inner.cur() matches Some(i) ==> lex_lt(
                    user_of(all[i].0),
                    bound@,
                )),
            decreases
                    match self.inner.cur() {
                        Some(k) => k + 1,
                        None => 0,
                    },
                    if going {
                        1int
                    } else {
                        0int
                    },
        {
            proof {
                self.inner.lemma_all();
            }
            let back = match self.inner.key() {
                None => false,
                Some(k) => {
                    assert(is_internal(all[self.inner.cur()->0].0));
                    !bytes_lt(user_key_of(k), bound)
                },
            };
            if back {
                self.inner.advance_backward();
                proof {
                    self.inner.lemma_all();
                }
            } else {
                going = false;
            }
        }
        proof {
            if let Some(i) = self.inner.cur() {
                assert forall|j: int| 0 <= j < all.len() implies (j <= i <==> lex_lt(
                    user_of((#[trigger] all[j]).0),
                    bound@,
                )) by {
                    if j <= i {
                        lemma_user_ascends(all, j, i);
                        lemma_lex_order(user_of(all[j].0), user_of(all[i].0), bound@);
                    }
                }
            }
        }
    }

    /// Go to the first user key at or after `target`.
    pub fn seek(&mut self, target: &[u8])
        requires
            old(self).wf(),
        ensures
            final(self).wf(),
            old(self).terminal() ==> *final(self) == *old(self),
            !old(self).terminal() ==> went_to(*old(self), *final(self), target@),
    {
        if self.terminal_error {
            return;
        }
        self.reset();
        self.start_from(target);
        let ghost lo: Option<Seq<u8>> = Some(target@);
        self.materialize_next_visible(Ghost(lo), Ghost(false));
    }

    /// Go to the first user key at or after `prefix`, and end the forward scan
    /// with the keys that start with it.
    pub fn seek_prefix(&mut self, prefix: &[u8])
        requires
            old(self).wf(),
        ensures
            final(self).wf(),
            old(self).terminal() ==> *final(self) == *old(self),
            !old(self).terminal() ==> went_to_prefix(*old(self), *final(self), prefix@),
    {
        if self.terminal_error {
            return;
        }
        self.reset();
        self.upper_bound = prefix_upper_bound(prefix);
        self.start_from(prefix);
        let ghost lo: Option<Seq<u8>> = Some(prefix@);
        self.materialize_next_visible(Ghost(lo), Ghost(false));
    }

    /// Go to the last user key at or before `target`.
    pub fn seek_for_prev(&mut self, target: &[u8])
        requires
            old(self).wf(),
        ensures
            final(self).wf(),
            old(self).terminal() ==> *final(self) == *old(self),
            !old(self).terminal() ==> went_up_to(*old(self), *final(self), target@, false),
    {
        if self.terminal_error {
            return;
        }
        self.reset();
        let probe = above_all_versions(target);
        proof {
            self.inner.lemma_all();
            lemma_above_all(target@);
        }
        let ghost all = self.inner.all();
        let ghost scan = self.scan();
        self.inner.seek_for_prev(probe.as_slice());
        proof {
            self.inner.lemma_all();
            assert forall|j: int| 0 <= j < all.len() implies (!ik_lt(probe@, (#[trigger] all[j]).0)
                <==> lex_le(user_of(all[j].0), target@)) by {
                assert(seq_of(scan.all[j].0) > 0 && type_of(scan.all[j].0) <= VALUE_TYPE_MERGE);
                lemma_above_all_order(target@, all[j].0);
                lemma_lex_order(target@, user_of(all[j].0), target@);
            }
        }
        let ghost hi: Option<Seq<u8>> = Some(target@);
        self.materialize_prev_visible(Ghost(hi), Ghost(false));
    }

    /// Go to the last user key before `bound`. A bounded reverse scan starts
    /// here: byte strings have no predecessor, so no inclusive bound says the
    /// same.
    pub fn seek_to_last_before(&mut self, bound: &[u8])
        requires
            old(self).wf(),
        ensures
            final(self).wf(),
            old(self).terminal() ==> *final(self) == *old(self),
            !old(self).terminal() ==> went_up_to(*old(self), *final(self), bound@, true),
    {
        if self.terminal_error {
            return;
        }
        self.reset();
        self.end_before(bound);
        let ghost hi: Option<Seq<u8>> = Some(bound@);
        self.materialize_prev_visible(Ghost(hi), Ghost(true));
    }

    /// Go to the next user key. Does nothing without a current one.
    pub fn next(&mut self)
        requires
            old(self).wf(),
        ensures
            final(self).wf(),
            went_on(*old(self), *final(self)),
    {
        let mut taken: Option<(Vec<u8>, Vec<u8>)> = None;
        std::mem::swap(&mut taken, &mut self.curr);
        match taken {
            None => {},
            Some((uk, _)) => {
                let ghost all = self.inner.all();
                let ghost scan = self.scan();
                proof {
                    self.inner.lemma_all();
                }
                match self.direction {
                    Direction::Reverse => {
                        // Seek past the last version of the current user key.
                        let probe = above_all_versions(uk.as_slice());
                        proof {
                            lemma_above_all(uk@);
                        }
                        self.inner.seek(probe.as_slice());
                        proof {
                            self.inner.lemma_all();
                            assert forall|j: int| 0 <= j < all.len() implies (ik_lt(
                                (#[trigger] all[j]).0,
                                probe@,
                            ) <==> !lex_lt(uk@, user_of(all[j].0))) by {
                                assert(seq_of(scan.all[j].0) > 0 && type_of(scan.all[j].0)
                                    <= VALUE_TYPE_MERGE);
                                lemma_above_all_order(uk@, all[j].0);
                                lemma_lex_order(uk@, user_of(all[j].0), uk@);
                            }
                        }
                    },
                    Direction::Forward => {
                        if self.pending_consume {
                            let ghost i = self.inner.cur()->0;
                            consume_user_key_forward(&mut self.inner, uk.as_slice());
                            proof {
                                self.inner.lemma_all();
                                lemma_past_starts(scan, i, self.inner.cur(), uk@);
                            }
                        }
                    },
                }
                let ghost lo: Option<Seq<u8>> = Some(uk@);
                let ghost end = self.end();
                assert(self.scan() == scan);
                self.materialize_next_visible(Ghost(lo), Ghost(true));
                proof {
                    let c = old(self).current()->0;
                    assert(lo == Some(c.0));
                    let u = choose|u: Option<Seq<u8>>| #[trigger]
                        is_first_shown(scan, lo, true, end, u) && tells(
                            scan,
                            old(self).op(),
                            u,
                            self.current(),
                            self.err(),
                        );
                    assert(is_first_shown(old(self).scan(), Some(c.0), true, old(self).end(), u));
                }
            },
        }
    }

    /// Go to the user key before. Does nothing without a current one.
    pub fn prev(&mut self)
        requires
            old(self).wf(),
        ensures
            final(self).wf(),
            went_back(*old(self), *final(self)),
    {
        let mut taken: Option<(Vec<u8>, Vec<u8>)> = None;
        std::mem::swap(&mut taken, &mut self.curr);
        match taken {
            None => {},
            Some((uk, _)) => {
                let ghost scan = self.scan();
                match self.direction {
                    Direction::Forward => {
                        self.end_before(uk.as_slice());
                    },
                    Direction::Reverse => {},
                }
                let ghost hi: Option<Seq<u8>> = Some(uk@);
                assert(self.scan() == scan);
                self.materialize_prev_visible(Ghost(hi), Ghost(true));
                proof {
                    let c = old(self).current()->0;
                    assert(hi == Some(c.0));
                    let u = choose|u: Option<Seq<u8>>| #[trigger]
                        is_last_shown(scan, hi, true, u) && tells(
                            scan,
                            old(self).op(),
                            u,
                            self.current(),
                            self.err(),
                        );
                    assert(is_last_shown(old(self).scan(), Some(c.0), true, u));
                }
            },
        }
    }

    /// Whether there is a current user key.
    pub fn valid(&self) -> (r: bool)
        ensures
            r == (self.current() is Some),
    {
        self.curr.is_some()
    }

    /// The current user key.
    pub fn key(&self) -> (r: Option<&[u8]>)
        ensures
            match self.current() {
                Some(c) => r matches Some(k) && k@ == c.0,
                None => r is None,
            },
    {
        match &self.curr {
            Some(c) => Some(c.0.as_slice()),
            None => None,
        }
    }

    /// The current value.
    pub fn value(&self) -> (r: Option<&[u8]>)
        ensures
            match self.current() {
                Some(c) => r matches Some(v) && v@ == c.1,
                None => r is None,
            },
    {
        match &self.curr {
            Some(c) => Some(c.1.as_slice()),
            None => None,
        }
    }

    /// The error that the iterator stopped at, if it did.
    pub fn status(&self) -> (r: Result<(), Error>)
        ensures
            match self.err() {
                Some(e) => r == Err::<(), Error>(e),
                None => r is Ok,
            },
    {
        match &self.error {
            Some(e) => Err(Error { kind: e.kind, message: e.message }),
            None => Ok(()),
        }
    }

    /// Put the iterator into a final error state, from which no seek leads.
    pub fn set_error(&mut self, error: Error)
        requires
            old(self).wf(),
        ensures
            final(self).wf(),
            final(self).scan() == old(self).scan(),
            final(self).runs() == old(self).runs(),
            final(self).op() == old(self).op(),
            final(self).terminal(),
            final(self).current() is None,
            final(self).err() == Some(error),
    {
        self.error = Some(error);
        self.terminal_error = true;
        self.curr = None;
    }
}

/// The user key at which a reverse scan stands is the first candidate.
proof fn lemma_at_user_reverse(
    scan: Scan,
    i: int,
    hi: Option<Seq<u8>>,
    strict: bool,
    u: Seq<u8>,
)
    requires
        nothing_after(scan, Some(i), hi, strict),
        u == user_of(scan.all[i].0),
    ensures
        scan.shows(u) ==> is_last_shown(scan, hi, strict, Some(u)),
{
    assert forall|v: Seq<u8>| #[trigger]
        scan.shows(v) && at_or_before(v, hi, strict) implies lex_le(v, u) by {
        assert(!lex_lt(u, v));
        lemma_lex_order(u, v, u);
    }
}

/// Before the versions of `u` the earlier user keys end.
proof fn lemma_before_ends(scan: Scan, i: int, q: Option<int>, u: Seq<u8>)
    requires
        scan.wf(),
        0 <= i < scan.all.len(),
        user_of(scan.all[i].0) == u,
        match q {
            Some(k) => 0 <= k < i && user_of(scan.all[k].0) != u && forall|j: int|
                k < j <= i ==> user_of((#[trigger] scan.all[j]).0) == u,
            None => forall|j: int| 0 <= j <= i ==> user_of((#[trigger] scan.all[j]).0) == u,
        },
    ensures
        ends_at(scan.all, q, Some(u), true),
{
    let k: int = match q {
        Some(k) => k,
        None => -1,
    };
    assert forall|j: int| 0 <= j < scan.all.len() implies (j <= k <==> lex_lt(
        user_of((#[trigger] scan.all[j]).0),
        u,
    )) by {
        let x = user_of(scan.all[j].0);
        lemma_lex_order(x, u, x);
        if j > i {
            lemma_user_ascends(scan.all, i, j);
        } else if j <= k {
            let w = user_of(scan.all[k].0);
            lemma_user_ascends(scan.all, k, i);
            lemma_user_ascends(scan.all, j, k);
            lemma_lex_order(x, w, u);
            lemma_lex_order(w, u, w);
        }
    }
}

/// An internal key after all versions of `user_key`.
pub fn above_all_versions(user_key: &[u8]) -> (r: Vec<u8>)
    ensures
        r@ == internal_key(user_key@, 0, 255),
{
    encode_internal_key(user_key, 0, 255)
}

proof fn lemma_above_all(u: Seq<u8>)
    ensures
        is_internal(internal_key(u, 0, 255)),
{
    lemma_decode_encoded(u, 0, 255);
}

/// The versions of a user key come before the key after all its versions, and
/// those of later user keys do not.
pub proof fn lemma_above_all_order(u: Seq<u8>, k: Seq<u8>)
    requires
        is_internal(k),
        seq_of(k) > 0,
    ensures
        ik_lt(k, internal_key(u, 0, 255)) <==> lex_le(user_of(k), u),
        ik_lt(internal_key(u, 0, 255), k) <==> lex_lt(u, user_of(k)),
{
    lemma_decode_encoded(u, 0, 255);
    lemma_internal_order(k, internal_key(u, 0, 255));
    lemma_internal_order(internal_key(u, 0, 255), k);
    lemma_lex_order(u, user_of(k), u);
}

/// The least byte string after all that start with `prefix`; `None` where there
/// is no such one.
pub fn prefix_upper_bound(prefix: &[u8]) -> (r: Option<Vec<u8>>)
    ensures
        opt_key(r) == prefix_successor(prefix@),
{
    let mut out = copy_bytes(prefix);
    while out.len() > 0
        invariant
            prefix_successor(out@) == prefix_successor(prefix@),
        decreases out@.len(),
    {
        let n: usize = out.len();
        let last: u8 = out[n - 1];
        let ghost o = out@;
        out.pop();
        assert(out@ =~= o.drop_last());
        if last != 255 {
            out.push(last + 1);
            return Some(out);
        }
    }
    None
}

/// The user key at which a forward scan stands is the first candidate.
proof fn lemma_at_user(
    scan: Scan,
    i: int,
    lo: Option<Seq<u8>>,
    strict: bool,
    end: Option<Seq<u8>>,
    u: Seq<u8>,
)
    requires
        nothing_before(scan, Some(i), lo, strict),
        u == user_of(scan.all[i].0),
        at_or_before(u, end, true),
    ensures
        scan.shows(u) ==> is_first_shown(scan, lo, strict, end, Some(u)),
{
    assert forall|v: Seq<u8>| #[trigger]
        scan.shows(v) && at_or_after(v, lo, strict) && at_or_before(
            v,
            end,
            true,
        ) implies lex_le(u, v) by {
        assert(!lex_lt(v, u));
        lemma_lex_order(u, v, u);
    }
}

/// A chain whose newest version is an operand that nothing hides needs the
/// operator.
proof fn lemma_merge_head(c: Seq<Link>, rt: u64)
    requires
        c.len() > 0,
        c[0].1 == VALUE_TYPE_MERGE,
        c[0].0 > rt,
    ensures
        outcome_of(taken(c, rt)) is Merge,
{
    let t = taken(c, rt);
    assert(t == seq![c[0]] + taken(c.skip(1), rt));
    assert(t[0] == c[0]);
    if t.len() == 1 {
        assert(t.last() == c[0]);
    }
}

/// What the operator made of a chain, as the iterator tells it.
proof fn lemma_read_tells<M: MergeOperator>(
    scan: Scan,
    op: &M,
    u: Seq<u8>,
    t: Seq<Link>,
    r: Result<Option<Vec<u8>>, Error>,
)
    requires
        may_read(*op, u, t, r),
        scan.outcome(u) == outcome_of(t),
        scan.merges,
    ensures
        match r {
            Ok(Some(v)) => scan.shows(u) && tells(
                scan,
                Some(op),
                Some(u),
                Some((u, v@)),
                None,
            ),
            Ok(None) => !scan.shows(u),
            Err(e) => scan.shows(u) && tells(
                scan,
                Some(op),
                Some(u),
                None,
                Some(e),
            ),
        },
{
    if chain_operand_count(t) != 0 {
        let merged = choose|merged: Option<Seq<u8>>| #[trigger]
            op.full_may(u, chain_base(t), chain_operands(t), merged) && says(merged, r);
        let o = scan.outcome(u);
        assert(o->Merge_0 == chain_base(t));
        assert(o->Merge_1 == chain_operands(t));
        assert(op_may(Some(op), u, o->Merge_0, o->Merge_1, merged));
    }
}

/// Past the versions of `u` the later user keys start.
proof fn lemma_past_starts(scan: Scan, i: int, q: Option<int>, u: Seq<u8>)
    requires
        scan.wf(),
        0 <= i < scan.all.len(),
        user_of(scan.all[i].0) == u,
        past_user(scan.all, Some(i), q, u),
    ensures
        starts_at(scan.all, q, Some(u), true),
{
    let k = match q {
        Some(k) => k,
        None => scan.all.len() as int,
    };
    assert forall|j: int| 0 <= j < scan.all.len() implies (j >= k <==> lex_lt(
        u,
        user_of((#[trigger] scan.all[j]).0),
    )) by {
        let x = user_of(scan.all[j].0);
        lemma_lex_order(u, x, u);
        if j < i {
            lemma_user_ascends(scan.all, j, i);
        } else if j >= k {
            let w = user_of(scan.all[k].0);
            lemma_user_ascends(scan.all, i, k);
            lemma_user_ascends(scan.all, k, j);
            lemma_lex_order(u, w, x);
            lemma_lex_order(w, u, w);
        }
    }
}

} // verus!
