//! The versions of a key in a sorted run of entries.
//!
//! A run (a memtable, a table) holds entries in the order of their internal
//! keys, which puts the versions of one user key together, newest first.

use super::block::sorted_entries;
use super::block_entry::Pair;
use super::internal_key::ik_le;
use super::internal_key::ik_lt;
use super::internal_key::is_internal;
use super::internal_key::lemma_internal_order;
use super::internal_key::lemma_internal_total_order;
use super::internal_key::seq_of;
use super::internal_key::type_of;
use super::internal_key::user_of;
use super::internal_key::VALUE_TYPE_DELETION;
use super::internal_key::VALUE_TYPE_MERGE;
use crate::bytes::lemma_lex_order;
use vstd::prelude::*;

verus! {

/// An entry is a version of `user_key` that a read at `snapshot_seq` sees.
pub open spec fn visible(p: Pair, user_key: Seq<u8>, snapshot_seq: u64) -> bool {
    user_of(p.0) == user_key && seq_of(p.0) <= snapshot_seq
}

/// The first visible version of `user_key`: in a sorted run, the newest.
pub open spec fn newest(es: Seq<Pair>, user_key: Seq<u8>, snapshot_seq: u64) -> Option<Pair>
    decreases es.len(),
{
    if es.len() == 0 {
        None
    } else if visible(es[0], user_key, snapshot_seq) {
        Some(es[0])
    } else {
        newest(es.skip(1), user_key, snapshot_seq)
    }
}

/// The value of a version: none for a deletion.
pub open spec fn value_of(p: Pair) -> Option<Seq<u8>> {
    if type_of(p.0) == VALUE_TYPE_DELETION {
        None
    } else {
        Some(p.1)
    }
}

/// What a point lookup finds: the sequence number of the newest visible
/// version, and its value.
pub open spec fn found(es: Seq<Pair>, user_key: Seq<u8>, snapshot_seq: u64) -> Option<
    (u64, Option<Seq<u8>>),
> {
    match newest(es, user_key, snapshot_seq) {
        Some(p) => Some((seq_of(p.0), value_of(p))),
        None => None,
    }
}

/// A link of a merge chain: sequence number, value type, value.
pub type Link = (u64, u8, Seq<u8>);

/// The visible versions of `user_key`, newest first, up to and with the first
/// that is not a merge operand.
pub open spec fn chain(es: Seq<Pair>, user_key: Seq<u8>, snapshot_seq: u64) -> Seq<Link>
    decreases es.len(),
{
    if es.len() == 0 {
        Seq::empty()
    } else if !visible(es[0], user_key, snapshot_seq) {
        chain(es.skip(1), user_key, snapshot_seq)
    } else {
        let link = (seq_of(es[0].0), type_of(es[0].0), es[0].1);
        if link.1 == VALUE_TYPE_MERGE {
            seq![link] + chain(es.skip(1), user_key, snapshot_seq)
        } else {
            seq![link]
        }
    }
}

/// A chain has ended with a value or a deletion.
pub open spec fn chain_ended(c: Seq<Link>) -> bool {
    c.len() > 0 && c.last().1 != VALUE_TYPE_MERGE
}

/// Entries that are not visible versions can be skipped.
pub proof fn lemma_skip_invisible(
    es: Seq<Pair>,
    user_key: Seq<u8>,
    snapshot_seq: u64,
    n: int,
)
    requires
        0 <= n <= es.len(),
        forall|i: int| 0 <= i < n ==> !visible(#[trigger] es[i], user_key, snapshot_seq),
    ensures
        newest(es, user_key, snapshot_seq) == newest(es.skip(n), user_key, snapshot_seq),
        chain(es, user_key, snapshot_seq) == chain(es.skip(n), user_key, snapshot_seq),
    decreases n,
{
    if n == 0 {
        assert(es.skip(0) =~= es);
    } else {
        assert(!visible(es[0], user_key, snapshot_seq));
        assert forall|i: int| 0 <= i < n - 1 implies !visible(
            #[trigger] es.skip(1)[i],
            user_key,
            snapshot_seq,
        ) by {
            assert(es.skip(1)[i] == es[i + 1]);
        }
        lemma_skip_invisible(es.skip(1), user_key, snapshot_seq, n - 1);
        assert(es.skip(1).skip(n - 1) =~= es.skip(n));
    }
}

/// Where no entry is visible there is no newest version, and no chain.
pub proof fn lemma_none_visible(es: Seq<Pair>, user_key: Seq<u8>, snapshot_seq: u64)
    requires
        forall|i: int| 0 <= i < es.len() ==> !visible(#[trigger] es[i], user_key, snapshot_seq),
    ensures
        newest(es, user_key, snapshot_seq) is None,
        chain(es, user_key, snapshot_seq) == Seq::<Link>::empty(),
{
    lemma_skip_invisible(es, user_key, snapshot_seq, es.len() as int);
    assert(es.skip(es.len() as int).len() == 0);
}

/// The first visible entry of a sorted run is the newest visible version: no
/// other visible version has a greater sequence number.
pub proof fn lemma_newest(es: Seq<Pair>, user_key: Seq<u8>, snapshot_seq: u64)
    requires
        sorted_entries(es),
    ensures
        match newest(es, user_key, snapshot_seq) {
            Some(p) => {
                &&& es.contains(p)
                &&& visible(p, user_key, snapshot_seq)
                &&& forall|i: int|
                    0 <= i < es.len() && visible(#[trigger] es[i], user_key, snapshot_seq)
                        ==> seq_of(es[i].0) <= seq_of(p.0) && ik_le(p.0, es[i].0)
            },
            None => forall|i: int|
                0 <= i < es.len() ==> !visible(#[trigger] es[i], user_key, snapshot_seq),
        },
    decreases es.len(),
{
    if es.len() > 0 {
        let rest = es.skip(1);
        if visible(es[0], user_key, snapshot_seq) {
            assert(es.contains(es[0]));
            assert forall|i: int|
                0 <= i < es.len() && visible(
                    #[trigger] es[i],
                    user_key,
                    snapshot_seq,
                ) implies seq_of(es[i].0) <= seq_of(es[0].0) && ik_le(es[0].0, es[i].0) by {
                if i > 0 {
                    lemma_internal_order(es[0].0, es[i].0);
                    lemma_lex_order(user_key, user_key, user_key);
                }
            }
        } else {
            lemma_sorted_skip(es);
            lemma_newest(rest, user_key, snapshot_seq);
            match newest(rest, user_key, snapshot_seq) {
                Some(p) => {
                    let i = choose|i: int| 0 <= i < rest.len() && rest[i] == p;
                    assert(es[i + 1] == p);
                    assert forall|i: int|
                        0 <= i < es.len() && visible(
                            #[trigger] es[i],
                            user_key,
                            snapshot_seq,
                        ) implies seq_of(es[i].0) <= seq_of(p.0) && ik_le(p.0, es[i].0) by {
                        if i > 0 {
                            assert(rest[i - 1] == es[i]);
                        }
                    }
                },
                None => {
                    assert forall|i: int| 0 <= i < es.len() implies !visible(
                        #[trigger] es[i],
                        user_key,
                        snapshot_seq,
                    ) by {
                        if i > 0 {
                            assert(rest[i - 1] == es[i]);
                        }
                    }
                },
            }
        }
    }
}

/// `es` holds an entry with this key and value.
pub open spec fn holds_pair(es: Seq<Pair>, k: Seq<u8>, v: Seq<u8>) -> bool {
    exists|i: int| 0 <= i < es.len() && #[trigger] es[i] == (k, v)
}

/// In a sorted run a key stands once.
pub proof fn lemma_one_value(es: Seq<Pair>, i: int, j: int)
    requires
        sorted_entries(es),
        0 <= i < es.len(),
        0 <= j < es.len(),
        es[i].0 == es[j].0,
    ensures
        i == j,
{
    lemma_internal_total_order(es[i].0, es[j].0, es[j].0);
}

/// The visible entry that comes first is the newest.
pub proof fn lemma_newest_is(
    es: Seq<Pair>,
    user_key: Seq<u8>,
    snapshot_seq: u64,
    p: Pair,
)
    requires
        sorted_entries(es),
        es.contains(p),
        visible(p, user_key, snapshot_seq),
        forall|i: int|
            0 <= i < es.len() && visible(#[trigger] es[i], user_key, snapshot_seq) ==> ik_le(
                p.0,
                es[i].0,
            ),
    ensures
        newest(es, user_key, snapshot_seq) == Some(p),
{
    lemma_newest(es, user_key, snapshot_seq);
    let a = choose|a: int| 0 <= a < es.len() && es[a] == p;
    let q = newest(es, user_key, snapshot_seq)->0;
    assert(newest(es, user_key, snapshot_seq) is Some);
    let b = choose|b: int| 0 <= b < es.len() && es[b] == q;
    assert(ik_le(p.0, es[b].0));
    assert(ik_le(q.0, es[a].0));
    lemma_internal_total_order(es[a].0, es[b].0, es[a].0);
    lemma_one_value(es, a, b);
}

/// `es1` is `es0` with the entry `(k, v)` put in, over one with that key.
pub open spec fn is_inserted(es0: Seq<Pair>, es1: Seq<Pair>, k: Seq<u8>, v: Seq<u8>) -> bool {
    forall|kk: Seq<u8>, vv: Seq<u8>| #[trigger]
        holds_pair(es1, kk, vv) == if kk == k {
            vv == v
        } else {
            holds_pair(es0, kk, vv)
        }
}

/// Reading after a write. An entry put into a run is what a read of its user
/// key at or after its sequence number finds, unless the run holds a newer
/// version that the read sees; every other read finds what it found before.
pub proof fn lemma_read_after_insert(
    es0: Seq<Pair>,
    es1: Seq<Pair>,
    k: Seq<u8>,
    v: Seq<u8>,
    user_key: Seq<u8>,
    snapshot_seq: u64,
)
    requires
        sorted_entries(es0),
        sorted_entries(es1),
        is_internal(k),
        is_inserted(es0, es1, k, v),
    ensures
        newest(es1, user_key, snapshot_seq) == if visible((k, v), user_key, snapshot_seq) && (
        newest(es0, user_key, snapshot_seq) is None || ik_le(
            k,
            (newest(es0, user_key, snapshot_seq)->0).0,
        )) {
            Some((k, v))
        } else {
            newest(es0, user_key, snapshot_seq)
        },
{
    lemma_newest(es0, user_key, snapshot_seq);
    let n0 = newest(es0, user_key, snapshot_seq);
    assert(holds_pair(es1, k, v));
    let at = choose|i: int| 0 <= i < es1.len() && #[trigger] es1[i] == (k, v);
    assert(es1.contains((k, v)));
    let wins = visible((k, v), user_key, snapshot_seq) && (n0 is None || ik_le(k, (n0->0).0));
    assert forall|i: int|
        0 <= i < es1.len() && visible(
            #[trigger] es1[i],
            user_key,
            snapshot_seq,
        ) implies es1[i] == (k, v) || (n0 is Some && ik_le((n0->0).0, es1[i].0)) by {
        assert(holds_pair(es1, es1[i].0, es1[i].1));
        if es1[i].0 != k {
            assert(holds_pair(es0, es1[i].0, es1[i].1));
            let j = choose|j: int|
                0 <= j < es0.len() && #[trigger] es0[j] == (es1[i].0, es1[i].1);
            assert(visible(es0[j], user_key, snapshot_seq));
        }
    }
    if wins {
        assert forall|i: int|
            0 <= i < es1.len() && visible(
                #[trigger] es1[i],
                user_key,
                snapshot_seq,
            ) implies ik_le(k, es1[i].0) by {
            if es1[i] != (k, v) {
                let p = n0->0;
                let j = choose|j: int| 0 <= j < es0.len() && es0[j] == p;
                assert(is_internal(es0[j].0));
                assert(is_internal(es1[i].0));
                lemma_internal_total_order(k, p.0, es1[i].0);
            }
        }
        lemma_newest_is(es1, user_key, snapshot_seq, (k, v));
    } else if n0 is Some {
        let p = n0->0;
        let j = choose|j: int| 0 <= j < es0.len() && es0[j] == p;
        assert(is_internal(es0[j].0));
        lemma_internal_total_order(k, p.0, k);
        lemma_internal_total_order(p.0, k, p.0);
        if p.0 == k {
            assert(ik_le(k, p.0));
            assert(visible((k, v), user_key, snapshot_seq));
        }
        assert(holds_pair(es0, p.0, p.1));
        assert(holds_pair(es1, p.0, p.1));
        let i = choose|i: int| 0 <= i < es1.len() && #[trigger] es1[i] == (p.0, p.1);
        assert(es1.contains(p));
        lemma_newest_is(es1, user_key, snapshot_seq, p);
    } else {
        lemma_newest(es1, user_key, snapshot_seq);
        if newest(es1, user_key, snapshot_seq) is Some {
            let q = newest(es1, user_key, snapshot_seq)->0;
            let i = choose|i: int| 0 <= i < es1.len() && es1[i] == q;
            assert(es1[i] == (k, v));
        }
    }
}

/// A sorted run without its first entry is sorted.
pub proof fn lemma_sorted_skip(es: Seq<Pair>)
    requires
        sorted_entries(es),
        es.len() > 0,
    ensures
        sorted_entries(es.skip(1)),
{
    let rest = es.skip(1);
    assert forall|i: int| 0 <= i < rest.len() implies is_internal((#[trigger] rest[i]).0) by {
        assert(rest[i] == es[i + 1]);
    }
    assert forall|i: int, j: int| 0 <= i < j < rest.len() implies ik_lt(
        (#[trigger] rest[i]).0,
        (#[trigger] rest[j]).0,
    ) by {
        assert(rest[i] == es[i + 1] && rest[j] == es[j + 1]);
    }
}

/// The newest version is the first link of the chain.
pub proof fn lemma_chain_head(es: Seq<Pair>, user_key: Seq<u8>, snapshot_seq: u64)
    ensures
        match newest(es, user_key, snapshot_seq) {
            Some(p) => chain(es, user_key, snapshot_seq).len() > 0 && chain(
                es,
                user_key,
                snapshot_seq,
            )[0] == (seq_of(p.0), type_of(p.0), p.1),
            None => chain(es, user_key, snapshot_seq).len() == 0,
        },
    decreases es.len(),
{
    if es.len() > 0 && !visible(es[0], user_key, snapshot_seq) {
        lemma_chain_head(es.skip(1), user_key, snapshot_seq);
    }
}

/// A chain goes on with the next visible version until it has ended.
pub proof fn lemma_chain_push(es: Seq<Pair>, p: Pair, user_key: Seq<u8>, snapshot_seq: u64)
    ensures
        chain(es.push(p), user_key, snapshot_seq) == if chain_ended(
            chain(es, user_key, snapshot_seq),
        ) || !visible(p, user_key, snapshot_seq) {
            chain(es, user_key, snapshot_seq)
        } else {
            chain(es, user_key, snapshot_seq).push((seq_of(p.0), type_of(p.0), p.1))
        },
    decreases es.len(),
{
    let all = es.push(p);
    if es.len() == 0 {
        assert(all.skip(1) =~= Seq::<Pair>::empty());
        assert(all[0] == p);
        assert(chain(all.skip(1), user_key, snapshot_seq) =~= Seq::<Link>::empty());
        assert(chain(es, user_key, snapshot_seq) =~= Seq::<Link>::empty());
        let link = (seq_of(p.0), type_of(p.0), p.1);
        assert(seq![link] + Seq::<Link>::empty() =~= seq![link]);
        assert(Seq::<Link>::empty().push(link) =~= seq![link]);
    } else {
        let rest = es.skip(1);
        assert(all.skip(1) =~= rest.push(p));
        assert(all[0] == es[0]);
        lemma_chain_push(rest, p, user_key, snapshot_seq);
        if visible(es[0], user_key, snapshot_seq) {
            let link = (seq_of(es[0].0), type_of(es[0].0), es[0].1);
            let tail = chain(rest, user_key, snapshot_seq);
            if link.1 == VALUE_TYPE_MERGE {
                if tail.len() > 0 {
                    assert((seq![link] + tail).last() == tail.last());
                } else {
                    assert((seq![link] + tail).last() == link);
                }
                let next = (seq_of(p.0), type_of(p.0), p.1);
                assert(seq![link] + tail.push(next) =~= (seq![link] + tail).push(next));
            } else {
                assert(seq![link].last() == link);
            }
        }
    }
}

/// A visible version that is no merge operand ends the chain.
pub proof fn lemma_chain_ends(es: Seq<Pair>, i: int, user_key: Seq<u8>, snapshot_seq: u64)
    requires
        0 <= i < es.len(),
        visible(es[i], user_key, snapshot_seq),
        type_of(es[i].0) != VALUE_TYPE_MERGE,
    ensures
        chain_ended(chain(es, user_key, snapshot_seq)),
    decreases es.len(),
{
    let rest = es.skip(1);
    let tail = chain(rest, user_key, snapshot_seq);
    let link = (seq_of(es[0].0), type_of(es[0].0), es[0].1);
    if i > 0 {
        assert(rest[i - 1] == es[i]);
        lemma_chain_ends(rest, i - 1, user_key, snapshot_seq);
        if visible(es[0], user_key, snapshot_seq) && link.1 == VALUE_TYPE_MERGE {
            assert((seq![link] + tail).last() == tail.last());
        }
    }
    assert(seq![link].last() == link);
}

/// Runs with the same chain give a lookup the same.
pub proof fn lemma_chain_decides(es: Seq<Pair>, fs: Seq<Pair>, user_key: Seq<u8>, snapshot_seq: u64)
    requires
        chain(es, user_key, snapshot_seq) == chain(fs, user_key, snapshot_seq),
    ensures
        found(es, user_key, snapshot_seq) == found(fs, user_key, snapshot_seq),
{
    lemma_chain_head(es, user_key, snapshot_seq);
    lemma_chain_head(fs, user_key, snapshot_seq);
}

} // verus!
