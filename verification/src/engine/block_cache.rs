//! The cache of table blocks.
//!
//! The cache is split into shards by a hash of the key, and its byte budget is
//! split evenly among them. Each shard keeps its blocks in the order of their
//! use and drops the least recently used ones to stay within its share. The
//! budget is a hard bound on the cache as a whole.
//!
//! A block larger than one shard's share is refused by a strict cache. A cache
//! that is not strict empties the shard for it, if the block then fits the
//! budget of the whole cache. A block that fits its shard is always taken: where
//! the cache as a whole would hold too much, shards that hold more than their
//! share make room.
//!
//! A budget of 0 switches the cache off.

use super::block::Block;
use super::checksum::legacy_payload_u64;
use super::checksum::xxh3_hash64;
use super::lru_list::list_clear;
use super::lru_list::list_get;
use super::lru_list::list_keys;
use super::lru_list::list_len;
use super::lru_list::list_new;
use super::lru_list::list_pop;
use super::lru_list::list_pop_last;
use super::lru_list::list_put;
use super::lru_list::lookup;
use super::lru_list::recent;
use super::lru_list::without;
use super::lru_list::CacheKey;
use super::lru_list::CachedBlock;
use super::lru_list::Held;
use super::lru_list::RecencyList;
use super::sstable::share;
use crate::bytes::le64;
use crate::bytes::put_le64;
use std::sync::Arc;
use vstd::arithmetic::power2::lemma2_to64;
use vstd::arithmetic::power2::lemma_pow2_strictly_increases;
use vstd::arithmetic::power2::lemma_pow2_unfold;
use vstd::arithmetic::power2::pow2;
use vstd::prelude::*;

verus! {

/// Most bits of the hash that pick the shard.
pub const MAX_SHARD_BITS: u32 = 8;

/// A shard's share of the budget is not made smaller than this; the cache has
/// fewer shards instead.
pub const MIN_SHARD_CAPACITY: usize = 65_536;

/// Bytes that a block counts for beyond its own: its place in the list and in
/// the map, and its reference counts.
pub const ENTRY_OVERHEAD: usize = 128;

/// Bytes that a block counts for in the cache.
pub fn entry_charge(block: &Block) -> (r: usize)
    ensures
        charge_of(block, r),
{
    block.charge().saturating_add(ENTRY_OVERHEAD)
}

// ── What a shard holds ───────────────────────────────────────────

/// The bytes that blocks count for together.
pub open spec fn charges(s: Seq<Held>) -> nat
    decreases s.len(),
{
    if s.len() == 0 {
        0
    } else {
        charges(s.drop_last()) + s.last().1.charge as nat
    }
}

/// No key occurs twice.
pub open spec fn distinct(s: Seq<Held>) -> bool {
    forall|i: int, j: int| 0 <= i < j < s.len() ==> (#[trigger] s[i]).0 != (#[trigger] s[j]).0
}

/// The most recently used blocks that count for at most `room` bytes together.
pub open spec fn kept(s: Seq<Held>, room: int) -> Seq<Held>
    decreases s.len(),
{
    if s.len() == 0 || charges(s) <= room {
        s
    } else {
        kept(s.drop_last(), room)
    }
}

/// A shard with a block in front, and as much of the rest as its share allows.
pub open spec fn with_block(s: Seq<Held>, k: CacheKey, v: CachedBlock, share: int) -> Seq<Held> {
    seq![(k, v)] + kept(without(s, k), share - v.charge)
}

/// What is left without the blocks of a table.
pub open spec fn without_file(s: Seq<Held>, file_id: u64) -> Seq<Held>
    decreases s.len(),
{
    if s.len() == 0 {
        s
    } else if s.last().0.0 == file_id {
        without_file(s.drop_last(), file_id)
    } else {
        without_file(s.drop_last(), file_id).push(s.last())
    }
}

/// The block stands in the sequence.
pub open spec fn has(s: Seq<Held>, k: CacheKey, v: CachedBlock) -> bool {
    exists|i: int| 0 <= i < s.len() && #[trigger] s[i] == (k, v)
}

proof fn lemma_push_has(s: Seq<Held>, h: Held, k: CacheKey, v: CachedBlock)
    ensures
        has(s.push(h), k, v) == (has(s, k, v) || h == (k, v)),
{
    let t = s.push(h);
    if has(s, k, v) {
        let i = choose|i: int| 0 <= i < s.len() && #[trigger] s[i] == (k, v);
        assert(t[i] == (k, v));
    }
    if h == (k, v) {
        assert(t[s.len() as int] == (k, v));
    }
    if has(t, k, v) {
        let i = choose|i: int| 0 <= i < t.len() && #[trigger] t[i] == (k, v);
        if i < s.len() {
            assert(s[i] == (k, v));
        }
    }
}

proof fn lemma_front_has(h: Held, s: Seq<Held>, k: CacheKey, v: CachedBlock)
    ensures
        has(seq![h] + s, k, v) == (has(s, k, v) || h == (k, v)),
{
    let t = seq![h] + s;
    if has(s, k, v) {
        let i = choose|i: int| 0 <= i < s.len() && #[trigger] s[i] == (k, v);
        assert(t[i + 1] == (k, v));
    }
    if h == (k, v) {
        assert(t[0] == (k, v));
    }
    if has(t, k, v) {
        let i = choose|i: int| 0 <= i < t.len() && #[trigger] t[i] == (k, v);
        if i > 0 {
            assert(s[i - 1] == (k, v));
        }
    }
}

/// In a shard a key finds the block that stands under it.
proof fn lemma_lookup(s: Seq<Held>, k: CacheKey)
    requires
        distinct(s),
    ensures
        forall|v: CachedBlock| #[trigger] has(s, k, v) == (lookup(s, k) == Some(v)),
    decreases s.len(),
{
    if s.len() > 0 {
        let rest = s.skip(1);
        assert forall|i: int, j: int| 0 <= i < j < rest.len() implies (#[trigger] rest[i]).0 != (
        #[trigger] rest[j]).0 by {
            assert(rest[i] == s[i + 1] && rest[j] == s[j + 1]);
        }
        lemma_lookup(rest, k);
        assert(s =~= seq![s[0]] + rest);
        assert forall|v: CachedBlock| #[trigger] has(s, k, v) == (lookup(s, k) == Some(v)) by {
            lemma_front_has(s[0], rest, k, v);
            if s[0].0 == k {
                if has(rest, k, v) {
                    let i = choose|i: int| 0 <= i < rest.len() && #[trigger] rest[i] == (k, v);
                    assert(s[i + 1] == rest[i]);
                    assert(s[0].0 != s[i + 1].0);
                }
                if s[0].1 == v {
                    assert(s[0] == (k, v));
                }
            }
        }
    }
}

proof fn lemma_without(s: Seq<Held>, k: CacheKey)
    requires
        distinct(s),
    ensures
        distinct(without(s, k)),
        forall|j: CacheKey, v: CachedBlock| #[trigger]
            has(without(s, k), j, v) == (has(s, j, v) && j != k),
        charges(without(s, k)) + match lookup(s, k) {
            Some(v) => v.charge as int,
            None => 0,
        } == charges(s),
        without(s, k).len() <= s.len(),
    decreases s.len(),
{
    if s.len() > 0 {
        let p = s.drop_last();
        let h = s.last();
        assert forall|i: int, j: int| 0 <= i < j < p.len() implies (#[trigger] p[i]).0 != (
        #[trigger] p[j]).0 by {
            assert(p[i] == s[i] && p[j] == s[j]);
        }
        lemma_without(p, k);
        assert(s =~= p.push(h));
        let w = without(p, k);
        assert forall|j: CacheKey, v: CachedBlock| #[trigger]
            has(without(s, k), j, v) == (has(s, j, v) && j != k) by {
            lemma_push_has(p, h, j, v);
            lemma_push_has(w, h, j, v);
            assert(has(w, j, v) == (has(p, j, v) && j != k));
        }
        lemma_lookup(s, k);
        lemma_lookup(p, k);
        if h.0 == k {
            if lookup(p, k) is Some {
                let v = lookup(p, k)->0;
                assert(has(p, k, v));
                let i = choose|i: int| 0 <= i < p.len() && #[trigger] p[i] == (k, v);
                assert(s[i] == p[i]);
                assert(s[i].0 != s[s.len() - 1].0);
            }
            lemma_push_has(p, h, k, h.1);
            assert(has(s, k, h.1));
        } else {
            assert forall|v: CachedBlock| #[trigger] has(s, k, v) == has(p, k, v) by {
                lemma_push_has(p, h, k, v);
            }
            if lookup(s, k) is Some {
                assert(has(s, k, lookup(s, k)->0));
                assert(has(p, k, lookup(s, k)->0));
            } else if lookup(p, k) is Some {
                assert(has(p, k, lookup(p, k)->0));
                assert(has(s, k, lookup(p, k)->0));
            }
            let t = without(s, k);
            assert(t.drop_last() =~= w);
            assert forall|i: int, j: int| 0 <= i < j < t.len() implies (#[trigger] t[i]).0 != (
            #[trigger] t[j]).0 by {
                if j < w.len() {
                    assert(t[i] == w[i] && t[j] == w[j]);
                } else {
                    assert(t[i] == w[i]);
                    assert(w[i] == (w[i].0, w[i].1));
                    assert(has(w, w[i].0, w[i].1));
                    assert(has(p, w[i].0, w[i].1));
                    let x = choose|x: int| 0 <= x < p.len() && #[trigger] p[x] == (w[i].0, w[i].1);
                    assert(s[x] == p[x]);
                    assert(s[x].0 != s[s.len() - 1].0);
                }
            }
        }
    } else {
        assert(without(s, k) =~= s);
    }
}

proof fn lemma_charges_front(h: Held, s: Seq<Held>)
    ensures
        charges(seq![h] + s) == h.1.charge + charges(s),
    decreases s.len(),
{
    let t = seq![h] + s;
    if s.len() == 0 {
        assert(t.drop_last() =~= Seq::<Held>::empty());
        assert(charges(t.drop_last()) == 0);
        assert(t.last() == h);
    } else {
        assert(t.drop_last() =~= seq![h] + s.drop_last());
        assert(t.last() == s.last());
        lemma_charges_front(h, s.drop_last());
    }
}

/// A key moves to the front without changing what the shard holds.
proof fn lemma_to_front(s: Seq<Held>, k: CacheKey, v: CachedBlock)
    requires
        distinct(s),
        lookup(s, k) == Some(v),
    ensures
        distinct(seq![(k, v)] + without(s, k)),
        charges(seq![(k, v)] + without(s, k)) == charges(s),
        forall|j: CacheKey, w: CachedBlock| #[trigger]
            has(seq![(k, v)] + without(s, k), j, w) == has(s, j, w),
{
    lemma_without(s, k);
    lemma_lookup(s, k);
    lemma_charges_front((k, v), without(s, k));
    lemma_front_distinct(k, v, without(s, k));
    let t = seq![(k, v)] + without(s, k);
    assert forall|j: CacheKey, w: CachedBlock| #[trigger] has(t, j, w) == has(s, j, w) by {
        lemma_front_has((k, v), without(s, k), j, w);
        assert(has(without(s, k), j, w) == (has(s, j, w) && j != k));
        if j == k {
            assert(has(s, k, w) == (lookup(s, k) == Some(w)));
        }
    }
}

proof fn lemma_front_distinct(k: CacheKey, v: CachedBlock, s: Seq<Held>)
    requires
        distinct(s),
        forall|w: CachedBlock| !(#[trigger] has(s, k, w)),
    ensures
        distinct(seq![(k, v)] + s),
{
    let t = seq![(k, v)] + s;
    assert forall|i: int, j: int| 0 <= i < j < t.len() implies (#[trigger] t[i]).0 != (
    #[trigger] t[j]).0 by {
        assert(t[j] == s[j - 1]);
        if i > 0 {
            assert(t[i] == s[i - 1]);
        } else {
            assert(s[j - 1] == (s[j - 1].0, s[j - 1].1));
            assert(has(s, s[j - 1].0, s[j - 1].1));
        }
    }
}

/// What is kept is a part of what there was, and all of it where there is room.
proof fn lemma_kept(s: Seq<Held>, room: int)
    requires
        distinct(s),
    ensures
        distinct(kept(s, room)),
        room >= 0 ==> charges(kept(s, room)) <= room,
        charges(kept(s, room)) <= charges(s),
        kept(s, room).len() <= s.len(),
        forall|k: CacheKey, v: CachedBlock| #[trigger] has(kept(s, room), k, v) ==> has(s, k, v),
        charges(s) <= room ==> kept(s, room) == s,
    decreases s.len(),
{
    if s.len() > 0 && charges(s) > room {
        let p = s.drop_last();
        assert forall|i: int, j: int| 0 <= i < j < p.len() implies (#[trigger] p[i]).0 != (
        #[trigger] p[j]).0 by {
            assert(p[i] == s[i] && p[j] == s[j]);
        }
        lemma_kept(p, room);
        assert(s =~= p.push(s.last()));
        assert forall|k: CacheKey, v: CachedBlock| #[trigger]
            has(kept(s, room), k, v) implies has(s, k, v) by {
            lemma_push_has(p, s.last(), k, v);
        }
    }
}

proof fn lemma_without_file(s: Seq<Held>, file_id: u64)
    requires
        distinct(s),
    ensures
        distinct(without_file(s, file_id)),
        charges(without_file(s, file_id)) <= charges(s),
        without_file(s, file_id).len() <= s.len(),
        forall|k: CacheKey, v: CachedBlock| #[trigger]
            has(without_file(s, file_id), k, v) == (has(s, k, v) && k.0 != file_id),
    decreases s.len(),
{
    if s.len() > 0 {
        let p = s.drop_last();
        let h = s.last();
        assert forall|i: int, j: int| 0 <= i < j < p.len() implies (#[trigger] p[i]).0 != (
        #[trigger] p[j]).0 by {
            assert(p[i] == s[i] && p[j] == s[j]);
        }
        lemma_without_file(p, file_id);
        assert(s =~= p.push(h));
        let w = without_file(p, file_id);
        let t = without_file(s, file_id);
        assert forall|k: CacheKey, v: CachedBlock| #[trigger]
            has(t, k, v) == (has(s, k, v) && k.0 != file_id) by {
            lemma_push_has(p, h, k, v);
            lemma_push_has(w, h, k, v);
            assert(has(w, k, v) == (has(p, k, v) && k.0 != file_id));
        }
        if h.0.0 != file_id {
            assert(t.drop_last() =~= w);
            assert forall|i: int, j: int| 0 <= i < j < t.len() implies (#[trigger] t[i]).0 != (
            #[trigger] t[j]).0 by {
                if j < w.len() {
                    assert(t[i] == w[i] && t[j] == w[j]);
                } else {
                    assert(t[i] == w[i]);
                    assert(w[i] == (w[i].0, w[i].1));
                    assert(has(w, w[i].0, w[i].1));
                    assert(has(p, w[i].0, w[i].1));
                    let x = choose|x: int| 0 <= x < p.len() && #[trigger] p[x] == (w[i].0, w[i].1);
                    assert(s[x] == p[x]);
                    assert(s[x].0 != s[s.len() - 1].0);
                }
            }
        }
    } else {
        assert(without_file(s, file_id) =~= s);
    }
}

/// Every block counts for its overhead at least.
pub open spec fn weighs(s: Seq<Held>) -> bool {
    forall|i: int| 0 <= i < s.len() ==> (#[trigger] s[i]).1.charge >= ENTRY_OVERHEAD
}

proof fn lemma_lighter(s: Seq<Held>, t: Seq<Held>)
    requires
        weighs(s),
        forall|k: CacheKey, v: CachedBlock| #[trigger] has(t, k, v) ==> has(s, k, v),
    ensures
        weighs(t),
{
    assert forall|i: int| 0 <= i < t.len() implies (#[trigger] t[i]).1.charge >= ENTRY_OVERHEAD by {
        assert(t[i] == (t[i].0, t[i].1));
        assert(has(t, t[i].0, t[i].1));
        let j = choose|j: int| 0 <= j < s.len() && #[trigger] s[j] == (t[i].0, t[i].1);
        assert(s[j].1.charge >= ENTRY_OVERHEAD);
    }
}

proof fn lemma_front_weighs(k: CacheKey, v: CachedBlock, s: Seq<Held>)
    requires
        weighs(s),
        v.charge >= ENTRY_OVERHEAD,
    ensures
        weighs(seq![(k, v)] + s),
{
    let t = seq![(k, v)] + s;
    assert forall|i: int| 0 <= i < t.len() implies (#[trigger] t[i]).1.charge >= ENTRY_OVERHEAD by {
        if i > 0 {
            assert(t[i] == s[i - 1]);
        }
    }
}

proof fn lemma_len_charge(s: Seq<Held>)
    requires
        weighs(s),
    ensures
        s.len() * ENTRY_OVERHEAD <= charges(s),
    decreases s.len(),
{
    if s.len() > 0 {
        let p = s.drop_last();
        assert forall|i: int| 0 <= i < p.len() implies (#[trigger] p[i]).1.charge >= ENTRY_OVERHEAD by {
            assert(p[i] == s[i]);
        }
        lemma_len_charge(p);
        assert(s[s.len() - 1].1.charge >= ENTRY_OVERHEAD);
    }
}

proof fn lemma_absent(s: Seq<Held>, k: CacheKey)
    requires
        forall|w: CachedBlock| !(#[trigger] has(s, k, w)),
    ensures
        without(s, k) == s,
    decreases s.len(),
{
    if s.len() > 0 {
        let p = s.drop_last();
        assert(s =~= p.push(s.last()));
        assert forall|w: CachedBlock| !(#[trigger] has(p, k, w)) by {
            lemma_push_has(p, s.last(), k, w);
            assert(!(has(s, k, w)));
        }
        lemma_absent(p, k);
        assert(s.last() == (s.last().0, s.last().1));
        lemma_push_has(p, s.last(), s.last().0, s.last().1);
        assert(has(s, s.last().0, s.last().1));
    }
}

/// Taking out a key takes out the place where it stands.
proof fn lemma_without_at(s: Seq<Held>, i: int)
    requires
        distinct(s),
        0 <= i < s.len(),
    ensures
        without(s, s[i].0) == s.remove(i),
        lookup(s, s[i].0) == Some(s[i].1),
    decreases s.len(),
{
    let k = s[i].0;
    let p = s.drop_last();
    lemma_lookup(s, k);
    assert(s[i] == (k, s[i].1));
    assert(has(s, k, s[i].1));
    assert forall|x: int, y: int| 0 <= x < y < p.len() implies (#[trigger] p[x]).0 != (
    #[trigger] p[y]).0 by {
        assert(p[x] == s[x] && p[y] == s[y]);
    }
    if i == s.len() - 1 {
        assert forall|w: CachedBlock| !(#[trigger] has(p, k, w)) by {
            if has(p, k, w) {
                let x = choose|x: int| 0 <= x < p.len() && #[trigger] p[x] == (k, w);
                assert(s[x] == p[x]);
                assert(s[x].0 != s[i].0);
            }
        }
        lemma_absent(p, k);
        assert(s.remove(i) =~= p);
    } else {
        assert(p[i] == s[i]);
        lemma_without_at(p, i);
        assert(s[i].0 != s[s.len() - 1].0);
        assert(s.remove(i) =~= p.remove(i).push(s.last()));
    }
}

// ── A shard ──────────────────────────────────────────────────────

/// One shard: its blocks, its share of the budget, and the bytes in use.
pub struct CacheShard {
    lru: RecencyList,
    capacity: usize,
    used: usize,
}

impl CacheShard {
    /// The blocks, the most recently used first.
    pub closed spec fn held(&self) -> Seq<Held> {
        recent(self.lru)
    }

    /// The share of the budget.
    pub closed spec fn share(&self) -> usize {
        self.capacity
    }

    /// The bytes in use are counted, and no key occurs twice.
    pub closed spec fn wf(&self) -> bool {
        &&& distinct(recent(self.lru))
        &&& weighs(recent(self.lru))
        &&& self.used == charges(recent(self.lru))
    }

    /// The bytes in use are those of the blocks.
    pub proof fn lemma_wf(&self)
        requires
            self.wf(),
        ensures
            distinct(self.held()),
            charges(self.held()) <= usize::MAX,
    {
    }

    fn new(capacity: usize) -> (r: Self)
        ensures
            r.wf(),
            r.held() == Seq::<Held>::empty(),
            r.share() == capacity,
    {
        CacheShard { lru: list_new(), capacity, used: 0 }
    }

    fn used(&self) -> (r: usize)
        requires
            self.wf(),
        ensures
            r == charges(self.held()),
    {
        self.used
    }

    /// Put a block in front, in place of one with the same key, and drop the
    /// least recently used blocks until all is within the share.
    fn insert_within_share(&mut self, key: CacheKey, block: &Arc<Block>, size: usize)
        requires
            old(self).wf(),
            ENTRY_OVERHEAD <= size <= old(self).share(),
        ensures
            final(self).wf(),
            final(self).share() == old(self).share(),
            final(self).held() == with_block(
                old(self).held(),
                key,
                CachedBlock { block: *block, charge: size },
                old(self).share() as int,
            ),
            charges(final(self).held()) <= final(self).share(),
    {
        let ghost s0 = recent(self.lru);
        proof {
            lemma_without(s0, key);
            lemma_lighter(s0, without(s0, key));
        }
        match list_pop(&mut self.lru, key) {
            Some(old_block) => {
                self.used = self.used - old_block.charge;
            },
            None => {},
        }
        let ghost s1 = recent(self.lru);
        let room: usize = self.capacity - size;
        proof {
            lemma_kept(s1, room as int);
        }
        while self.used > room
            invariant
                distinct(recent(self.lru)),
                weighs(recent(self.lru)),
                self.used == charges(recent(self.lru)),
                self.capacity == old(self).capacity,
                kept(recent(self.lru), room as int) == kept(s1, room as int),
            decreases recent(self.lru).len(),
        {
            let ghost s = recent(self.lru);
            assert(s.len() > 0);
            match list_pop_last(&mut self.lru) {
                Some((_, evicted)) => {
                    proof {
                        let p = s.drop_last();
                        assert forall|i: int, j: int| 0 <= i < j < p.len() implies (
                        #[trigger] p[i]).0 != (#[trigger] p[j]).0 by {
                            assert(p[i] == s[i] && p[j] == s[j]);
                        }
                        assert forall|i: int| 0 <= i < p.len() implies (
                        #[trigger] p[i]).1.charge >= ENTRY_OVERHEAD by {
                            assert(p[i] == s[i]);
                        }
                    }
                    self.used = self.used - evicted.charge;
                },
                None => {
                    assert(false);
                },
            }
        }
        let ghost s2 = recent(self.lru);
        let entry = CachedBlock { block: share(block), charge: size };
        proof {
            assert(s2 == kept(s1, room as int));
            assert forall|w: CachedBlock| !(#[trigger] has(s2, key, w)) by {
                if has(s2, key, w) {
                    assert(has(s1, key, w));
                    assert(has(without(s0, key), key, w));
                }
            }
            lemma_absent(s2, key);
            lemma_charges_front((key, entry), s2);
            lemma_front_distinct(key, entry, s2);
            lemma_len_charge(s2);
        }
        self.used = self.used + size;
        list_put(&mut self.lru, key, entry);
        proof {
            lemma_front_weighs(key, entry, s2);
        }
    }

    /// Replace everything with one block, which may be larger than the share.
    fn replace_all_with(&mut self, key: CacheKey, block: &Arc<Block>, size: usize)
        requires
            old(self).wf(),
            size >= ENTRY_OVERHEAD,
        ensures
            final(self).wf(),
            final(self).share() == old(self).share(),
            final(self).held() == seq![(key, CachedBlock { block: *block, charge: size })],
    {
        list_clear(&mut self.lru);
        let entry = CachedBlock { block: share(block), charge: size };
        let ghost none = recent(self.lru);
        list_put(&mut self.lru, key, entry);
        self.used = size;
        proof {
            assert(without(none, key) =~= none);
            assert(seq![(key, entry)] + none =~= seq![(key, entry)]);
            lemma_charges_front((key, entry), none);
            lemma_front_weighs(key, entry, none);
        }
    }

    /// Find a block and move it to the front.
    fn get(&mut self, key: CacheKey) -> (r: Option<Arc<Block>>)
        requires
            old(self).wf(),
        ensures
            final(self).wf(),
            final(self).share() == old(self).share(),
            match lookup(old(self).held(), key) {
                Some(v) => r == Some(v.block) && final(self).held() == seq![(key, v)] + without(
                    old(self).held(),
                    key,
                ),
                None => r is None && final(self).held() == old(self).held(),
            },
            charges(final(self).held()) == charges(old(self).held()),
    {
        let ghost s0 = recent(self.lru);
        proof {
            if lookup(s0, key) is Some {
                let v = lookup(s0, key)->0;
                lemma_to_front(s0, key, v);
                lemma_lighter(s0, seq![(key, v)] + without(s0, key));
            }
        }
        match list_get(&mut self.lru, key) {
            Some(entry) => Some(share(&entry.block)),
            None => None,
        }
    }

    /// Drop the blocks of a table.
    fn evict_file(&mut self, file_id: u64)
        requires
            old(self).wf(),
        ensures
            final(self).wf(),
            final(self).share() == old(self).share(),
            final(self).held() == without_file(old(self).held(), file_id),
            charges(final(self).held()) <= charges(old(self).held()),
    {
        let ghost s0 = recent(self.lru);
        let keys = list_keys(&self.lru);
        let n: usize = keys.len();
        let mut i: usize = 0;
        proof {
            lemma_without_file(s0, file_id);
            assert(s0.take(0) =~= Seq::<Held>::empty());
            assert(s0.skip(0) =~= s0);
            assert(without_file(s0.take(0), file_id) + s0.skip(0) =~= s0);
        }
        while i < n
            invariant
                i <= n == keys@.len() == s0.len(),
                keys@ == s0.map_values(|h: Held| h.0),
                distinct(s0),
                distinct(recent(self.lru)),
                weighs(recent(self.lru)),
                self.used == charges(recent(self.lru)),
                self.capacity == old(self).capacity,
                recent(self.lru) == without_file(s0.take(i as int), file_id) + s0.skip(i as int),
            decreases n - i,
        {
            let ghost s = recent(self.lru);
            let ghost head = without_file(s0.take(i as int), file_id);
            let ghost tail = s0.skip(i as int);
            let key = keys[i];
            proof {
                assert(key == s0[i as int].0);
                assert(s0.take(i + 1).drop_last() =~= s0.take(i as int));
                assert(s0.take(i + 1).last() == s0[i as int]);
                assert(tail =~= seq![s0[i as int]] + s0.skip(i + 1));
            }
            if key.0 == file_id {
                proof {
                    lemma_without(s, key);
                    lemma_without_at(s, head.len() as int);
                    assert(s[head.len() as int] == s0[i as int]);
                    assert(s.remove(head.len() as int) =~= head + s0.skip(i + 1));
                    lemma_lighter(s, without(s, key));
                }
                match list_pop(&mut self.lru, key) {
                    Some(block) => {
                        self.used = self.used - block.charge;
                    },
                    None => {},
                }
            } else {
                assert(head.push(s0[i as int]) + s0.skip(i + 1) =~= s);
            }
            i += 1;
        }
        proof {
            assert(s0.take(i as int) =~= s0);
            assert(without_file(s0, file_id) + s0.skip(i as int) =~= without_file(s0, file_id));
        }
    }

    fn clear(&mut self)
        ensures
            final(self).wf(),
            final(self).share() == old(self).share(),
            final(self).held() == Seq::<Held>::empty(),
    {
        list_clear(&mut self.lru);
        self.used = 0;
    }

    fn len(&self) -> (r: usize)
        ensures
            r == self.held().len(),
    {
        list_len(&self.lru)
    }
}

// ── The shards together ──────────────────────────────────────────

/// The shard of a key, where the mask has a bit for each that counts.
pub open spec fn shard_of(k: CacheKey, mask: u64) -> int {
    (xxh3_hash64(le64(k.0) + le64(k.1)) & mask) as int
}

/// The bytes that the blocks of all shards count for.
pub open spec fn total(h: Seq<Seq<Held>>) -> nat
    decreases h.len(),
{
    if h.len() == 0 {
        0
    } else {
        total(h.drop_last()) + charges(h.last())
    }
}

/// The shards once the first `n` have been asked to make room: one that holds
/// more than its share is emptied while the cache holds too much.
pub open spec fn relieved(h: Seq<Seq<Held>>, share: int, capacity: int, n: nat) -> Seq<Seq<Held>>
    decreases n,
{
    if n == 0 {
        h
    } else {
        let g = relieved(h, share, capacity, (n - 1) as nat);
        if total(g) > capacity && charges(g[n - 1]) > share {
            g.update(n - 1, Seq::empty())
        } else {
            g
        }
    }
}

/// The shards after a block was offered to shard `i`, or `None` where it is
/// refused.
pub open spec fn offered(
    h: Seq<Seq<Held>>,
    i: int,
    k: CacheKey,
    v: CachedBlock,
    share: int,
    capacity: int,
    strict: bool,
) -> Option<Seq<Seq<Held>>> {
    if v.charge <= share {
        Some(relieved(h.update(i, with_block(h[i], k, v, share)), share, capacity, h.len()))
    } else if strict || total(h) - charges(h[i]) + v.charge > capacity {
        None
    } else {
        Some(h.update(i, seq![(k, v)]))
    }
}

/// How many shards a cache has: as many as asked for, halved until a share is
/// no smaller than [`MIN_SHARD_CAPACITY`] or one shard is left.
pub open spec fn shard_count(capacity: int, asked: int) -> int
    decreases asked,
{
    if asked > 1 && capacity / asked < MIN_SHARD_CAPACITY {
        shard_count(capacity, asked / 2)
    } else {
        asked
    }
}

proof fn lemma_total_update(h: Seq<Seq<Held>>, i: int, s: Seq<Held>)
    requires
        0 <= i < h.len(),
    ensures
        total(h.update(i, s)) == total(h) - charges(h[i]) + charges(s),
    decreases h.len(),
{
    let g = h.update(i, s);
    if i == h.len() - 1 {
        assert(g.drop_last() =~= h.drop_last());
    } else {
        assert(g.drop_last() =~= h.drop_last().update(i, s));
        assert(g.last() == h.last());
        lemma_total_update(h.drop_last(), i, s);
    }
}

proof fn lemma_total_part(h: Seq<Seq<Held>>, i: int)
    requires
        0 <= i < h.len(),
    ensures
        charges(h[i]) <= total(h),
    decreases h.len(),
{
    if i < h.len() - 1 {
        lemma_total_part(h.drop_last(), i);
    }
}

proof fn lemma_total_shares(h: Seq<Seq<Held>>, share: int)
    requires
        forall|i: int| 0 <= i < h.len() ==> charges(#[trigger] h[i]) <= share,
    ensures
        total(h) <= share * h.len(),
    decreases h.len(),
{
    if h.len() > 0 {
        let p = h.drop_last();
        assert forall|i: int| 0 <= i < p.len() implies charges(#[trigger] p[i]) <= share by {
            assert(p[i] == h[i]);
        }
        lemma_total_shares(p, share);
        assert(charges(h[h.len() - 1]) <= share);
        assert(share * h.len() == share * p.len() + share) by (nonlinear_arith)
            requires
                h.len() == p.len() + 1,
        ;
    }
}

proof fn lemma_total_empty(h: Seq<Seq<Held>>)
    requires
        forall|i: int| 0 <= i < h.len() ==> (#[trigger] h[i]).len() == 0,
    ensures
        total(h) == 0,
    decreases h.len(),
{
    if h.len() > 0 {
        let p = h.drop_last();
        assert forall|i: int| 0 <= i < p.len() implies (#[trigger] p[i]).len() == 0 by {
            assert(p[i] == h[i]);
        }
        lemma_total_empty(p);
        assert(h[h.len() - 1].len() == 0);
    }
}

proof fn lemma_relieved(h: Seq<Seq<Held>>, share: int, capacity: int, n: nat)
    requires
        n <= h.len(),
    ensures
        relieved(h, share, capacity, n).len() == h.len(),
        total(relieved(h, share, capacity, n)) <= total(h),
        forall|j: int|
            0 <= j < h.len() ==> {
                ||| #[trigger] relieved(h, share, capacity, n)[j] == h[j]
                ||| relieved(h, share, capacity, n)[j] == Seq::<Held>::empty() && charges(h[j])
                    > share
            },
        forall|j: int|
            n <= j < h.len() ==> #[trigger] relieved(h, share, capacity, n)[j] == h[j],
        share >= 0 && total(relieved(h, share, capacity, n)) > capacity ==> forall|j: int|
            0 <= j < n ==> charges(#[trigger] relieved(h, share, capacity, n)[j]) <= share,
        total(h) <= capacity ==> relieved(h, share, capacity, n) == h,
    decreases n,
{
    if n > 0 {
        let m = (n - 1) as nat;
        lemma_relieved(h, share, capacity, m);
        let g = relieved(h, share, capacity, m);
        if total(g) > capacity && charges(g[n - 1]) > share {
            lemma_total_update(g, n - 1, Seq::empty());
            assert(charges(Seq::<Held>::empty()) == 0);
        }
    }
}

/// Once every shard has been asked, the cache is within its budget.
proof fn lemma_relieved_fits(h: Seq<Seq<Held>>, share: int, capacity: int)
    requires
        share >= 0,
        capacity == share * h.len(),
    ensures
        total(relieved(h, share, capacity, h.len())) <= capacity,
{
    let g = relieved(h, share, capacity, h.len());
    lemma_relieved(h, share, capacity, h.len());
    if total(g) > capacity {
        lemma_total_shares(g, share);
    }
}

/// The cache.
pub struct BlockCache {
    shards: Vec<CacheShard>,
    capacity: usize,
    shard_mask: u64,
    total_used: usize,
    strict: bool,
}

/// A charge that a block may have.
pub open spec fn charge_of(block: &Block, charge: usize) -> bool {
    &&& charge >= ENTRY_OVERHEAD
    &&& charge >= ENTRY_OVERHEAD + block.bytes().len() + 4 * block.restarts().len() || charge
        == usize::MAX
}

impl BlockCache {
    /// What each shard holds, the most recently used block first.
    pub closed spec fn held(&self) -> Seq<Seq<Held>> {
        Seq::new(self.shards@.len(), |i: int| self.shards@[i].held())
    }

    /// Each shard's share of the budget.
    pub closed spec fn share(&self) -> int {
        if self.shards@.len() == 0 {
            0
        } else {
            self.capacity as int / self.shards@.len() as int
        }
    }

    pub closed spec fn budget(&self) -> int {
        self.capacity as int
    }

    pub closed spec fn is_strict(&self) -> bool {
        self.strict
    }

    pub closed spec fn mask(&self) -> u64 {
        self.shard_mask
    }

    /// The shard that a key belongs to.
    pub open spec fn shard_at(&self, k: CacheKey) -> int {
        shard_of(k, self.mask())
    }

    /// The block under a key.
    pub open spec fn finds(&self, k: CacheKey) -> Option<CachedBlock> {
        lookup(self.held()[self.shard_at(k)], k)
    }

    /// What the shards hold after a block was offered: what they held where it
    /// is refused.
    pub open spec fn after_offer(&self, k: CacheKey, v: CachedBlock) -> Seq<Seq<Held>> {
        match offered(
            self.held(),
            self.shard_at(k),
            k,
            v,
            self.share(),
            self.budget(),
            self.is_strict(),
        ) {
            Some(g) => g,
            None => self.held(),
        }
    }

    /// What a lookup of a key gives.
    pub open spec fn answer(&self, k: CacheKey) -> Option<Arc<Block>> {
        if self.held().len() == 0 {
            None
        } else {
            match self.finds(k) {
                Some(v) => Some(v.block),
                None => None,
            }
        }
    }

    /// The shards split the budget evenly and hold no more than it together;
    /// no key occurs twice, and each stands in its shard.
    pub closed spec fn wf(&self) -> bool {
        &&& forall|i: int|
            0 <= i < self.shards@.len() ==> (#[trigger] self.shards@[i]).wf()
                && self.shards@[i].share() == self.share()
        &&& self.capacity == self.share() * self.shards@.len()
        &&& self.total_used == total(self.held())
        &&& self.total_used <= self.capacity
        &&& self.shards@.len() > 0 ==> self.shards@.len() == self.shard_mask + 1
        &&& self.shards@.len() <= 256
        &&& placed(self.held(), self.shard_mask)
    }

    /// What holds of every cache: it is within its budget, no key occurs twice,
    /// and a key that occurs stands in its shard.
    pub proof fn lemma_wf(&self)
        requires
            self.wf(),
        ensures
            total(self.held()) <= self.budget() <= usize::MAX,
            self.budget() == self.share() * self.held().len(),
            self.share() >= 0,
            self.held().len() <= 256,
            self.held().len() > 0 ==> self.held().len() == self.mask() + 1,
            forall|i: int| 0 <= i < self.held().len() ==> distinct(#[trigger] self.held()[i]),
            placed(self.held(), self.mask()),
            forall|k: CacheKey| self.held().len() > 0 ==> 0 <= #[trigger] self.shard_at(k)
                < self.held().len(),
    {
        assert forall|i: int| 0 <= i < self.held().len() implies distinct(
            #[trigger] self.held()[i],
        ) by {
            assert(self.shards@[i].wf());
            self.shards@[i].lemma_wf();
        }
        if self.shards@.len() > 0 {
            assert(self.shards@[0].wf());
        }
        assert forall|k: CacheKey| self.held().len() > 0 implies 0 <= #[trigger] self.shard_at(k)
            < self.held().len() by {
            lemma_masked(xxh3_hash64(le64(k.0) + le64(k.1)), self.shard_mask);
        }
    }
}

/// A call that may change what a cache holds.
pub enum CacheCall {
    Insert { key: CacheKey, block: Arc<Block> },
    Get { key: CacheKey },
    EvictFile { file_id: u64 },
    Clear,
}

/// The block was offered with a charge that it may have.
pub open spec fn offer_made(c0: BlockCache, c1: BlockCache, k: CacheKey, block: Arc<Block>) -> bool {
    exists|size: usize| #[trigger]
        charge_of(&*block, size) && c1.held() == c0.after_offer(
            k,
            CachedBlock { block, charge: size },
        )
}

/// What a call does to a cache.
pub open spec fn did(c0: BlockCache, c1: BlockCache, call: CacheCall) -> bool {
    &&& c1.wf()
    &&& c1.budget() == c0.budget()
    &&& c1.share() == c0.share()
    &&& c1.mask() == c0.mask()
    &&& c1.is_strict() == c0.is_strict()
    &&& match call {
        CacheCall::Insert { key, block } => if c0.held().len() > 0 {
            offer_made(c0, c1, key, block)
        } else {
            c1.held() == c0.held()
        },
        CacheCall::Get { key } => if c0.held().len() > 0 && c0.finds(key) is Some {
            c1.held() == c0.held().update(
                c0.shard_at(key),
                seq![(key, c0.finds(key)->0)] + without(c0.held()[c0.shard_at(key)], key),
            )
        } else {
            c1.held() == c0.held()
        },
        CacheCall::EvictFile { file_id } => c1.held() == c0.held().map_values(
            |s: Seq<Held>| without_file(s, file_id),
        ),
        CacheCall::Clear => c1.held() == c0.held().map_values(|s: Seq<Held>| Seq::<Held>::empty()),
    }
}

/// Every key stands in its shard.
pub open spec fn placed(h: Seq<Seq<Held>>, mask: u64) -> bool {
    forall|i: int, k: CacheKey, v: CachedBlock|
        0 <= i < h.len() && #[trigger] has(h[i], k, v) ==> shard_of(k, mask) == i
}

proof fn lemma_masked(x: u64, mask: u64)
    ensures
        x & mask <= mask,
{
    assert(x & mask <= mask) by (bit_vector);
}

/// A block that fits its shard's share leaves the cache within its budget, and
/// every key in its shard.
proof fn lemma_offered(
    h: Seq<Seq<Held>>,
    i: int,
    k: CacheKey,
    v: CachedBlock,
    share: int,
    capacity: int,
    strict: bool,
    mask: u64,
)
    requires
        0 <= i < h.len(),
        shard_of(k, mask) == i,
        placed(h, mask),
        forall|j: int| 0 <= j < h.len() ==> distinct(#[trigger] h[j]),
        share >= 0,
        capacity == share * h.len(),
        total(h) <= capacity,
    ensures
        match offered(h, i, k, v, share, capacity, strict) {
            Some(g) => {
                &&& g.len() == h.len()
                &&& total(g) <= capacity
                &&& placed(g, mask)
                &&& distinct(g[i])
                &&& has(g[i], k, v)
            },
            None => true,
        },
{
    if offered(h, i, k, v, share, capacity, strict) is Some {
        let g = offered(h, i, k, v, share, capacity, strict)->0;
        if v.charge <= share {
            let w = with_block(h[i], k, v, share);
            let base = without(h[i], k);
            lemma_without(h[i], k);
            lemma_kept(base, share - v.charge);
            let rest = kept(base, share - v.charge);
            lemma_charges_front((k, v), rest);
            assert forall|x: CachedBlock| !(#[trigger] has(rest, k, x)) by {
                if has(rest, k, x) {
                    assert(has(base, k, x));
                }
            }
            lemma_front_distinct(k, v, rest);
            lemma_front_has((k, v), rest, k, v);
            let u = h.update(i, w);
            lemma_relieved(u, share, capacity, h.len());
            lemma_relieved_fits(u, share, capacity);
            assert(g[i] == u[i]);
            assert forall|j: int, q: CacheKey, x: CachedBlock|
                0 <= j < g.len() && #[trigger] has(g[j], q, x) implies shard_of(q, mask) == j by {
                assert(g[j] == u[j] || g[j] == Seq::<Held>::empty());
                if g[j].len() > 0 {
                    if j == i {
                        lemma_front_has((k, v), rest, q, x);
                        if has(rest, q, x) {
                            assert(has(base, q, x));
                            assert(has(h[i], q, x));
                        }
                    } else {
                        assert(has(h[j], q, x));
                    }
                }
            }
        } else {
            let one = seq![(k, v)];
            assert(one =~= seq![(k, v)] + Seq::<Held>::empty());
            lemma_charges_front((k, v), Seq::empty());
            assert(charges(Seq::<Held>::empty()) == 0);
            lemma_total_update(h, i, one);
            assert(one[0] == (k, v));
            assert(has(one, k, v));
            assert forall|j: int, q: CacheKey, x: CachedBlock|
                0 <= j < g.len() && #[trigger] has(g[j], q, x) implies shard_of(q, mask) == j by {
                if j != i {
                    assert(has(h[j], q, x));
                } else {
                    let y = choose|y: int| 0 <= y < one.len() && #[trigger] one[y] == (q, x);
                    assert(one[y] == (k, v));
                }
            }
        }
    }
}

impl BlockCache {
    /// A cache with a budget, split among `2^shard_bits` shards.
    pub fn with_config(capacity_bytes: usize, shard_bits: u32, strict: bool) -> (r: Self)
        ensures
            r.wf(),
            r.is_strict() == strict,
            capacity_bytes == 0 ==> r.held().len() == 0 && r.budget() == 0,
            capacity_bytes > 0 ==> {
                let n = shard_count(
                    capacity_bytes as int,
                    pow2(if shard_bits < MAX_SHARD_BITS { shard_bits as nat } else { MAX_SHARD_BITS as nat }) as int,
                );
                &&& r.held().len() == n
                &&& r.share() == capacity_bytes as int / n
                &&& r.budget() == (capacity_bytes as int / n) * n
            },
            r.budget() <= capacity_bytes,
            forall|i: int|
                0 <= i < r.held().len() ==> #[trigger] r.held()[i] == Seq::<Held>::empty(),
            total(r.held()) == 0,
    {
        if capacity_bytes == 0 {
            return BlockCache {
                shards: Vec::new(),
                capacity: 0,
                shard_mask: 0,
                total_used: 0,
                strict,
            };
        }
        let bits: u32 = if shard_bits < MAX_SHARD_BITS {
            shard_bits
        } else {
            MAX_SHARD_BITS
        };
        let mut n: usize = 1;
        let mut b: u32 = 0;
        proof {
            lemma2_to64();
        }
        while b < bits
            invariant
                b <= bits <= 8,
                n == pow2(b as nat),
                n <= 256,
            decreases bits - b,
        {
            proof {
                lemma2_to64();
                lemma_pow2_unfold((b + 1) as nat);
                if b + 1 < 8 {
                    lemma_pow2_strictly_increases((b + 1) as nat, 8);
                }
            }
            n = n * 2;
            b += 1;
        }
        let ghost asked = n as int;
        while n > 1 && capacity_bytes / n < MIN_SHARD_CAPACITY
            invariant
                1 <= n <= 256,
                shard_count(capacity_bytes as int, asked) == shard_count(
                    capacity_bytes as int,
                    n as int,
                ),
            decreases n,
        {
            n = n / 2;
        }
        let per_shard: usize = capacity_bytes / n;
        let ghost cap = capacity_bytes as int;
        proof {
            assert(per_shard * n <= cap) by (nonlinear_arith)
                requires
                    n >= 1,
                    per_shard as int == cap / n as int,
            ;
        }
        let mut shards: Vec<CacheShard> = Vec::new();
        let mut i: usize = 0;
        while i < n
            invariant
                i <= n,
                shards@.len() == i,
                forall|j: int|
                    0 <= j < i ==> (#[trigger] shards@[j]).wf() && shards@[j].share() == per_shard
                        && shards@[j].held() == Seq::<Held>::empty(),
            decreases n - i,
        {
            shards.push(CacheShard::new(per_shard));
            i += 1;
        }
        let r = BlockCache {
            shards,
            capacity: per_shard * n,
            shard_mask: (n - 1) as u64,
            total_used: 0,
            strict,
        };
        proof {
            assert((per_shard * n) / n as int == per_shard) by (nonlinear_arith)
                requires
                    n >= 1,
            ;
            lemma_total_empty(r.held());
        }
        r
    }

    /// A cache with the usual 64 shards that takes large blocks.
    pub fn new(capacity_bytes: usize) -> (r: Self)
        ensures
            r.wf(),
            !r.is_strict(),
            capacity_bytes == 0 ==> r.held().len() == 0 && r.budget() == 0,
            capacity_bytes > 0 ==> {
                let n = shard_count(capacity_bytes as int, 64);
                &&& r.held().len() == n
                &&& r.share() == capacity_bytes as int / n
                &&& r.budget() == (capacity_bytes as int / n) * n
            },
            r.budget() <= capacity_bytes,
            forall|i: int|
                0 <= i < r.held().len() ==> #[trigger] r.held()[i] == Seq::<Held>::empty(),
            total(r.held()) == 0,
    {
        proof {
            lemma2_to64();
        }
        BlockCache::with_config(capacity_bytes, 6, false)
    }

    /// The shard that a key belongs to.
    pub fn shard_index(&self, key: CacheKey) -> (r: usize)
        requires
            self.wf(),
            self.held().len() > 0,
        ensures
            r == self.shard_at(key),
            r < self.held().len(),
    {
        let mut buf: Vec<u8> = Vec::new();
        put_le64(&mut buf, key.0);
        put_le64(&mut buf, key.1);
        let h: u64 = legacy_payload_u64(buf.as_slice());
        proof {
            assert(buf@ =~= le64(key.0) + le64(key.1));
            lemma_masked(h, self.shard_mask);
        }
        (h & self.shard_mask) as usize
    }

    /// The block of a table that starts at an offset; it becomes the most
    /// recently used of its shard.
    pub fn get(&mut self, file_id: u64, offset: u64) -> (r: Option<Arc<Block>>)
        requires
            old(self).wf(),
        ensures
            final(self).wf(),
            final(self).budget() == old(self).budget(),
            final(self).share() == old(self).share(),
            final(self).mask() == old(self).mask(),
            final(self).is_strict() == old(self).is_strict(),
            old(self).held().len() == 0 ==> r is None && final(self).held() == old(self).held(),
            old(self).held().len() > 0 ==> match old(self).finds((file_id, offset)) {
                Some(v) => r == Some(v.block) && final(self).held() == old(self).held().update(
                    old(self).shard_at((file_id, offset)),
                    seq![((file_id, offset), v)] + without(
                        old(self).held()[old(self).shard_at((file_id, offset))],
                        (file_id, offset),
                    ),
                ),
                None => r is None && final(self).held() == old(self).held(),
            },
            total(final(self).held()) == total(old(self).held()),
            forall|k: CacheKey| #[trigger] final(self).finds(k) == old(self).finds(k),
            r == old(self).answer((file_id, offset)),
            did(*old(self), *final(self), CacheCall::Get { key: (file_id, offset) }),
    {
        if self.shards.len() == 0 {
            return None;
        }
        let key: CacheKey = (file_id, offset);
        let i: usize = self.shard_index(key);
        let ghost h0 = self.held();
        proof {
            self.lemma_wf();
            assert(self.shards@[i as int].wf());
        }
        let r = self.shards[i].get(key);
        proof {
            let h1 = self.held();
            assert(h1 =~= h0.update(i as int, self.shards@[i as int].held()));
            lemma_total_update(h0, i as int, h1[i as int]);
            match lookup(h0[i as int], key) {
                Some(v) => {
                    lemma_to_front(h0[i as int], key, v);
                    assert forall|j: int, q: CacheKey, x: CachedBlock|
                        0 <= j < h1.len() && #[trigger] has(h1[j], q, x) implies shard_of(
                        q,
                        self.shard_mask,
                    ) == j by {
                        assert(has(h0[j], q, x));
                    }
                },
                None => {
                    assert(h1 =~= h0);
                },
            }
            assert forall|k: CacheKey| #[trigger] self.finds(k) == old(self).finds(k) by {
                let j = self.shard_at(k);
                lemma_masked(xxh3_hash64(le64(k.0) + le64(k.1)), self.shard_mask);
                if j == i && lookup(h0[i as int], key) is Some {
                    let v = lookup(h0[i as int], key)->0;
                    lemma_same_found(h0[j], h1[j], k);
                }
            }
        }
        r
    }
}

/// Where two shards hold the same, a key finds the same.
proof fn lemma_same_found(s: Seq<Held>, t: Seq<Held>, k: CacheKey)
    requires
        distinct(s),
        distinct(t),
        forall|j: CacheKey, w: CachedBlock| #[trigger] has(t, j, w) == has(s, j, w),
    ensures
        lookup(s, k) == lookup(t, k),
{
    lemma_lookup(s, k);
    lemma_lookup(t, k);
    if lookup(s, k) is Some {
        assert(has(s, k, lookup(s, k)->0));
        assert(has(t, k, lookup(s, k)->0));
    } else if lookup(t, k) is Some {
        assert(has(t, k, lookup(t, k)->0));
        assert(has(s, k, lookup(t, k)->0));
    }
}

impl BlockCache {
    /// Offer a block that counts for `size` bytes. The result says whether the
    /// cache took it.
    pub fn insert_sized(
        &mut self,
        file_id: u64,
        offset: u64,
        block: &Arc<Block>,
        size: usize,
    ) -> (r: bool)
        requires
            old(self).wf(),
            size >= ENTRY_OVERHEAD,
        ensures
            final(self).wf(),
            final(self).budget() == old(self).budget(),
            final(self).share() == old(self).share(),
            final(self).mask() == old(self).mask(),
            final(self).is_strict() == old(self).is_strict(),
            old(self).held().len() == 0 ==> !r && final(self).held() == old(self).held(),
            old(self).held().len() > 0 ==> match offered(
                old(self).held(),
                old(self).shard_at((file_id, offset)),
                (file_id, offset),
                CachedBlock { block: *block, charge: size },
                old(self).share(),
                old(self).budget(),
                old(self).is_strict(),
            ) {
                Some(g) => r && final(self).held() == g,
                None => !r && final(self).held() == old(self).held(),
            },
    {
        if self.shards.len() == 0 {
            return false;
        }
        let key: CacheKey = (file_id, offset);
        let i: usize = self.shard_index(key);
        let ghost h0 = self.held();
        let ghost v = CachedBlock { block: *block, charge: size };
        proof {
            self.lemma_wf();
            assert(self.shards@[i as int].wf());
            assert(h0[i as int] == self.shards@[i as int].held());
            lemma_total_part(h0, i as int);
            lemma_offered(
                h0,
                i as int,
                key,
                v,
                self.share(),
                self.budget(),
                self.strict,
                self.shard_mask,
            );
        }
        let before: usize = self.shards[i].used();
        if size <= self.shards[i].capacity {
            self.shards[i].insert_within_share(key, block, size);
            let after: usize = self.shards[i].used();
            let ghost h1 = self.held();
            let mut held: u128 = (self.total_used - before) as u128 + after as u128;
            proof {
                assert(h1 =~= h0.update(i as int, self.shards@[i as int].held()));
                lemma_total_update(h0, i as int, h1[i as int]);
            }
            let n: usize = self.shards.len();
            let mut j: usize = 0;
            while j < n
                invariant
                    j <= n == self.shards@.len() == h0.len() == h1.len(),
                    self.held() == relieved(h1, self.share(), self.budget(), j as nat),
                    held == total(self.held()),
                    self.share() == old(self).share() >= 0,
                    self.capacity == old(self).capacity,
                    self.shard_mask == old(self).shard_mask,
                    self.strict == old(self).strict,
                    n == self.shard_mask + 1,
                    n <= 256,
                    forall|x: int|
                        0 <= x < n ==> (#[trigger] self.shards@[x]).wf() && self.shards@[x].share()
                            == self.share(),
                decreases n - j,
            {
                let ghost g = self.held();
                proof {
                    assert(self.shards@[j as int].wf());
                    assert(g[j as int] == self.shards@[j as int].held());
                }
                if held > self.capacity as u128 && self.shards[j].used() > self.shards[j].capacity {
                    proof {
                        lemma_total_update(g, j as int, Seq::empty());
                        assert(charges(Seq::<Held>::empty()) == 0);
                        lemma_total_part(g, j as int);
                    }
                    held = held - self.shards[j].used() as u128;
                    self.shards[j].clear();
                    assert(self.held() =~= g.update(j as int, Seq::empty()));
                }
                j += 1;
            }
            self.total_used = held as usize;
            proof {
                assert(self.held() == offered(
                    h0,
                    i as int,
                    key,
                    v,
                    old(self).share(),
                    old(self).budget(),
                    old(self).strict,
                )->0);
            }
            true
        } else if self.strict || size > self.capacity || self.total_used - before > self.capacity
            - size {
            false
        } else {
            self.shards[i].replace_all_with(key, block, size);
            self.total_used = self.total_used - before + size;
            proof {
                let h1 = self.held();
                assert(h1 =~= h0.update(i as int, seq![(key, v)]));
                lemma_total_update(h0, i as int, h1[i as int]);
                assert(seq![(key, v)] =~= seq![(key, v)] + Seq::<Held>::empty());
                lemma_charges_front((key, v), Seq::empty());
                assert(charges(Seq::<Held>::empty()) == 0);
            }
            true
        }
    }

    /// Offer a block. The result says whether the cache took it.
    pub fn insert(&mut self, file_id: u64, offset: u64, block: Arc<Block>) -> (r: bool)
        requires
            old(self).wf(),
        ensures
            final(self).wf(),
            final(self).budget() == old(self).budget(),
            final(self).share() == old(self).share(),
            final(self).mask() == old(self).mask(),
            final(self).is_strict() == old(self).is_strict(),
            old(self).held().len() == 0 ==> !r && final(self).held() == old(self).held(),
            old(self).held().len() > 0 ==> exists|size: usize| #[trigger]
                charge_of(&*block, size) && match offered(
                    old(self).held(),
                    old(self).shard_at((file_id, offset)),
                    (file_id, offset),
                    CachedBlock { block, charge: size },
                    old(self).share(),
                    old(self).budget(),
                    old(self).is_strict(),
                ) {
                    Some(g) => r && final(self).held() == g,
                    None => !r && final(self).held() == old(self).held(),
                },
            did(*old(self), *final(self), CacheCall::Insert { key: (file_id, offset), block }),
    {
        let size: usize = entry_charge(&block);
        proof {
            assert(charge_of(&*block, size));
        }
        let r = self.insert_sized(file_id, offset, &block, size);
        proof {
            if old(self).held().len() > 0 {
                assert(charge_of(&*block, size) && self.held() == old(self).after_offer(
                    (file_id, offset),
                    CachedBlock { block, charge: size },
                ));
                assert(offer_made(*old(self), *self, (file_id, offset), block));
            }
        }
        r
    }

    /// Drop the blocks of a table.
    pub fn evict_file(&mut self, file_id: u64)
        requires
            old(self).wf(),
        ensures
            final(self).wf(),
            final(self).budget() == old(self).budget(),
            final(self).share() == old(self).share(),
            final(self).mask() == old(self).mask(),
            final(self).is_strict() == old(self).is_strict(),
            final(self).held() == old(self).held().map_values(
                |s: Seq<Held>| without_file(s, file_id),
            ),
            did(*old(self), *final(self), CacheCall::EvictFile { file_id }),
    {
        let n: usize = self.shards.len();
        let ghost h0 = self.held();
        proof {
            self.lemma_wf();
        }
        let mut j: usize = 0;
        while j < n
            invariant
                j <= n == self.shards@.len() == h0.len(),
                h0 == old(self).held(),
                forall|x: int|
                    0 <= x < j ==> #[trigger] self.shards@[x].held() == without_file(
                        h0[x],
                        file_id,
                    ),
                forall|x: int| j <= x < n ==> #[trigger] self.shards@[x].held() == h0[x],
                forall|x: int| 0 <= x < n ==> distinct(#[trigger] h0[x]),
                forall|x: int|
                    0 <= x < n ==> (#[trigger] self.shards@[x]).wf() && self.shards@[x].share()
                        == self.share(),
                self.total_used == total(self.held()) <= self.capacity,
                self.share() == old(self).share(),
                self.capacity == old(self).capacity,
                self.shard_mask == old(self).shard_mask,
                self.strict == old(self).strict,
            decreases n - j,
        {
            let ghost g = self.held();
            proof {
                assert(self.shards@[j as int].wf());
                assert(g[j as int] == self.shards@[j as int].held());
                lemma_total_part(g, j as int);
                lemma_without_file(h0[j as int], file_id);
            }
            let before: usize = self.shards[j].used();
            self.shards[j].evict_file(file_id);
            let after: usize = self.shards[j].used();
            proof {
                assert(self.held() =~= g.update(j as int, self.shards@[j as int].held()));
                lemma_total_update(g, j as int, self.shards@[j as int].held());
            }
            self.total_used = self.total_used - (before - after);
            j += 1;
        }
        proof {
            let h1 = self.held();
            assert(h1 =~= h0.map_values(|s: Seq<Held>| without_file(s, file_id)));
            assert forall|x: int, q: CacheKey, w: CachedBlock|
                0 <= x < h1.len() && #[trigger] has(h1[x], q, w) implies shard_of(
                q,
                self.shard_mask,
            ) == x by {
                lemma_without_file(h0[x], file_id);
                assert(has(h0[x], q, w));
            }
        }
    }

    /// Drop everything.
    pub fn clear(&mut self)
        requires
            old(self).wf(),
        ensures
            final(self).wf(),
            final(self).budget() == old(self).budget(),
            final(self).share() == old(self).share(),
            final(self).mask() == old(self).mask(),
            final(self).is_strict() == old(self).is_strict(),
            final(self).held() == old(self).held().map_values(
                |s: Seq<Held>| Seq::<Held>::empty(),
            ),
            total(final(self).held()) == 0,
            did(*old(self), *final(self), CacheCall::Clear),
    {
        let n: usize = self.shards.len();
        let mut j: usize = 0;
        while j < n
            invariant
                j <= n == self.shards@.len() == old(self).shards@.len(),
                forall|x: int|
                    0 <= x < j ==> #[trigger] self.shards@[x].held() == Seq::<Held>::empty(),
                forall|x: int|
                    0 <= x < n ==> (#[trigger] self.shards@[x]).wf() && self.shards@[x].share()
                        == self.share(),
                self.share() == old(self).share(),
                self.capacity == old(self).capacity,
                self.shard_mask == old(self).shard_mask,
                self.strict == old(self).strict,
            decreases n - j,
        {
            assert(self.shards@[j as int].wf());
            self.shards[j].clear();
            j += 1;
        }
        self.total_used = 0;
        proof {
            lemma_total_empty(self.held());
            assert(self.held() =~= old(self).held().map_values(
                |s: Seq<Held>| Seq::<Held>::empty(),
            ));
        }
    }

    /// Bytes that the blocks count for.
    pub fn usage(&self) -> (r: usize)
        requires
            self.wf(),
        ensures
            r == total(self.held()),
    {
        self.total_used
    }

    /// The budget: the shares of all shards together.
    pub fn capacity(&self) -> (r: usize)
        ensures
            r == self.budget(),
    {
        self.capacity
    }

    pub fn num_shards(&self) -> (r: usize)
        ensures
            r == self.held().len(),
    {
        self.shards.len()
    }

    /// How many shards hold a block.
    pub fn populated_shards(&self) -> (r: usize)
        requires
            self.wf(),
        ensures
            r == self.held().filter(|s: Seq<Held>| s.len() > 0).len(),
    {
        let n: usize = self.shards.len();
        let mut found: usize = 0;
        let mut j: usize = 0;
        let ghost h = self.held();
        let ghost full = |s: Seq<Held>| s.len() > 0;
        proof {
            assert(h.take(0) =~= Seq::<Seq<Held>>::empty());
            reveal(Seq::filter);
        }
        while j < n
            invariant
                j <= n == h.len(),
                n == self.shards@.len(),
                h == self.held(),
                found <= j,
                full == (|s: Seq<Held>| s.len() > 0),
                found == h.take(j as int).filter(full).len(),
            decreases n - j,
        {
            proof {
                reveal(Seq::filter);
                assert(h.take(j + 1).drop_last() =~= h.take(j as int));
                assert(h.take(j + 1).last() == h[j as int]);
            }
            if self.shards[j].len() > 0 {
                found += 1;
            }
            j += 1;
        }
        proof {
            assert(h.take(j as int) =~= h);
        }
        found
    }

    /// How many blocks the cache holds.
    pub fn entry_count(&self) -> (r: usize)
        requires
            self.wf(),
        ensures
            r == self.held().flatten().len(),
    {
        let n: usize = self.shards.len();
        let mut found: usize = 0;
        let mut j: usize = 0;
        let ghost h = self.held();
        proof {
            assert(h.take(0) =~= Seq::<Seq<Held>>::empty());
            assert(h.take(0).flatten().len() == 0);
            assert(total(h.take(0)) == 0);
        }
        while j < n
            invariant
                j <= n == h.len(),
                n == self.shards@.len(),
                h == self.held(),
                self.wf(),
                found == h.take(j as int).flatten().len(),
                found <= total(h.take(j as int)),
            decreases n - j,
        {
            proof {
                let t = h.take(j + 1);
                assert(t.drop_last() =~= h.take(j as int));
                assert(t.last() == h[j as int]);
                assert(self.shards@[j as int].wf());
                lemma_len_charge(h[j as int]);
                assert(h.take(j as int).push(h[j as int]) =~= t);
                h.take(j as int).lemma_flatten_push(h[j as int]);
                lemma_total_prefix(h, j + 1);
            }
            found = found + self.shards[j].len();
            j += 1;
        }
        proof {
            assert(h.take(j as int) =~= h);
        }
        found
    }
}

proof fn lemma_total_prefix(h: Seq<Seq<Held>>, n: int)
    requires
        0 <= n <= h.len(),
    ensures
        total(h.take(n)) <= total(h),
    decreases h.len() - n,
{
    if n < h.len() {
        lemma_total_prefix(h, n + 1);
        assert(h.take(n + 1).drop_last() =~= h.take(n));
    } else {
        assert(h.take(n) =~= h);
    }
}

// ── Laws ─────────────────────────────────────────────────────────

/// A block that the cache took is found under its key, and what another key
/// finds afterwards it found before: a lookup never gives the block of another
/// key.
pub proof fn lemma_taken_is_found(
    h: Seq<Seq<Held>>,
    k: CacheKey,
    v: CachedBlock,
    share: int,
    capacity: int,
    strict: bool,
    mask: u64,
    other: CacheKey,
)
    requires
        h.len() == mask + 1,
        placed(h, mask),
        forall|j: int| 0 <= j < h.len() ==> distinct(#[trigger] h[j]),
        share >= 0,
        capacity == share * h.len(),
        total(h) <= capacity,
    ensures
        match offered(h, shard_of(k, mask), k, v, share, capacity, strict) {
            Some(g) => {
                &&& lookup(g[shard_of(k, mask)], k) == Some(v)
                &&& other != k && lookup(g[shard_of(other, mask)], other) is Some ==> lookup(
                    g[shard_of(other, mask)],
                    other,
                ) == lookup(h[shard_of(other, mask)], other)
            },
            None => true,
        },
{
    let i = shard_of(k, mask);
    let o = shard_of(other, mask);
    lemma_masked(xxh3_hash64(le64(k.0) + le64(k.1)), mask);
    lemma_masked(xxh3_hash64(le64(other.0) + le64(other.1)), mask);
    lemma_offered(h, i, k, v, share, capacity, strict, mask);
    if offered(h, i, k, v, share, capacity, strict) is Some {
        let g = offered(h, i, k, v, share, capacity, strict)->0;
        lemma_lookup(g[i], k);
        if other != k && lookup(g[o], other) is Some {
            let w = lookup(g[o], other)->0;
            if v.charge <= share {
                let u = h.update(i, with_block(h[i], k, v, share));
                lemma_relieved(u, share, capacity, h.len());
                assert(g[o] == u[o] || g[o] == Seq::<Held>::empty());
                assert(g[o].len() > 0);
                if o == i {
                    let base = without(h[i], k);
                    let rest = kept(base, share - v.charge);
                    lemma_lookup(g[i], other);
                    assert(has(g[i], other, w));
                    lemma_front_has((k, v), rest, other, w);
                    lemma_without(h[i], k);
                    lemma_kept(base, share - v.charge);
                    assert(has(base, other, w));
                    assert(has(h[i], other, w));
                    lemma_lookup(h[i], other);
                }
            } else if o == i {
                lemma_lookup(g[i], other);
                assert(has(g[i], other, w));
                let y = choose|y: int| 0 <= y < g[i].len() && #[trigger] g[i][y] == (other, w);
                assert(g[i][y] == (k, v));
            }
        }
    }
}

/// Blocks that fit are kept: where a block fits its shard beside what the
/// shard holds, and the cache beside what the cache holds, nothing is dropped
/// for it.
pub proof fn lemma_working_set_is_kept(
    h: Seq<Seq<Held>>,
    i: int,
    k: CacheKey,
    v: CachedBlock,
    share: int,
    capacity: int,
    strict: bool,
)
    requires
        0 <= i < h.len(),
        forall|j: int| 0 <= j < h.len() ==> distinct(#[trigger] h[j]),
        charges(h[i]) + v.charge <= share,
        total(h) + v.charge <= capacity,
    ensures
        offered(h, i, k, v, share, capacity, strict) == Some(
            h.update(i, seq![(k, v)] + without(h[i], k)),
        ),
{
    let base = without(h[i], k);
    lemma_without(h[i], k);
    lemma_kept(base, share - v.charge);
    lemma_charges_front((k, v), base);
    let u = h.update(i, seq![(k, v)] + base);
    lemma_total_update(h, i, seq![(k, v)] + base);
    lemma_relieved(u, share, capacity, h.len());
}

/// Evicting a table takes its blocks, and no others.
pub proof fn lemma_eviction_is_exact(s: Seq<Held>, file_id: u64, k: CacheKey)
    requires
        distinct(s),
    ensures
        lookup(without_file(s, file_id), k) == if k.0 == file_id {
            None
        } else {
            lookup(s, k)
        },
{
    let t = without_file(s, file_id);
    lemma_without_file(s, file_id);
    lemma_lookup(s, k);
    lemma_lookup(t, k);
    if lookup(t, k) is Some {
        assert(has(t, k, lookup(t, k)->0));
        assert(has(s, k, lookup(t, k)->0));
    } else if lookup(s, k) is Some && k.0 != file_id {
        assert(has(s, k, lookup(s, k)->0));
        assert(has(t, k, lookup(s, k)->0));
    }
}

impl BlockCache {
    /// The budget bounds how many blocks there can be, whatever their size.
    pub proof fn lemma_budget_bounds_entries(&self)
        requires
            self.wf(),
        ensures
            self.held().flatten().len() * ENTRY_OVERHEAD <= self.budget(),
    {
        assert forall|i: int| 0 <= i < self.held().len() implies weighs(
            #[trigger] self.held()[i],
        ) by {
            assert(self.shards@[i].wf());
        }
        lemma_entries(self.held());
    }
}

proof fn lemma_entries(h: Seq<Seq<Held>>)
    requires
        forall|i: int| 0 <= i < h.len() ==> weighs(#[trigger] h[i]),
    ensures
        h.flatten().len() * ENTRY_OVERHEAD <= total(h),
    decreases h.len(),
{
    if h.len() > 0 {
        let p = h.drop_last();
        assert forall|i: int| 0 <= i < p.len() implies weighs(#[trigger] p[i]) by {
            assert(p[i] == h[i]);
        }
        lemma_entries(p);
        lemma_len_charge(h[h.len() - 1]);
        assert(p.push(h.last()) =~= h);
        p.lemma_flatten_push(h.last());
    }
}

// ── Any sequence of calls ────────────────────────────────────────

/// Call `i` takes cache `i` to the next.
pub open spec fn does_call(cs: Seq<BlockCache>, calls: Seq<CacheCall>, i: int) -> bool {
    did(cs[i], cs[i + 1], calls[i])
}

/// A cache and what it becomes call by call, from when it was empty.
pub open spec fn is_cache_run(cs: Seq<BlockCache>, calls: Seq<CacheCall>) -> bool {
    &&& cs.len() == calls.len() + 1
    &&& cs[0].wf()
    &&& forall|i: int|
        0 <= i < cs[0].held().len() ==> #[trigger] cs[0].held()[i] == Seq::<Held>::empty()
    &&& forall|i: int| 0 <= i < calls.len() ==> #[trigger] does_call(cs, calls, i)
}

/// Call `m` offered the block under the key.
pub open spec fn offers(calls: Seq<CacheCall>, m: int, k: CacheKey, block: Arc<Block>) -> bool {
    0 <= m < calls.len() && calls[m] == (CacheCall::Insert { key: k, block })
}

/// One of the first `n` calls offered the block under the key, and the charge
/// is one that it may have.
pub open spec fn was_offered(calls: Seq<CacheCall>, n: int, k: CacheKey, v: CachedBlock) -> bool {
    &&& exists|m: int| m < n && #[trigger] offers(calls, m, k, v.block)
    &&& charge_of(&*v.block, v.charge)
}

/// An offer adds the block and nothing else.
proof fn lemma_offer_adds(
    h: Seq<Seq<Held>>,
    i: int,
    k: CacheKey,
    v: CachedBlock,
    share: int,
    capacity: int,
    strict: bool,
    j: int,
    q: CacheKey,
    x: CachedBlock,
)
    requires
        0 <= i < h.len(),
        0 <= j < h.len(),
        forall|n: int| 0 <= n < h.len() ==> distinct(#[trigger] h[n]),
        offered(h, i, k, v, share, capacity, strict) is Some,
        has(offered(h, i, k, v, share, capacity, strict)->0[j], q, x),
    ensures
        has(h[j], q, x) || (q, x) == (k, v),
{
    let g = offered(h, i, k, v, share, capacity, strict)->0;
    if v.charge <= share {
        let base = without(h[i], k);
        let rest = kept(base, share - v.charge);
        let u = h.update(i, with_block(h[i], k, v, share));
        lemma_without(h[i], k);
        lemma_kept(base, share - v.charge);
        lemma_relieved(u, share, capacity, h.len());
        assert(g[j] == u[j] || g[j] == Seq::<Held>::empty());
        assert(g[j].len() > 0);
        if j == i {
            lemma_front_has((k, v), rest, q, x);
            if has(rest, q, x) {
                assert(has(base, q, x));
            }
        }
    } else if j == i {
        let one = seq![(k, v)];
        let y = choose|y: int| 0 <= y < one.len() && #[trigger] one[y] == (q, x);
        assert(one[y] == (k, v));
    }
}

/// What a cache holds after some calls was offered to it by one of them.
proof fn lemma_held_was_offered(
    cs: Seq<BlockCache>,
    calls: Seq<CacheCall>,
    n: int,
    j: int,
    q: CacheKey,
    x: CachedBlock,
)
    requires
        is_cache_run(cs, calls),
        0 <= n <= calls.len(),
        0 <= j < cs[n].held().len(),
        has(cs[n].held()[j], q, x),
    ensures
        was_offered(calls, n, q, x),
    decreases n,
{
    if n > 0 {
        assert(does_call(cs, calls, n - 1));
        let (c0, c1) = (cs[n - 1], cs[n]);
        if n > 1 {
            assert(does_call(cs, calls, n - 2));
        }
        c0.lemma_wf();
        let h = c0.held();
        match calls[n - 1] {
            CacheCall::Insert { key, block } => {
                if c1.held() != h {
                    let size = choose|size: usize| #[trigger]
                        charge_of(&*block, size) && c1.held() == c0.after_offer(
                            key,
                            CachedBlock { block, charge: size },
                        );
                    let v = CachedBlock { block, charge: size };
                    let i = c0.shard_at(key);
                    lemma_offered(
                        h,
                        i,
                        key,
                        v,
                        c0.share(),
                        c0.budget(),
                        c0.is_strict(),
                        c0.mask(),
                    );
                    lemma_offer_adds(
                        h,
                        i,
                        key,
                        v,
                        c0.share(),
                        c0.budget(),
                        c0.is_strict(),
                        j,
                        q,
                        x,
                    );
                    if (q, x) == (key, v) {
                        assert(offers(calls, n - 1, q, x.block));
                    }
                }
            },
            CacheCall::Get { key } => {
                if h.len() > 0 && c0.finds(key) is Some {
                    lemma_to_front(h[c0.shard_at(key)], key, c0.finds(key)->0);
                }
                assert(has(h[j], q, x));
            },
            CacheCall::EvictFile { file_id } => {
                lemma_without_file(h[j], file_id);
                assert(has(h[j], q, x));
            },
            CacheCall::Clear => {},
        }
        if has(h[j], q, x) {
            lemma_held_was_offered(cs, calls, n - 1, j, q, x);
            let m = choose|m: int| m < n - 1 && #[trigger] offers(calls, m, q, x.block);
            assert(m < n && offers(calls, m, q, x.block));
        }
    }
}

/// Whatever calls of insert, lookup, eviction and clearing a cache has seen: the
/// blocks that it holds count for no more than its budget, there is one at most
/// under each key, and a lookup gives nothing or a block that was offered under
/// the same key. A cache without a budget gives nothing.
pub proof fn lemma_cache_keeps_its_promises(
    cs: Seq<BlockCache>,
    calls: Seq<CacheCall>,
    n: int,
    k: CacheKey,
)
    requires
        is_cache_run(cs, calls),
        0 <= n <= calls.len(),
    ensures
        cs[n].wf(),
        cs[n].budget() == cs[0].budget(),
        total(cs[n].held()) <= cs[n].budget(),
        forall|i: int, j: int, v: CachedBlock, w: CachedBlock|
            0 <= i < cs[n].held().len() && 0 <= j < cs[n].held().len() && #[trigger] has(
                cs[n].held()[i],
                k,
                v,
            ) && #[trigger] has(cs[n].held()[j], k, w) ==> i == j && v == w,
        forall|i: int, v: CachedBlock|
            0 <= i < cs[n].held().len() && #[trigger] has(cs[n].held()[i], k, v) ==> was_offered(
                calls,
                n,
                k,
                v,
            ),
        cs[n].answer(k) matches Some(b) ==> exists|m: int| m < n && #[trigger]
            offers(calls, m, k, b),
        cs[0].held().len() == 0 ==> cs[n].answer(k) is None,
{
    lemma_run_wf(cs, calls, n);
    let c = cs[n];
    c.lemma_wf();
    assert forall|i: int, j: int, v: CachedBlock, w: CachedBlock|
        0 <= i < c.held().len() && 0 <= j < c.held().len() && #[trigger] has(c.held()[i], k, v)
            && #[trigger] has(c.held()[j], k, w) implies i == j && v == w by {
        lemma_lookup(c.held()[i], k);
    }
    assert forall|i: int, v: CachedBlock|
        0 <= i < c.held().len() && #[trigger] has(c.held()[i], k, v) implies was_offered(
        calls,
        n,
        k,
        v,
    ) by {
        lemma_held_was_offered(cs, calls, n, i, k, v);
    }
    if c.answer(k) is Some {
        let i = c.shard_at(k);
        let v = c.finds(k)->0;
        lemma_lookup(c.held()[i], k);
        assert(has(c.held()[i], k, v));
        assert(was_offered(calls, n, k, v));
        let m = choose|m: int| m < n && #[trigger] offers(calls, m, k, v.block);
        assert(m < n && offers(calls, m, k, c.answer(k)->0));
    }
}

proof fn lemma_run_wf(cs: Seq<BlockCache>, calls: Seq<CacheCall>, n: int)
    requires
        is_cache_run(cs, calls),
        0 <= n <= calls.len(),
    ensures
        cs[n].wf(),
        cs[n].budget() == cs[0].budget(),
        cs[n].held().len() == cs[0].held().len(),
    decreases n,
{
    if n > 0 {
        lemma_run_wf(cs, calls, n - 1);
        assert(does_call(cs, calls, n - 1));
        let c0 = cs[n - 1];
        c0.lemma_wf();
        match calls[n - 1] {
            CacheCall::Insert { key, block } => {
                if cs[n].held() != c0.held() {
                    let size = choose|size: usize| #[trigger]
                        charge_of(&*block, size) && cs[n].held() == c0.after_offer(
                            key,
                            CachedBlock { block, charge: size },
                        );
                    lemma_offered(
                        c0.held(),
                        c0.shard_at(key),
                        key,
                        CachedBlock { block, charge: size },
                        c0.share(),
                        c0.budget(),
                        c0.is_strict(),
                        c0.mask(),
                    );
                }
            },
            _ => {},
        }
    }
}

/// A cache has no more shards than were asked for and one at least. They are
/// halved until each has a share of some size or one is left, and no further.
pub proof fn lemma_shards_have_a_share_of_some_size(capacity: int, asked: int)
    requires
        capacity >= 0,
        asked >= 1,
    ensures
        ({
            let n = shard_count(capacity, asked);
            &&& 1 <= n <= asked
            &&& n == 1 || capacity >= n * MIN_SHARD_CAPACITY
            &&& n < asked ==> exists|m: int|
                #![trigger is_half(n, m)]
                is_half(n, m) && m <= asked && capacity < m * MIN_SHARD_CAPACITY
        }),
    decreases asked,
{
    let n = shard_count(capacity, asked);
    let s = MIN_SHARD_CAPACITY as int;
    if asked > 1 && capacity / asked < s {
        lemma_shards_have_a_share_of_some_size(capacity, asked / 2);
        assert(capacity < asked * s) by (nonlinear_arith)
            requires
                asked > 1,
                capacity >= 0,
                capacity / asked < s,
        ;
        if n == asked / 2 {
            assert(is_half(n, asked));
        } else {
            let m = choose|m: int|
                #![trigger is_half(n, m)]
                is_half(n, m) && m <= asked / 2 && capacity < m * MIN_SHARD_CAPACITY;
            assert(is_half(n, m));
        }
    } else if asked > 1 {
        assert(capacity >= asked * s) by (nonlinear_arith)
            requires
                asked > 1,
                capacity >= 0,
                capacity / asked >= s,
        ;
    }
}

/// `n` is half of `m`, rounded down.
pub open spec fn is_half(n: int, m: int) -> bool {
    m == 2 * n || m == 2 * n + 1
}

} // verus!
