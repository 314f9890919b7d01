//! The recency list under the block cache.

use super::block::Block;
use lru::LruCache;
use std::sync::Arc;
use vstd::prelude::*;

verus! {

/// `lru::LruCache`.
#[verifier::external_type_specification]
#[verifier::external_body]
#[verifier::reject_recursive_types(K)]
#[verifier::reject_recursive_types(V)]
#[verifier::reject_recursive_types(S)]
pub struct ExLruCache<K, V, S>(LruCache<K, V, S>);

/// Which block: the id of its table, and where it starts.
pub type CacheKey = (u64, u64);

/// A block in the cache, and the bytes it counts for.
pub struct CachedBlock {
    pub block: Arc<Block>,
    pub charge: usize,
}

/// The list.
pub type RecencyList = LruCache<(u64, u64), CachedBlock>;

/// A block under its key.
pub type Held = (CacheKey, CachedBlock);

/// What a list holds, the most recently used first.
pub uninterp spec fn recent(l: RecencyList) -> Seq<Held>;

/// What is left without a key.
pub open spec fn without(s: Seq<Held>, k: CacheKey) -> Seq<Held>
    decreases s.len(),
{
    if s.len() == 0 {
        s
    } else if s.last().0 == k {
        without(s.drop_last(), k)
    } else {
        without(s.drop_last(), k).push(s.last())
    }
}

/// The block under a key.
pub open spec fn lookup(s: Seq<Held>, k: CacheKey) -> Option<CachedBlock>
    decreases s.len(),
{
    if s.len() == 0 {
        None
    } else if s[0].0 == k {
        Some(s[0].1)
    } else {
        lookup(s.skip(1), k)
    }
}

/// `LruCache::unbounded` makes an empty list that drops nothing by itself.
#[verifier::external_body]
pub(crate) fn list_new() -> (r: RecencyList)
    ensures
        recent(r) == Seq::<Held>::empty(),
{
    LruCache::unbounded()
}

/// `LruCache::put` puts a block in front, in place of one with the same key.
#[verifier::external_body]
pub(crate) fn list_put(l: &mut RecencyList, k: CacheKey, v: CachedBlock)
    requires
        recent(*old(l)).len() < usize::MAX,
    ensures
        recent(*final(l)) == seq![(k, v)] + without(recent(*old(l)), k),
{
    l.put(k, v);
}

/// `LruCache::get` finds the block under a key and moves it to the front.
#[verifier::external_body]
pub(crate) fn list_get<'a>(l: &'a mut RecencyList, k: CacheKey) -> (r: Option<&'a CachedBlock>)
    ensures
        match lookup(recent(*old(l)), k) {
            Some(v) => r matches Some(x) && *x == v && recent(*final(l)) == seq![(k, v)] + without(
                recent(*old(l)),
                k,
            ),
            None => r is None && recent(*final(l)) == recent(*old(l)),
        },
{
    l.get(&k)
}

/// `LruCache::pop` takes the block under a key out.
#[verifier::external_body]
pub(crate) fn list_pop(l: &mut RecencyList, k: CacheKey) -> (r: Option<CachedBlock>)
    ensures
        r == lookup(recent(*old(l)), k),
        recent(*final(l)) == without(recent(*old(l)), k),
{
    l.pop(&k)
}

/// `LruCache::pop_lru` takes the least recently used block out.
#[verifier::external_body]
pub(crate) fn list_pop_last(l: &mut RecencyList) -> (r: Option<(CacheKey, CachedBlock)>)
    ensures
        recent(*old(l)).len() == 0 ==> r is None && recent(*final(l)) == recent(*old(l)),
        recent(*old(l)).len() > 0 ==> r == Some(recent(*old(l)).last()) && recent(*final(l))
            == recent(*old(l)).drop_last(),
{
    l.pop_lru()
}

/// `LruCache::clear` takes everything out.
#[verifier::external_body]
pub(crate) fn list_clear(l: &mut RecencyList)
    ensures
        recent(*final(l)) == Seq::<Held>::empty(),
{
    l.clear();
}

/// `LruCache::iter` visits what the list holds, the most recently used first;
/// here the keys.
#[verifier::external_body]
pub(crate) fn list_keys(l: &RecencyList) -> (r: Vec<CacheKey>)
    ensures
        r@ == recent(*l).map_values(|h: Held| h.0),
{
    l.iter().map(|(k, _)| *k).collect()
}

/// `LruCache::len` counts what the list holds.
#[verifier::external_body]
pub(crate) fn list_len(l: &RecencyList) -> (r: usize)
    ensures
        r == recent(*l).len(),
{
    l.len()
}

} // verus!
