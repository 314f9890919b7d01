use lark::engine::block::Block;
use lark::engine::block::BlockBuilder;
use lark::engine::block::RESTART_INTERVAL;
use lark::engine::block_cache::entry_charge;
use lark::engine::block_cache::BlockCache;
use lark::engine::block_cache::MAX_SHARD_BITS;
use std::sync::Arc;

fn block_with(tag: u8, size: usize) -> Arc<Block> {
    let mut builder = BlockBuilder::new(RESTART_INTERVAL);
    builder.add(b"k", &vec![tag; size]);
    Arc::new(Block::decode(builder.finish()).expect("decode"))
}

fn dummy_block(size: usize) -> Arc<Block> {
    block_with(0, size)
}

/// Tag of a block built by [`block_with`]: the last byte of its one value.
fn tag_of(block: &Block) -> u8 {
    block
        .entry_data()
        .last()
        .copied()
        .expect("a block built by block_with has one entry")
}

fn assert_within_budget(cache: &BlockCache, context: &str) {
    assert!(
        cache.usage() <= cache.capacity(),
        "{context}: {} bytes held against a {}-byte budget",
        cache.usage(),
        cache.capacity()
    );
}

#[test]
fn a_budget_below_one_block_stores_nothing() {
    for strict in [false, true] {
        for bits in [0u32, 4, 8] {
            let mut cache = BlockCache::with_config(4096, bits, strict);
            cache.insert(1, 0, dummy_block(64 * 1024));
            assert!(
                cache.get(1, 0).is_none(),
                "strict={strict} bits={bits}: a block larger than the budget was cached"
            );
            assert_eq!(cache.usage(), 0);
            assert_within_budget(&cache, "budget below one block");
        }
    }
}

#[test]
fn a_huge_shard_count_with_a_tiny_budget_collapses() {
    let mut cache = BlockCache::with_config(64 * 1024, MAX_SHARD_BITS, false);
    assert_eq!(cache.num_shards(), 1, "shards did not collapse");
    cache.insert(1, 0, dummy_block(1024));
    assert!(cache.get(1, 0).is_some());
    assert!(cache.usage() <= cache.capacity());
    assert_within_budget(&cache, "huge shard count, tiny budget");
}

#[test]
fn a_zero_budget_cache_holds_no_shard_state() {
    let mut cache = BlockCache::with_config(0, MAX_SHARD_BITS, false);
    assert!(cache.num_shards() == 0);
    for i in 0..1000u64 {
        cache.insert(i, i, dummy_block(1024));
        assert!(cache.get(i, i).is_none());
    }
    cache.evict_file(3);
    cache.clear();
    assert_eq!((cache.usage(), cache.capacity()), (0, 0));
}

#[test]
fn a_lookup_never_returns_another_keys_block() {
    let mut cache = BlockCache::with_config(64 * 1024 * 1024, 6, false);
    let mut expected = Vec::new();
    let mut tag = 1u8;
    for file_id in 0..40u64 {
        for offset in 0..8u64 {
            cache.insert(file_id, offset * 4096, block_with(tag, 512));
            expected.push((file_id, offset * 4096, tag));
            tag = tag.wrapping_add(1).max(1);
        }
    }
    for (file_id, offset, tag) in &expected {
        let got = cache
            .get(*file_id, *offset)
            .unwrap_or_else(|| panic!("({file_id},{offset}) fell out of a cache that fits it"));
        assert_eq!(
            tag_of(&got),
            *tag,
            "({file_id},{offset}) returned another key's block"
        );
    }

    // Keys that hash to the same shard must still be distinguished.
    let mut by_shard: std::collections::BTreeMap<usize, Vec<(u64, u64, u8)>> = Default::default();
    for (file_id, offset, tag) in &expected {
        let idx = cache.shard_index((*file_id, *offset));
        by_shard
            .entry(idx)
            .or_default()
            .push((*file_id, *offset, *tag));
    }
    let collided = by_shard.values().filter(|v| v.len() > 1).count();
    assert!(collided > 0, "setup: no two keys shared a shard");
    for group in by_shard.values() {
        for (file_id, offset, tag) in group {
            assert_eq!(
                tag_of(&cache.get(*file_id, *offset).expect("present")),
                *tag
            );
        }
    }
    assert_within_budget(&cache, "wrong-key lookup");
}

#[test]
fn reinserting_a_key_replaces_the_block_and_the_charge() {
    let mut cache = BlockCache::with_config(1024 * 1024, 0, false);
    cache.insert(9, 128, block_with(1, 512));
    let after_first = cache.usage();
    for tag in 2..=64u8 {
        cache.insert(9, 128, block_with(tag, 512));
        assert_eq!(
            tag_of(&cache.get(9, 128).expect("present")),
            tag,
            "a re-insert left the old block visible"
        );
        assert_eq!(cache.usage(), after_first, "a re-insert double-counted");
        assert_eq!(cache.entry_count(), 1);
    }
    assert_within_budget(&cache, "re-insert");
}

#[test]
fn reinserting_a_key_with_a_different_size_reprices_it() {
    let mut cache = BlockCache::with_config(4 * 1024 * 1024, 0, false);
    let small = block_with(1, 256);
    let large = block_with(2, 64 * 1024);
    cache.insert(4, 0, Arc::clone(&small));
    assert_eq!(cache.usage(), entry_charge(&small));
    cache.insert(4, 0, Arc::clone(&large));
    assert_eq!(cache.usage(), entry_charge(&large));
    cache.insert(4, 0, Arc::clone(&small));
    assert_eq!(cache.usage(), entry_charge(&small));
    assert_eq!(cache.entry_count(), 1);
    assert_within_budget(&cache, "re-insert repricing");
}

#[test]
fn repeated_oversized_inserts_at_one_key_do_not_compound() {
    let mut cache = BlockCache::with_config(8 * 64 * 1024, 3, false);
    for tag in 1..=200u8 {
        cache.insert(77, 0, block_with(tag, 96 * 1024));
        assert!(
            cache.usage() <= cache.capacity(),
            "oversized re-inserts compounded to {} bytes",
            cache.usage()
        );
    }
    assert_eq!(tag_of(&cache.get(77, 0).expect("present")), 200);
    assert_within_budget(&cache, "repeated oversized insert");
}

#[test]
fn strict_mode_refuses_without_disturbing_the_accounting() {
    let mut cache = BlockCache::with_config(8 * 64 * 1024, 3, true);
    cache.insert(1, 0, dummy_block(16 * 1024));
    let baseline = cache.usage();
    assert!(baseline > 0);
    for i in 0..100u64 {
        cache.insert(2, i, dummy_block(96 * 1024));
    }
    assert_eq!(cache.usage(), baseline, "a strict refusal moved the total");
    assert!(cache.get(2, 0).is_none());
    assert!(cache.get(1, 0).is_some());
    assert_within_budget(&cache, "strict refusal");
}

#[test]
fn an_entry_that_exactly_fills_a_shard_is_admitted_once() {
    let probe = dummy_block(4096);
    let exact = entry_charge(&probe);
    let mut cache = BlockCache::with_config(exact, 0, false);
    assert_eq!(cache.capacity(), exact);
    cache.insert(1, 0, dummy_block(4096));
    assert_eq!(cache.usage(), exact);
    cache.insert(1, 4096, dummy_block(4096));
    assert_eq!(cache.usage(), exact, "two entries fit a one-entry budget");
    assert_eq!(cache.entry_count(), 1);
    assert_within_budget(&cache, "exact fill");
}

#[test]
fn evict_file_walks_only_its_own_file_at_the_key_space_edges() {
    let mut cache = BlockCache::with_config(64 * 1024 * 1024, 6, false);
    let files = [0u64, 1, 2, u64::MAX - 1, u64::MAX];
    let offsets = [0u64, 1, 4096, u64::MAX / 2, u64::MAX];
    let mut tag = 1u8;
    let mut placed = Vec::new();
    for f in files {
        for o in offsets {
            cache.insert(f, o, block_with(tag, 256));
            placed.push((f, o, tag));
            tag = tag.wrapping_add(1).max(1);
        }
    }
    let mut evicted: Vec<u64> = Vec::new();
    for f in files {
        cache.evict_file(f);
        evicted.push(f);
        for (pf, po, ptag) in &placed {
            let got = cache.get(*pf, *po);
            if evicted.contains(pf) {
                assert!(got.is_none(), "file {pf} offset {po} survived its eviction");
            } else {
                let block = got.unwrap_or_else(|| {
                    panic!("evicting {f} dropped ({pf},{po}) from a cache that fits it")
                });
                assert_eq!(tag_of(&block), *ptag, "evicting {f} corrupted ({pf},{po})");
            }
        }
        assert_within_budget(&cache, "evict_file at the edges");
    }
    assert_eq!(cache.usage(), 0);
    assert_eq!(cache.entry_count(), 0);
}

#[test]
fn evict_file_covers_a_sparse_offset_range_and_stops_at_the_next_file() {
    let mut cache = BlockCache::with_config(64 * 1024 * 1024, 6, false);
    for f in 5..=7u64 {
        for o in [0u64, 7, 1 << 20, 1 << 40, u64::MAX] {
            cache.insert(f, o, block_with((f * 10) as u8, 256));
        }
    }
    let before = cache.usage();
    cache.evict_file(6);
    assert_eq!(cache.entry_count(), 10, "evict_file took the wrong range");
    assert!(cache.usage() < before);
    for o in [0u64, 7, 1 << 20, 1 << 40, u64::MAX] {
        assert!(cache.get(6, o).is_none());
        assert!(cache.get(5, o).is_some());
        assert!(cache.get(7, o).is_some());
    }
    assert_within_budget(&cache, "sparse evict_file");
}

#[test]
fn the_add_ticker_counts_only_inserts_that_stored_a_block() {
    let mut adds = 0;
    let mut cache = BlockCache::with_config(8 * 64 * 1024, 3, true);
    for _ in 0..10 {
        adds += cache.insert(1, 0, dummy_block(96 * 1024)) as u64;
    }
    assert_eq!(cache.usage(), 0, "strict mode stored an oversized entry");
    assert_eq!(adds, 0);

    let mut cache = BlockCache::with_config(64 * 1024, 0, false);
    for _ in 0..10 {
        adds += cache.insert(1, 0, dummy_block(256 * 1024)) as u64;
    }
    assert_eq!(cache.usage(), 0);
    assert_eq!(adds, 0);

    let mut cache = BlockCache::with_config(8 * 64 * 1024, 3, false);
    let oversized = dummy_block(100 * 1024);
    assert!(
        entry_charge(&oversized) > cache.capacity() / 8
            && entry_charge(&oversized) < cache.capacity()
    );
    for i in 0..200u64 {
        adds += cache.insert(i, 0, Arc::clone(&oversized)) as u64;
    }
    assert!(adds > 0 && adds < 200);
    assert_within_budget(&cache, "oversized");

    // Positive control: an insert that stores is counted exactly once.
    let mut adds = 0;
    let mut cache = BlockCache::with_config(8 * 1024 * 1024, 3, false);
    for i in 0..25u64 {
        adds += cache.insert(1, i * 4096, dummy_block(512)) as u64;
    }
    assert_eq!(adds, 25, "an insert that stored a block was not counted");
    assert_eq!(cache.entry_count(), 25);
}

#[test]
fn small_blocks_make_room_where_large_ones_filled_the_cache() {
    let mut cache = BlockCache::with_config(8 * 64 * 1024, 3, false);
    for i in 0..200u64 {
        cache.insert(i, 0, dummy_block(100 * 1024));
    }
    for i in 0..2000u64 {
        assert!(cache.insert(1000 + i, 0, dummy_block(1024)));
        assert_within_budget(&cache, "small after large");
        assert!(cache.get(1000 + i, 0).is_some());
    }
}

#[test]
fn any_sequence_of_calls_keeps_the_budget_and_the_keys() {
    let mut cache = BlockCache::with_config(256 * 1024, 2, false);
    let mut offered = std::collections::BTreeMap::new();
    let mut x = 1u64;
    for _ in 0..3000 {
        x = x.wrapping_mul(6364136223846793005).wrapping_add(1442695040888963407);
        let (file_id, offset) = ((x >> 33) % 5, (x >> 40) % 40);
        match (x >> 50) % 16 {
            0 => cache.evict_file(file_id),
            1 if x % 64 == 0 => cache.clear(),
            2..=8 => {
                let tag = 1 + ((x >> 20) % 200) as u8;
                let size = 1 + ((x >> 24) % 90_000) as usize;
                if cache.insert(file_id, offset, block_with(tag, size)) {
                    offered.insert((file_id, offset), tag);
                }
            }
            _ => {
                if let Some(found) = cache.get(file_id, offset) {
                    assert_eq!(offered.get(&(file_id, offset)), Some(&tag_of(&found)));
                }
            }
        }
        assert_within_budget(&cache, "any sequence");
    }
}

#[test]
fn the_least_recently_used_block_leaves_first() {
    let one = entry_charge(&dummy_block(512));
    let mut cache = BlockCache::with_config(2 * one, 0, false);
    cache.insert(1, 0, block_with(1, 512));
    cache.insert(1, 1, block_with(2, 512));
    assert_eq!(tag_of(&cache.get(1, 0).unwrap()), 1);
    cache.insert(1, 2, block_with(3, 512));
    assert!(cache.get(1, 1).is_none());
    assert_eq!(tag_of(&cache.get(1, 0).unwrap()), 1);
    assert_eq!(tag_of(&cache.get(1, 2).unwrap()), 3);
}
