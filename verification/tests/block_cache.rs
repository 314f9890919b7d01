use lark::engine::block::Block;
use lark::engine::block::BlockBuilder;
use lark::engine::block::RESTART_INTERVAL;
use lark::engine::block_cache::entry_charge;
use lark::engine::block_cache::BlockCache;
use lark::engine::block_cache::ENTRY_OVERHEAD;
use std::sync::Arc;

fn dummy_block(size: usize) -> Arc<Block> {
    let mut builder = BlockBuilder::new(RESTART_INTERVAL);
    let value = vec![0u8; size];
    builder.add(b"k", &value);
    Arc::new(Block::decode(builder.finish()).expect("decode"))
}

#[test]
fn single_insert_then_get() {
    let mut cache = BlockCache::new(1024 * 1024);
    let blk = dummy_block(256);
    cache.insert(1, 0, blk.clone());
    assert!(cache.get(1, 0).is_some());
    assert!(cache.usage() >= 256);
}

#[test]
fn eviction_bounds_total_usage() {
    // 4 KB capacity, 1 shard (MIN_SHARD_CAPACITY fallback
    // collapses to 1 since 4 KB / 64 = 64 bytes per shard).
    let mut cache = BlockCache::with_config(4 * 1024, 6, false);
    // Insert many 1 KB blocks. Only a handful should survive.
    for i in 0..32u64 {
        cache.insert(1, i * 100, dummy_block(1024));
    }
    let usage = cache.usage();
    assert!(
        usage <= cache.capacity(),
        "usage {usage} exceeded capacity {}",
        cache.capacity()
    );
    // Oldest entry should have been evicted.
    assert!(cache.get(1, 0).is_none());
}

#[test]
fn strict_capacity_rejects_oversized_entry() {
    let mut cache = BlockCache::with_config(64 * 1024, 0, true);
    // Single shard, 64 KB capacity. A 128 KB block won't fit.
    let big = dummy_block(128 * 1024);
    cache.insert(1, 0, big);
    assert!(
        cache.get(1, 0).is_none(),
        "strict cache must reject oversized entries"
    );
    assert_eq!(cache.usage(), 0);
}

#[test]
fn non_strict_cache_admits_an_entry_bigger_than_one_shard() {
    // 8 shards of 64 KiB. A 128 KiB block does not fit its own
    // shard but fits the 512 KiB cache-wide budget, so the
    // non-strict cache empties the shard and takes it.
    let mut cache = BlockCache::with_config(512 * 1024, 3, false);
    assert_eq!(cache.num_shards(), 8);
    cache.insert(1, 0, dummy_block(128 * 1024));
    assert!(
        cache.get(1, 0).is_some(),
        "non-strict cache should admit an entry larger than one shard"
    );
    assert!(cache.usage() <= cache.capacity());
}

#[test]
fn non_strict_cache_refuses_an_entry_bigger_than_the_whole_budget() {
    let mut cache = BlockCache::with_config(64 * 1024, 0, false);
    cache.insert(1, 0, dummy_block(128 * 1024));
    assert!(
        cache.get(1, 0).is_none(),
        "a block larger than the entire budget must not be cached"
    );
    assert_eq!(cache.usage(), 0);
}

#[test]
fn oversized_admissions_stay_inside_the_budget_at_every_shard_count() {
    // Resident bytes follow the budget, not the shard count.
    let budget = 256 * 64 * 1024;
    let mut usages = Vec::new();
    for bits in [0u32, 4, 8] {
        let mut cache = BlockCache::with_config(budget, bits, false);
        for file_id in 0..4096u64 {
            cache.insert(file_id, 0, dummy_block(256 * 1024));
        }
        assert!(
            cache.usage() <= cache.capacity(),
            "shard_bits {bits}: usage {} over capacity {}",
            cache.usage(),
            cache.capacity()
        );
        usages.push(cache.usage());
    }
    assert_eq!(
        usages[0], usages[2],
        "resident bytes still track the shard count"
    );
}

#[test]
fn sharding_distributes_inserts_across_shards() {
    // 64 MB so we get the full 64-shard default. Insert 1024
    // entries across many different (file_id, offset) pairs
    // and verify more than one shard ends up populated.
    let mut cache = BlockCache::with_config(64 * 1024 * 1024, 6, false);
    for i in 0..1024u64 {
        cache.insert(i, i * 4096, dummy_block(1024));
    }
    let populated = cache.populated_shards();
    assert_eq!(cache.num_shards(), 64);
    assert!(
        populated > 16,
        "expected inserts to fan out across shards, populated = {populated}"
    );
}

#[test]
fn evict_file_removes_only_that_files_blocks() {
    let mut cache = BlockCache::with_config(64 * 1024 * 1024, 6, false);
    for off in 0..16u64 {
        cache.insert(1, off * 4096, dummy_block(1024));
        cache.insert(2, off * 4096, dummy_block(1024));
    }
    cache.evict_file(1);
    // File 1 is gone.
    for off in 0..16u64 {
        assert!(cache.get(1, off * 4096).is_none());
        assert!(cache.get(2, off * 4096).is_some());
    }
}

#[test]
fn clear_zeroes_usage() {
    let mut cache = BlockCache::with_config(64 * 1024 * 1024, 6, false);
    for i in 0..64u64 {
        cache.insert(1, i * 4096, dummy_block(1024));
    }
    assert!(cache.usage() > 0);
    cache.clear();
    assert_eq!(cache.usage(), 0);
    assert!(cache.get(1, 0).is_none());
}

#[test]
fn repeated_insert_at_same_key_does_not_double_count() {
    let mut cache = BlockCache::with_config(64 * 1024, 0, false);
    cache.insert(1, 0, dummy_block(1024));
    let first_usage = cache.usage();
    cache.insert(1, 0, dummy_block(1024));
    cache.insert(1, 0, dummy_block(1024));
    // Re-inserting the same key replaces rather than accumulating.
    let final_usage = cache.usage();
    assert_eq!(first_usage, final_usage);
}

#[test]
fn miss_on_absent_key_returns_none() {
    let mut cache = BlockCache::with_config(64 * 1024, 0, false);
    assert!(cache.get(99, 999).is_none());
}

#[test]
fn capacity_reflects_rounded_budget() {
    // 100 KB / 64 shards would drop below MIN_SHARD_CAPACITY, so
    // the constructor collapses to fewer shards. Capacity is the
    // actual rounded budget after collapse, not the request.
    let mut cache = BlockCache::with_config(100_000, 6, false);
    assert!(cache.capacity() <= 100_000);
    assert!(cache.capacity() > 0);
}

#[test]
fn resident_bytes_track_the_byte_budget_not_the_shard_count() {
    // Nothing is allocated up front, and the budget is the only bound
    // at any shard count.
    let budget = 8 * 1024 * 1024;
    let mut usages = Vec::new();
    for bits in [0u32, 2, 4, 6] {
        let mut cache = BlockCache::with_config(budget, bits, false);
        assert_eq!(cache.usage(), 0, "a fresh cache holds nothing");
        for i in 0..8192u64 {
            cache.insert(1, i * 4096, dummy_block(4096));
        }
        assert!(
            cache.usage() <= cache.capacity(),
            "shard_bits {bits}: usage {} over capacity {}",
            cache.usage(),
            cache.capacity()
        );
        usages.push(cache.usage());
    }
    // Every configuration converges on the same budget, within one
    // entry per shard of rounding.
    let spread =
        usages.iter().max().copied().unwrap_or(0) - usages.iter().min().copied().unwrap_or(0);
    assert!(
        spread <= budget / 16,
        "resident bytes moved with shard_bits: {usages:?}"
    );
}

#[test]
fn per_entry_overhead_is_charged_against_the_budget() {
    // A budget filled with tiny blocks is bounded by the entry
    // overhead, not just by payload bytes: without charging it, a
    // 1 MiB budget would hold millions of 64-byte blocks.
    let mut cache = BlockCache::with_config(1024 * 1024, 0, false);
    for i in 0..100_000u64 {
        cache.insert(1, i * 64, dummy_block(0));
    }
    assert!(cache.usage() <= cache.capacity());
    assert!(
        cache.entry_count() <= cache.capacity() / ENTRY_OVERHEAD,
        "held {} entries against a {}-byte budget",
        cache.entry_count(),
        cache.capacity()
    );
}

#[test]
fn a_working_set_that_fits_the_budget_is_kept_whole() {
    // Entries that fit inside the byte budget stay.
    let mut cache = BlockCache::with_config(8 * 1024 * 1024, 0, false);
    let mut offered = 0usize;
    for i in 0..3500u64 {
        let blk = dummy_block(1024);
        offered += entry_charge(&blk);
        cache.insert(1, i * 4096, blk);
    }
    assert!(
        offered <= cache.capacity(),
        "test setup: the working set must fit the byte budget"
    );
    assert_eq!(
        cache.entry_count(),
        3500,
        "the cache evicted entries that fit inside its byte budget"
    );
    assert_eq!(cache.usage(), offered);
}

#[test]
fn zero_budget_disables_the_cache() {
    let mut cache = BlockCache::with_config(0, 6, false);
    assert_eq!(cache.num_shards(), 0);
    assert_eq!(cache.capacity(), 0);
    cache.insert(1, 0, dummy_block(256));
    assert!(cache.get(1, 0).is_none());
    assert_eq!(cache.usage(), 0);
    cache.evict_file(1);
    cache.clear();
    assert_eq!(cache.usage(), 0);
}

#[test]
fn zero_budget_strict_cache_is_also_disabled() {
    let mut cache = BlockCache::with_config(0, 0, true);
    cache.insert(1, 0, dummy_block(256));
    assert!(cache.get(1, 0).is_none());
    assert_eq!(cache.usage(), 0);
}

#[test]
fn tiny_budget_still_admits_a_block_that_fits() {
    let mut cache = BlockCache::with_config(4096, 6, false);
    cache.insert(1, 0, dummy_block(128));
    assert!(cache.get(1, 0).is_some());
    assert!(cache.usage() <= cache.capacity());
}

#[test]
fn byte_accounting_is_exact() {
    let mut cache = BlockCache::with_config(64 * 1024 * 1024, 0, false);
    let mut expected = 0usize;
    for i in 0..64u64 {
        let blk = dummy_block(512);
        expected += entry_charge(&blk);
        cache.insert(1, i * 4096, blk);
    }
    assert_eq!(cache.usage(), expected);
}

#[test]
fn evict_file_does_not_touch_other_files() {
    let mut cache = BlockCache::with_config(64 * 1024 * 1024, 6, false);
    cache.insert(7, 0, dummy_block(1024));
    cache.insert(8, 0, dummy_block(1024));
    let before = cache.usage();
    cache.evict_file(99); // a file id that was never inserted
    assert_eq!(cache.usage(), before);
    assert!(cache.get(7, 0).is_some());
    assert!(cache.get(8, 0).is_some());
}
