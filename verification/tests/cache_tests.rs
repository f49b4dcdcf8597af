use l1es::cache::{Cache, CacheStats};
use l1es::cache_config::{CacheConfig, CacheConfigs, CacheType, ReplacementPolicy,
    is_power_of_two, log2_of_pow2};
use l1es::line::CacheLine;
use l1es::set::CacheSet;
use l1es::measurement::AccessTiming;

#[test]
fn line_lifecycle() {
    let mut line = CacheLine::new();
    assert!(!line.valid);
    assert_eq!(line.tag, 0);
    assert!(!line.is_hit(0));

    line.update(42, 7);
    assert!(line.valid);
    assert_eq!(line.tag, 42);
    assert_eq!(line.last_access, 7);
    assert_eq!(line.access_count, 1);
    assert!(line.is_hit(42));
    assert!(!line.is_hit(41));

    line.invalidate();
    assert!(!line.valid);
    assert_eq!(line.tag, 0);
    assert_eq!(line.last_access, 0);
    assert_eq!(line.access_count, 1);
    assert!(!line.is_hit(42));
}

#[test]
fn set_first_free_fill_before_eviction() {
    let mut set = CacheSet::new(2, ReplacementPolicy::LRU);
    assert!(!set.is_full());
    assert_eq!(set.valid_lines(), 0);
    assert_eq!(set.access(10, 1), (false, None));
    assert_eq!(set.access(20, 2), (false, None));
    assert!(set.is_full());
    assert_eq!(set.valid_lines(), 2);
    assert_eq!(set.access_count, 2);
    assert_eq!(set.hit_count, 0);
    assert_eq!(set.miss_count, 2);
}

#[test]
fn set_lru_evicts_least_recently_used() {
    let mut set = CacheSet::new(2, ReplacementPolicy::LRU);
    set.access(10, 1);
    set.access(20, 2);
    assert_eq!(set.access(10, 3), (true, None));
    // Tag 20 is now the least recently used and must be the victim.
    assert_eq!(set.access(30, 4), (false, Some(20)));
    assert_eq!(set.access(10, 5), (true, None));
    assert_eq!(set.access(20, 6), (false, Some(30)));
}

#[test]
fn set_fifo_evicts_in_insertion_order_despite_reaccess() {
    let mut set = CacheSet::new(2, ReplacementPolicy::FIFO);
    set.access(10, 1);
    set.access(20, 2);
    // Re-access tag 10; FIFO must still evict it first.
    assert_eq!(set.access(10, 3), (true, None));
    assert_eq!(set.access(30, 4), (false, Some(10)));
    assert_eq!(set.fifo_index, 1);
    assert_eq!(set.access(40, 5), (false, Some(20)));
    assert_eq!(set.fifo_index, 0);
}

#[test]
fn set_random_victim_is_function_of_access_count() {
    let mut set = CacheSet::new(2, ReplacementPolicy::Random);
    set.access(10, 1);
    set.access(20, 2);
    // Third access: counter becomes 3, victim index 3 % 2 == 1, so tag 20.
    assert_eq!(set.access(30, 3), (false, Some(20)));
    // Fourth access: counter 4, victim index 0, so tag 10.
    assert_eq!(set.access(40, 4), (false, Some(10)));
}

#[test]
fn set_flush_invalidates_only_matching_tag() {
    let mut set = CacheSet::new(2, ReplacementPolicy::LRU);
    set.access(10, 1);
    set.access(20, 2);
    assert!(!set.flush(30));
    assert!(set.flush(10));
    assert_eq!(set.valid_lines(), 1);
    assert!(!set.flush(10));
    assert_eq!(set.access(10, 3), (false, None));
}

#[test]
fn decompose_and_reconstruct_address() {
    let cache = Cache::new(4, 2, 64);
    assert_eq!(cache.offset_bits, 6);
    assert_eq!(cache.index_bits, 2);

    let (tag, index, offset) = cache.decompose_address(0x1234);
    assert_eq!(offset, 0x34);
    assert_eq!(index, 0);
    assert_eq!(tag, 0x12);
    let rebuilt = (tag << (cache.offset_bits + cache.index_bits))
        | ((index as u64) << cache.offset_bits) | offset as u64;
    assert_eq!(rebuilt, 0x1234);

    let (tag, index, offset) = cache.decompose_address(0xDEAD_BEEF);
    let rebuilt = (tag << 8) | ((index as u64) << 6) | offset as u64;
    assert_eq!(rebuilt, 0xDEAD_BEEF);
}

#[test]
fn basic_access_pattern_hit_miss_sequence() {
    // 4 sets, 2-way, 64-byte lines: 0x1000, 0x2000 and 0x3000 all map to
    // set 0 with distinct tags, so the 2-way set thrashes: accessing
    // 0x3000 evicts 0x2000 (the LRU line, since 0x1000 was re-accessed),
    // making the final access to 0x2000 a miss.
    let mut cache = Cache::new(4, 2, 64);
    let pattern = [
        (0x1000u64, false, 100u64),
        (0x2000, false, 100),
        (0x1000, true, 1),
        (0x3000, false, 100),
        (0x2000, false, 100),
    ];
    for &(addr, hit, cycles) in pattern.iter() {
        assert_eq!(cache.access(addr), (hit, cycles));
    }
    let stats = cache.stats();
    assert_eq!(stats, CacheStats { total_accesses: 5, total_hits: 1, total_misses: 4 });
}

#[test]
fn repeat_access_always_hits() {
    let mut cache = Cache::new(16, 4, 64);
    for addr in [0u64, 0x5000, 0xFFFF_FFFF, 0x1234_5678_9ABC_DEF0] {
        cache.access(addr);
        assert_eq!(cache.access(addr), (true, 1));
    }
}

#[test]
fn flush_then_access_misses() {
    let mut cache = Cache::new(4, 2, 64);
    let addr = 0x5000;
    cache.access(addr);
    assert_eq!(cache.access(addr), (true, 1));
    assert!(cache.flush(addr));
    assert_eq!(cache.access(addr), (false, 100));
    // Flushing an address that is not resident reports failure.
    assert!(!cache.flush(0x9999_0000));
}

#[test]
fn set_conflicts_fill_and_evict_one_set() {
    // With 4 sets and 64-byte lines, 0x0000, 0x0100, 0x0200 and 0x0300
    // all map to set 0; a 2-way set must miss on all four.
    let mut cache = Cache::new(4, 2, 64);
    for addr in [0x0000u64, 0x0100, 0x0200, 0x0300] {
        assert_eq!(cache.access(addr), (false, 100));
    }
    let detailed = cache.detailed_stats();
    assert_eq!(detailed.len(), 4);
    assert_eq!(detailed[0].accesses, 4);
    assert_eq!(detailed[0].misses, 4);
    assert_eq!(detailed[0].hits, 0);
    assert_eq!(detailed[0].valid_lines, 2);
    assert_eq!(detailed[1].accesses, 0);
}

#[test]
fn timestamp_advances_once_per_access() {
    let mut cache = Cache::new(4, 2, 64);
    assert_eq!(cache.timestamp, 0);
    cache.access(0x40);
    cache.access(0x80);
    cache.flush(0x40);
    assert_eq!(cache.timestamp, 2);
}

#[test]
fn config_geometry_derivation() {
    let dm = CacheConfig::direct_mapped(16 * 1024, 64);
    assert_eq!(dm.num_sets(), 256);
    assert_eq!(dm.associativity(), 1);
    assert_eq!(dm.cache_type, CacheType::DirectMapped);
    assert_eq!(dm.replacement_policy, ReplacementPolicy::LRU);

    let sa = CacheConfig::set_associative(32 * 1024, 64, 4, ReplacementPolicy::FIFO);
    assert_eq!(sa.num_sets(), 128);
    assert_eq!(sa.associativity(), 4);

    let fa = CacheConfig::fully_associative(8 * 1024, 64, ReplacementPolicy::Random);
    assert_eq!(fa.num_sets(), 1);
    assert_eq!(fa.associativity(), 128);
}

#[test]
fn config_validity_check() {
    assert!(CacheConfig::direct_mapped(16 * 1024, 64).is_valid());
    assert!(CacheConfig::set_associative(32 * 1024, 64, 8, ReplacementPolicy::LRU)
        .is_valid());
    assert!(CacheConfig::fully_associative(8 * 1024, 64, ReplacementPolicy::LRU)
        .is_valid());
    // A line size that is not a power of two is rejected.
    assert!(!CacheConfig::direct_mapped(16 * 1024, 63).is_valid());
    // A zero-way configuration is rejected.
    assert!(!CacheConfig::set_associative(32 * 1024, 64, 0, ReplacementPolicy::LRU)
        .is_valid());
    // A configuration yielding zero sets is rejected.
    assert!(!CacheConfig::direct_mapped(0, 64).is_valid());
}

#[test]
fn config_catalogues() {
    let test_configs = CacheConfigs::get_test_configs();
    assert_eq!(test_configs.len(), 9);
    for config in test_configs.iter() {
        assert!(config.is_valid());
    }
    let attack_configs = CacheConfigs::get_attack_configs();
    assert_eq!(attack_configs.len(), 4);
    for config in attack_configs.iter() {
        assert!(config.is_valid());
    }
}

#[test]
fn from_config_builds_stated_geometry() {
    let config = CacheConfig::set_associative(32 * 1024, 64, 4, ReplacementPolicy::LRU);
    let cache = Cache::from_config(config);
    assert_eq!(cache.num_sets, 128);
    assert_eq!(cache.associativity, 4);
    assert_eq!(cache.line_size, 64);
    assert_eq!(cache.index_bits, 7);
    assert_eq!(cache.offset_bits, 6);
    assert_eq!(cache.sets.len(), 128);
    assert_eq!(cache.timestamp, 0);
    let stats = cache.stats();
    assert_eq!(stats.total_accesses, 0);
    assert_eq!(stats.total_hits, 0);
    assert_eq!(stats.total_misses, 0);
}

#[test]
fn power_of_two_helpers() {
    assert!(is_power_of_two(1));
    assert!(is_power_of_two(2));
    assert!(is_power_of_two(4096));
    assert!(!is_power_of_two(0));
    assert!(!is_power_of_two(3));
    assert!(!is_power_of_two(4097));
    assert_eq!(log2_of_pow2(1), 0);
    assert_eq!(log2_of_pow2(64), 6);
    assert_eq!(log2_of_pow2(4096), 12);
}

#[test]
fn access_timing_record() {
    let timing = AccessTiming { address: 0x1000, access_time: 100, cache_hit: false,
        timestamp: 1 };
    assert_eq!(timing.address, 0x1000);
    assert_eq!(timing.access_time, 100);
    assert!(!timing.cache_hit);
    assert_eq!(timing.timestamp, 1);
}

#[test]
fn direct_mapped_conflicts_evict_immediately() {
    // A direct-mapped cache is the 1-way special case: two tags in the
    // same set can never coexist.
    let config = CacheConfig::direct_mapped(4 * 64, 64);
    let mut cache = Cache::from_config(config);
    assert_eq!(cache.num_sets, 4);
    assert_eq!(cache.associativity, 1);
    assert_eq!(cache.access(0x000), (false, 100));
    assert_eq!(cache.access(0x100), (false, 100));
    assert_eq!(cache.access(0x000), (false, 100));
    assert_eq!(cache.access(0x040), (false, 100));
    assert_eq!(cache.access(0x040), (true, 1));
}

#[test]
fn fully_associative_uses_single_set() {
    // A fully-associative cache is the 1-set special case: the index is
    // always 0 and no two distinct tags conflict until the set is full.
    let config = CacheConfig::fully_associative(4 * 64, 64, ReplacementPolicy::LRU);
    let mut cache = Cache::from_config(config);
    assert_eq!(cache.num_sets, 1);
    assert_eq!(cache.associativity, 4);
    assert_eq!(cache.index_bits, 0);
    for addr in [0x000u64, 0x100, 0x200, 0x300] {
        let (_, index, _) = cache.decompose_address(addr);
        assert_eq!(index, 0);
        cache.access(addr);
    }
    for addr in [0x000u64, 0x100, 0x200, 0x300] {
        assert_eq!(cache.access(addr), (true, 1));
    }
    // A fifth tag evicts the least recently used, 0x000.
    assert_eq!(cache.access(0x400), (false, 100));
    assert_eq!(cache.access(0x000), (false, 100));
}
