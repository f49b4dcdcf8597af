use l1es::cache::Cache;
use l1es::attacks::prime_probe::PrimeProbeAttack;
use l1es::attacks::flush_reload::{FlushReloadAttack, VictimScenario,
    sim_victim_scenario};
use l1es::attacks::meltdown_sim::MeltdownSimulator;
use l1es::attacks::spectre_sim::{BranchPredictor, SpectreSimulator};

#[test]
fn eviction_set_maps_to_target_set() {
    let cache = Cache::new(8, 4, 64);
    let attack = PrimeProbeAttack::new(&cache, 3);
    assert_eq!(attack.target_set, 3);
    // Exactly one address per way: an exact fit for the 4-way set.
    assert_eq!(attack.eviction_set.len(), 4);
    for (i, &addr) in attack.eviction_set.iter().enumerate() {
        let (tag, index, offset) = cache.decompose_address(addr);
        assert_eq!(index, 3);
        assert_eq!(tag, i as u64);
        assert_eq!(offset, 0);
    }
    // The generated formula: i * set_stride + (target_set << offset_bits).
    assert_eq!(attack.eviction_set[0], 3 * 64);
    assert_eq!(attack.eviction_set[1], 512 + 3 * 64);
}

#[test]
fn prime_probe_no_victim_is_quiet() {
    // Priming an empty set and probing immediately yields all hits,
    // below the threshold: no victim activity is reported.
    let mut cache = Cache::new(8, 4, 64);
    let mut attack = PrimeProbeAttack::new(&cache, 3);
    attack.prime(&mut cache);
    let detected = attack.probe(&mut cache);
    assert!(!detected);
    assert_eq!(attack.probe_times, vec![1, 1, 1, 1]);
}

#[test]
fn prime_probe_detects_victim() {
    let mut cache = Cache::new(8, 4, 64);
    let mut attack = PrimeProbeAttack::new(&cache, 3);
    attack.prime(&mut cache);
    // A victim access into set 3 with a fresh tag evicts an attacker line.
    PrimeProbeAttack::simulate_victim_access(&mut cache, 3);
    let detected = attack.probe(&mut cache);
    assert!(detected);
    assert_eq!(attack.probe_times, vec![100, 100, 100, 100]);
}

#[test]
fn prime_probe_ignores_other_set() {
    let mut cache = Cache::new(8, 4, 64);
    let mut attack = PrimeProbeAttack::new(&cache, 3);
    attack.prime(&mut cache);
    // Victim activity in a different set leaves the monitored set alone.
    PrimeProbeAttack::simulate_victim_access(&mut cache, 5);
    assert!(!attack.probe(&mut cache));
}

#[test]
fn prime_probe_overfilled_set_thrashes_itself() {
    // An eviction set that over-fills the set (here by two addresses)
    // evicts its own earliest lines during the probe and reports victim
    // activity with no victim at all — which is why the generated set is
    // an exact fit.
    let mut cache = Cache::new(8, 4, 64);
    let stride = 512u64;
    let eviction_set: Vec<u64> = (0..6).map(|i| i * stride + 3 * 64).collect();
    let mut attack = PrimeProbeAttack { target_set: 3, eviction_set,
        probe_times: Vec::new() };
    attack.prime(&mut cache);
    let detected = attack.probe(&mut cache);
    assert!(detected);
}

#[test]
fn flush_reload_flags_exactly_the_victim_address() {
    let mut cache = Cache::new(16, 4, 64);
    let monitored = vec![0x10000u64, 0x10040, 0x10080, 0x100C0, 0x10100];
    let mut attack = FlushReloadAttack::new(monitored);
    attack.flush(&mut cache);
    // The victim touches exactly one monitored address.
    cache.access(0x10080);
    let results = attack.reload(&mut cache);
    assert_eq!(results, vec![false, false, true, false, false]);
    assert_eq!(attack.acess_times, vec![100, 100, 1, 100, 100]);
    assert_eq!(attack.get_summary(), (1, 5));
}

#[test]
fn flush_reload_no_victim_flags_nothing() {
    let mut cache = Cache::new(16, 4, 64);
    let monitored = vec![0x10000u64, 0x10040, 0x10080, 0x100C0, 0x10100];
    // Warm the cache first so the flush has something to evict.
    for &addr in monitored.iter() {
        cache.access(addr);
    }
    let mut attack = FlushReloadAttack::new(monitored);
    attack.flush(&mut cache);
    let results = attack.reload(&mut cache);
    assert_eq!(results, vec![false; 5]);
    assert_eq!(attack.get_summary(), (0, 5));
}

#[test]
fn flush_reload_scenarios() {
    let mut cache = Cache::new(16, 4, 64);
    let monitored = vec![0x10000u64, 0x10040, 0x10080, 0x100C0, 0x10100];

    let mut attack = FlushReloadAttack::new(monitored.clone());
    attack.flush(&mut cache);
    sim_victim_scenario(&mut cache, VictimScenario::Idle);
    assert_eq!(attack.reload(&mut cache), vec![false; 5]);

    let mut attack = FlushReloadAttack::new(monitored.clone());
    attack.flush(&mut cache);
    sim_victim_scenario(&mut cache, VictimScenario::Pattern1);
    assert_eq!(attack.reload(&mut cache), vec![true, true, false, false, false]);

    let mut attack = FlushReloadAttack::new(monitored.clone());
    attack.flush(&mut cache);
    sim_victim_scenario(&mut cache, VictimScenario::Pattern2);
    assert_eq!(attack.reload(&mut cache), vec![false, false, true, true, false]);

    let mut attack = FlushReloadAttack::new(monitored);
    attack.flush(&mut cache);
    sim_victim_scenario(&mut cache, VictimScenario::Noisy);
    assert_eq!(attack.reload(&mut cache), vec![true, false, false, false, false]);
}

#[test]
fn meltdown_attack_encodes_kernel_byte_in_cache() {
    let mut meltdown = MeltdownSimulator::new();
    assert_eq!(meltdown.kernel_memory, b"KERNEL_SECRET_KEY_123!".to_vec());

    assert!(meltdown.meltdown_attack(0));
    assert!(meltdown.page_fault_occured);

    // The side effect survives the fault: the probe entry of the read
    // byte ('K' == 75) is resident, every other probe entry is not.
    let hit_addr = meltdown.probe_array[75];
    let miss_addr = meltdown.probe_array[74];
    assert_eq!(meltdown.cache.access(miss_addr), (false, 100));
    assert_eq!(meltdown.cache.access(hit_addr), (true, 1));

    meltdown.handle_exception();
    assert!(!meltdown.page_fault_occured);
}

#[test]
fn meltdown_out_of_range_offset_reads_sentinel() {
    let mut meltdown = MeltdownSimulator::new();
    assert!(meltdown.meltdown_attack(1000));
    // The sentinel byte 0xDE is encoded and extracted instead.
    assert_eq!(meltdown.extract_kernel_byte(), Some(0xDE));
}

#[test]
fn meltdown_extraction_recovers_the_attacked_byte() {
    let mut meltdown = MeltdownSimulator::new();
    assert!(meltdown.meltdown_attack(0));
    assert_eq!(meltdown.extract_kernel_byte(), Some(b'K'));
}

#[test]
fn meltdown_recovers_every_kernel_byte() {
    // Attack-then-extract recovers the exact byte at every in-bounds
    // offset; the attack's own flush pass resets the side channel, so
    // the pairs compose across the whole secret.
    let mut meltdown = MeltdownSimulator::new();
    for offset in 0..meltdown.kernel_memory.len() {
        assert!(meltdown.meltdown_attack(offset));
        let expected = meltdown.kernel_memory[offset];
        assert_eq!(meltdown.extract_kernel_byte(), Some(expected));
        meltdown.handle_exception();
        assert!(!meltdown.page_fault_occured);
    }
}

#[test]
fn meltdown_extraction_of_clean_channel_finds_nothing() {
    // Without an attack, no probe entry is resident and the scan reports
    // nothing.
    let mut meltdown = MeltdownSimulator::new();
    assert_eq!(meltdown.extract_kernel_byte(), None);
}

#[test]
fn meltdown_guarded_read() {
    let mut meltdown = MeltdownSimulator::new();
    assert_eq!(meltdown.access_kernel_memory(0), Some(b'K'));
    assert!(!meltdown.page_fault_occured);
    assert_eq!(meltdown.access_kernel_memory(999), None);
    assert!(meltdown.page_fault_occured);
}

#[test]
fn branch_predictor_window_trim_quirk() {
    // The window is trimmed by removing index 10 — the entry just pushed —
    // so a full ten-entry window never changes, and the confidence counts
    // the unchanged window against the latest outcome.
    let mut predictor = BranchPredictor::new();
    assert_eq!(predictor.history, vec![true; 10]);
    assert_eq!(predictor.predict(), (true, 9));

    predictor.train(false);
    assert_eq!(predictor.history, vec![true; 10]);
    assert_eq!(predictor.confidence_count, 0);
    assert_eq!(predictor.predict(), (true, 0));

    predictor.train(true);
    assert_eq!(predictor.history, vec![true; 10]);
    assert_eq!(predictor.confidence_count, 10);
    assert_eq!(predictor.predict(), (true, 10));
}

#[test]
fn spectre_speculation_encodes_secret_before_bounds_check() {
    let mut spectre = SpectreSimulator::new();
    assert_eq!(spectre.secret_data, b"SECRET_PASS_123!".to_vec());

    // Confidence starts at 9/10 > 0.7 with an all-taken window, so the
    // very first call speculates.  In bounds, the architectural result is
    // the secret byte itself.
    assert_eq!(spectre.victim_function(0), Some(b'S'));
    let encoded = spectre.probe_array[b'S' as usize];
    assert_eq!(spectre.cache.access(encoded), (true, 1));
}

#[test]
fn spectre_out_of_bounds_denied_but_side_effect_persists() {
    let mut spectre = SpectreSimulator::new();
    // Out of bounds: architecturally denied...
    assert_eq!(spectre.victim_function(100), None);
    // ...but the speculative read of the sentinel 0xFF was encoded.
    let encoded = spectre.probe_array[0xFF];
    assert_eq!(spectre.cache.access(encoded), (true, 1));
    // The predictor was trained on the failed outcome: against the
    // all-taken window, its confidence collapses to 0.
    assert_eq!(spectre.branch_predictor.confidence_count, 0);
    // With confidence 0 no speculation happens on the next call.
    assert_eq!(spectre.victim_function(200), None);
    let not_encoded = spectre.probe_array[0xFE];
    assert_eq!(spectre.cache.access(not_encoded), (false, 100));
}

#[test]
fn spectre_extraction_recovers_the_speculated_byte() {
    // Each probe entry sits in its own cache set, so the extraction scan
    // pollutes only sets it has already passed and finds the one entry
    // the speculative read encoded.
    let mut spectre = SpectreSimulator::new();
    spectre.victim_function(0);
    assert_eq!(spectre.extract_secret_byte(), Some(b'S'));
}

#[test]
fn spectre_extraction_of_clean_channel_finds_nothing() {
    let mut spectre = SpectreSimulator::new();
    assert_eq!(spectre.extract_secret_byte(), None);
}

#[test]
fn flush_reload_with_no_monitored_addresses() {
    let mut cache = Cache::new(4, 2, 64);
    let mut attack = FlushReloadAttack::new(Vec::new());
    attack.flush(&mut cache);
    assert_eq!(attack.reload(&mut cache), Vec::<bool>::new());
    assert_eq!(attack.get_summary(), (0, 0));
}

#[test]
fn probe_with_empty_eviction_set_detects_nothing() {
    let mut cache = Cache::new(4, 2, 64);
    let mut attack = PrimeProbeAttack { target_set: 0, eviction_set: Vec::new(),
        probe_times: Vec::new() };
    attack.prime(&mut cache);
    assert!(!attack.probe(&mut cache));
    assert!(attack.probe_times.is_empty());
}
