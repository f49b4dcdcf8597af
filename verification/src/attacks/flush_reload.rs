//! Flush+Reload: evict specific monitored addresses, let the victim run,
//! then re-access them and time each reload.  A fast reload (a hit) means
//! the victim touched exactly that address — finer grained than
//! Prime+Probe's set-level signal.

use vstd::prelude::*;
use crate::cache::{Cache, CacheModel, cache_inv, cache_access_spec, cache_accesses_spec,
    cache_flushes_spec, lemma_cache_access_preserves_inv, lemma_flushes_preserve_inv,
    lemma_sum_access_elem, addr_index, addr_tag, same_geometry};
use crate::set::{has_matching_line, lemma_set_flush_absence, lemma_set_access_adds_tag};
use crate::attacks::prime_probe::lemma_probe_prefix_result;

verus! {

/// The number of `true` entries in a detection vector.
pub open spec fn count_true(results: Seq<bool>) -> int
    decreases results.len(),
{
    if results.len() == 0 {
        0
    } else {
        count_true(results.drop_last()) + if results.last() {
            1int
        } else {
            0int
        }
    }
}

/// A scripted victim workload, chosen by the caller of
/// `sim_victim_scenario`.
#[derive(Debug, Clone, Copy, PartialEq, Eq, Structural)]
pub enum VictimScenario {
    /// The victim performs no memory access.
    Idle,
    /// The victim reads the first two monitored lookup-table entries.
    Pattern1,
    /// The victim reads the next two lookup-table entries.
    Pattern2,
    /// The victim hides one monitored access among unrelated traffic.
    Noisy,
}

/// The access list a scenario drives through the cache.
pub open spec fn scenario_addrs(scenario: VictimScenario) -> Seq<u64> {
    match scenario {
        VictimScenario::Idle => Seq::empty(),
        VictimScenario::Pattern1 => seq![0x10000u64, 0x10040u64],
        VictimScenario::Pattern2 => seq![0x10080u64, 0x100C0u64],
        VictimScenario::Noisy => Seq::new(10, |i: int| (0x20000 + i * 64) as u64).push(
            0x10000u64),
    }
}

/// A Flush+Reload attack instance: the monitored addresses, and the cycle
/// counts and detection flags of the most recent reload.
pub struct FlushReloadAttack {
    pub monitored_addresses: Vec<u64>,
    pub acess_times: Vec<u64>,
    pub detection_results: Vec<bool>,
}

impl FlushReloadAttack {
    /// Build an attack monitoring the given addresses.
    pub fn new(addresses: Vec<u64>) -> (attack: FlushReloadAttack)
        ensures
            attack.monitored_addresses == addresses,
            attack.acess_times@.len() == 0,
            attack.detection_results@.len() == 0,
    {
        FlushReloadAttack {
            monitored_addresses: addresses,
            acess_times: Vec::new(),
            detection_results: Vec::new(),
        }
    }

    /// Flush: invalidate every monitored address's line, so that a later
    /// reload can only be fast if the victim brought the line back.
    #[verifier::loop_isolation(false)]
    pub fn flush(&self, cache: &mut Cache)
        requires
            cache_inv(old(cache)@),
        ensures
            cache_inv(final(cache)@),
            final(cache)@ == cache_flushes_spec(old(cache)@,
                self.monitored_addresses@).0,
    {
        let ghost m0 = cache@;
        let n = self.monitored_addresses.len();
        let mut i: usize = 0;
        while i < n
            invariant
                i <= n,
                cache_inv(cache@),
                cache@ == cache_flushes_spec(m0, self.monitored_addresses@.take(
                    i as int)).0,
            decreases n - i,
        {
            proof {
                assert(self.monitored_addresses@.take(i + 1).drop_last()
                    =~= self.monitored_addresses@.take(i as int));
                assert(self.monitored_addresses@.take(i + 1).last()
                    == self.monitored_addresses@[i as int]);
            }
            cache.flush(self.monitored_addresses[i]);
            i = i + 1;
        }
        proof {
            assert(self.monitored_addresses@.take(n as int)
                =~= self.monitored_addresses@);
        }
    }

    /// Reload: re-access every monitored address, record the cycle
    /// counts, and flag each address as victim-accessed exactly when the
    /// reload hit below the 50-cycle threshold.  Under the fixed timing
    /// model a hit always costs 1 cycle, so the flag equals the hit bit;
    /// the threshold form mirrors Prime+Probe's classifier.
    #[verifier::loop_isolation(false)]
    pub fn reload(&mut self, cache: &mut Cache) -> (results: Vec<bool>)
        requires
            cache_inv(old(cache)@),
            old(cache)@.timestamp + old(self).monitored_addresses@.len() <= u64::MAX,
        ensures
            cache_inv(final(cache)@),
            final(cache)@ == cache_accesses_spec(old(cache)@,
                old(self).monitored_addresses@).0,
            final(self).monitored_addresses@ == old(self).monitored_addresses@,
            final(self).acess_times@.len() == old(self).monitored_addresses@.len(),
            final(self).detection_results@.len()
                == old(self).monitored_addresses@.len(),
            forall|i: int| 0 <= i < old(self).monitored_addresses@.len()
                ==> #[trigger] final(self).acess_times@[i] == cache_accesses_spec(old(
                cache)@, old(self).monitored_addresses@).1[i].1,
            forall|i: int| 0 <= i < old(self).monitored_addresses@.len()
                ==> #[trigger] final(self).detection_results@[i] == (cache_accesses_spec(
                old(cache)@, old(self).monitored_addresses@).1[i].0
                && cache_accesses_spec(old(cache)@, old(self).monitored_addresses@).1[
                i].1 < 50),
            results@ == final(self).detection_results@,
    {
        let ghost m0 = cache@;
        let ghost addrs = self.monitored_addresses@;
        self.acess_times.clear();
        self.detection_results.clear();
        let n = self.monitored_addresses.len();
        let mut i: usize = 0;
        while i < n
            invariant
                i <= n,
                self.monitored_addresses@ == addrs,
                cache_inv(cache@),
                cache@ == cache_accesses_spec(m0, addrs.take(i as int)).0,
                cache@.timestamp == m0.timestamp + i,
                self.acess_times@.len() == i,
                self.detection_results@.len() == i,
                forall|j: int| 0 <= j < i ==> #[trigger] self.acess_times@[j]
                    == cache_accesses_spec(m0, addrs).1[j].1,
                forall|j: int| 0 <= j < i ==> #[trigger] self.detection_results@[j]
                    == (cache_accesses_spec(m0, addrs).1[j].0 && cache_accesses_spec(m0,
                    addrs).1[j].1 < 50),
            decreases n - i,
        {
            proof {
                assert(addrs.take(i + 1).drop_last() =~= addrs.take(i as int));
                assert(addrs.take(i + 1).last() == addrs[i as int]);
                lemma_cache_access_preserves_inv(cache@, addrs[i as int]);
                lemma_probe_prefix_result(m0, addrs, i as int);
            }
            let r = cache.access(self.monitored_addresses[i]);
            let hit = r.0;
            let time = r.1;
            self.acess_times.push(time);
            let victim_accessed = hit && time < 50;
            self.detection_results.push(victim_accessed);
            proof {
                let full = cache_accesses_spec(m0, addrs).1;
                let pref = cache_accesses_spec(m0, addrs.take(i + 1)).1;
                assert(pref.last() == full[i as int]);
            }
            i = i + 1;
        }
        proof {
            assert(addrs.take(n as int) =~= addrs);
        }
        self.detection_results.clone()
    }

    /// The detection tally: how many monitored addresses were flagged,
    /// out of how many were checked.
    #[verifier::loop_isolation(false)]
    pub fn get_summary(&self) -> (r: (usize, usize))
        ensures
            r.0 as int == count_true(self.detection_results@),
            r.1 == self.detection_results@.len(),
    {
        let n = self.detection_results.len();
        let mut accessed_count: usize = 0;
        let mut i: usize = 0;
        while i < n
            invariant
                i <= n,
                accessed_count <= i,
                accessed_count as int == count_true(self.detection_results@.take(
                    i as int)),
            decreases n - i,
        {
            proof {
                assert(self.detection_results@.take(i + 1).drop_last()
                    =~= self.detection_results@.take(i as int));
                assert(self.detection_results@.take(i + 1).last()
                    == self.detection_results@[i as int]);
            }
            if self.detection_results[i] {
                accessed_count = accessed_count + 1;
            }
            i = i + 1;
        }
        proof {
            assert(self.detection_results@.take(n as int) =~= self.detection_results@);
        }
        (accessed_count, n)
    }
}

/// Drive the scripted victim workload of `scenario` through the cache.
#[verifier::loop_isolation(false)]
pub fn sim_victim_scenario(cache: &mut Cache, scenario: VictimScenario)
    requires
        cache_inv(old(cache)@),
        old(cache)@.timestamp + 11 <= u64::MAX,
    ensures
        cache_inv(final(cache)@),
        final(cache)@ == cache_accesses_spec(old(cache)@, scenario_addrs(scenario)).0,
{
    let ghost m0 = cache@;
    match scenario {
        VictimScenario::Idle => {
            proof {
                assert(cache@ == cache_accesses_spec(m0, scenario_addrs(scenario)).0);
            }
        },
        VictimScenario::Pattern1 => {
            cache.access(0x10000);
            cache.access(0x10040);
            proof {
                reveal_with_fuel(cache_accesses_spec, 4);
                let addrs = scenario_addrs(scenario);
                assert(addrs.len() == 2 && addrs[0] == 0x10000u64 && addrs[1]
                    == 0x10040u64);
                assert(addrs.last() == 0x10040u64);
                assert(addrs.drop_last() =~= seq![0x10000u64]);
                assert(seq![0x10000u64].last() == 0x10000u64);
                assert(seq![0x10000u64].drop_last() =~= Seq::<u64>::empty());
                assert(cache@ == cache_accesses_spec(m0, addrs).0);
            }
        },
        VictimScenario::Pattern2 => {
            cache.access(0x10080);
            cache.access(0x100C0);
            proof {
                reveal_with_fuel(cache_accesses_spec, 4);
                let addrs = scenario_addrs(scenario);
                assert(addrs.len() == 2 && addrs[0] == 0x10080u64 && addrs[1]
                    == 0x100C0u64);
                assert(addrs.last() == 0x100C0u64);
                assert(addrs.drop_last() =~= seq![0x10080u64]);
                assert(seq![0x10080u64].last() == 0x10080u64);
                assert(seq![0x10080u64].drop_last() =~= Seq::<u64>::empty());
                assert(cache@ == cache_accesses_spec(m0, addrs).0);
            }
        },
        VictimScenario::Noisy => {
            let ghost noise = Seq::new(10, |i: int| (0x20000 + i * 64) as u64);
            let mut i: u64 = 0;
            while i < 10
                invariant
                    i <= 10,
                    cache_inv(cache@),
                    cache@ == cache_accesses_spec(m0, noise.take(i as int)).0,
                    cache@.timestamp == m0.timestamp + i,
                decreases 10 - i,
            {
                proof {
                    assert(noise.take(i + 1).drop_last() =~= noise.take(i as int));
                    assert(noise.take(i + 1).last() == noise[i as int]);
                    assert(noise[i as int] == 0x20000 + i * 64);
                }
                cache.access(0x20000 + i * 64);
                i = i + 1;
            }
            proof {
                assert(noise.take(10) =~= noise);
            }
            cache.access(0x10000);
            proof {
                let addrs = scenario_addrs(scenario);
                assert(addrs.drop_last() =~= noise);
                assert(cache@ == cache_accesses_spec(m0, addrs).0);
            }
        },
    }
}


/// After flushing a list of addresses, none of their tags is resident in
/// its set.
pub proof fn lemma_flushes_clear(m: CacheModel, addrs: Seq<u64>)
    requires
        cache_inv(m),
    ensures
        ({
            let r = cache_flushes_spec(m, addrs).0;
            forall|i: int| 0 <= i < addrs.len() ==> !(#[trigger] has_matching_line(
                r.sets[addr_index(m, addrs[i])].lines, addr_tag(m, addrs[i]) as u64))
        }),
    decreases addrs.len(),
{
    vstd::arithmetic::power2::lemma_pow2_pos(m.index_bits as nat);
    if addrs.len() > 0 {
        let prefix = addrs.drop_last();
        lemma_flushes_clear(m, prefix);
        lemma_flushes_preserve_inv(m, prefix);
        let mp = cache_flushes_spec(m, prefix).0;
        let a = addrs.last();
        let idx = addr_index(m, a);
        let tag = addr_tag(m, a) as u64;
        assert(addr_index(mp, a) == idx && addr_tag(mp, a) == addr_tag(m, a));
        lemma_set_flush_absence(mp.sets[idx], tag);
        let r = cache_flushes_spec(m, addrs).0;
        assert forall|i: int| 0 <= i < addrs.len() implies !(
        #[trigger] has_matching_line(r.sets[addr_index(m, addrs[i])].lines, addr_tag(m,
            addrs[i]) as u64)) by {
            let ii = addr_index(m, addrs[i]);
            if i < addrs.len() - 1 {
                assert(prefix[i] == addrs[i]);
                assert(!has_matching_line(mp.sets[ii].lines, addr_tag(m,
                    addrs[i]) as u64));
                if ii != idx {
                    assert(r.sets[ii] == mp.sets[ii]);
                }
            }
        }
    }
}

/// The reload pass over addresses in pairwise distinct sets: each access
/// hits exactly when its tag survived, and leaves every other monitored
/// set untouched.
proof fn lemma_reload_prefix(m2: CacheModel, addrs: Seq<u64>, v: int, k: int)
    requires
        cache_inv(m2),
        0 <= v < addrs.len(),
        0 <= k <= addrs.len(),
        m2.timestamp + addrs.len() <= u64::MAX,
        forall|i: int, j: int| 0 <= i < j < addrs.len() ==> addr_index(m2, addrs[i])
            != addr_index(m2, addrs[j]),
        forall|i: int| 0 <= i < addrs.len() ==> (#[trigger] has_matching_line(m2.sets[
            addr_index(m2, addrs[i])].lines, addr_tag(m2, addrs[i]) as u64)) == (i == v),
    ensures
        ({
            let r = cache_accesses_spec(m2, addrs.take(k));
            &&& cache_inv(r.0)
            &&& same_geometry(m2, r.0)
            &&& r.0.timestamp == m2.timestamp + k
            &&& r.1.len() == k
            &&& forall|j: int| k <= j < addrs.len() ==> r.0.sets[addr_index(m2,
                addrs[j])] == m2.sets[#[trigger] addr_index(m2, addrs[j])]
            &&& forall|i: int| 0 <= i < k ==> (#[trigger] r.1[i]).0 == (i == v)
                && r.1[i].1 == (if i == v {
                1u64
            } else {
                100u64
            })
        }),
    decreases k,
{
    vstd::arithmetic::power2::lemma_pow2_pos(m2.index_bits as nat);
    if k > 0 {
        lemma_reload_prefix(m2, addrs, v, k - 1);
        let prev = cache_accesses_spec(m2, addrs.take(k - 1));
        assert(addrs.take(k).drop_last() =~= addrs.take(k - 1));
        assert(addrs.take(k).last() == addrs[k - 1]);
        let a = addrs[k - 1];
        let idx = addr_index(m2, a);
        assert(addr_index(prev.0, a) == idx && addr_tag(prev.0, a) == addr_tag(m2, a));
        assert(prev.0.sets[idx] == m2.sets[idx]);
        lemma_cache_access_preserves_inv(prev.0, a);
        let r = cache_accesses_spec(m2, addrs.take(k));
        assert forall|j: int| k <= j < addrs.len() implies r.0.sets[addr_index(m2,
            addrs[j])] == m2.sets[#[trigger] addr_index(m2, addrs[j])] by {
            assert(addr_index(m2, addrs[j]) != idx);
        }
    }
}

/// Law: Flush+Reload identifies the victim's address exactly.  After the
/// monitored addresses — all in pairwise distinct sets — are flushed, and
/// the victim accesses exactly one of them, the reload pass flags that
/// address and no other.
pub proof fn lemma_flush_reload_identifies_victim(m: CacheModel, addrs: Seq<u64>, v: int)
    requires
        cache_inv(m),
        0 <= v < addrs.len(),
        m.timestamp + 1 + addrs.len() <= u64::MAX,
        forall|i: int, j: int| 0 <= i < j < addrs.len() ==> addr_index(m, addrs[i])
            != addr_index(m, addrs[j]),
    ensures
        ({
            let flushed = cache_flushes_spec(m, addrs).0;
            let afterv = cache_access_spec(flushed, addrs[v]).0;
            let results = cache_accesses_spec(afterv, addrs).1;
            &&& results.len() == addrs.len()
            &&& forall|i: int| 0 <= i < addrs.len() ==> ((#[trigger] results[i]).0
                && results[i].1 < 50) == (i == v)
        }),
{
    vstd::arithmetic::power2::lemma_pow2_pos(m.index_bits as nat);
    lemma_flushes_clear(m, addrs);
    lemma_flushes_preserve_inv(m, addrs);
    let flushed = cache_flushes_spec(m, addrs).0;
    let av = addrs[v];
    let idxv = addr_index(m, av);
    let tagv = addr_tag(m, av) as u64;
    assert(addr_index(flushed, av) == idxv && addr_tag(flushed, av) == addr_tag(m, av));
    lemma_cache_access_preserves_inv(flushed, av);
    lemma_sum_access_elem(flushed.sets, idxv);
    lemma_set_access_adds_tag(flushed.sets[idxv], tagv, (flushed.timestamp + 1) as u64);
    let afterv = cache_access_spec(flushed, av).0;
    assert forall|i: int| 0 <= i < addrs.len() implies (
    #[trigger] has_matching_line(afterv.sets[addr_index(afterv, addrs[i])].lines,
        addr_tag(afterv, addrs[i]) as u64)) == (i == v) by {
        assert(addr_index(afterv, addrs[i]) == addr_index(m, addrs[i]));
        assert(addr_tag(afterv, addrs[i]) == addr_tag(m, addrs[i]));
        if i != v {
            assert(addr_index(m, addrs[i]) != idxv);
            assert(afterv.sets[addr_index(m, addrs[i])] == flushed.sets[addr_index(m,
                addrs[i])]);
        }
    }
    lemma_reload_prefix(afterv, addrs, v, addrs.len() as int);
    assert(addrs.take(addrs.len() as int) =~= addrs);
}

} // verus!
