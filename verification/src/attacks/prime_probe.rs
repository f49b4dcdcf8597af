//! Prime+Probe: fill a chosen cache set with attacker-owned lines, let the
//! victim run, then re-access the same addresses and classify the mean
//! cycle count.  A slow probe means the victim touched the monitored set.

use vstd::prelude::*;
use vstd::arithmetic::power2::{pow2, lemma_pow2_pos, lemma_pow2_adds};
use vstd::arithmetic::div_mod::{lemma_mod_multiples_basic, lemma_mod_multiples_vanish,
    lemma_div_by_multiple, lemma_div_multiples_vanish_fancy};
use vstd::bits::{lemma_u64_shl_is_mul, lemma_u64_pow2_no_overflow};
use crate::cache::{Cache, CacheModel, cache_inv, cache_access_spec, cache_accesses_spec,
    lemma_accesses_preserve_inv, lemma_cache_access_preserves_inv, addr_index, addr_tag,
    addr_offset, same_geometry};
use crate::set::{has_matching_line, lemma_first_invalid, first_invalid,
    has_invalid_line, lemma_set_access_hit_preserves_tags, set_access, first_matching,
    lru_victim, lemma_lru_victim, SetModel};
use crate::line::line_matches;
use crate::cache::{lemma_addr_bounds, lemma_sum_access_elem};

verus! {

/// The i-th address of an eviction set for `target_set`: `i` set-strides
/// plus the target's index bits.  Decomposes to tag `i`, index
/// `target_set`, offset 0.
pub open spec fn eviction_addr(m: CacheModel, target_set: int, i: int) -> int {
    i * (m.line_size as int * m.num_sets as int) + target_set * m.line_size as int
}

/// A sequence of addresses forming an exact-fit eviction set for
/// `target_set`: address `i` is the i-th eviction-set address, and every
/// address fits the 64-bit space.
pub open spec fn exact_eviction_set(m: CacheModel, target_set: int, addrs: Seq<u64>) ->
    bool {
    &&& 0 <= target_set < m.num_sets
    &&& forall|i: int| 0 <= i < addrs.len() ==> #[trigger] addrs[i] as int
        == eviction_addr(m, target_set, i) && eviction_addr(m, target_set, i)
        <= u64::MAX
}

/// The shape of the monitored set right after priming it from empty and
/// then suffering one victim access under LRU: the victim's line (a tag
/// outside the eviction set) displaced the oldest primed line at index 0
/// and carries the newest timestamp `t0 + a + 1`; the other lines still
/// hold their primed tags with timestamps `t0 + i + 1`.
pub open spec fn primed_then_victim(s: SetModel, a: int, t0: u64, vtag: u64) -> bool {
    &&& s.lines.len() == a
    &&& s.replacement_policy is LRU
    &&& forall|i: int| 0 <= i < a ==> vtag != (#[trigger] (i as u64))
    &&& s.lines[0].valid && s.lines[0].tag == vtag && s.lines[0].last_access == t0 + a
        + 1
    &&& forall|i: int| 1 <= i < a ==> (#[trigger] s.lines[i]).valid && s.lines[i].tag
        == i as u64 && s.lines[i].last_access == t0 + i + 1
}

/// The total cycle count of a sequence of (hit, cycles) observations.
pub open spec fn total_cycles(results: Seq<(bool, u64)>) -> int
    decreases results.len(),
{
    if results.len() == 0 {
        0
    } else {
        total_cycles(results.drop_last()) + results.last().1
    }
}

/// The decomposition of an eviction-set address: tag `i`, index
/// `target_set`, offset 0.
pub proof fn lemma_eviction_addr_fields(m: CacheModel, target_set: int, i: int)
    requires
        cache_inv(m),
        0 <= target_set < m.num_sets,
        0 <= i,
        eviction_addr(m, target_set, i) <= u64::MAX,
    ensures
        ({
            let a = eviction_addr(m, target_set, i) as u64;
            &&& addr_tag(m, a) == i
            &&& addr_index(m, a) == target_set
            &&& addr_offset(m, a) == 0
        }),
{
    lemma_pow2_pos(m.offset_bits as nat);
    lemma_pow2_pos(m.index_bits as nat);
    let ls = m.line_size as int;
    let ns = m.num_sets as int;
    let a = eviction_addr(m, target_set, i);
    assert(a == (i * ns + target_set) * ls && a >= 0 && i * ns + target_set >= 0 && ls
        * ns > 0) by (nonlinear_arith)
        requires
            a == i * (ls * ns) + target_set * ls,
            0 <= target_set < ns,
            0 <= i,
            ls >= 1,
            ns >= 1,
    ;
    lemma_mod_multiples_basic(i * ns + target_set, ls);
    lemma_div_by_multiple(i * ns + target_set, ls);
    assert(addr_offset(m, a as u64) == 0);
    assert(a / ls == i * ns + target_set);
    assert(i * ns == ns * i) by (nonlinear_arith);
    lemma_mod_multiples_vanish(i, target_set, ns);
    vstd::arithmetic::div_mod::lemma_small_mod(target_set as nat, ns as nat);
    assert(addr_index(m, a as u64) == target_set);
    assert(a == (ls * ns) * i + target_set * ls && 0 <= target_set * ls < ls * ns)
        by (nonlinear_arith)
        requires
            a == i * (ls * ns) + target_set * ls,
            0 <= target_set < ns,
            ls >= 1,
            ns >= 1,
    ;
    lemma_div_multiples_vanish_fancy(i, target_set * ls, ls * ns);
    assert(addr_tag(m, a as u64) == i);
}

/// A Prime+Probe attack instance: the monitored set, the generated
/// eviction set, and the cycle counts of the most recent probe.
pub struct PrimeProbeAttack {
    pub target_set: usize,
    pub eviction_set: Vec<u64>,
    pub probe_times: Vec<u64>,
}

impl PrimeProbeAttack {
    /// Build an attack on `target_set`, generating its eviction set from
    /// the cache's geometry.
    pub fn new(cache: &Cache, target_set: usize) -> (attack: PrimeProbeAttack)
        requires
            cache_inv(cache@),
            target_set < cache@.num_sets,
            cache@.associativity as int * (cache@.line_size as int
                * cache@.num_sets as int) <= u64::MAX as int,
        ensures
            attack.target_set == target_set,
            attack.probe_times@.len() == 0,
            attack.eviction_set@.len() == cache@.associativity,
            exact_eviction_set(cache@, target_set as int, attack.eviction_set@),
            forall|i: int| 0 <= i < attack.eviction_set@.len()
                ==> #[trigger] attack.eviction_set@[i] as int == eviction_addr(cache@,
                target_set as int, i),
            forall|i: int| 0 <= i < attack.eviction_set@.len() ==> addr_tag(cache@,
                #[trigger] attack.eviction_set@[i]) == i && addr_index(cache@,
                attack.eviction_set@[i]) == target_set as int && addr_offset(cache@,
                attack.eviction_set@[i]) == 0,
    {
        let eviction_set = Self::generate_eviction_set(cache, target_set);
        PrimeProbeAttack { target_set: target_set, eviction_set: eviction_set,
            probe_times: Vec::new() }
    }

    /// Generate one address per way of `target_set`, with pairwise
    /// distinct tags: enough to fill the set exactly.  A larger set would
    /// evict its own earliest lines during the probe pass and report
    /// victim activity where there was none, so the probe works with an
    /// exact fit.
    #[verifier::loop_isolation(false)]
    pub fn generate_eviction_set(cache: &Cache, target_set: usize) -> (r: Vec<u64>)
        requires
            cache_inv(cache@),
            target_set < cache@.num_sets,
            cache@.associativity as int * (cache@.line_size as int
                * cache@.num_sets as int) <= u64::MAX as int,
        ensures
            r@.len() == cache@.associativity,
            exact_eviction_set(cache@, target_set as int, r@),
            forall|i: int| 0 <= i < r@.len() ==> #[trigger] r@[i] as int == eviction_addr(
                cache@, target_set as int, i),
            forall|i: int| 0 <= i < r@.len() ==> addr_tag(cache@, #[trigger] r@[i]) == i
                && addr_index(cache@, r@[i]) == target_set as int && addr_offset(cache@,
                r@[i]) == 0,
    {
        let ghost m = cache@;
        proof {
            lemma_pow2_pos(m.offset_bits as nat);
            lemma_pow2_pos(m.index_bits as nat);
            lemma_pow2_adds(m.offset_bits as nat, m.index_bits as nat);
            lemma_u64_pow2_no_overflow((m.offset_bits + m.index_bits) as nat);
            lemma_u64_shl_is_mul(1u64, (m.offset_bits + m.index_bits) as u64);
        }
        let set_stride: u64 = 1u64 << ((cache.offset_bits + cache.index_bits) as u64);
        proof {
            assert(set_stride as int == m.line_size as int * m.num_sets as int);
            lemma_u64_pow2_no_overflow(m.offset_bits as nat);
            assert(target_set as int * pow2(m.offset_bits as nat) as int
                <= u64::MAX as int) by (nonlinear_arith)
                requires
                    0 <= target_set as int,
                    (target_set as int) < m.num_sets as int,
                    pow2(m.offset_bits as nat) == m.line_size,
                    m.line_size >= 1,
                    m.num_sets >= 1,
                    m.line_size as int * m.num_sets as int <= u64::MAX as int,
            ;
            lemma_u64_shl_is_mul(target_set as u64, m.offset_bits as u64);
            assert((target_set as int * m.line_size as int) < m.line_size as int
                * m.num_sets as int) by (nonlinear_arith)
                requires
                    0 <= target_set as int,
                    (target_set as int) < m.num_sets as int,
                    m.line_size >= 1,
            ;
        }
        let base: u64 = (target_set as u64) << (cache.offset_bits as u64);
        let count = cache.associativity;
        let mut eviction_set: Vec<u64> = Vec::new();
        let mut i: usize = 0;
        while i < count
            invariant
                i <= count,
                eviction_set@.len() == i,
                forall|j: int| 0 <= j < i ==> #[trigger] eviction_set@[j] as int
                    == eviction_addr(m, target_set as int, j),
            decreases count - i,
        {
            proof {
                assert(i as int * set_stride as int + base as int <= u64::MAX as int
                    && i as int * set_stride as int >= 0) by (nonlinear_arith)
                    requires
                        0 <= i as int,
                        (i as int) < count as int,
                        count as int * set_stride as int <= u64::MAX as int,
                        (base as int) < set_stride as int,
                        set_stride as int >= 1,
                ;
            }
            let addr = (i as u64) * set_stride + base;
            eviction_set.push(addr);
            i = i + 1;
        }
        proof {
            assert forall|j: int| 0 <= j < eviction_set@.len() implies addr_tag(m,
                #[trigger] eviction_set@[j]) == j && addr_index(m, eviction_set@[j])
                == target_set as int && addr_offset(m, eviction_set@[j]) == 0 by {
                assert(eviction_addr(m, target_set as int, j) <= u64::MAX)
                    by (nonlinear_arith)
                    requires
                        0 <= j,
                        j < count as int,
                        count as int * (m.line_size as int * m.num_sets as int)
                            <= u64::MAX as int,
                        0 <= target_set as int,
                        (target_set as int) < m.num_sets as int,
                        m.line_size >= 1,
                        m.num_sets >= 1,
                ;
                lemma_eviction_addr_fields(m, target_set as int, j);
            }
        }
        eviction_set
    }

    /// Prime: access every eviction-set address once, filling the target
    /// set with attacker-owned lines.
    #[verifier::loop_isolation(false)]
    pub fn prime(&self, cache: &mut Cache)
        requires
            cache_inv(old(cache)@),
            old(cache)@.timestamp + self.eviction_set@.len() <= u64::MAX,
        ensures
            cache_inv(final(cache)@),
            final(cache)@ == cache_accesses_spec(old(cache)@, self.eviction_set@).0,
            // Priming an all-invalid target set with an exact-fit
            // eviction set loads tag i into line i, so afterwards every
            // eviction-set tag is resident.
            ({
                let m0 = old(cache)@;
                let tgt = self.target_set as int;
                (exact_eviction_set(m0, tgt, self.eviction_set@)
                    && self.eviction_set@.len() <= m0.associativity && (forall|i: int|
                    0 <= i < m0.sets[tgt].lines.len() ==> !(#[trigger] m0.sets[
                    tgt].lines[i]).valid)) ==> {
                    &&& forall|i: int| 0 <= i < self.eviction_set@.len() ==> (
                    #[trigger] final(cache)@.sets[tgt].lines[i]).valid && final(
                        cache)@.sets[tgt].lines[i].tag == i as u64 && final(
                        cache)@.sets[tgt].lines[i].last_access == m0.timestamp + i + 1
                    &&& forall|t: int| 0 <= t < self.eviction_set@.len()
                        ==> #[trigger] has_matching_line(final(cache)@.sets[tgt].lines,
                        t as u64)
                }
            }),
    {
        let ghost m0 = cache@;
        let n = self.eviction_set.len();
        let mut i: usize = 0;
        while i < n
            invariant
                i <= n,
                cache_inv(cache@),
                cache@ == cache_accesses_spec(m0, self.eviction_set@.take(i as int)).0,
                cache@.timestamp == m0.timestamp + i,
            decreases n - i,
        {
            proof {
                assert(self.eviction_set@.take(i + 1).drop_last() =~= self.eviction_set@
                    .take(i as int));
                assert(self.eviction_set@.take(i + 1).last() == self.eviction_set@[
                    i as int]);
            }
            cache.access(self.eviction_set[i]);
            i = i + 1;
        }
        proof {
            assert(self.eviction_set@.take(n as int) =~= self.eviction_set@);
            let tgt = self.target_set as int;
            if exact_eviction_set(m0, tgt, self.eviction_set@)
                && self.eviction_set@.len() <= m0.associativity && (forall|i: int|
                0 <= i < m0.sets[tgt].lines.len() ==> !(#[trigger] m0.sets[
                tgt].lines[i]).valid) {
                lemma_prime_fills_empty_set(m0, tgt, self.eviction_set@);
                assert forall|t: int| 0 <= t < self.eviction_set@.len()
                    implies #[trigger] has_matching_line(cache@.sets[tgt].lines,
                    t as u64) by {
                    assert(line_matches(cache@.sets[tgt].lines[t], t as u64));
                }
            }
        }
    }

    /// Probe: re-access every eviction-set address, record the cycle
    /// counts, and report victim activity exactly when the mean exceeds
    /// 50 cycles — between the hit cost of 1 and the miss cost of 100.
    #[verifier::loop_isolation(false)]
    pub fn probe(&mut self, cache: &mut Cache) -> (detected: bool)
        requires
            cache_inv(old(cache)@),
            old(cache)@.timestamp + old(self).eviction_set@.len() <= u64::MAX,
            old(self).eviction_set@.len() * 100 <= u64::MAX,
        ensures
            cache_inv(final(cache)@),
            final(cache)@ == cache_accesses_spec(old(cache)@,
                old(self).eviction_set@).0,
            final(self).target_set == old(self).target_set,
            final(self).eviction_set@ == old(self).eviction_set@,
            final(self).probe_times@.len() == old(self).eviction_set@.len(),
            forall|i: int| 0 <= i < old(self).eviction_set@.len()
                ==> #[trigger] final(self).probe_times@[i] == cache_accesses_spec(old(
                cache)@, old(self).eviction_set@).1[i].1,
            detected == (total_cycles(cache_accesses_spec(old(cache)@,
                old(self).eviction_set@).1) > 50 * old(self).eviction_set@.len()),
            // Law (no victim): when every eviction-set tag is still
            // resident in the target set — as prime leaves it, and as only
            // an intervening eviction could change — every probe access
            // hits and no activity is reported.
            ({
                let m0 = old(cache)@;
                let tgt = old(self).target_set as int;
                (exact_eviction_set(m0, tgt, old(self).eviction_set@) && (forall|t: int|
                    0 <= t < old(self).eviction_set@.len()
                    ==> #[trigger] has_matching_line(m0.sets[tgt].lines, t as u64)))
                    ==> detected == false
            }),
            // Law (victim detected): under LRU, when one victim access has
            // displaced the oldest primed line, every probe access misses
            // and activity is reported.
            ({
                let m0 = old(cache)@;
                let tgt = old(self).target_set as int;
                let a = old(self).eviction_set@.len() as int;
                (exact_eviction_set(m0, tgt, old(self).eviction_set@) && a >= 1 && (
                exists|t0: u64, vtag: u64| #![auto] m0.timestamp == t0 + a + 1 && t0
                    + 2 * a + 1 <= u64::MAX && primed_then_victim(m0.sets[tgt], a, t0,
                    vtag))) ==> detected == true
            }),
    {
        let ghost m0 = cache@;
        let ghost addrs = self.eviction_set@;
        let mut total_time: u64 = 0;
        self.probe_times.clear();
        let n = self.eviction_set.len();
        let mut i: usize = 0;
        while i < n
            invariant
                i <= n,
                self.eviction_set@ == addrs,
                self.target_set == old(self).target_set,
                cache_inv(cache@),
                cache@ == cache_accesses_spec(m0, addrs.take(i as int)).0,
                cache@.timestamp == m0.timestamp + i,
                self.probe_times@.len() == i,
                forall|j: int| 0 <= j < i ==> #[trigger] self.probe_times@[j]
                    == cache_accesses_spec(m0, addrs).1[j].1,
                total_time as int == total_cycles(cache_accesses_spec(m0, addrs.take(
                    i as int)).1),
                total_time <= 100 * i,
            decreases n - i,
        {
            proof {
                assert(addrs.take(i + 1).drop_last() =~= addrs.take(i as int));
                assert(addrs.take(i + 1).last() == addrs[i as int]);
                lemma_cache_access_preserves_inv(cache@, addrs[i as int]);
                lemma_probe_prefix_result(m0, addrs, i as int);
            }
            let r = cache.access(self.eviction_set[i]);
            let time = r.1;
            self.probe_times.push(time);
            total_time = total_time + time;
            proof {
                let full = cache_accesses_spec(m0, addrs).1;
                let pref = cache_accesses_spec(m0, addrs.take(i + 1)).1;
                assert(pref.last() == full[i as int]);
                assert(pref.drop_last() =~= cache_accesses_spec(m0, addrs.take(
                    i as int)).1);
                assert(total_cycles(pref) == total_cycles(pref.drop_last())
                    + pref.last().1);
            }
            i = i + 1;
        }
        proof {
            assert(addrs.take(n as int) =~= addrs);
            let tgt = old(self).target_set as int;
            let a = addrs.len() as int;
            if exact_eviction_set(m0, tgt, addrs) && (forall|t: int| 0 <= t < a
                ==> #[trigger] has_matching_line(m0.sets[tgt].lines, t as u64)) {
                lemma_probe_all_hits(m0, tgt, addrs);
                lemma_total_cycles_all_ones(cache_accesses_spec(m0, addrs).1);
            }
            if exact_eviction_set(m0, tgt, addrs) && a >= 1 && (exists|t0: u64,
                vtag: u64| #![auto] m0.timestamp == t0 + a + 1 && t0 + 2 * a + 1
                <= u64::MAX && primed_then_victim(m0.sets[tgt], a, t0, vtag)) {
                let (t0, vtag) = choose|t0: u64, vtag: u64| #![auto] m0.timestamp == t0
                    + a + 1 && t0 + 2 * a + 1 <= u64::MAX && primed_then_victim(
                    m0.sets[tgt], a, t0, vtag);
                lemma_probe_with_victim_prefix(m0, tgt, addrs, vtag, t0, a);
                lemma_total_cycles_all_misses(cache_accesses_spec(m0, addrs).1);
                assert(100 * a > 50 * a) by (nonlinear_arith)
                    requires
                        a >= 1,
                ;
            }
        }
        let threshold: u64 = 50 * (n as u64);
        total_time > threshold
    }

    /// One victim access into `target_set`, from an address far away from
    /// the attacker's own eviction set.
    pub fn simulate_victim_access(cache: &mut Cache, target_set: usize)
        requires
            cache_inv(old(cache)@),
            target_set < old(cache)@.num_sets,
            old(cache)@.timestamp < u64::MAX,
        ensures
            cache_inv(final(cache)@),
            final(cache)@ == cache_access_spec(old(cache)@, ((target_set as int
                * old(cache)@.line_size as int) + 0x12345000) as u64).0,
    {
        proof {
            lemma_pow2_pos(cache@.offset_bits as nat);
            lemma_u64_pow2_no_overflow(cache@.offset_bits as nat);
            crate::cache::lemma_geometry_bound(cache@);
            assert(target_set as int * pow2(cache@.offset_bits as nat) as int
                + 0x12345000 <= u64::MAX as int) by (nonlinear_arith)
                requires
                    0 <= target_set as int,
                    (target_set as int) < cache@.num_sets as int,
                    pow2(cache@.offset_bits as nat) == cache@.line_size,
                    cache@.line_size >= 1,
                    cache@.num_sets >= 1,
                    cache@.line_size as int * cache@.num_sets as int
                        <= 0x8000_0000_0000_0000,
            ;
            lemma_u64_shl_is_mul(target_set as u64, cache@.offset_bits as u64);
        }
        let victim_addr = ((target_set as u64) << (cache.offset_bits as u64))
            + 0x12345000;
        cache.access(victim_addr);
    }
}

/// The prefix of an access fold agrees with the full fold, position by
/// position.
pub proof fn lemma_probe_prefix_result(m: CacheModel, addrs: Seq<u64>, i: int)
    requires
        0 <= i < addrs.len(),
    ensures
        cache_accesses_spec(m, addrs).1.len() == addrs.len(),
        cache_accesses_spec(m, addrs.take(i + 1)).1 == cache_accesses_spec(m, addrs).1
            .take(i + 1),
        cache_accesses_spec(m, addrs.take(i + 1)).1.last() == cache_accesses_spec(m,
            addrs).1[i],
    decreases addrs.len(),
{
    lemma_accesses_results_len(m, addrs);
    if i + 1 == addrs.len() {
        assert(addrs.take(i + 1) =~= addrs);
        assert(cache_accesses_spec(m, addrs).1.take(i + 1) =~= cache_accesses_spec(m,
            addrs).1);
    } else {
        lemma_probe_prefix_take(m, addrs, i + 1);
    }
    lemma_accesses_results_len(m, addrs.take(i + 1));
}

/// Results of a fold over a prefix are the prefix of the results.
pub proof fn lemma_probe_prefix_take(m: CacheModel, addrs: Seq<u64>, k: int)
    requires
        0 <= k <= addrs.len(),
    ensures
        cache_accesses_spec(m, addrs.take(k)).1 == cache_accesses_spec(m, addrs).1.take(
            k),
        cache_accesses_spec(m, addrs).1.len() == addrs.len(),
    decreases addrs.len(),
{
    lemma_accesses_results_len(m, addrs);
    if k == addrs.len() {
        assert(addrs.take(k) =~= addrs);
        assert(cache_accesses_spec(m, addrs).1.take(k) =~= cache_accesses_spec(m,
            addrs).1);
    } else {
        lemma_probe_prefix_take(m, addrs.drop_last(), k);
        assert(addrs.drop_last().take(k) =~= addrs.take(k));
        assert(cache_accesses_spec(m, addrs).1.take(k) =~= cache_accesses_spec(m,
            addrs.drop_last()).1.take(k));
    }
}

/// An access fold yields one observation per address.
pub proof fn lemma_accesses_results_len(m: CacheModel, addrs: Seq<u64>)
    ensures
        cache_accesses_spec(m, addrs).1.len() == addrs.len(),
    decreases addrs.len(),
{
    if addrs.len() > 0 {
        lemma_accesses_results_len(m, addrs.drop_last());
    }
}


/// Priming an empty set with one eviction-set address per way fills its
/// lines in order: line `i` receives tag `i` at timestamp `i + 1` past
/// the start, and no other set is touched.
pub proof fn lemma_prime_fills_empty_set(m: CacheModel, target_set: int, addrs: Seq<u64>)
    requires
        cache_inv(m),
        0 <= target_set < m.num_sets,
        addrs.len() <= m.associativity,
        m.timestamp + addrs.len() <= u64::MAX,
        forall|i: int| 0 <= i < addrs.len() ==> #[trigger] addrs[i] as int
            == eviction_addr(m, target_set, i) && eviction_addr(m, target_set, i)
            <= u64::MAX,
        forall|i: int| 0 <= i < m.sets[target_set].lines.len()
            ==> !(#[trigger] m.sets[target_set].lines[i]).valid,
    ensures
        ({
            let r = cache_accesses_spec(m, addrs);
            &&& cache_inv(r.0)
            &&& same_geometry(m, r.0)
            &&& r.0.timestamp == m.timestamp + addrs.len()
            &&& forall|s: int| 0 <= s < m.sets.len() && s != target_set ==> r.0.sets[s]
                == m.sets[s]
            &&& r.0.sets[target_set].lines.len() == m.sets[target_set].lines.len()
            &&& r.0.sets[target_set].replacement_policy == m.sets[target_set]
                .replacement_policy
            &&& forall|i: int| 0 <= i < addrs.len() ==> (#[trigger] r.0.sets[
                target_set].lines[i]).valid && r.0.sets[target_set].lines[i].tag
                == i as u64 && r.0.sets[target_set].lines[i].last_access == m.timestamp
                + i + 1
            &&& forall|i: int| addrs.len() <= i < m.sets[target_set].lines.len()
                ==> #[trigger] r.0.sets[target_set].lines[i] == m.sets[target_set]
                .lines[i]
        }),
    decreases addrs.len(),
{
    vstd::arithmetic::power2::lemma_pow2_pos(m.index_bits as nat);
    if addrs.len() > 0 {
        let prefix = addrs.drop_last();
        let n = addrs.len() - 1;
        lemma_prime_fills_empty_set(m, target_set, prefix);
        let mp = cache_accesses_spec(m, prefix).0;
        let a = addrs.last();
        lemma_eviction_addr_fields(m, target_set, n);
        assert(addr_index(mp, a) == target_set && addr_tag(mp, a) == n && addr_tag(mp,
            a) as u64 == n as u64);
        let s = mp.sets[target_set];
        // No line holds tag n: the filled lines hold tags 0..n-1, the rest
        // are still invalid.
        assert forall|j: int| 0 <= j < s.lines.len() implies !line_matches(
            #[trigger] s.lines[j], n as u64) by {
            if j < n {
                assert(s.lines[j].tag == j as u64);
                assert(j as u64 != n as u64);
            } else {
                assert(!s.lines[j].valid);
            }
        }
        assert(!has_matching_line(s.lines, n as u64));
        // The victim is the first invalid line: exactly line n.
        assert(!s.lines[n as int].valid);
        assert(has_invalid_line(s.lines));
        lemma_first_invalid(s.lines);
        assert(first_invalid(s.lines) == n);
        lemma_cache_access_preserves_inv(mp, a);
        let r = cache_accesses_spec(m, addrs);
        assert(r.0.sets[target_set].lines == s.lines.update(n, crate::line::filled_line(
            s.lines[n], n as u64, (mp.timestamp + 1) as u64)));
    }
}

/// Probing a set that holds every probe tag: every access hits at 1
/// cycle, and all tags stay resident.
pub proof fn lemma_probe_all_hits(m: CacheModel, target_set: int, addrs: Seq<u64>)
    requires
        cache_inv(m),
        0 <= target_set < m.num_sets,
        m.timestamp + addrs.len() <= u64::MAX,
        forall|i: int| 0 <= i < addrs.len() ==> #[trigger] addrs[i] as int
            == eviction_addr(m, target_set, i) && eviction_addr(m, target_set, i)
            <= u64::MAX,
        forall|i: int| 0 <= i < addrs.len() ==> #[trigger] has_matching_line(m.sets[
            target_set].lines, i as u64),
    ensures
        ({
            let r = cache_accesses_spec(m, addrs);
            &&& cache_inv(r.0)
            &&& same_geometry(m, r.0)
            &&& r.1.len() == addrs.len()
            &&& forall|t: u64| has_matching_line(m.sets[target_set].lines, t)
                ==> #[trigger] has_matching_line(r.0.sets[target_set].lines, t)
            &&& forall|i: int| 0 <= i < addrs.len() ==> #[trigger] r.1[i] == (true, 1u64)
        }),
    decreases addrs.len(),
{
    vstd::arithmetic::power2::lemma_pow2_pos(m.index_bits as nat);
    if addrs.len() > 0 {
        let prefix = addrs.drop_last();
        let n = addrs.len() - 1;
        lemma_probe_all_hits(m, target_set, prefix);
        lemma_accesses_preserve_inv(m, prefix);
        let mp = cache_accesses_spec(m, prefix).0;
        let a = addrs.last();
        lemma_eviction_addr_fields(m, target_set, n);
        assert(addr_index(mp, a) == target_set && addr_tag(mp, a) as u64 == n as u64);
        assert(has_matching_line(m.sets[target_set].lines, n as u64));
        assert(has_matching_line(mp.sets[target_set].lines, n as u64));
        lemma_set_access_hit_preserves_tags(mp.sets[target_set], n as u64, (
        mp.timestamp + 1) as u64);
        lemma_cache_access_preserves_inv(mp, a);
        let r = cache_accesses_spec(m, addrs);
        assert(r.1.last() == (true, 1u64));
        assert(forall|i: int| 0 <= i < n ==> #[trigger] r.1[i] == cache_accesses_spec(m,
            prefix).1[i]);
    }
}

/// A probe in which every access costs one cycle totals one cycle per
/// address.
pub proof fn lemma_total_cycles_all_ones(results: Seq<(bool, u64)>)
    requires
        forall|i: int| 0 <= i < results.len() ==> #[trigger] results[i] == (true, 1u64),
    ensures
        total_cycles(results) == results.len(),
    decreases results.len(),
{
    if results.len() > 0 {
        assert(forall|i: int| 0 <= i < results.drop_last().len()
            ==> #[trigger] results.drop_last()[i] == results[i]);
        lemma_total_cycles_all_ones(results.drop_last());
    }
}

/// Law: priming and then immediately probing, with no victim access in
/// between, reports no victim activity — for an eviction set of exactly
/// one address per way, primed into an empty set.  Every probe access
/// hits at 1 cycle, so the mean stays at the hit cost, far below the
/// 50-cycle threshold.  (An eviction set that over-fills the set evicts
/// its own earliest lines during the probe and can exceed the threshold
/// with no victim at all; this law therefore speaks of the exact-fit
/// set.)
pub proof fn lemma_prime_probe_no_victim(m: CacheModel, target_set: int, addrs: Seq<u64>)
    requires
        cache_inv(m),
        0 <= target_set < m.num_sets,
        addrs.len() == m.associativity,
        m.timestamp + 2 * addrs.len() <= u64::MAX,
        forall|i: int| 0 <= i < addrs.len() ==> #[trigger] addrs[i] as int
            == eviction_addr(m, target_set, i) && eviction_addr(m, target_set, i)
            <= u64::MAX,
        forall|i: int| 0 <= i < m.sets[target_set].lines.len()
            ==> !(#[trigger] m.sets[target_set].lines[i]).valid,
    ensures
        ({
            let primed = cache_accesses_spec(m, addrs).0;
            let probe = cache_accesses_spec(primed, addrs);
            &&& probe.1.len() == addrs.len()
            &&& forall|i: int| 0 <= i < addrs.len() ==> #[trigger] probe.1[i] == (true,
                1u64)
            &&& total_cycles(probe.1) == addrs.len()
            &&& !(total_cycles(probe.1) > 50 * addrs.len())
        }),
{
    vstd::arithmetic::power2::lemma_pow2_pos(m.index_bits as nat);
    lemma_prime_fills_empty_set(m, target_set, addrs);
    lemma_accesses_preserve_inv(m, addrs);
    let primed = cache_accesses_spec(m, addrs).0;
    assert(primed.sets[target_set].lines.len() == m.sets[target_set].lines.len());
    assert forall|i: int| 0 <= i < addrs.len() implies #[trigger] has_matching_line(
        primed.sets[target_set].lines, i as u64) by {
        assert(line_matches(primed.sets[target_set].lines[i], i as u64));
    }
    assert forall|i: int| 0 <= i < addrs.len() implies #[trigger] addrs[i] as int
        == eviction_addr(primed, target_set, i) && eviction_addr(primed, target_set, i)
        <= u64::MAX by {
        assert(eviction_addr(primed, target_set, i) == eviction_addr(m, target_set, i));
    }
    lemma_probe_all_hits(primed, target_set, addrs);
    lemma_total_cycles_all_ones(cache_accesses_spec(primed, addrs).1);
}


/// A probe in which every access misses totals one hundred cycles per
/// address.
pub proof fn lemma_total_cycles_all_misses(results: Seq<(bool, u64)>)
    requires
        forall|i: int| 0 <= i < results.len() ==> #[trigger] results[i] == (false,
            100u64),
    ensures
        total_cycles(results) == 100 * results.len(),
    decreases results.len(),
{
    if results.len() > 0 {
        assert(forall|i: int| 0 <= i < results.drop_last().len()
            ==> #[trigger] results.drop_last()[i] == results[i]);
        lemma_total_cycles_all_misses(results.drop_last());
    }
}

/// One probe pass after a victim access, under LRU: each step misses and
/// evicts exactly the line holding the next probe tag, so every probe
/// access misses.
proof fn lemma_probe_with_victim_prefix(mv: CacheModel, target_set: int, addrs: Seq<u64>,
    vtag: u64, t0: u64, j: int)
    requires
        cache_inv(mv),
        0 <= target_set < mv.num_sets,
        addrs.len() == mv.sets[target_set].lines.len(),
        addrs.len() >= 1,
        forall|i: int| 0 <= i < addrs.len() ==> #[trigger] addrs[i] as int
            == eviction_addr(mv, target_set, i) && eviction_addr(mv, target_set, i)
            <= u64::MAX,
        forall|i: int| 0 <= i < addrs.len() ==> vtag != (#[trigger] (i as u64)),
        mv.timestamp == t0 + addrs.len() + 1,
        t0 + 2 * addrs.len() + 1 <= u64::MAX,
        mv.sets[target_set].replacement_policy is LRU,
        mv.sets[target_set].lines[0].valid && mv.sets[target_set].lines[0].tag == vtag
            && mv.sets[target_set].lines[0].last_access == t0 + addrs.len() + 1,
        forall|i: int| 1 <= i < addrs.len() ==> (#[trigger] mv.sets[target_set]
            .lines[i]).valid && mv.sets[target_set].lines[i].tag == i as u64
            && mv.sets[target_set].lines[i].last_access == t0 + i + 1,
        0 <= j <= addrs.len(),
    ensures
        ({
            let r = cache_accesses_spec(mv, addrs.take(j));
            let a = addrs.len() as int;
            let s = r.0.sets[target_set];
            &&& cache_inv(r.0)
            &&& same_geometry(mv, r.0)
            &&& r.0.timestamp == mv.timestamp + j
            &&& r.1.len() == j
            &&& forall|i: int| 0 <= i < j ==> #[trigger] r.1[i] == (false, 100u64)
            &&& j < a ==> {
                &&& s.lines.len() == a
                &&& s.replacement_policy is LRU
                &&& s.lines[0].valid && s.lines[0].tag == vtag && s.lines[0].last_access
                    == t0 + a + 1
                &&& forall|i: int| 1 <= i <= j ==> (#[trigger] s.lines[i]).valid
                    && s.lines[i].tag == (i - 1) as u64 && s.lines[i].last_access == t0
                    + a + 1 + i
                &&& forall|i: int| j < i < a ==> (#[trigger] s.lines[i]).valid
                    && s.lines[i].tag == i as u64 && s.lines[i].last_access == t0 + i + 1
            }
        }),
    decreases j,
{
    vstd::arithmetic::power2::lemma_pow2_pos(mv.index_bits as nat);
    let a = addrs.len() as int;
    if j > 0 {
        lemma_probe_with_victim_prefix(mv, target_set, addrs, vtag, t0, j - 1);
        let prev = cache_accesses_spec(mv, addrs.take(j - 1));
        assert(addrs.take(j).drop_last() =~= addrs.take(j - 1));
        assert(addrs.take(j).last() == addrs[j - 1]);
        let addr = addrs[j - 1];
        lemma_eviction_addr_fields(mv, target_set, j - 1);
        assert(addr_index(prev.0, addr) == target_set && addr_tag(prev.0,
            addr) as u64 == (j - 1) as u64);
        let s = prev.0.sets[target_set];
        let tag = (j - 1) as u64;
        // Tag j-1 is not resident: line 0 holds the victim's tag, lines
        // 1..j hold 0..j-2, lines j.. hold j..a-1.
        assert forall|k: int| 0 <= k < s.lines.len() implies !line_matches(
            #[trigger] s.lines[k], tag) by {
            if k == 0 {
            } else if k <= j - 1 {
                assert(s.lines[k].tag == (k - 1) as u64);
            } else {
                assert(s.lines[k].tag == k as u64);
            }
        }
        assert(!has_matching_line(s.lines, tag));
        assert(!has_invalid_line(s.lines)) by {
            assert(forall|k: int| 0 <= k < s.lines.len() ==> (
            #[trigger] s.lines[k]).valid);
        }
        lemma_cache_access_preserves_inv(prev.0, addr);
        lemma_sum_access_elem(prev.0.sets, target_set);
        let smid = SetModel {
            lines: s.lines,
            associativity: s.associativity,
            access_count: (s.access_count + 1) as u64,
            hit_count: s.hit_count,
            miss_count: (s.miss_count + 1) as u64,
            replacement_policy: s.replacement_policy,
            fifo_index: s.fifo_index,
        };
        if j < a {
            // The LRU victim is exactly line j: its primed timestamp is
            // the strict minimum of the set.
            lemma_lru_victim(s.lines);
            let r = lru_victim(s.lines);
            assert forall|k: int| 0 <= k < s.lines.len() && k != j implies (
            #[trigger] s.lines[k]).last_access > s.lines[j as int].last_access by {
                assert(s.lines[j as int].last_access == t0 + j + 1);
                if k == 0 {
                } else if k <= j - 1 {
                    assert(s.lines[k].last_access == t0 + a + 1 + k);
                } else {
                    assert(s.lines[k].last_access == t0 + k + 1);
                }
            }
            if r != j {
                assert(s.lines[r].last_access > s.lines[j as int].last_access);
                assert(false);
            }
            assert(crate::set::replace_victim(smid) == j);
        }
        let post = cache_accesses_spec(mv, addrs.take(j));
        assert(post.1.last() == (false, 100u64));
        assert(forall|i: int| 0 <= i < j - 1 ==> #[trigger] post.1[i] == prev.1[i]);
    } else {
        assert(addrs.take(0) =~= Seq::<u64>::empty());
    }
}

/// Law: priming, then a victim access into the monitored set, then
/// probing reports victim activity — for an LRU set primed from empty
/// with an eviction set of exactly one address per way.  The victim's
/// line displaces the oldest probe line, and each probe access then
/// misses and displaces the next, so the whole probe runs at the miss
/// cost and the mean sits far above the 50-cycle threshold.
pub proof fn lemma_prime_probe_detects_victim(m: CacheModel, target_set: int,
    addrs: Seq<u64>, victim_addr: u64)
    requires
        cache_inv(m),
        0 <= target_set < m.num_sets,
        addrs.len() == m.associativity,
        addrs.len() >= 1,
        m.timestamp + 2 * addrs.len() + 1 <= u64::MAX,
        forall|i: int| 0 <= i < addrs.len() ==> #[trigger] addrs[i] as int
            == eviction_addr(m, target_set, i) && eviction_addr(m, target_set, i)
            <= u64::MAX,
        forall|i: int| 0 <= i < m.sets[target_set].lines.len()
            ==> !(#[trigger] m.sets[target_set].lines[i]).valid,
        m.sets[target_set].replacement_policy is LRU,
        addr_index(m, victim_addr) == target_set,
        addr_tag(m, victim_addr) >= addrs.len(),
    ensures
        ({
            let primed = cache_accesses_spec(m, addrs).0;
            let afterv = cache_access_spec(primed, victim_addr).0;
            let probe = cache_accesses_spec(afterv, addrs);
            &&& probe.1.len() == addrs.len()
            &&& forall|i: int| 0 <= i < addrs.len() ==> #[trigger] probe.1[i] == (false,
                100u64)
            &&& total_cycles(probe.1) == 100 * addrs.len()
            &&& total_cycles(probe.1) > 50 * addrs.len()
        }),
{
    vstd::arithmetic::power2::lemma_pow2_pos(m.index_bits as nat);
    let a = addrs.len() as int;
    let t0 = m.timestamp;
    lemma_prime_fills_empty_set(m, target_set, addrs);
    lemma_accesses_preserve_inv(m, addrs);
    let primed = cache_accesses_spec(m, addrs).0;
    lemma_addr_bounds(m, victim_addr);
    let vtag = addr_tag(m, victim_addr) as u64;
    assert(addr_index(primed, victim_addr) == target_set && addr_tag(primed,
        victim_addr) == addr_tag(m, victim_addr));
    let s = primed.sets[target_set];
    assert(s.replacement_policy == m.sets[target_set].replacement_policy);
    // The victim's tag is not resident: every line holds a probe tag.
    assert forall|k: int| 0 <= k < s.lines.len() implies !line_matches(
        #[trigger] s.lines[k], vtag) by {
        assert(s.lines[k].tag == k as u64);
        assert(k < a <= addr_tag(m, victim_addr));
    }
    assert(!has_matching_line(s.lines, vtag));
    assert(!has_invalid_line(s.lines)) by {
        assert(forall|k: int| 0 <= k < s.lines.len() ==> (#[trigger] s.lines[k]).valid);
    }
    // The LRU victim of the full primed set is line 0, the oldest fill.
    lemma_lru_victim(s.lines);
    let r = lru_victim(s.lines);
    assert forall|k: int| 0 <= k < s.lines.len() && k != 0 implies (#[trigger] s.lines[
        k]).last_access > s.lines[0].last_access by {
        assert(s.lines[k].last_access == t0 + k + 1);
        assert(s.lines[0].last_access == t0 + 1);
    }
    if r != 0 {
        assert(s.lines[r].last_access > s.lines[0].last_access);
        assert(false);
    }
    lemma_cache_access_preserves_inv(primed, victim_addr);
    lemma_sum_access_elem(primed.sets, target_set);
    let smid = SetModel {
        lines: s.lines,
        associativity: s.associativity,
        access_count: (s.access_count + 1) as u64,
        hit_count: s.hit_count,
        miss_count: (s.miss_count + 1) as u64,
        replacement_policy: s.replacement_policy,
        fifo_index: s.fifo_index,
    };
    assert(crate::set::replace_victim(smid) == 0);
    let afterv = cache_access_spec(primed, victim_addr).0;
    assert forall|i: int| 0 <= i < addrs.len() implies vtag != (#[trigger] (
    i as u64)) by {
        assert(i < a <= addr_tag(m, victim_addr));
    }
    assert forall|i: int| 0 <= i < addrs.len() implies #[trigger] addrs[i] as int
        == eviction_addr(afterv, target_set, i) && eviction_addr(afterv, target_set, i)
        <= u64::MAX by {
        assert(addrs[i] as int == eviction_addr(m, target_set, i) && eviction_addr(m,
            target_set, i) <= u64::MAX);
        assert(eviction_addr(afterv, target_set, i) == eviction_addr(m, target_set, i));
    }
    lemma_probe_with_victim_prefix(afterv, target_set, addrs, vtag, t0, a);
    assert(addrs.take(a) =~= addrs);
    lemma_total_cycles_all_misses(cache_accesses_spec(afterv, addrs).1);
    assert(100 * a > 50 * a) by (nonlinear_arith)
        requires
            a >= 1,
    ;
}

} // verus!
