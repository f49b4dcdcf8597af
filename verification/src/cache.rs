//! The cache engine: owns all sets, decomposes 64-bit addresses into tag,
//! set index and byte offset, and classifies every access under the fixed
//! two-valued timing model — 1 cycle for a hit, 100 cycles for a miss.

use vstd::prelude::*;
use vstd::arithmetic::power2::{pow2, is_pow2, is_pow2_equiv, lemma_pow2_pos,
    lemma_pow2_adds, lemma_pow2_strictly_increases};
use vstd::arithmetic::power::pow;
use vstd::arithmetic::div_mod::{lemma_fundamental_div_mod, lemma_div_denominator};
use vstd::bits::{lemma_u64_shr_is_div, lemma_u64_shl_is_mul,
    lemma_u64_low_bits_mask_is_mod, lemma_u64_pow2_no_overflow, low_bits_mask};
use crate::set::{CacheSet, SetModel, set_inv, set_access, set_flush, initial_set,
    has_matching_line, valid_count, lemma_set_access_preserves_inv,
    lemma_set_flush_preserves_inv, lemma_first_matching, lemma_replace_victim_in_range,
    replace_victim, replace_spec, first_matching};
use crate::cache_config::{CacheConfig, CacheType, ReplacementPolicy, config_valid,
    spec_num_sets, spec_associativity, log2_of_pow2};

verus! {

/// The fixed timing model: a cache hit costs one cycle.
pub const HIT_CYCLES: u64 = 1;

/// The fixed timing model: a cache miss costs one hundred cycles.  The
/// attack classifiers are calibrated against these two values.
pub const MISS_CYCLES: u64 = 100;

/// The mathematical state of a cache: the models of its sets plus the
/// geometry fields and the global timestamp.
#[verifier::ext_equal]
pub ghost struct CacheModel {
    pub sets: Seq<SetModel>,
    pub config: CacheConfig,
    pub num_sets: usize,
    pub associativity: usize,
    pub line_size: usize,
    pub index_bits: usize,
    pub offset_bits: usize,
    pub timestamp: u64,
}

/// Total accesses recorded over a sequence of sets.
pub open spec fn sum_access(sets: Seq<SetModel>) -> int
    decreases sets.len(),
{
    if sets.len() == 0 {
        0
    } else {
        sum_access(sets.drop_last()) + sets.last().access_count
    }
}

/// Total hits recorded over a sequence of sets.
pub open spec fn sum_hits(sets: Seq<SetModel>) -> int
    decreases sets.len(),
{
    if sets.len() == 0 {
        0
    } else {
        sum_hits(sets.drop_last()) + sets.last().hit_count
    }
}

pub proof fn lemma_sums_nonneg(sets: Seq<SetModel>)
    ensures
        sum_access(sets) >= 0,
        sum_hits(sets) >= 0,
    decreases sets.len(),
{
    if sets.len() > 0 {
        lemma_sums_nonneg(sets.drop_last());
    }
}

/// One step of a prefix sum: adding set `i` to the running totals.
pub proof fn lemma_sums_take_step(sets: Seq<SetModel>, i: int)
    requires
        0 <= i < sets.len(),
    ensures
        sum_access(sets.take(i + 1)) == sum_access(sets.take(i)) + sets[i].access_count,
        sum_hits(sets.take(i + 1)) == sum_hits(sets.take(i)) + sets[i].hit_count,
{
    assert(sets.take(i + 1).drop_last() =~= sets.take(i));
    assert(sets.take(i + 1).last() == sets[i]);
}

/// A prefix sum never exceeds the full sum.
pub proof fn lemma_sums_take_le(sets: Seq<SetModel>, i: int)
    requires
        0 <= i <= sets.len(),
    ensures
        sum_access(sets.take(i)) <= sum_access(sets),
        sum_hits(sets.take(i)) <= sum_hits(sets),
    decreases sets.len() - i,
{
    if i == sets.len() {
        assert(sets.take(i) =~= sets);
    } else {
        lemma_sums_take_step(sets, i);
        lemma_sums_take_le(sets, i + 1);
    }
}

/// Each set's counter is bounded by the total.
pub proof fn lemma_sum_access_elem(sets: Seq<SetModel>, k: int)
    requires
        0 <= k < sets.len(),
    ensures
        sets[k].access_count <= sum_access(sets),
    decreases sets.len(),
{
    if k == sets.len() - 1 {
        lemma_sums_nonneg(sets.drop_last());
    } else {
        lemma_sum_access_elem(sets.drop_last(), k);
    }
}

/// Replacing one set changes the totals by the difference of its counters.
pub proof fn lemma_sums_update(sets: Seq<SetModel>, k: int, x: SetModel)
    requires
        0 <= k < sets.len(),
    ensures
        sum_access(sets.update(k, x)) == sum_access(sets) - sets[k].access_count
            + x.access_count,
        sum_hits(sets.update(k, x)) == sum_hits(sets) - sets[k].hit_count + x.hit_count,
    decreases sets.len(),
{
    let u = sets.update(k, x);
    if k == sets.len() - 1 {
        assert(u.drop_last() =~= sets.drop_last());
        assert(u.last() == x);
    } else {
        assert(u.drop_last() =~= sets.drop_last().update(k, x));
        assert(u.last() == sets.last());
        lemma_sums_update(sets.drop_last(), k, x);
    }
}

/// When every set is well formed, the total hits cannot exceed the total
/// accesses.
pub proof fn lemma_sum_hits_le_access(sets: Seq<SetModel>)
    requires
        forall|i: int| 0 <= i < sets.len() ==> set_inv(#[trigger] sets[i]),
    ensures
        sum_hits(sets) <= sum_access(sets),
    decreases sets.len(),
{
    if sets.len() > 0 {
        assert(forall|i: int| 0 <= i < sets.drop_last().len()
            ==> #[trigger] sets.drop_last()[i] == sets[i]);
        lemma_sum_hits_le_access(sets.drop_last());
        assert(set_inv(sets[sets.len() - 1]));
    }
}

/// Well-formedness of a cache: the geometry fields agree (the line size
/// and set count are the stated powers of two, and tag bits remain),
/// every set is well formed with the stated associativity, and the global
/// timestamp bounds the total number of accesses.
pub open spec fn cache_inv(m: CacheModel) -> bool {
    &&& m.sets.len() == m.num_sets
    &&& m.num_sets == pow2(m.index_bits as nat)
    &&& m.line_size == pow2(m.offset_bits as nat)
    &&& m.offset_bits + m.index_bits <= 63
    &&& forall|i: int| 0 <= i < m.sets.len() ==> set_inv(#[trigger] m.sets[i])
        && m.sets[i].associativity == m.associativity
    &&& sum_access(m.sets) <= m.timestamp
}

/// The byte offset within a line: the address modulo the line size.
pub open spec fn addr_offset(m: CacheModel, address: u64) -> int {
    address as int % m.line_size as int
}

/// The set index: the line number modulo the number of sets.  0 for a
/// fully-associative cache, whose index width is zero.
pub open spec fn addr_index(m: CacheModel, address: u64) -> int {
    (address as int / m.line_size as int) % m.num_sets as int
}

/// The tag: the address with offset and index bits shifted away.
pub open spec fn addr_tag(m: CacheModel, address: u64) -> int {
    address as int / (m.line_size as int * m.num_sets as int)
}

/// The transition of one cache access: the timestamp advances, the
/// addressed set takes the access, and the fixed timing model prices it.
/// Returns the new state, whether the access hit, and the cycle count.
pub open spec fn cache_access_spec(m: CacheModel, address: u64) -> (CacheModel, bool, u64) {
    let ts = (m.timestamp + 1) as u64;
    let idx = addr_index(m, address);
    let tag = addr_tag(m, address) as u64;
    let r = set_access(m.sets[idx], tag, ts);
    (CacheModel {
        sets: m.sets.update(idx, r.0),
        config: m.config,
        num_sets: m.num_sets,
        associativity: m.associativity,
        line_size: m.line_size,
        index_bits: m.index_bits,
        offset_bits: m.offset_bits,
        timestamp: ts,
    }, r.1, if r.1 {
        HIT_CYCLES
    } else {
        MISS_CYCLES
    })
}

/// The transition of one flush: the addressed set invalidates the line
/// holding the tag, if any; timestamp and counters are untouched.
pub open spec fn cache_flush_spec(m: CacheModel, address: u64) -> (CacheModel, bool) {
    let idx = addr_index(m, address);
    let tag = addr_tag(m, address) as u64;
    let r = set_flush(m.sets[idx], tag);
    (CacheModel {
        sets: m.sets.update(idx, r.0),
        config: m.config,
        num_sets: m.num_sets,
        associativity: m.associativity,
        line_size: m.line_size,
        index_bits: m.index_bits,
        offset_bits: m.offset_bits,
        timestamp: m.timestamp,
    }, r.1)
}

/// The exponent of a power of two.
pub open spec fn log2_exponent(n: int) -> nat {
    choose|k: nat| pow2(k) == n
}

pub proof fn lemma_pow2_injective(a: nat, b: nat)
    requires
        pow2(a) == pow2(b),
    ensures
        a == b,
{
    if a < b {
        lemma_pow2_strictly_increases(a, b);
    }
    if b < a {
        lemma_pow2_strictly_increases(b, a);
    }
}

pub proof fn lemma_log2_exponent(n: int)
    requires
        is_pow2(n),
    ensures
        pow2(log2_exponent(n)) == n,
{
    is_pow2_equiv(n);
    let i = choose|i: nat| pow(2, i) == n;
    vstd::arithmetic::power::lemma_pow_positive(2, i);
    assert(pow2(i) == n);
}

/// The state of a freshly constructed cache.
pub open spec fn initial_cache(config: CacheConfig) -> CacheModel {
    CacheModel {
        sets: Seq::new(spec_num_sets(config) as nat, |i: int| initial_set(
            spec_associativity(config) as usize, config.replacement_policy)),
        config: config,
        num_sets: spec_num_sets(config) as usize,
        associativity: spec_associativity(config) as usize,
        line_size: config.line_size,
        index_bits: log2_exponent(spec_num_sets(config)) as usize,
        offset_bits: log2_exponent(config.line_size as int) as usize,
        timestamp: 0,
    }
}

/// Aggregate hit/miss totals over the whole cache.  Read-only; the hit
/// rate itself is left to the consumer as the ratio of hits to accesses.
#[derive(Debug, Clone, Copy, PartialEq, Eq, Structural)]
pub struct CacheStats {
    pub total_accesses: u64,
    pub total_hits: u64,
    pub total_misses: u64,
}

/// Per-set hit/miss counts and occupancy.
#[derive(Debug, Clone, Copy, PartialEq, Eq, Structural)]
pub struct SetStats {
    pub set_index: usize,
    pub accesses: u64,
    pub hits: u64,
    pub misses: u64,
    pub valid_lines: usize,
}

/// A set-associative cache with a monotonically increasing access
/// timestamp, used as the recency metric for LRU.
pub struct Cache {
    pub sets: Vec<CacheSet>,
    pub config: CacheConfig,
    pub num_sets: usize,
    pub associativity: usize,
    pub line_size: usize,
    pub index_bits: usize,
    pub offset_bits: usize,
    pub timestamp: u64,
}

impl View for Cache {
    type V = CacheModel;

    open spec fn view(&self) -> CacheModel {
        CacheModel {
            sets: self.sets@.map_values(|s: CacheSet| s@),
            config: self.config,
            num_sets: self.num_sets,
            associativity: self.associativity,
            line_size: self.line_size,
            index_bits: self.index_bits,
            offset_bits: self.offset_bits,
            timestamp: self.timestamp,
        }
    }
}

impl Cache {
    /// Create a new cache from a valid configuration.
    pub fn from_config(config: CacheConfig) -> (c: Cache)
        requires
            config_valid(config),
        ensures
            c@ == initial_cache(config),
            cache_inv(c@),
    {
        let num_sets = config.num_sets();
        let associativity = config.associativity();
        let line_size = config.line_size;

        let mut sets: Vec<CacheSet> = Vec::new();
        let mut i: usize = 0;
        while i < num_sets
            invariant
                i <= num_sets,
                associativity as int == spec_associativity(config),
                associativity >= 1,
                sets@.len() == i,
                forall|j: int| 0 <= j < i ==> (#[trigger] sets@[j])@ == initial_set(
                    associativity, config.replacement_policy) && set_inv(sets@[j]@),
            decreases num_sets - i,
        {
            sets.push(CacheSet::new(associativity, config.replacement_policy));
            i = i + 1;
        }

        let index_bits = log2_of_pow2(num_sets);
        let offset_bits = log2_of_pow2(line_size);

        let c = Cache {
            sets: sets,
            config: config,
            num_sets: num_sets,
            associativity: associativity,
            line_size: line_size,
            index_bits: index_bits,
            offset_bits: offset_bits,
            timestamp: 0,
        };
        proof {
            lemma_log2_exponent(spec_num_sets(config));
            lemma_log2_exponent(config.line_size as int);
            lemma_pow2_injective(index_bits as nat, log2_exponent(spec_num_sets(config)));
            lemma_pow2_injective(offset_bits as nat, log2_exponent(
                config.line_size as int));
            assert(c@.sets =~= initial_cache(config).sets);
            assert(c@ =~= initial_cache(config));
            // The geometry bound: line_size * num_sets <= 2^63 forces
            // offset_bits + index_bits <= 63.
            lemma_pow2_adds(offset_bits as nat, index_bits as nat);
            assert(pow2((offset_bits + index_bits) as nat) <= 0x8000_0000_0000_0000)
                by (nonlinear_arith)
                requires
                    pow2((offset_bits + index_bits) as nat) == pow2(offset_bits as nat)
                        * pow2(index_bits as nat),
                    pow2(offset_bits as nat) == config.line_size,
                    pow2(index_bits as nat) == spec_num_sets(config),
                    config.line_size as int * spec_num_sets(config)
                        <= 0x8000_0000_0000_0000,
            ;
            if offset_bits + index_bits > 63 {
                lemma_pow2_strictly_increases(63, (offset_bits + index_bits) as nat);
                vstd::arithmetic::power2::lemma2_to64_rest();
                assert(false);
            }
            lemma_sums_zero(c@.sets);
        }
        c
    }

    /// Create a new cache with the given geometry under LRU (the legacy
    /// construction path).
    pub fn new(num_sets: usize, associativity: usize, line_size: usize) -> (c: Cache)
        requires
            is_pow2(num_sets as int),
            is_pow2(line_size as int),
            associativity >= 1,
            num_sets as int * associativity as int * line_size as int
                <= usize::MAX as int,
            line_size as int * num_sets as int <= 0x8000_0000_0000_0000,
        ensures
            c@ == initial_cache(CacheConfig {
                cache_type: CacheType::SetAssociative(associativity),
                total_size: (num_sets as int * associativity as int
                    * line_size as int) as usize,
                line_size: line_size,
                replacement_policy: ReplacementPolicy::LRU,
            }),
            cache_inv(c@),
            c@.num_sets == num_sets,
            c@.associativity == associativity,
            c@.line_size == line_size,
    {
        proof {
            lemma_pow2_from_is_pow2(num_sets as int);
            lemma_pow2_from_is_pow2(line_size as int);
            assert(num_sets as int * associativity as int >= 1 && num_sets as int
                * associativity as int * line_size as int >= line_size as int
                * associativity as int && num_sets as int * associativity as int
                * line_size as int >= num_sets as int * associativity as int
                && num_sets as int * associativity as int * line_size as int
                >= num_sets) by (nonlinear_arith)
                requires
                    num_sets >= 1,
                    associativity >= 1,
                    line_size >= 1,
            ;
        }
        let total_size = num_sets * associativity * line_size;
        let config = CacheConfig::set_associative(total_size, line_size, associativity,
            ReplacementPolicy::LRU);
        proof {
            assert(total_size as int / (line_size as int * associativity as int)
                == num_sets as int) by (nonlinear_arith)
                requires
                    total_size as int == num_sets as int * associativity as int
                        * line_size as int,
                    line_size >= 1,
                    associativity >= 1,
            ;
            assert(spec_num_sets(config) == num_sets as int);
            assert(config_valid(config));
        }
        Cache::from_config(config)
    }

    /// Decompose an address into its (tag, set index, byte offset) triple.
    /// Decomposition is total: every 64-bit address maps to exactly one
    /// triple.
    pub fn decompose_address(&self, address: u64) -> (r: (u64, usize, usize))
        requires
            cache_inv(self@),
        ensures
            r.0 as int == addr_tag(self@, address),
            r.1 as int == addr_index(self@, address),
            r.2 as int == addr_offset(self@, address),
            r.1 < self@.num_sets,
            r.2 < self@.line_size,
    {
        proof {
            lemma_u64_pow2_no_overflow(self.offset_bits as nat);
            lemma_u64_pow2_no_overflow(self.index_bits as nat);
            lemma_u64_pow2_no_overflow((self.offset_bits + self.index_bits) as nat);
            lemma_u64_shl_is_mul(1u64, self.offset_bits as u64);
            lemma_u64_shl_is_mul(1u64, self.index_bits as u64);
            lemma_u64_low_bits_mask_is_mod(address, self.offset_bits as nat);
            lemma_u64_shr_is_div(address, self.offset_bits as u64);
            lemma_pow2_pos(self.offset_bits as nat);
            lemma_pow2_pos(self.index_bits as nat);
            vstd::arithmetic::power2::lemma2_to64();
        }
        let offset = (address & ((1u64 << (self.offset_bits as u64)) - 1)) as usize;

        let shifted = address >> (self.offset_bits as u64);
        proof {
            lemma_u64_low_bits_mask_is_mod(shifted, self.index_bits as nat);
        }
        let index = if self.index_bits > 0 {
            ((shifted & ((1u64 << (self.index_bits as u64)) - 1))) as usize
        } else {
            0
        };

        proof {
            lemma_u64_shr_is_div(address, (self.offset_bits + self.index_bits) as u64);
            lemma_pow2_adds(self.offset_bits as nat, self.index_bits as nat);
            lemma_pow2_pos((self.offset_bits + self.index_bits) as nat);
            lemma_div_denominator(address as int, self.line_size as int,
                self.num_sets as int);
        }
        let tag = address >> ((self.offset_bits + self.index_bits) as u64);

        (tag, index, offset)
    }

    /// Access the cache at the given address.  Returns whether the access
    /// hit, and its cost under the fixed timing model: a hit takes 1
    /// cycle, a miss 100 cycles.
    #[verifier::loop_isolation(false)]
    pub fn access(&mut self, address: u64) -> (r: (bool, u64))
        requires
            cache_inv(old(self)@),
            old(self)@.timestamp < u64::MAX,
        ensures
            cache_inv(final(self)@),
            final(self)@ == cache_access_spec(old(self)@, address).0,
            r.0 == cache_access_spec(old(self)@, address).1,
            r.1 == cache_access_spec(old(self)@, address).2,
    {
        let ghost m0 = self@;
        self.timestamp = self.timestamp + 1;
        proof {
            assert(cache_inv(self@)) by {
                assert(self@.sets =~= m0.sets);
            }
        }
        let r = self.decompose_address(address);
        let tag = r.0;
        let index = r.1;
        let ts = self.timestamp;
        proof {
            assert(addr_index(self@, address) == addr_index(m0, address));
            assert(addr_tag(self@, address) == addr_tag(m0, address));
            assert(self@.sets[index as int] == m0.sets[index as int]);
            lemma_sum_access_elem(m0.sets, index as int);
        }
        let set = &mut self.sets[index];
        let sr = set.access(tag, ts);
        let hit = sr.0;
        proof {
            assert(self@.sets =~= m0.sets.update(index as int, set_access(
                m0.sets[index as int], tag, ts).0));
            lemma_sums_update(m0.sets, index as int, set_access(m0.sets[index as int],
                tag, ts).0);
            assert(self@ =~= cache_access_spec(m0, address).0);
        }
        let cycles: u64 = if hit {
            HIT_CYCLES
        } else {
            MISS_CYCLES
        };
        (hit, cycles)
    }

    /// Flush the line holding the given address, if resident; returns
    /// whether a line was invalidated.  Used by flush-based attacks.
    pub fn flush(&mut self, address: u64) -> (found: bool)
        requires
            cache_inv(old(self)@),
        ensures
            cache_inv(final(self)@),
            final(self)@ == cache_flush_spec(old(self)@, address).0,
            found == cache_flush_spec(old(self)@, address).1,
    {
        let ghost m0 = self@;
        let r = self.decompose_address(address);
        let tag = r.0;
        let index = r.1;
        let set = &mut self.sets[index];
        let found = set.flush(tag);
        proof {
            assert(self@.sets =~= m0.sets.update(index as int, set_flush(
                m0.sets[index as int], tag).0));
            lemma_sums_update(m0.sets, index as int, set_flush(m0.sets[index as int],
                tag).0);
            assert(self@ =~= cache_flush_spec(m0, address).0);
        }
        found
    }

    /// Aggregate hit/miss statistics over all sets.  Read-only: the cache
    /// state is not touched.
    #[verifier::loop_isolation(false)]
    pub fn stats(&self) -> (r: CacheStats)
        requires
            cache_inv(self@),
        ensures
            r.total_accesses as int == sum_access(self@.sets),
            r.total_hits as int == sum_hits(self@.sets),
            r.total_misses as int == sum_access(self@.sets) - sum_hits(self@.sets),
    {
        let ghost msets = self@.sets;
        proof {
            lemma_sum_hits_le_access(msets);
            lemma_sums_nonneg(msets);
        }
        let mut total_accesses: u64 = 0;
        let mut total_hits: u64 = 0;
        let n = self.sets.len();
        let mut i: usize = 0;
        while i < n
            invariant
                i <= n,
                total_accesses as int == sum_access(msets.take(i as int)),
                total_hits as int == sum_hits(msets.take(i as int)),
            decreases n - i,
        {
            proof {
                lemma_sums_take_step(msets, i as int);
                lemma_sums_take_le(msets, i + 1);
                assert(forall|j: int| 0 <= j < msets.take(i + 1).len()
                    ==> set_inv(#[trigger] msets.take(i + 1)[j]));
                lemma_sum_hits_le_access(msets.take(i + 1));
                lemma_sums_nonneg(msets.take(i + 1));
            }
            total_accesses = total_accesses + self.sets[i].access_count;
            total_hits = total_hits + self.sets[i].hit_count;
            i = i + 1;
        }
        proof {
            assert(msets.take(n as int) =~= msets);
        }
        CacheStats {
            total_accesses: total_accesses,
            total_hits: total_hits,
            total_misses: total_accesses - total_hits,
        }
    }

    /// Per-set statistics, in set order.  Read-only.
    #[verifier::loop_isolation(false)]
    pub fn detailed_stats(&self) -> (r: Vec<SetStats>)
        requires
            cache_inv(self@),
        ensures
            r@.len() == self@.sets.len(),
            forall|i: int| 0 <= i < r@.len() ==> {
                &&& (#[trigger] r@[i]).set_index == i
                &&& r@[i].accesses == self@.sets[i].access_count
                &&& r@[i].hits == self@.sets[i].hit_count
                &&& r@[i].misses == self@.sets[i].miss_count
                &&& r@[i].valid_lines as int == valid_count(self@.sets[i].lines)
            },
    {
        let mut r: Vec<SetStats> = Vec::new();
        let n = self.sets.len();
        let mut i: usize = 0;
        while i < n
            invariant
                i <= n,
                r@.len() == i,
                forall|j: int| 0 <= j < i ==> {
                    &&& (#[trigger] r@[j]).set_index == j
                    &&& r@[j].accesses == self@.sets[j].access_count
                    &&& r@[j].hits == self@.sets[j].hit_count
                    &&& r@[j].misses == self@.sets[j].miss_count
                    &&& r@[j].valid_lines as int == valid_count(self@.sets[j].lines)
                },
            decreases n - i,
        {
            let set = &self.sets[i];
            let stats = SetStats {
                set_index: i,
                accesses: set.access_count,
                hits: set.hit_count,
                misses: set.miss_count,
                valid_lines: set.valid_lines(),
            };
            r.push(stats);
            i = i + 1;
        }
        r
    }
}

/// Two cache states share their geometry: only sets' contents and the
/// timestamp may differ.
pub open spec fn same_geometry(a: CacheModel, b: CacheModel) -> bool {
    &&& b.config == a.config
    &&& b.num_sets == a.num_sets
    &&& b.associativity == a.associativity
    &&& b.line_size == a.line_size
    &&& b.index_bits == a.index_bits
    &&& b.offset_bits == a.offset_bits
    &&& b.sets.len() == a.sets.len()
}

/// One access preserves the cache invariant, advances the timestamp by
/// one, keeps the geometry, and prices the access by the timing model.
pub proof fn lemma_cache_access_preserves_inv(m: CacheModel, address: u64)
    requires
        cache_inv(m),
        m.timestamp < u64::MAX,
    ensures
        ({
            let r = cache_access_spec(m, address);
            &&& cache_inv(r.0)
            &&& same_geometry(m, r.0)
            &&& r.0.timestamp == m.timestamp + 1
            &&& r.2 == if r.1 {
                HIT_CYCLES
            } else {
                MISS_CYCLES
            }
        }),
{
    lemma_pow2_pos(m.index_bits as nat);
    let idx = addr_index(m, address);
    let tag = addr_tag(m, address) as u64;
    let ts = (m.timestamp + 1) as u64;
    lemma_sum_access_elem(m.sets, idx);
    lemma_set_access_preserves_inv(m.sets[idx], tag, ts);
    lemma_sums_update(m.sets, idx, set_access(m.sets[idx], tag, ts).0);
}

/// One flush preserves the cache invariant, the timestamp and the
/// geometry.
pub proof fn lemma_cache_flush_preserves_inv(m: CacheModel, address: u64)
    requires
        cache_inv(m),
    ensures
        ({
            let r = cache_flush_spec(m, address);
            &&& cache_inv(r.0)
            &&& same_geometry(m, r.0)
            &&& r.0.timestamp == m.timestamp
        }),
{
    lemma_pow2_pos(m.index_bits as nat);
    let idx = addr_index(m, address);
    let tag = addr_tag(m, address) as u64;
    lemma_set_flush_preserves_inv(m.sets[idx], tag);
    lemma_sums_update(m.sets, idx, set_flush(m.sets[idx], tag).0);
}

/// The cache state and the observed (hit, cycles) pairs after a whole
/// sequence of accesses, in order.
pub open spec fn cache_accesses_spec(m: CacheModel, addrs: Seq<u64>) -> (CacheModel, Seq<(
    bool, u64)>)
    decreases addrs.len(),
{
    if addrs.len() == 0 {
        (m, Seq::empty())
    } else {
        let prev = cache_accesses_spec(m, addrs.drop_last());
        let last = cache_access_spec(prev.0, addrs.last());
        (last.0, prev.1.push((last.1, last.2)))
    }
}

/// The cache state and the found flags after a whole sequence of flushes,
/// in order.
pub open spec fn cache_flushes_spec(m: CacheModel, addrs: Seq<u64>) -> (CacheModel, Seq<
    bool>)
    decreases addrs.len(),
{
    if addrs.len() == 0 {
        (m, Seq::empty())
    } else {
        let prev = cache_flushes_spec(m, addrs.drop_last());
        let last = cache_flush_spec(prev.0, addrs.last());
        (last.0, prev.1.push(last.1))
    }
}

/// A sequence of accesses preserves the invariant and advances the
/// timestamp once per access.
pub proof fn lemma_accesses_preserve_inv(m: CacheModel, addrs: Seq<u64>)
    requires
        cache_inv(m),
        m.timestamp + addrs.len() <= u64::MAX,
    ensures
        ({
            let r = cache_accesses_spec(m, addrs);
            &&& cache_inv(r.0)
            &&& same_geometry(m, r.0)
            &&& r.0.timestamp == m.timestamp + addrs.len()
            &&& r.1.len() == addrs.len()
        }),
    decreases addrs.len(),
{
    if addrs.len() > 0 {
        lemma_accesses_preserve_inv(m, addrs.drop_last());
        lemma_cache_access_preserves_inv(cache_accesses_spec(m, addrs.drop_last()).0,
            addrs.last());
    }
}

/// A sequence of flushes preserves the invariant and the timestamp.
pub proof fn lemma_flushes_preserve_inv(m: CacheModel, addrs: Seq<u64>)
    requires
        cache_inv(m),
    ensures
        ({
            let r = cache_flushes_spec(m, addrs);
            &&& cache_inv(r.0)
            &&& same_geometry(m, r.0)
            &&& r.0.timestamp == m.timestamp
            &&& r.1.len() == addrs.len()
        }),
    decreases addrs.len(),
{
    if addrs.len() > 0 {
        lemma_flushes_preserve_inv(m, addrs.drop_last());
        lemma_cache_flush_preserves_inv(cache_flushes_spec(m, addrs.drop_last()).0,
            addrs.last());
    }
}

/// Or-ing two values whose set bits live in disjoint ranges adds them:
/// `x` is a multiple of `2^k` and `y` lies below `2^k`.
#[verifier::rlimit(100)]
pub proof fn lemma_or_disjoint_is_add(x: u64, y: u64, k: u64)
    requires
        k < 64,
        x & (((1u64 << k) - 1) as u64) == 0,
        y < (1u64 << k),
    ensures
        x | y == x + y,
{
    assert(x | y == x + y) by (bit_vector)
        requires
            k < 64,
            x & (((1u64 << k) - 1) as u64) == 0,
            y < (1u64 << k),
    ;
}

/// Shifting left by `k` yields a multiple of `2^k`.
#[verifier::rlimit(100)]
pub proof fn lemma_shl_multiple(x: u64, k: u64)
    requires
        k < 64,
    ensures
        (x << k) & (((1u64 << k) - 1) as u64) == 0,
{
    assert((x << k) & (((1u64 << k) - 1) as u64) == 0) by (bit_vector)
        requires
            k < 64,
    ;
}

/// The decomposed fields of an address are bounded: the offset by the
/// line size, the index by the set count, and the tag by the address
/// itself.
pub proof fn lemma_addr_bounds(m: CacheModel, address: u64)
    requires
        cache_inv(m),
    ensures
        0 <= addr_offset(m, address) < m.line_size,
        0 <= addr_index(m, address) < m.num_sets,
        0 <= addr_tag(m, address) <= address,
{
    lemma_pow2_pos(m.offset_bits as nat);
    lemma_pow2_pos(m.index_bits as nat);
    let ls = m.line_size as int;
    let ns = m.num_sets as int;
    assert(ls * ns >= 1) by (nonlinear_arith)
        requires
            ls >= 1,
            ns >= 1,
    ;
    vstd::arithmetic::div_mod::lemma_div_pos_is_pos(address as int, ls * ns);
    vstd::arithmetic::div_mod::lemma_div_nonincreasing(address as int, ls * ns);
    vstd::arithmetic::div_mod::lemma_div_pos_is_pos(address as int, ls);
}

/// Law: address decomposition round-trips.  The three components
/// reassemble the address exactly, both arithmetically and by shifting
/// the tag above the index above the offset and or-ing the fields
/// together.
pub proof fn lemma_decompose_roundtrip(m: CacheModel, address: u64)
    requires
        cache_inv(m),
    ensures
        0 <= addr_offset(m, address) < m.line_size,
        0 <= addr_index(m, address) < m.num_sets,
        0 <= addr_tag(m, address) <= address,
        addr_tag(m, address) * (m.line_size as int * m.num_sets as int) + addr_index(m,
            address) * m.line_size as int + addr_offset(m, address) == address,
        ((addr_tag(m, address) as u64) << ((m.offset_bits + m.index_bits) as u64)) | ((
        addr_index(m, address) as u64) << (m.offset_bits as u64)) | (addr_offset(m,
            address) as u64) == address,
{
    let ls = m.line_size as int;
    let ns = m.num_sets as int;
    lemma_pow2_pos(m.offset_bits as nat);
    lemma_pow2_pos(m.index_bits as nat);
    let a = address as int;
    let off = addr_offset(m, address);
    let idx = addr_index(m, address);
    let tag = addr_tag(m, address);
    let q = a / ls;
    lemma_fundamental_div_mod(a, ls);
    lemma_fundamental_div_mod(q, ns);
    lemma_div_denominator(a, ls, ns);
    assert(tag == q / ns);
    assert(tag * (ls * ns) + idx * ls + off == a) by (nonlinear_arith)
        requires
            a == ls * q + off,
            q == ns * tag + idx,
    ;
    assert(tag >= 0 && tag * (ls * ns) <= a && idx * ls + off >= 0 && idx * ls + off
        <= ls * ns - 1 && idx * ls <= a && tag <= a) by (nonlinear_arith)
        requires
            a == tag * (ls * ns) + idx * ls + off,
            0 <= off < ls,
            0 <= idx < ns,
            ls >= 1,
            ns >= 1,
            a >= 0,
            tag == a / (ls * ns),
    ;

    let obu = m.offset_bits as u64;
    let tbu = (m.offset_bits + m.index_bits) as u64;
    lemma_u64_pow2_no_overflow(m.offset_bits as nat);
    lemma_u64_pow2_no_overflow((m.offset_bits + m.index_bits) as nat);
    lemma_u64_shl_is_mul(1u64, obu);
    lemma_u64_shl_is_mul(1u64, tbu);
    lemma_pow2_adds(m.offset_bits as nat, m.index_bits as nat);
    assert(1u64 << obu == ls);
    assert(1u64 << tbu == ls * ns);

    let xs = idx as u64;
    lemma_u64_shl_is_mul(xs, obu);
    let idx_shifted = xs << obu;

    let ts = tag as u64;
    lemma_u64_shl_is_mul(ts, tbu);
    let tag_shifted = ts << tbu;
    lemma_shl_multiple(ts, tbu);
    lemma_or_disjoint_is_add(tag_shifted, idx_shifted, tbu);
    let outer = tag_shifted | idx_shifted;
    assert(outer == tag * (ls * ns) + idx * ls);

    assert(outer == (tag * ns + idx) * ls) by (nonlinear_arith)
        requires
            outer == tag * (ls * ns) + idx * ls,
    ;
    vstd::arithmetic::div_mod::lemma_mod_multiples_basic(tag * ns + idx, ls);
    lemma_u64_low_bits_mask_is_mod(outer, m.offset_bits as nat);
    assert(outer & (((1u64 << obu) - 1) as u64) == 0);
    lemma_or_disjoint_is_add(outer, off as u64, obu);
    assert(outer | (off as u64) == tag * (ls * ns) + idx * ls + off);
}

/// Law: accessing an address makes its tag resident, so a second access
/// to the same address with no operation in between is always a hit and
/// costs exactly 1 cycle.
pub proof fn lemma_second_access_hits(m: CacheModel, address: u64)
    requires
        cache_inv(m),
        m.timestamp < u64::MAX,
    ensures
        cache_access_spec(cache_access_spec(m, address).0, address).1 == true,
        cache_access_spec(cache_access_spec(m, address).0, address).2 == 1,
{
    lemma_pow2_pos(m.index_bits as nat);
    lemma_cache_access_preserves_inv(m, address);
    lemma_addr_bounds(m, address);
    let m1 = cache_access_spec(m, address).0;
    lemma_addr_bounds(m1, address);
    let idx = addr_index(m, address);
    let tag = addr_tag(m, address) as u64;
    let ts = (m.timestamp + 1) as u64;
    let s = m.sets[idx];
    let r = set_access(s, tag, ts);
    lemma_sum_access_elem(m.sets, idx);
    if has_matching_line(s.lines, tag) {
        lemma_first_matching(s.lines, tag);
        let w = first_matching(s.lines, tag);
        assert(crate::line::line_matches(r.0.lines[w], tag));
        assert(has_matching_line(r.0.lines, tag));
    } else {
        let s2 = SetModel {
            lines: s.lines,
            associativity: s.associativity,
            access_count: (s.access_count + 1) as u64,
            hit_count: s.hit_count,
            miss_count: (s.miss_count + 1) as u64,
            replacement_policy: s.replacement_policy,
            fifo_index: s.fifo_index,
        };
        lemma_replace_victim_in_range(s2);
        let v = replace_victim(s2);
        assert(crate::line::line_matches(r.0.lines[v], tag));
        assert(has_matching_line(r.0.lines, tag));
    }
    assert(addr_index(m1, address) == idx);
    assert(addr_tag(m1, address) == tag as int);
    assert(m1.sets[idx] == r.0);
}

/// Law: flushing an address evicts its tag, so re-accessing it
/// immediately afterwards is always a miss and costs 100 cycles.
pub proof fn lemma_access_after_flush_misses(m: CacheModel, address: u64)
    requires
        cache_inv(m),
    ensures
        cache_access_spec(cache_flush_spec(m, address).0, address).1 == false,
        cache_access_spec(cache_flush_spec(m, address).0, address).2 == 100,
{
    lemma_pow2_pos(m.index_bits as nat);
    lemma_cache_flush_preserves_inv(m, address);
    lemma_addr_bounds(m, address);
    let m1 = cache_flush_spec(m, address).0;
    lemma_addr_bounds(m1, address);
    let idx = addr_index(m, address);
    let tag = addr_tag(m, address) as u64;
    let s = m.sets[idx];
    let f = set_flush(s, tag);
    if has_matching_line(s.lines, tag) {
        lemma_first_matching(s.lines, tag);
        let w = first_matching(s.lines, tag);
        assert forall|j: int| 0 <= j < f.0.lines.len() implies !crate::line::line_matches(
            #[trigger] f.0.lines[j], tag) by {
            if j != w {
                assert(f.0.lines[j] == s.lines[j]);
                assert(!crate::line::line_matches(s.lines[j], tag));
            }
        }
        assert(!has_matching_line(f.0.lines, tag));
    } else {
        assert(f.0 == s);
    }
    assert(addr_index(m1, address) == idx);
    assert(addr_tag(m1, address) == tag as int);
    assert(m1.sets[idx] == f.0);
}

/// The geometry product `line_size * num_sets` is the set stride
/// `2^(offset_bits + index_bits)` and stays within a 64-bit address.
pub proof fn lemma_geometry_bound(m: CacheModel)
    requires
        cache_inv(m),
    ensures
        m.line_size as int * m.num_sets as int == pow2((m.offset_bits
            + m.index_bits) as nat),
        m.line_size as int * m.num_sets as int <= 0x8000_0000_0000_0000,
{
    lemma_pow2_adds(m.offset_bits as nat, m.index_bits as nat);
    vstd::arithmetic::power2::lemma2_to64_rest();
    if m.offset_bits + m.index_bits < 63 {
        lemma_pow2_strictly_increases((m.offset_bits + m.index_bits) as nat, 63);
    }
}

/// The sums over freshly constructed sets are zero.
pub proof fn lemma_sums_zero(sets: Seq<SetModel>)
    requires
        forall|i: int| 0 <= i < sets.len() ==> (#[trigger] sets[i]).access_count == 0
            && sets[i].hit_count == 0,
    ensures
        sum_access(sets) == 0,
        sum_hits(sets) == 0,
    decreases sets.len(),
{
    if sets.len() > 0 {
        assert(forall|i: int| 0 <= i < sets.drop_last().len()
            ==> #[trigger] sets.drop_last()[i] == sets[i]);
        lemma_sums_zero(sets.drop_last());
    }
}

/// From the recursive power-of-two predicate to an explicit exponent.
pub proof fn lemma_pow2_from_is_pow2(n: int)
    requires
        is_pow2(n),
    ensures
        n == pow2(log2_exponent(n)),
        n >= 1,
{
    lemma_log2_exponent(n);
    lemma_pow2_pos(log2_exponent(n));
}

} // verus!
