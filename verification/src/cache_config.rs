//! Cache geometry configuration: cache type (direct-mapped, N-way
//! set-associative, fully-associative), total size, line size and
//! replacement policy, together with the derivation of the number of sets
//! and the associativity.

use vstd::prelude::*;
use vstd::arithmetic::power2::{pow2, is_pow2, is_pow2_equiv, lemma_pow2_unfold,
    lemma_pow2_strictly_increases, lemma2_to64, lemma2_to64_rest};

verus! {

/// The shape of the cache: a direct-mapped cache is the 1-way special case,
/// a fully-associative cache is the 1-set special case.
#[derive(Debug, Clone, Copy, PartialEq, Eq, Structural)]
pub enum CacheType {
    DirectMapped,
    SetAssociative(usize),
    FullyAssociative,
}

/// How a victim line is chosen when a full set must evict.
#[derive(Debug, Clone, Copy, PartialEq, Eq, Structural)]
pub enum ReplacementPolicy {
    LRU,
    FIFO,
    Random,
}

/// An abstract description of a cache's geometry, consumed by
/// `Cache::from_config`.
#[derive(Debug, Clone, Copy, PartialEq, Eq, Structural)]
pub struct CacheConfig {
    pub cache_type: CacheType,
    pub total_size: usize,
    pub line_size: usize,
    pub replacement_policy: ReplacementPolicy,
}

/// The number of sets a configuration yields.
pub open spec fn spec_num_sets(c: CacheConfig) -> int {
    match c.cache_type {
        CacheType::DirectMapped => c.total_size as int / c.line_size as int,
        CacheType::SetAssociative(ways) => c.total_size as int / (c.line_size as int
            * ways as int),
        CacheType::FullyAssociative => 1,
    }
}

/// The number of ways per set a configuration yields.
pub open spec fn spec_associativity(c: CacheConfig) -> int {
    match c.cache_type {
        CacheType::DirectMapped => 1,
        CacheType::SetAssociative(ways) => ways as int,
        CacheType::FullyAssociative => c.total_size as int / c.line_size as int,
    }
}

/// A configuration is valid when it yields at least one set and one way,
/// both the line size and the set count are powers of two (so that offset
/// and index bits can be cut out of an address), and the geometry fits the
/// machine's integer types.
pub open spec fn config_valid(c: CacheConfig) -> bool {
    &&& c.line_size >= 1
    &&& is_pow2(c.line_size as int)
    &&& spec_associativity(c) >= 1
    &&& spec_num_sets(c) >= 1
    &&& is_pow2(spec_num_sets(c))
    &&& c.line_size as int * spec_num_sets(c) <= 0x8000_0000_0000_0000
    &&& match c.cache_type {
        CacheType::SetAssociative(ways) => c.line_size as int * ways as int
            <= usize::MAX as int,
        _ => true,
    }
}

/// A value known to be a specific power of two is a power of two.
pub proof fn lemma_is_pow2_of(k: nat, n: int)
    requires
        pow2(k) == n,
    ensures
        is_pow2(n),
{
    vstd::arithmetic::power::lemma_pow_positive(2, k);
    assert(vstd::arithmetic::power::pow(2, k) == n);
    is_pow2_equiv(n);
}

/// Decide whether `n` is a power of two, by stripping factors of two.
pub fn is_power_of_two(n: usize) -> (r: bool)
    ensures
        r == is_pow2(n as int),
{
    proof {
        reveal(is_pow2);
    }
    if n == 0 {
        return false;
    }
    let mut m = n;
    while m > 1 && m % 2 == 0
        invariant
            m >= 1,
            is_pow2(n as int) == is_pow2(m as int),
        decreases m,
    {
        proof {
            reveal(is_pow2);
        }
        m = m / 2;
    }
    proof {
        reveal(is_pow2);
    }
    m == 1
}

/// The exponent of a power of two: returns `r` with `pow2(r) == n`.
pub fn log2_of_pow2(n: usize) -> (r: usize)
    requires
        is_pow2(n as int),
    ensures
        r < 64,
        pow2(r as nat) == n,
{
    proof {
        is_pow2_equiv(n as int);
    }
    let ghost k: nat = choose|k: nat| vstd::arithmetic::power::pow(2, k) == n as int;
    proof {
        assert(pow2(k) == n);
        if k >= 64 {
            lemma2_to64_rest();
            lemma_pow2_strictly_increases(64, k);
            assert(pow2(64) <= pow2(k) || k == 64);
            assert(false);
        }
    }
    let mut m = n;
    let mut r: usize = 0;
    while m > 1
        invariant
            r <= k,
            k < 64,
            m == pow2((k - r) as nat),
            pow2(k as nat) == n,
        decreases m,
    {
        proof {
            lemma2_to64();
            if k == r {
                assert(m == pow2(0));
                assert(false);
            }
            lemma_pow2_unfold((k - r) as nat);
        }
        m = m / 2;
        r = r + 1;
    }
    proof {
        lemma2_to64();
        if r < k {
            lemma_pow2_strictly_increases(0, (k - r) as nat);
            assert(false);
        }
    }
    r
}

impl CacheConfig {
    /// A direct-mapped cache: one way per set, LRU by convention.
    pub fn direct_mapped(total_size: usize, line_size: usize) -> (c: CacheConfig)
        ensures
            c == (CacheConfig {
                cache_type: CacheType::DirectMapped,
                total_size: total_size,
                line_size: line_size,
                replacement_policy: ReplacementPolicy::LRU,
            }),
    {
        CacheConfig {
            cache_type: CacheType::DirectMapped,
            total_size: total_size,
            line_size: line_size,
            replacement_policy: ReplacementPolicy::LRU,
        }
    }

    /// An N-way set-associative cache.
    pub fn set_associative(total_size: usize, line_size: usize, associativity: usize,
        policy: ReplacementPolicy) -> (c: CacheConfig)
        ensures
            c == (CacheConfig {
                cache_type: CacheType::SetAssociative(associativity),
                total_size: total_size,
                line_size: line_size,
                replacement_policy: policy,
            }),
    {
        CacheConfig {
            cache_type: CacheType::SetAssociative(associativity),
            total_size: total_size,
            line_size: line_size,
            replacement_policy: policy,
        }
    }

    /// A fully-associative cache: a single set holding every line.
    pub fn fully_associative(total_size: usize, line_size: usize,
        policy: ReplacementPolicy) -> (c: CacheConfig)
        ensures
            c == (CacheConfig {
                cache_type: CacheType::FullyAssociative,
                total_size: total_size,
                line_size: line_size,
                replacement_policy: policy,
            }),
    {
        CacheConfig {
            cache_type: CacheType::FullyAssociative,
            total_size: total_size,
            line_size: line_size,
            replacement_policy: policy,
        }
    }

    /// The number of sets this configuration yields.
    pub fn num_sets(&self) -> (r: usize)
        requires
            self.line_size >= 1,
            match self.cache_type {
                CacheType::SetAssociative(ways) => ways >= 1 && self.line_size as int
                    * ways as int <= usize::MAX as int,
                _ => true,
            },
        ensures
            r as int == spec_num_sets(*self),
    {
        match self.cache_type {
            CacheType::DirectMapped => self.total_size / self.line_size,
            CacheType::SetAssociative(ways) => {
                proof {
                    assert(self.line_size as int * ways as int >= 1) by (nonlinear_arith)
                        requires
                            self.line_size >= 1,
                            ways >= 1,
                    ;
                }
                self.total_size / (self.line_size * ways)
            },
            CacheType::FullyAssociative => 1,
        }
    }

    /// The number of ways per set this configuration yields.
    pub fn associativity(&self) -> (r: usize)
        requires
            self.line_size >= 1,
        ensures
            r as int == spec_associativity(*self),
    {
        match self.cache_type {
            CacheType::DirectMapped => 1,
            CacheType::SetAssociative(ways) => ways,
            CacheType::FullyAssociative => self.total_size / self.line_size,
        }
    }

    /// Decide `config_valid` at run time, so that unverified callers can
    /// test a configuration before building a cache from it.
    pub fn is_valid(&self) -> (r: bool)
        ensures
            r == config_valid(*self),
    {
        if self.line_size < 1 {
            return false;
        }
        if !is_power_of_two(self.line_size) {
            return false;
        }
        match self.cache_type {
            CacheType::DirectMapped => {},
            CacheType::SetAssociative(ways) => {
                if ways < 1 {
                    return false;
                }
                proof {
                    assert(self.line_size as u128 as int * ways as u128 as int
                        <= u128::MAX as int) by (nonlinear_arith)
                        requires
                            self.line_size as u128 as int <= u64::MAX as int,
                            ways as u128 as int <= u64::MAX as int,
                    ;
                }
                if (self.line_size as u128) * (ways as u128) > usize::MAX as u128 {
                    return false;
                }
            },
            CacheType::FullyAssociative => {
                if self.total_size / self.line_size < 1 {
                    return false;
                }
            },
        }
        let ns = self.num_sets();
        if ns < 1 {
            return false;
        }
        if !is_power_of_two(ns) {
            return false;
        }
        proof {
            assert(self.line_size as u128 as int * ns as u128 as int <= u128::MAX as int)
                by (nonlinear_arith)
                requires
                    self.line_size as u128 as int <= u64::MAX as int,
                    ns as u128 as int <= u64::MAX as int,
            ;
        }
        if (self.line_size as u128) * (ns as u128) > 0x8000_0000_0000_0000u128 {
            return false;
        }
        true
    }
}


/// The ready-made configuration lists: one spanning every cache shape and
/// policy for functional comparison, one picked for attack demonstrations.
pub struct CacheConfigs;

/// The comparison catalogue: direct-mapped, 2/4/8-way LRU, 4-way FIFO and
/// pseudo-random, and two fully-associative shapes.
pub open spec fn test_configs() -> Seq<CacheConfig> {
    seq![
        CacheConfig { cache_type: CacheType::DirectMapped, total_size: 16384,
            line_size: 64, replacement_policy: ReplacementPolicy::LRU },
        CacheConfig { cache_type: CacheType::DirectMapped, total_size: 32768,
            line_size: 64, replacement_policy: ReplacementPolicy::LRU },
        CacheConfig { cache_type: CacheType::SetAssociative(2), total_size: 32768,
            line_size: 64, replacement_policy: ReplacementPolicy::LRU },
        CacheConfig { cache_type: CacheType::SetAssociative(4), total_size: 32768,
            line_size: 64, replacement_policy: ReplacementPolicy::LRU },
        CacheConfig { cache_type: CacheType::SetAssociative(8), total_size: 32768,
            line_size: 64, replacement_policy: ReplacementPolicy::LRU },
        CacheConfig { cache_type: CacheType::SetAssociative(4), total_size: 32768,
            line_size: 64, replacement_policy: ReplacementPolicy::FIFO },
        CacheConfig { cache_type: CacheType::SetAssociative(4), total_size: 32768,
            line_size: 64, replacement_policy: ReplacementPolicy::Random },
        CacheConfig { cache_type: CacheType::FullyAssociative, total_size: 8192,
            line_size: 64, replacement_policy: ReplacementPolicy::LRU },
        CacheConfig { cache_type: CacheType::FullyAssociative, total_size: 16384,
            line_size: 64, replacement_policy: ReplacementPolicy::FIFO },
    ]
}

/// The attack catalogue: a direct-mapped cache, low and high
/// associativity, and a fully-associative shape.
pub open spec fn attack_configs() -> Seq<CacheConfig> {
    seq![
        CacheConfig { cache_type: CacheType::DirectMapped, total_size: 16384,
            line_size: 64, replacement_policy: ReplacementPolicy::LRU },
        CacheConfig { cache_type: CacheType::SetAssociative(2), total_size: 32768,
            line_size: 64, replacement_policy: ReplacementPolicy::LRU },
        CacheConfig { cache_type: CacheType::SetAssociative(8), total_size: 32768,
            line_size: 64, replacement_policy: ReplacementPolicy::LRU },
        CacheConfig { cache_type: CacheType::FullyAssociative, total_size: 8192,
            line_size: 64, replacement_policy: ReplacementPolicy::LRU },
    ]
}

/// Every configuration in the catalogues is valid.
pub proof fn lemma_catalogue_configs_valid()
    ensures
        forall|i: int| 0 <= i < test_configs().len() ==> config_valid(
            #[trigger] test_configs()[i]),
        forall|i: int| 0 <= i < attack_configs().len() ==> config_valid(
            #[trigger] attack_configs()[i]),
{
    lemma2_to64();
    lemma_is_pow2_of(0, 1);
    lemma_is_pow2_of(6, 64);
    lemma_is_pow2_of(7, 128);
    lemma_is_pow2_of(8, 256);
    lemma_is_pow2_of(9, 512);
    assert(64 * 2 == 128int && 64 * 4 == 256int && 64 * 8 == 512int && 64 * 1 == 64int
        && 64 * 64 == 4096int && 64 * 128 == 8192int && 64 * 256 == 16384int && 64
        * 512 == 32768int) by (nonlinear_arith);
    assert(32768int / (64int * 2) == 256 && 32768int / (64int * 4) == 128 && 32768int
        / (64int * 8) == 64 && 16384int / 64 == 256 && 32768int / 64 == 512 && 8192int
        / 64 == 128) by (nonlinear_arith);
    assert forall|i: int| 0 <= i < test_configs().len() implies config_valid(
        #[trigger] test_configs()[i]) by {
        assert(config_valid(test_configs()[0]));
        assert(config_valid(test_configs()[1]));
        assert(config_valid(test_configs()[2]));
        assert(config_valid(test_configs()[3]));
        assert(config_valid(test_configs()[4]));
        assert(config_valid(test_configs()[5]));
        assert(config_valid(test_configs()[6]));
        assert(config_valid(test_configs()[7]));
        assert(config_valid(test_configs()[8]));
    }
    assert forall|i: int| 0 <= i < attack_configs().len() implies config_valid(
        #[trigger] attack_configs()[i]) by {
        assert(config_valid(attack_configs()[0]));
        assert(config_valid(attack_configs()[1]));
        assert(config_valid(attack_configs()[2]));
        assert(config_valid(attack_configs()[3]));
    }
}

impl CacheConfigs {
    /// The comparison catalogue, ready to run.
    pub fn get_test_configs() -> (r: Vec<CacheConfig>)
        ensures
            r@ == test_configs(),
            forall|i: int| 0 <= i < r@.len() ==> config_valid(#[trigger] r@[i]),
    {
        let mut r: Vec<CacheConfig> = Vec::new();
        r.push(CacheConfig::direct_mapped(16 * 1024, 64));
        r.push(CacheConfig::direct_mapped(32 * 1024, 64));
        r.push(CacheConfig::set_associative(32 * 1024, 64, 2, ReplacementPolicy::LRU));
        r.push(CacheConfig::set_associative(32 * 1024, 64, 4, ReplacementPolicy::LRU));
        r.push(CacheConfig::set_associative(32 * 1024, 64, 8, ReplacementPolicy::LRU));
        r.push(CacheConfig::set_associative(32 * 1024, 64, 4, ReplacementPolicy::FIFO));
        r.push(CacheConfig::set_associative(32 * 1024, 64, 4,
            ReplacementPolicy::Random));
        r.push(CacheConfig::fully_associative(8 * 1024, 64, ReplacementPolicy::LRU));
        r.push(CacheConfig::fully_associative(16 * 1024, 64, ReplacementPolicy::FIFO));
        proof {
            assert(r@ =~= test_configs());
            lemma_catalogue_configs_valid();
        }
        r
    }

    /// The attack catalogue, ready to run.
    pub fn get_attack_configs() -> (r: Vec<CacheConfig>)
        ensures
            r@ == attack_configs(),
            forall|i: int| 0 <= i < r@.len() ==> config_valid(#[trigger] r@[i]),
    {
        let mut r: Vec<CacheConfig> = Vec::new();
        r.push(CacheConfig::direct_mapped(16 * 1024, 64));
        r.push(CacheConfig::set_associative(32 * 1024, 64, 2, ReplacementPolicy::LRU));
        r.push(CacheConfig::set_associative(32 * 1024, 64, 8, ReplacementPolicy::LRU));
        r.push(CacheConfig::fully_associative(8 * 1024, 64, ReplacementPolicy::LRU));
        proof {
            assert(r@ =~= attack_configs());
            lemma_catalogue_configs_valid();
        }
        r
    }
}

} // verus!
