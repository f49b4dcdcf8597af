//! Meltdown: a fault-then-rollback simulation.  The attack first cleans
//! its side channel by flushing a 256-entry probe array, then reads the
//! privileged byte unconditionally and encodes it into the cache by
//! touching the probe entry with that index; only then does the privilege
//! check "fail" — the architectural denial does not undo the cache side
//! effect.  The extraction phase re-accesses the probe array in index
//! order and reports the one entry that is still resident as the
//! recovered byte.

use vstd::prelude::*;
use crate::cache::{Cache, CacheModel, cache_inv, cache_access_spec, cache_flushes_spec,
    lemma_cache_access_preserves_inv, lemma_cache_flush_preserves_inv,
    lemma_flushes_preserve_inv, lemma_sum_access_elem, addr_index, addr_tag,
    initial_cache};
use crate::cache_config::{CacheConfig, CacheType, ReplacementPolicy};
use crate::set::{has_matching_line, lemma_set_access_adds_tag};
use crate::attacks::flush_reload::lemma_flushes_clear;
use crate::attacks::prime_probe::{eviction_addr, lemma_eviction_addr_fields};

verus! {

/// The simulated privileged memory contents.
pub open spec fn kernel_secret() -> Seq<u8> {
    seq![75u8, 69u8, 82u8, 78u8, 69u8, 76u8, 95u8, 83u8, 69u8, 67u8, 82u8, 69u8, 84u8,
        95u8, 75u8, 69u8, 89u8, 95u8, 49u8, 50u8, 51u8, 33u8]
}

/// The probe-array slot for byte value `b`: entries one set stride plus
/// one line apart, so that on the simulator's 256-set cache every byte
/// value maps to its own set (set `b`, tag `128 + b`).
pub open spec fn meltdown_probe_addr(b: int) -> int {
    0x200000 + b * 16448
}

/// The tag under which probe entry `b` is cached.
pub open spec fn meltdown_probe_tag(b: int) -> u64 {
    (128 + b) as u64
}

/// Exactly the probe entry of byte value `b` is resident: the shape
/// `meltdown_attack` leaves the side channel in.
pub open spec fn probe_encoded_exactly(m: CacheModel, b: u8) -> bool {
    forall|c: int| 0 <= c < 256 ==> #[trigger] has_matching_line(m.sets[c].lines,
        meltdown_probe_tag(c)) == (c == b)
}

/// No probe entry is resident: a clean side channel.
pub open spec fn probe_clean(m: CacheModel) -> bool {
    forall|c: int| 0 <= c < 256 ==> !(#[trigger] has_matching_line(m.sets[c].lines,
        meltdown_probe_tag(c)))
}

/// The scan of the extraction phase: access probe entries in index order
/// and stop at the first that hits in under 10 cycles.
pub open spec fn extract_scan(m: CacheModel, probe: Seq<u64>, i: int) -> (CacheModel,
    Option<int>)
    decreases probe.len() - i,
{
    if i < 0 || i >= probe.len() {
        (m, Option::<int>::None)
    } else {
        let r = cache_access_spec(m, probe[i]);
        if r.1 && r.2 < 10 {
            (r.0, Option::Some(i))
        } else {
            extract_scan(r.0, probe, i + 1)
        }
    }
}

/// The geometry the probe array is laid out for: 64-byte lines and 256
/// sets, so the probe entries decompose to one set per byte value.
pub open spec fn meltdown_geometry(m: CacheModel) -> bool {
    &&& m.line_size == 64
    &&& m.num_sets == 256
}

/// The decomposition of a probe entry under the simulator's geometry:
/// set `b`, tag `128 + b`, offset 0.
pub proof fn lemma_meltdown_probe_fields(m: CacheModel, b: int)
    requires
        cache_inv(m),
        meltdown_geometry(m),
        0 <= b < 256,
    ensures
        addr_index(m, meltdown_probe_addr(b) as u64) == b,
        addr_tag(m, meltdown_probe_addr(b) as u64) == 128 + b,
        meltdown_probe_addr(b) <= u64::MAX,
{
    assert(meltdown_probe_addr(b) == eviction_addr(m, b, 128 + b)) by (nonlinear_arith)
        requires
            m.line_size == 64,
            m.num_sets == 256,
            0 <= b < 256,
    ;
    lemma_eviction_addr_fields(m, b, 128 + b);
}

/// The Meltdown simulator: a private cache, the simulated kernel memory,
/// the probe array, and the pending-fault flag.
pub struct MeltdownSimulator {
    pub cache: Cache,
    pub kernel_memory: Vec<u8>,
    pub probe_array: Vec<u64>,
    pub page_fault_occured: bool,
}

impl MeltdownSimulator {
    /// Well-formedness: the cache is well formed with the probe array's
    /// geometry, and the probe array has one entry per byte value.
    pub open spec fn wf(&self) -> bool {
        &&& cache_inv(self.cache@)
        &&& meltdown_geometry(self.cache@)
        &&& self.probe_array@.len() == 256
        &&& forall|i: int| 0 <= i < 256 ==> #[trigger] self.probe_array@[i] as int
            == meltdown_probe_addr(i)
    }

    /// Build a simulator over a 256-set, 8-way, 64-byte-line cache: one
    /// cache set per probe-array entry.
    #[verifier::loop_isolation(false)]
    pub fn new() -> (s: MeltdownSimulator)
        ensures
            s.wf(),
            s.kernel_memory@ == kernel_secret(),
            s.page_fault_occured == false,
            s.cache@ == initial_cache(CacheConfig {
                cache_type: CacheType::SetAssociative(8),
                total_size: 131072,
                line_size: 64,
                replacement_policy: ReplacementPolicy::LRU,
            }),
            s.cache@.timestamp == 0,
            s.cache@.line_size == 64,
            s.cache@.num_sets == 256,
            s.cache@.associativity == 8,
            forall|i: int, tag: u64| 0 <= i < s.cache@.sets.len()
                ==> !(#[trigger] has_matching_line(s.cache@.sets[i].lines, tag)),
    {
        proof {
            vstd::arithmetic::power2::lemma2_to64();
            vstd::arithmetic::power::lemma_pow_positive(2, 6);
            vstd::arithmetic::power::lemma_pow_positive(2, 8);
            assert(vstd::arithmetic::power::pow(2, 6) == 64);
            assert(vstd::arithmetic::power::pow(2, 8) == 256);
            vstd::arithmetic::power2::is_pow2_equiv(64);
            vstd::arithmetic::power2::is_pow2_equiv(256);
            assert(vstd::arithmetic::power2::is_pow2(64));
            assert(vstd::arithmetic::power2::is_pow2(256));
            assert(256int * 8 * 64 == 131072 && 64int * 256 == 16384)
                by (nonlinear_arith);
        }
        let cache = Cache::new(256, 8, 64);

        let mut kernel_memory: Vec<u8> = Vec::new();
        kernel_memory.push(75);
        kernel_memory.push(69);
        kernel_memory.push(82);
        kernel_memory.push(78);
        kernel_memory.push(69);
        kernel_memory.push(76);
        kernel_memory.push(95);
        kernel_memory.push(83);
        kernel_memory.push(69);
        kernel_memory.push(67);
        kernel_memory.push(82);
        kernel_memory.push(69);
        kernel_memory.push(84);
        kernel_memory.push(95);
        kernel_memory.push(75);
        kernel_memory.push(69);
        kernel_memory.push(89);
        kernel_memory.push(95);
        kernel_memory.push(49);
        kernel_memory.push(50);
        kernel_memory.push(51);
        kernel_memory.push(33);
        proof {
            assert(kernel_memory@ =~= kernel_secret());
        }

        let mut probe_array: Vec<u64> = Vec::new();
        let mut i: usize = 0;
        while i < 256
            invariant
                i <= 256,
                probe_array@.len() == i,
                forall|j: int| 0 <= j < i ==> #[trigger] probe_array@[j] as int
                    == meltdown_probe_addr(j),
            decreases 256 - i,
        {
            probe_array.push(0x200000 + (i as u64) * 16448);
            i = i + 1;
        }

        let s = MeltdownSimulator {
            cache: cache,
            kernel_memory: kernel_memory,
            probe_array: probe_array,
            page_fault_occured: false,
        };
        proof {
            assert forall|k: int, tag: u64| 0 <= k < s.cache@.sets.len()
                implies !(#[trigger] has_matching_line(s.cache@.sets[k].lines, tag)) by {
                assert(forall|j: int| 0 <= j < s.cache@.sets[k].lines.len()
                    ==> !(#[trigger] s.cache@.sets[k].lines[j]).valid);
            }
        }
        s
    }

    /// The guarded read of privileged memory: in bounds it returns the
    /// byte; out of bounds it raises the simulated fault and returns
    /// nothing.
    pub fn access_kernel_memory(&mut self, kernel_addr: usize) -> (r: Option<u8>)
        ensures
            final(self).cache@ == old(self).cache@,
            final(self).kernel_memory@ == old(self).kernel_memory@,
            final(self).probe_array@ == old(self).probe_array@,
            kernel_addr < old(self).kernel_memory@.len() ==> r == Option::Some(old(
                self).kernel_memory@[kernel_addr as int]) && final(
                self).page_fault_occured == old(self).page_fault_occured,
            kernel_addr >= old(self).kernel_memory@.len() ==> r is None && final(
                self).page_fault_occured == true,
    {
        if kernel_addr >= self.kernel_memory.len() {
            self.page_fault_occured = true;
            return None;
        }
        Some(self.kernel_memory[kernel_addr])
    }

    /// The fault-then-rollback sequence: flush the probe array (a clean
    /// side channel), read the privileged byte (a sentinel 0xDE if out of
    /// range), encode it by touching the probe entry with that index, and
    /// raise the fault.  The return value reports success: the cache side
    /// effect is in place regardless of the privilege denial, and exactly
    /// the read byte's probe entry is resident afterwards.
    #[verifier::loop_isolation(false)]
    pub fn meltdown_attack(&mut self, kernel_offset: usize) -> (success: bool)
        requires
            old(self).wf(),
            old(self).cache@.timestamp < u64::MAX,
        ensures
            success == true,
            final(self).wf(),
            final(self).page_fault_occured == true,
            final(self).kernel_memory@ == old(self).kernel_memory@,
            final(self).probe_array@ == old(self).probe_array@,
            ({
                let secret = if kernel_offset < old(self).kernel_memory@.len() {
                    old(self).kernel_memory@[kernel_offset as int]
                } else {
                    0xDEu8
                };
                &&& final(self).cache@ == cache_access_spec(cache_flushes_spec(old(
                    self).cache@, old(self).probe_array@).0, old(self).probe_array@[
                    secret as int]).0
                &&& probe_encoded_exactly(final(self).cache@, secret)
            }),
            final(self).cache@.timestamp == old(self).cache@.timestamp + 1,
    {
        let ghost m0 = self.cache@;
        let ghost probe = self.probe_array@;

        // Clean the side channel: invalidate every probe entry.
        let n = self.probe_array.len();
        let mut i: usize = 0;
        while i < n
            invariant
                i <= n,
                self.probe_array@ == probe,
                self.kernel_memory@ == old(self).kernel_memory@,
                self.page_fault_occured == old(self).page_fault_occured,
                cache_inv(self.cache@),
                self.cache@ == cache_flushes_spec(m0, probe.take(i as int)).0,
                self.cache@.timestamp == m0.timestamp,
            decreases n - i,
        {
            proof {
                assert(probe.take(i + 1).drop_last() =~= probe.take(i as int));
                assert(probe.take(i + 1).last() == probe[i as int]);
                lemma_cache_flush_preserves_inv(self.cache@, probe[i as int]);
            }
            self.cache.flush(self.probe_array[i]);
            i = i + 1;
        }
        proof {
            assert(probe.take(n as int) =~= probe);
            lemma_flushes_preserve_inv(m0, probe);
        }

        // The speculative privileged read, and its cache encoding.
        let secret_byte: u8 = if kernel_offset < self.kernel_memory.len() {
            self.kernel_memory[kernel_offset]
        } else {
            0xDE
        };
        let probe_addr = self.probe_array[secret_byte as usize];
        proof {
            lemma_cache_access_preserves_inv(self.cache@, probe_addr);
        }
        self.cache.access(probe_addr);
        self.page_fault_occured = true;

        proof {
            lemma_flush_then_encode(m0, probe, secret_byte);
        }
        true
    }

    /// The extraction phase: re-access the probe array in index order and
    /// report the first entry that hits in under 10 cycles as the
    /// recovered byte.  From the state `meltdown_attack` leaves — exactly
    /// one probe entry resident — the scan identifies that entry's byte
    /// value; from a clean side channel it reports nothing.
    #[verifier::loop_isolation(false)]
    pub fn extract_kernel_byte(&mut self) -> (r: Option<u8>)
        requires
            old(self).wf(),
            old(self).cache@.timestamp + 256 <= u64::MAX,
        ensures
            final(self).wf(),
            final(self).kernel_memory@ == old(self).kernel_memory@,
            final(self).probe_array@ == old(self).probe_array@,
            final(self).page_fault_occured == old(self).page_fault_occured,
            ({
                let sc = extract_scan(old(self).cache@, old(self).probe_array@, 0);
                &&& final(self).cache@ == sc.0
                &&& (sc.1 is Some ==> r == Option::Some(sc.1->0 as u8))
                &&& (sc.1 is None ==> r is None)
            }),
            // Recovery: the byte the attack encoded is read back.
            forall|b: u8| probe_encoded_exactly(old(self).cache@, b) ==> r
                == Option::Some(b),
            // Completeness: a clean side channel yields nothing.
            probe_clean(old(self).cache@) ==> r is None,
    {
        let ghost m0 = self.cache@;
        let ghost probe = self.probe_array@;
        proof {
            assert forall|b: u8| probe_encoded_exactly(m0, b) implies extract_scan(m0,
                probe, 0).1 == Option::Some(b as int) by {
                lemma_scan_finds_encoded(m0, probe, b, 0);
            }
            if probe_clean(m0) {
                lemma_scan_of_absent_tags(m0, probe, 0);
            }
        }
        let n = self.probe_array.len();
        let mut byte_val: usize = 0;
        while byte_val < n
            invariant
                byte_val <= n,
                self.probe_array@ == probe,
                self.kernel_memory@ == old(self).kernel_memory@,
                self.page_fault_occured == old(self).page_fault_occured,
                cache_inv(self.cache@),
                crate::cache::same_geometry(m0, self.cache@),
                self.cache@.timestamp == m0.timestamp + byte_val,
                extract_scan(m0, probe, 0) == extract_scan(self.cache@, probe,
                    byte_val as int),
            decreases n - byte_val,
        {
            proof {
                lemma_cache_access_preserves_inv(self.cache@, probe[byte_val as int]);
            }
            let r = self.cache.access(self.probe_array[byte_val]);
            if r.0 && r.1 < 10 {
                return Some(byte_val as u8);
            }
            byte_val = byte_val + 1;
        }
        None
    }

    /// Clear the pending fault, as the OS fault handler would.  Cache
    /// state is untouched: recovery does not erase the side channel.
    pub fn handle_exception(&mut self)
        ensures
            final(self).cache@ == old(self).cache@,
            final(self).kernel_memory@ == old(self).kernel_memory@,
            final(self).probe_array@ == old(self).probe_array@,
            final(self).page_fault_occured == false,
    {
        if self.page_fault_occured {
            self.page_fault_occured = false;
        }
    }
}

/// Flushing the probe array and then encoding one byte leaves exactly
/// that byte's probe entry resident: the attack's side effect survives
/// the architectural denial and pins down the read byte.
pub proof fn lemma_flush_then_encode(m: CacheModel, probe: Seq<u64>, secret: u8)
    requires
        cache_inv(m),
        meltdown_geometry(m),
        probe.len() == 256,
        forall|c: int| 0 <= c < 256 ==> #[trigger] probe[c] as int
            == meltdown_probe_addr(c),
        m.timestamp < u64::MAX,
    ensures
        ({
            let enc = cache_access_spec(cache_flushes_spec(m, probe).0, probe[
                secret as int]).0;
            probe_encoded_exactly(enc, secret)
        }),
{
    vstd::arithmetic::power2::lemma_pow2_pos(m.index_bits as nat);
    lemma_flushes_clear(m, probe);
    lemma_flushes_preserve_inv(m, probe);
    let flushed = cache_flushes_spec(m, probe).0;
    assert forall|c: int| 0 <= c < 256 implies !(
    #[trigger] has_matching_line(flushed.sets[c].lines, meltdown_probe_tag(c))) by {
        lemma_meltdown_probe_fields(m, c);
        assert(!has_matching_line(flushed.sets[addr_index(m, probe[c])].lines,
            addr_tag(m, probe[c]) as u64));
    }
    lemma_meltdown_probe_fields(flushed, secret as int);
    let sa = probe[secret as int];
    lemma_sum_access_elem(flushed.sets, secret as int);
    lemma_set_access_adds_tag(flushed.sets[secret as int], meltdown_probe_tag(
        secret as int), (flushed.timestamp + 1) as u64);
    lemma_cache_access_preserves_inv(flushed, sa);
    let enc = cache_access_spec(flushed, sa).0;
    assert forall|c: int| 0 <= c < 256 implies (#[trigger] has_matching_line(enc.sets[
        c].lines, meltdown_probe_tag(c))) == (c == secret) by {
        if c != secret {
            assert(enc.sets[c] == flushed.sets[c]);
        }
    }
}

/// The scan from index `i` on, where every entry from `i` on is absent
/// except entry `b`: each earlier access misses and pollutes only its own
/// set, and the scan stops at `b` with a hit.
proof fn lemma_scan_finds_encoded(m: CacheModel, probe: Seq<u64>, b: u8, i: int)
    requires
        cache_inv(m),
        meltdown_geometry(m),
        probe.len() == 256,
        forall|c: int| 0 <= c < 256 ==> #[trigger] probe[c] as int
            == meltdown_probe_addr(c),
        0 <= i <= b,
        m.timestamp + (256 - i) <= u64::MAX,
        forall|c: int| i <= c < 256 ==> (#[trigger] has_matching_line(m.sets[c].lines,
            meltdown_probe_tag(c))) == (c == b),
    ensures
        extract_scan(m, probe, i).1 == Option::Some(b as int),
    decreases 256 - i,
{
    vstd::arithmetic::power2::lemma_pow2_pos(m.index_bits as nat);
    lemma_meltdown_probe_fields(m, i);
    let a = probe[i];
    assert(addr_index(m, a) == i);
    assert(addr_tag(m, a) as u64 == meltdown_probe_tag(i));
    assert(has_matching_line(m.sets[i].lines, meltdown_probe_tag(i)) == (i == b));
    let r = cache_access_spec(m, a);
    if i == b {
        assert(r.1 == true && r.2 == 1);
    } else {
        assert(r.1 == false);
        lemma_cache_access_preserves_inv(m, a);
        assert forall|c: int| i + 1 <= c < 256 implies (
        #[trigger] has_matching_line(r.0.sets[c].lines, meltdown_probe_tag(c))) == (c
            == b) by {
            assert(r.0.sets[c] == m.sets[c]);
        }
        lemma_scan_finds_encoded(r.0, probe, b, i + 1);
    }
}

/// The scan from index `i` on, where every entry from `i` on is absent:
/// each access misses and pollutes only its own set, so the scan finds
/// nothing.
proof fn lemma_scan_of_absent_tags(m: CacheModel, probe: Seq<u64>, i: int)
    requires
        cache_inv(m),
        meltdown_geometry(m),
        probe.len() == 256,
        forall|c: int| 0 <= c < 256 ==> #[trigger] probe[c] as int
            == meltdown_probe_addr(c),
        0 <= i <= 256,
        m.timestamp + (256 - i) <= u64::MAX,
        forall|c: int| i <= c < 256 ==> !(#[trigger] has_matching_line(m.sets[c].lines,
            meltdown_probe_tag(c))),
    ensures
        extract_scan(m, probe, i).1 is None,
    decreases 256 - i,
{
    vstd::arithmetic::power2::lemma_pow2_pos(m.index_bits as nat);
    if i < 256 {
        lemma_meltdown_probe_fields(m, i);
        let a = probe[i];
        assert(addr_index(m, a) == i);
        assert(addr_tag(m, a) as u64 == meltdown_probe_tag(i));
        assert(!has_matching_line(m.sets[i].lines, meltdown_probe_tag(i)));
        let r = cache_access_spec(m, a);
        assert(r.1 == false);
        lemma_cache_access_preserves_inv(m, a);
        assert forall|c: int| i + 1 <= c < 256 implies !(
        #[trigger] has_matching_line(r.0.sets[c].lines, meltdown_probe_tag(c))) by {
            assert(r.0.sets[c] == m.sets[c]);
        }
        lemma_scan_of_absent_tags(r.0, probe, i + 1);
    }
}

/// Law: the attack-then-extract pair recovers the encoded byte.  After
/// `meltdown_attack` flushes the probe array and encodes `secret`, the
/// extraction scan returns exactly `secret` — for every byte value, hence
/// for `kernel_memory[offset]` at every in-bounds offset.
pub proof fn lemma_meltdown_attack_then_extract(m: CacheModel, probe: Seq<u64>,
    secret: u8)
    requires
        cache_inv(m),
        meltdown_geometry(m),
        probe.len() == 256,
        forall|c: int| 0 <= c < 256 ==> #[trigger] probe[c] as int
            == meltdown_probe_addr(c),
        m.timestamp + 257 <= u64::MAX,
    ensures
        ({
            let enc = cache_access_spec(cache_flushes_spec(m, probe).0, probe[
                secret as int]).0;
            extract_scan(enc, probe, 0).1 == Option::Some(secret as int)
        }),
{
    lemma_flush_then_encode(m, probe, secret);
    lemma_flushes_preserve_inv(m, probe);
    let flushed = cache_flushes_spec(m, probe).0;
    lemma_cache_access_preserves_inv(flushed, probe[secret as int]);
    let enc = cache_access_spec(flushed, probe[secret as int]).0;
    lemma_scan_finds_encoded(enc, probe, secret, 0);
}

} // verus!
