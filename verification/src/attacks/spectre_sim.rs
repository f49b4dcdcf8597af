//! Spectre: a bounds-bypass simulation.  A trained branch predictor lets
//! a speculative read run ahead of the architectural bounds check and
//! encode the read byte into a probe array; the check then denies the
//! out-of-bounds access, but the cache side effect persists.

use vstd::prelude::*;
use crate::cache::{Cache, CacheModel, cache_inv, cache_access_spec,
    lemma_cache_access_preserves_inv, initial_cache};
use crate::cache_config::{CacheConfig, CacheType, ReplacementPolicy};
use crate::set::has_matching_line;
use crate::attacks::flush_reload::count_true;

verus! {

/// The simulated secret the victim guards with a bounds check.
pub open spec fn spectre_secret() -> Seq<u8> {
    seq![83u8, 69u8, 67u8, 82u8, 69u8, 84u8, 95u8, 80u8, 65u8, 83u8, 83u8, 95u8, 49u8,
        50u8, 51u8, 33u8]
}

/// The probe-array slot for byte value `b`: entries one set stride plus
/// one line apart, so that on the simulator's 256-set cache every byte
/// value maps to its own set (set `b`, tag `64 + b`).
pub open spec fn spectre_probe_addr(b: int) -> int {
    0x100000 + b * 16448
}

/// The number of window entries equal to `outcome`.
pub open spec fn count_matching(history: Seq<bool>, outcome: bool) -> int
    decreases history.len(),
{
    if history.len() == 0 {
        0
    } else {
        count_matching(history.drop_last(), outcome) + if history.last() == outcome {
            1int
        } else {
            0int
        }
    }
}

/// The history window after training on `outcome`: the outcome is
/// appended, and a window that has grown past ten entries is trimmed by
/// removing the entry at index ten — the element just appended, not the
/// oldest.  This asymmetry reproduces the modelled predictor exactly: a
/// ten-entry window never changes after training.
pub open spec fn train_window(history: Seq<bool>, outcome: bool) -> Seq<bool> {
    let h1 = history.push(outcome);
    if h1.len() > 10 {
        h1.remove(10)
    } else {
        h1
    }
}

/// The predictor's vote: the majority outcome of the window.
pub open spec fn predict_taken(history: Seq<bool>) -> bool {
    count_true(history) > history.len() as int / 2
}

/// The branch predictor: a bounded window of recent branch outcomes and a
/// confidence tally.  The confidence is the exact fraction
/// `confidence_count / history.len()`, kept as a numerator over the
/// window length rather than as a float.
pub struct BranchPredictor {
    pub history: Vec<bool>,
    pub confidence_count: usize,
}

/// The scan step of the extraction phase: access probe entries in index
/// order and stop at the first observed as cached (a hit, or a 1-cycle
/// access).
pub open spec fn spectre_scan(m: CacheModel, probe: Seq<u64>, i: int) -> (CacheModel,
    Option<int>)
    decreases probe.len() - i,
{
    if i < 0 || i >= probe.len() {
        (m, Option::<int>::None)
    } else {
        let r = cache_access_spec(m, probe[i]);
        if r.1 || r.2 == 1 {
            (r.0, Option::Some(i))
        } else {
            spectre_scan(r.0, probe, i + 1)
        }
    }
}

impl BranchPredictor {
    /// Well-formedness: a ten-entry window, with a confidence numerator
    /// no larger than the window.
    pub open spec fn wf(&self) -> bool {
        &&& self.history@.len() == 10
        &&& self.confidence_count <= 10
    }

    /// A fresh predictor, biased to "taken" with confidence 9/10.
    pub fn new() -> (p: BranchPredictor)
        ensures
            p.wf(),
            p.history@ == Seq::new(10, |i: int| true),
            p.confidence_count == 9,
    {
        let history: Vec<bool> = vec![true; 10];
        proof {
            assert(history@ =~= Seq::new(10, |i: int| true));
        }
        BranchPredictor { history: history, confidence_count: 9 }
    }

    /// Train on an observed outcome: append it, trim the window back to
    /// ten entries, and reset the confidence to the fraction of the
    /// window that agrees with the outcome just seen.
    #[verifier::loop_isolation(false)]
    pub fn train(&mut self, outcome: bool)
        requires
            old(self).history@.len() <= 10,
        ensures
            final(self).history@ == train_window(old(self).history@, outcome),
            final(self).confidence_count as int == count_matching(train_window(old(
                self).history@, outcome), outcome),
            final(self).history@.len() <= 10,
            old(self).wf() ==> final(self).wf(),
    {
        self.history.push(outcome);
        if self.history.len() > 10 {
            self.history.remove(10);
        }
        let ghost window = self.history@;

        let n = self.history.len();
        let mut recent_correct: usize = 0;
        let mut i: usize = 0;
        while i < n
            invariant
                i <= n,
                recent_correct <= i,
                self.history@ == window,
                recent_correct as int == count_matching(window.take(i as int), outcome),
            decreases n - i,
        {
            proof {
                assert(window.take(i + 1).drop_last() =~= window.take(i as int));
                assert(window.take(i + 1).last() == window[i as int]);
            }
            if self.history[i] == outcome {
                recent_correct = recent_correct + 1;
            }
            i = i + 1;
        }
        proof {
            assert(window.take(n as int) =~= window);
            lemma_count_matching_le(window, outcome);
        }
        self.confidence_count = recent_correct;
    }

    /// Predict: the majority outcome of the window, together with the
    /// confidence numerator out of the window length.
    #[verifier::loop_isolation(false)]
    pub fn predict(&self) -> (r: (bool, usize))
        ensures
            r.0 == predict_taken(self.history@),
            r.1 == self.confidence_count,
    {
        let ghost window = self.history@;
        let n = self.history.len();
        let mut taken: usize = 0;
        let mut i: usize = 0;
        while i < n
            invariant
                i <= n,
                taken <= i,
                taken as int == count_true(window.take(i as int)),
            decreases n - i,
        {
            proof {
                assert(window.take(i + 1).drop_last() =~= window.take(i as int));
                assert(window.take(i + 1).last() == window[i as int]);
            }
            if self.history[i] {
                taken = taken + 1;
            }
            i = i + 1;
        }
        proof {
            assert(window.take(n as int) =~= window);
        }
        (taken > n / 2, self.confidence_count)
    }
}

/// The count of matching entries never exceeds the window length.
pub proof fn lemma_count_matching_le(history: Seq<bool>, outcome: bool)
    ensures
        0 <= count_matching(history, outcome) <= history.len(),
    decreases history.len(),
{
    if history.len() > 0 {
        lemma_count_matching_le(history.drop_last(), outcome);
    }
}

/// Whether the victim speculates: the predictor must favour "in bounds"
/// with confidence above 0.7 — as an exact fraction, more than 7 window
/// entries out of 10.
pub open spec fn speculation_fires(p: BranchPredictor) -> bool {
    10 * p.confidence_count > 7 * p.history@.len() && predict_taken(p.history@)
}

/// The byte the speculative read observes: the secret in bounds, a
/// sentinel outside.
pub open spec fn speculative_byte(secret: Seq<u8>, user_index: int) -> u8 {
    if user_index < secret.len() {
        secret[user_index]
    } else {
        0xFFu8
    }
}

/// The Spectre simulator: a private cache, the guarded secret, the probe
/// array and the branch predictor.
pub struct SpectreSimulator {
    pub cache: Cache,
    pub secret_data: Vec<u8>,
    pub probe_array: Vec<u64>,
    pub branch_predictor: BranchPredictor,
}

impl SpectreSimulator {
    /// Well-formedness: the cache is well formed with the probe array's
    /// geometry, the probe array has one entry per byte value, and the
    /// predictor window is full.
    pub open spec fn wf(&self) -> bool {
        &&& cache_inv(self.cache@)
        &&& self.cache@.line_size == 64
        &&& self.cache@.num_sets == 256
        &&& self.probe_array@.len() == 256
        &&& forall|i: int| 0 <= i < 256 ==> #[trigger] self.probe_array@[i] as int
            == spectre_probe_addr(i)
        &&& self.branch_predictor.wf()
    }

    /// Build a simulator over a 256-set, 8-way, 64-byte-line cache: one
    /// cache set per probe-array entry.
    #[verifier::loop_isolation(false)]
    pub fn new() -> (s: SpectreSimulator)
        ensures
            s.wf(),
            s.secret_data@ == spectre_secret(),
            s.cache@ == initial_cache(CacheConfig {
                cache_type: CacheType::SetAssociative(8),
                total_size: 131072,
                line_size: 64,
                replacement_policy: ReplacementPolicy::LRU,
            }),
            s.cache@.timestamp == 0,
            s.cache@.line_size == 64,
            s.cache@.num_sets == 256,
            s.cache@.associativity == 8,
            forall|i: int, tag: u64| 0 <= i < s.cache@.sets.len()
                ==> !(#[trigger] has_matching_line(s.cache@.sets[i].lines, tag)),
            s.branch_predictor.history@ == Seq::new(10, |i: int| true),
            s.branch_predictor.confidence_count == 9,
    {
        proof {
            vstd::arithmetic::power2::lemma2_to64();
            vstd::arithmetic::power::lemma_pow_positive(2, 6);
            vstd::arithmetic::power::lemma_pow_positive(2, 8);
            assert(vstd::arithmetic::power::pow(2, 6) == 64);
            assert(vstd::arithmetic::power::pow(2, 8) == 256);
            vstd::arithmetic::power2::is_pow2_equiv(64);
            vstd::arithmetic::power2::is_pow2_equiv(256);
            assert(vstd::arithmetic::power2::is_pow2(64));
            assert(vstd::arithmetic::power2::is_pow2(256));
            assert(256int * 8 * 64 == 131072 && 64int * 256 == 16384)
                by (nonlinear_arith);
        }
        let cache = Cache::new(256, 8, 64);

        let mut secret_data: Vec<u8> = Vec::new();
        secret_data.push(83);
        secret_data.push(69);
        secret_data.push(67);
        secret_data.push(82);
        secret_data.push(69);
        secret_data.push(84);
        secret_data.push(95);
        secret_data.push(80);
        secret_data.push(65);
        secret_data.push(83);
        secret_data.push(83);
        secret_data.push(95);
        secret_data.push(49);
        secret_data.push(50);
        secret_data.push(51);
        secret_data.push(33);
        proof {
            assert(secret_data@ =~= spectre_secret());
        }

        let mut probe_array: Vec<u64> = Vec::new();
        let mut i: usize = 0;
        while i < 256
            invariant
                i <= 256,
                probe_array@.len() == i,
                forall|j: int| 0 <= j < i ==> #[trigger] probe_array@[j] as int
                    == spectre_probe_addr(j),
            decreases 256 - i,
        {
            probe_array.push(0x100000 + (i as u64) * 16448);
            i = i + 1;
        }

        let s = SpectreSimulator {
            cache: cache,
            secret_data: secret_data,
            probe_array: probe_array,
            branch_predictor: BranchPredictor::new(),
        };
        proof {
            assert forall|k: int, tag: u64| 0 <= k < s.cache@.sets.len()
                implies !(#[trigger] has_matching_line(s.cache@.sets[k].lines, tag)) by {
                assert(forall|j: int| 0 <= j < s.cache@.sets[k].lines.len()
                    ==> !(#[trigger] s.cache@.sets[k].lines[j]).valid);
            }
        }
        s
    }

    /// The architectural bounds check.
    fn bounds_check(&self, index: usize) -> (r: bool)
        ensures
            r == (index < self.secret_data@.len()),
    {
        index < self.secret_data.len()
    }

    /// The victim: if the predictor confidently favours "in bounds", the
    /// read and its cache encoding happen speculatively, before the real
    /// bounds check runs.  The architectural result honours the check —
    /// the byte is returned only in bounds — but the cache side effect of
    /// the speculative branch persists either way, and the predictor is
    /// trained on the real outcome.
    pub fn victim_function(&mut self, user_index: usize) -> (r: Option<u8>)
        requires
            old(self).wf(),
            old(self).cache@.timestamp < u64::MAX,
        ensures
            final(self).wf(),
            final(self).secret_data@ == old(self).secret_data@,
            final(self).probe_array@ == old(self).probe_array@,
            ({
                let spec_byte = speculative_byte(old(self).secret_data@,
                    user_index as int);
                &&& speculation_fires(old(self).branch_predictor) ==> final(self).cache@
                    == cache_access_spec(old(self).cache@, old(self).probe_array@[
                    spec_byte as int]).0
                &&& !speculation_fires(old(self).branch_predictor) ==> final(self).cache@
                    == old(self).cache@
            }),
            ({
                let in_bounds = user_index < old(self).secret_data@.len();
                &&& final(self).branch_predictor.history@ == train_window(old(
                    self).branch_predictor.history@, in_bounds)
                &&& final(self).branch_predictor.confidence_count as int
                    == count_matching(train_window(old(self).branch_predictor.history@,
                    in_bounds), in_bounds)
                &&& in_bounds ==> r == Option::Some(old(self).secret_data@[
                    user_index as int])
                &&& !in_bounds ==> r is None
            }),
    {
        let p = self.branch_predictor.predict();
        let predicted_in_bounds = p.0;
        let confidence_count = p.1;

        if 10 * confidence_count > 7 * self.branch_predictor.history.len()
            && predicted_in_bounds {
            let secret_byte: u8 = if user_index < self.secret_data.len() {
                self.secret_data[user_index]
            } else {
                0xFF
            };
            let probe_addr = self.probe_array[secret_byte as usize];
            self.cache.access(probe_addr);
        }

        let actual_in_bounds = self.bounds_check(user_index);
        self.branch_predictor.train(actual_in_bounds);

        if actual_in_bounds {
            Some(self.secret_data[user_index])
        } else {
            None
        }
    }

    /// The extraction phase: scan the probe array in index order and
    /// report the first entry observed as cached as the leaked byte.
    #[verifier::loop_isolation(false)]
    pub fn extract_secret_byte(&mut self) -> (r: Option<u8>)
        requires
            old(self).wf(),
            old(self).cache@.timestamp + 256 <= u64::MAX,
        ensures
            final(self).wf(),
            final(self).secret_data@ == old(self).secret_data@,
            final(self).probe_array@ == old(self).probe_array@,
            final(self).branch_predictor == old(self).branch_predictor,
            ({
                let sc = spectre_scan(old(self).cache@, old(self).probe_array@, 0);
                &&& final(self).cache@ == sc.0
                &&& (sc.1 is Some ==> r == Option::Some(sc.1->0 as u8))
                &&& (sc.1 is None ==> r is None)
            }),
    {
        let ghost m0 = self.cache@;
        let ghost probe = self.probe_array@;
        let n = self.probe_array.len();
        let mut byte_val: usize = 0;
        while byte_val < n
            invariant
                byte_val <= n,
                self.probe_array@ == probe,
                self.secret_data@ == old(self).secret_data@,
                self.branch_predictor == old(self).branch_predictor,
                cache_inv(self.cache@),
                crate::cache::same_geometry(m0, self.cache@),
                self.cache@.timestamp == m0.timestamp + byte_val,
                spectre_scan(m0, probe, 0) == spectre_scan(self.cache@, probe,
                    byte_val as int),
            decreases n - byte_val,
        {
            proof {
                lemma_cache_access_preserves_inv(self.cache@, probe[byte_val as int]);
            }
            let r = self.cache.access(self.probe_array[byte_val]);
            if r.0 || r.1 == 1 {
                return Some(byte_val as u8);
            }
            byte_val = byte_val + 1;
        }
        None
    }
}

} // verus!
