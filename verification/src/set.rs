//! A cache set: a fixed-size group of lines with hit/miss counters and the
//! eviction algorithm for the configured replacement policy.
//!
//! The behaviour of a set is pinned down by the spec-level transition
//! function `set_access`: every access either refreshes the unique matching
//! line (a hit) or fills a victim line chosen first-free, then by policy
//! (a miss).

use vstd::prelude::*;
use crate::line::{CacheLine, line_matches, empty_line, filled_line, invalidated_line};
use crate::cache_config::ReplacementPolicy;

verus! {

/// The mathematical state of a cache set.
#[verifier::ext_equal]
pub ghost struct SetModel {
    pub lines: Seq<CacheLine>,
    pub associativity: usize,
    pub access_count: u64,
    pub hit_count: u64,
    pub miss_count: u64,
    pub replacement_policy: ReplacementPolicy,
    pub fifo_index: usize,
}

/// Some line of the set holds `tag`.
pub open spec fn has_matching_line(lines: Seq<CacheLine>, tag: u64) -> bool {
    exists|i: int| 0 <= i < lines.len() && line_matches(lines[i], tag)
}

/// Some line of the set is invalid.
pub open spec fn has_invalid_line(lines: Seq<CacheLine>) -> bool {
    exists|i: int| 0 <= i < lines.len() && !(#[trigger] lines[i]).valid
}

/// Every line of the set is valid.
pub open spec fn all_valid(lines: Seq<CacheLine>) -> bool {
    forall|i: int| 0 <= i < lines.len() ==> (#[trigger] lines[i]).valid
}

/// The index of the first line holding `tag`, scanning from `i`;
/// `lines.len()` if there is none.
pub open spec fn first_matching_from(lines: Seq<CacheLine>, tag: u64, i: int) -> int
    decreases lines.len() - i,
{
    if i < 0 || i >= lines.len() {
        lines.len() as int
    } else if line_matches(lines[i], tag) {
        i
    } else {
        first_matching_from(lines, tag, i + 1)
    }
}

/// The index of the first line holding `tag`; `lines.len()` if none does.
pub open spec fn first_matching(lines: Seq<CacheLine>, tag: u64) -> int {
    first_matching_from(lines, tag, 0)
}

/// The index of the first invalid line, scanning from `i`; `lines.len()`
/// if every line from `i` on is valid.
pub open spec fn first_invalid_from(lines: Seq<CacheLine>, i: int) -> int
    decreases lines.len() - i,
{
    if i < 0 || i >= lines.len() {
        lines.len() as int
    } else if !lines[i].valid {
        i
    } else {
        first_invalid_from(lines, i + 1)
    }
}

/// The index of the first invalid line; `lines.len()` if all are valid.
pub open spec fn first_invalid(lines: Seq<CacheLine>) -> int {
    first_invalid_from(lines, 0)
}

/// The running state of the LRU scan: the best candidate so far is `best`,
/// and lines from `i` on are still to be examined.  A line only displaces
/// the candidate when its timestamp is strictly smaller, so ties go to the
/// earlier index.
pub open spec fn lru_from(lines: Seq<CacheLine>, i: int, best: int) -> int
    decreases lines.len() - i,
{
    if !(0 <= best < lines.len()) || i < 0 || i >= lines.len() {
        best
    } else if lines[i].last_access < lines[best].last_access {
        lru_from(lines, i + 1, i)
    } else {
        lru_from(lines, i + 1, best)
    }
}

/// The LRU victim: the first index attaining the minimal `last_access`.
pub open spec fn lru_victim(lines: Seq<CacheLine>) -> int {
    lru_from(lines, 1, 0)
}

/// The number of valid lines.
pub open spec fn valid_count(lines: Seq<CacheLine>) -> int
    decreases lines.len(),
{
    if lines.len() == 0 {
        0
    } else {
        valid_count(lines.drop_last()) + if lines.last().valid {
            1int
        } else {
            0int
        }
    }
}

/// Well-formedness of a set: the line vector has exactly `associativity`
/// entries, at most one valid line holds any given tag, the counters are
/// consistent, and the FIFO cursor stays in range.
pub open spec fn set_inv(s: SetModel) -> bool {
    &&& s.lines.len() == s.associativity
    &&& s.associativity >= 1
    &&& s.fifo_index < s.associativity
    &&& s.hit_count + s.miss_count == s.access_count
    &&& forall|i: int| 0 <= i < s.lines.len() ==> (#[trigger] s.lines[i]).access_count
        <= s.access_count
    &&& forall|i: int, j: int| #![trigger s.lines[i], s.lines[j]]
        0 <= i < s.lines.len() && 0 <= j < s.lines.len() && i != j && s.lines[i].valid
            && s.lines[j].valid ==> s.lines[i].tag != s.lines[j].tag
}

/// The victim line a miss fills: any invalid line is taken first (the
/// earliest one); only a full set consults the replacement policy.  The
/// deterministic pseudo-random policy picks `access_count mod
/// associativity`, so its choice is a pure function of the access counter.
pub open spec fn replace_victim(s: SetModel) -> int {
    if has_invalid_line(s.lines) {
        first_invalid(s.lines)
    } else {
        match s.replacement_policy {
            ReplacementPolicy::LRU => lru_victim(s.lines),
            ReplacementPolicy::FIFO => s.fifo_index as int,
            ReplacementPolicy::Random => s.access_count as int % s.associativity as int,
        }
    }
}

/// The state after a miss fills a victim line, and the tag that was
/// evicted, if the victim held one.  The FIFO cursor advances only when
/// the FIFO policy actually chose the victim.
pub open spec fn replace_spec(s: SetModel, tag: u64, timestamp: u64) -> (SetModel, Option<
    u64>) {
    let v = replace_victim(s);
    let evicted = if has_invalid_line(s.lines) {
        Option::<u64>::None
    } else {
        Option::Some(s.lines[v].tag)
    };
    let fifo2 = if !has_invalid_line(s.lines) && s.replacement_policy is FIFO {
        ((s.fifo_index + 1) % s.associativity as int) as usize
    } else {
        s.fifo_index
    };
    (SetModel {
        lines: s.lines.update(v, filled_line(s.lines[v], tag, timestamp)),
        associativity: s.associativity,
        access_count: s.access_count,
        hit_count: s.hit_count,
        miss_count: s.miss_count,
        replacement_policy: s.replacement_policy,
        fifo_index: fifo2,
    }, evicted)
}

/// The full transition of one access: the access counter always advances;
/// a hit refreshes the matching line, a miss fills a victim.
/// Returns the new state, whether the access hit, and the evicted tag.
pub open spec fn set_access(s: SetModel, tag: u64, timestamp: u64) -> (SetModel, bool,
    Option<u64>) {
    let s1 = SetModel {
        lines: s.lines,
        associativity: s.associativity,
        access_count: (s.access_count + 1) as u64,
        hit_count: s.hit_count,
        miss_count: s.miss_count,
        replacement_policy: s.replacement_policy,
        fifo_index: s.fifo_index,
    };
    if has_matching_line(s.lines, tag) {
        let m = first_matching(s.lines, tag);
        (SetModel {
            lines: s.lines.update(m, filled_line(s.lines[m], tag, timestamp)),
            associativity: s1.associativity,
            access_count: s1.access_count,
            hit_count: (s.hit_count + 1) as u64,
            miss_count: s.miss_count,
            replacement_policy: s1.replacement_policy,
            fifo_index: s1.fifo_index,
        }, true, Option::<u64>::None)
    } else {
        let s2 = SetModel {
            lines: s1.lines,
            associativity: s1.associativity,
            access_count: s1.access_count,
            hit_count: s1.hit_count,
            miss_count: (s.miss_count + 1) as u64,
            replacement_policy: s1.replacement_policy,
            fifo_index: s1.fifo_index,
        };
        let r = replace_spec(s2, tag, timestamp);
        (r.0, false, r.1)
    }
}

/// The transition of a flush: the unique line holding `tag`, if any, is
/// invalidated; counters and cursor are untouched.  Returns the new state
/// and whether a line was found.
pub open spec fn set_flush(s: SetModel, tag: u64) -> (SetModel, bool) {
    if has_matching_line(s.lines, tag) {
        let m = first_matching(s.lines, tag);
        (SetModel {
            lines: s.lines.update(m, invalidated_line(s.lines[m])),
            associativity: s.associativity,
            access_count: s.access_count,
            hit_count: s.hit_count,
            miss_count: s.miss_count,
            replacement_policy: s.replacement_policy,
            fifo_index: s.fifo_index,
        }, true)
    } else {
        (s, false)
    }
}

/// The state of a freshly constructed set: all lines empty, counters zero.
pub open spec fn initial_set(associativity: usize, policy: ReplacementPolicy) -> SetModel {
    SetModel {
        lines: Seq::new(associativity as nat, |i: int| empty_line()),
        associativity: associativity,
        access_count: 0,
        hit_count: 0,
        miss_count: 0,
        replacement_policy: policy,
        fifo_index: 0,
    }
}

/// Characterization of `first_matching_from`: it returns the first index
/// at or after `i` whose line holds `tag`, and `lines.len()` exactly when
/// there is none.
pub proof fn lemma_first_matching_from(lines: Seq<CacheLine>, tag: u64, i: int)
    requires
        0 <= i <= lines.len(),
    ensures
        ({
            let r = first_matching_from(lines, tag, i);
            &&& i <= r <= lines.len()
            &&& r < lines.len() ==> line_matches(lines[r], tag)
            &&& forall|j: int| i <= j < r ==> !line_matches(lines[j], tag)
            &&& (r == lines.len()) == (forall|j: int| i <= j < lines.len()
                ==> !line_matches(lines[j], tag))
        }),
    decreases lines.len() - i,
{
    if i < lines.len() && !line_matches(lines[i], tag) {
        lemma_first_matching_from(lines, tag, i + 1);
    }
}

/// Characterization of `first_matching` in terms of `has_matching_line`.
pub proof fn lemma_first_matching(lines: Seq<CacheLine>, tag: u64)
    ensures
        ({
            let r = first_matching(lines, tag);
            &&& 0 <= r <= lines.len()
            &&& r < lines.len() ==> line_matches(lines[r], tag)
            &&& forall|j: int| 0 <= j < r ==> !line_matches(lines[j], tag)
            &&& (r < lines.len()) == has_matching_line(lines, tag)
        }),
{
    lemma_first_matching_from(lines, tag, 0);
}

/// Characterization of `first_invalid_from`.
pub proof fn lemma_first_invalid_from(lines: Seq<CacheLine>, i: int)
    requires
        0 <= i <= lines.len(),
    ensures
        ({
            let r = first_invalid_from(lines, i);
            &&& i <= r <= lines.len()
            &&& r < lines.len() ==> !lines[r].valid
            &&& forall|j: int| i <= j < r ==> (#[trigger] lines[j]).valid
            &&& (r == lines.len()) == (forall|j: int| i <= j < lines.len()
                ==> (#[trigger] lines[j]).valid)
        }),
    decreases lines.len() - i,
{
    if i < lines.len() && lines[i].valid {
        lemma_first_invalid_from(lines, i + 1);
    }
}

/// Characterization of `first_invalid` in terms of `has_invalid_line`.
pub proof fn lemma_first_invalid(lines: Seq<CacheLine>)
    ensures
        ({
            let r = first_invalid(lines);
            &&& 0 <= r <= lines.len()
            &&& r < lines.len() ==> !lines[r].valid
            &&& forall|j: int| 0 <= j < r ==> (#[trigger] lines[j]).valid
            &&& (r < lines.len()) == has_invalid_line(lines)
        }),
{
    lemma_first_invalid_from(lines, 0);
}

/// Characterization of the LRU scan: starting from a best candidate that
/// is minimal among the lines before `i` (and first among those that tie),
/// the scan ends on the first index attaining the overall minimum.
pub proof fn lemma_lru_from(lines: Seq<CacheLine>, i: int, best: int)
    requires
        0 <= best < i <= lines.len(),
        forall|j: int| 0 <= j < i ==> lines[best].last_access
            <= (#[trigger] lines[j]).last_access,
        forall|j: int| 0 <= j < best ==> (#[trigger] lines[j]).last_access
            > lines[best].last_access,
    ensures
        ({
            let r = lru_from(lines, i, best);
            &&& 0 <= r < lines.len()
            &&& forall|j: int| 0 <= j < lines.len() ==> lines[r].last_access
                <= (#[trigger] lines[j]).last_access
            &&& forall|j: int| 0 <= j < r ==> (#[trigger] lines[j]).last_access
                > lines[r].last_access
        }),
    decreases lines.len() - i,
{
    if i < lines.len() {
        if lines[i].last_access < lines[best].last_access {
            lemma_lru_from(lines, i + 1, i);
        } else {
            lemma_lru_from(lines, i + 1, best);
        }
    }
}

/// Characterization of `lru_victim`: the first index attaining the
/// minimal `last_access`.
pub proof fn lemma_lru_victim(lines: Seq<CacheLine>)
    requires
        lines.len() >= 1,
    ensures
        ({
            let r = lru_victim(lines);
            &&& 0 <= r < lines.len()
            &&& forall|j: int| 0 <= j < lines.len() ==> lines[r].last_access
                <= (#[trigger] lines[j]).last_access
            &&& forall|j: int| 0 <= j < r ==> (#[trigger] lines[j]).last_access
                > lines[r].last_access
        }),
{
    lemma_lru_from(lines, 1, 0);
}

/// The victim of a miss always lies inside the set.
pub proof fn lemma_replace_victim_in_range(s: SetModel)
    requires
        set_inv(s),
    ensures
        0 <= replace_victim(s) < s.lines.len(),
{
    if has_invalid_line(s.lines) {
        lemma_first_invalid(s.lines);
    } else {
        match s.replacement_policy {
            ReplacementPolicy::LRU => {
                lemma_lru_victim(s.lines);
            },
            ReplacementPolicy::FIFO => {},
            ReplacementPolicy::Random => {},
        }
    }
}

/// Accessing a set preserves its invariant.
pub proof fn lemma_set_access_preserves_inv(s: SetModel, tag: u64, timestamp: u64)
    requires
        set_inv(s),
        s.access_count < u64::MAX,
    ensures
        set_inv(set_access(s, tag, timestamp).0),
{
    if has_matching_line(s.lines, tag) {
        lemma_first_matching(s.lines, tag);
        let m = first_matching(s.lines, tag);
        let post = set_access(s, tag, timestamp).0;
        assert(forall|j: int| 0 <= j < post.lines.len() && j != m ==> post.lines[j]
            == s.lines[j]);
    } else {
        let s2 = SetModel {
            lines: s.lines,
            associativity: s.associativity,
            access_count: (s.access_count + 1) as u64,
            hit_count: s.hit_count,
            miss_count: (s.miss_count + 1) as u64,
            replacement_policy: s.replacement_policy,
            fifo_index: s.fifo_index,
        };
        lemma_replace_victim_in_range(s2);
        let v = replace_victim(s2);
        let post = set_access(s, tag, timestamp).0;
        assert(forall|j: int| 0 <= j < post.lines.len() && j != v ==> post.lines[j]
            == s.lines[j]);
        assert(forall|j: int| 0 <= j < s.lines.len() ==> !line_matches(
            #[trigger] s.lines[j], tag));
    }
}

/// Flushing a set preserves its invariant.
pub proof fn lemma_set_flush_preserves_inv(s: SetModel, tag: u64)
    requires
        set_inv(s),
    ensures
        set_inv(set_flush(s, tag).0),
{
    if has_matching_line(s.lines, tag) {
        lemma_first_matching(s.lines, tag);
        let m = first_matching(s.lines, tag);
        let post = set_flush(s, tag).0;
        assert(forall|j: int| 0 <= j < post.lines.len() && j != m ==> post.lines[j]
            == s.lines[j]);
    }
}

/// An access always leaves its own tag resident.
pub proof fn lemma_set_access_adds_tag(s: SetModel, tag: u64, timestamp: u64)
    requires
        set_inv(s),
        s.access_count < u64::MAX,
    ensures
        has_matching_line(set_access(s, tag, timestamp).0.lines, tag),
{
    let post = set_access(s, tag, timestamp).0;
    if has_matching_line(s.lines, tag) {
        lemma_first_matching(s.lines, tag);
        let w = first_matching(s.lines, tag);
        assert(line_matches(post.lines[w], tag));
    } else {
        let s2 = SetModel {
            lines: s.lines,
            associativity: s.associativity,
            access_count: (s.access_count + 1) as u64,
            hit_count: s.hit_count,
            miss_count: (s.miss_count + 1) as u64,
            replacement_policy: s.replacement_policy,
            fifo_index: s.fifo_index,
        };
        lemma_replace_victim_in_range(s2);
        let v = replace_victim(s2);
        assert(line_matches(post.lines[v], tag));
    }
}

/// A hit only refreshes recency: every tag resident before a hit is still
/// resident afterwards.
pub proof fn lemma_set_access_hit_preserves_tags(s: SetModel, tag: u64, timestamp: u64)
    requires
        set_inv(s),
        has_matching_line(s.lines, tag),
    ensures
        forall|t: u64| has_matching_line(s.lines, t) ==> #[trigger] has_matching_line(
            set_access(s, tag, timestamp).0.lines, t),
{
    lemma_first_matching(s.lines, tag);
    let w = first_matching(s.lines, tag);
    let post = set_access(s, tag, timestamp).0;
    assert forall|t: u64| has_matching_line(s.lines, t)
        implies #[trigger] has_matching_line(post.lines, t) by {
        let j = choose|j: int| 0 <= j < s.lines.len() && line_matches(s.lines[j], t);
        if j == w {
            assert(line_matches(post.lines[w], t));
        } else {
            assert(line_matches(post.lines[j], t));
        }
    }
}

/// An access adds no tag but its own: any other tag absent before stays
/// absent.
pub proof fn lemma_set_access_absence(s: SetModel, tag: u64, t: u64, timestamp: u64)
    requires
        set_inv(s),
        s.access_count < u64::MAX,
        t != tag,
        !has_matching_line(s.lines, t),
    ensures
        !has_matching_line(set_access(s, tag, timestamp).0.lines, t),
{
    let post = set_access(s, tag, timestamp).0;
    if has_matching_line(s.lines, tag) {
        lemma_first_matching(s.lines, tag);
        let w = first_matching(s.lines, tag);
        assert forall|j: int| 0 <= j < post.lines.len() implies !line_matches(
            #[trigger] post.lines[j], t) by {
            if j != w {
                assert(post.lines[j] == s.lines[j]);
            }
        }
    } else {
        let s2 = SetModel {
            lines: s.lines,
            associativity: s.associativity,
            access_count: (s.access_count + 1) as u64,
            hit_count: s.hit_count,
            miss_count: (s.miss_count + 1) as u64,
            replacement_policy: s.replacement_policy,
            fifo_index: s.fifo_index,
        };
        lemma_replace_victim_in_range(s2);
        let v = replace_victim(s2);
        assert forall|j: int| 0 <= j < post.lines.len() implies !line_matches(
            #[trigger] post.lines[j], t) by {
            if j != v {
                assert(post.lines[j] == s.lines[j]);
            }
        }
    }
}

/// A flush removes its tag and adds none: every tag absent before stays
/// absent, and the flushed tag is gone.
pub proof fn lemma_set_flush_absence(s: SetModel, tag: u64)
    requires
        set_inv(s),
    ensures
        !has_matching_line(set_flush(s, tag).0.lines, tag),
        forall|t: u64| !has_matching_line(s.lines, t) ==> !(#[trigger] has_matching_line(
            set_flush(s, tag).0.lines, t)),
{
    let post = set_flush(s, tag).0;
    if has_matching_line(s.lines, tag) {
        lemma_first_matching(s.lines, tag);
        let w = first_matching(s.lines, tag);
        assert forall|j: int| 0 <= j < post.lines.len() implies !line_matches(
            #[trigger] post.lines[j], tag) by {
            if j != w {
                assert(post.lines[j] == s.lines[j]);
            }
        }
        assert forall|t: u64| !has_matching_line(s.lines, t)
            implies !(#[trigger] has_matching_line(post.lines, t)) by {
            assert forall|j: int| 0 <= j < post.lines.len() implies !line_matches(
                #[trigger] post.lines[j], t) by {
                if j != w {
                    assert(post.lines[j] == s.lines[j]);
                }
            }
        }
    }
}

/// Law: on a full set under LRU, a missing tag evicts the
/// least-recently-touched line — the first line attaining the minimal
/// `last_access`, so ties break towards the lower index.
pub proof fn lemma_full_set_lru_eviction(s: SetModel, tag: u64, timestamp: u64)
    requires
        set_inv(s),
        s.access_count < u64::MAX,
        all_valid(s.lines),
        !has_matching_line(s.lines, tag),
        s.replacement_policy is LRU,
    ensures
        ({
            let v = lru_victim(s.lines);
            &&& 0 <= v < s.lines.len()
            &&& forall|j: int| 0 <= j < s.lines.len() ==> s.lines[v].last_access
                <= (#[trigger] s.lines[j]).last_access
            &&& forall|j: int| 0 <= j < v ==> (#[trigger] s.lines[j]).last_access
                > s.lines[v].last_access
            &&& set_access(s, tag, timestamp).1 == false
            &&& set_access(s, tag, timestamp).2 == Option::Some(s.lines[v].tag)
            &&& set_access(s, tag, timestamp).0.lines == s.lines.update(v, filled_line(
                s.lines[v], tag, timestamp))
        }),
{
    lemma_lru_victim(s.lines);
    assert(!has_invalid_line(s.lines));
}

/// Law: on a full set under FIFO, a missing tag evicts the line at the
/// rotating cursor, regardless of how recently any line was re-accessed,
/// and the cursor advances modulo the associativity.
pub proof fn lemma_full_set_fifo_eviction(s: SetModel, tag: u64, timestamp: u64)
    requires
        set_inv(s),
        s.access_count < u64::MAX,
        all_valid(s.lines),
        !has_matching_line(s.lines, tag),
        s.replacement_policy is FIFO,
    ensures
        set_access(s, tag, timestamp).1 == false,
        set_access(s, tag, timestamp).2 == Option::Some(s.lines[s.fifo_index as int].tag),
        set_access(s, tag, timestamp).0.lines == s.lines.update(s.fifo_index as int,
            filled_line(s.lines[s.fifo_index as int], tag, timestamp)),
        set_access(s, tag, timestamp).0.fifo_index as int == (s.fifo_index + 1)
            % s.associativity as int,
{
    assert(!has_invalid_line(s.lines));
}

/// Law: on a full set under the pseudo-random policy, the victim index is
/// a pure function of the access counter: the counter after the miss,
/// modulo the associativity.
pub proof fn lemma_full_set_random_eviction(s: SetModel, tag: u64, timestamp: u64)
    requires
        set_inv(s),
        s.access_count < u64::MAX,
        all_valid(s.lines),
        !has_matching_line(s.lines, tag),
        s.replacement_policy is Random,
    ensures
        ({
            let v = (s.access_count + 1) % s.associativity as int;
            &&& set_access(s, tag, timestamp).1 == false
            &&& set_access(s, tag, timestamp).2 == Option::Some(s.lines[v].tag)
            &&& set_access(s, tag, timestamp).0.lines == s.lines.update(v, filled_line(
                s.lines[v], tag, timestamp))
        }),
{
    assert(!has_invalid_line(s.lines));
}

/// A fixed-size group of cache lines with statistics counters and
/// replacement-policy state.
pub struct CacheSet {
    pub lines: Vec<CacheLine>,
    pub associativity: usize,
    pub access_count: u64,
    pub hit_count: u64,
    pub miss_count: u64,
    pub replacement_policy: ReplacementPolicy,
    pub fifo_index: usize,
}

impl View for CacheSet {
    type V = SetModel;

    open spec fn view(&self) -> SetModel {
        SetModel {
            lines: self.lines@,
            associativity: self.associativity,
            access_count: self.access_count,
            hit_count: self.hit_count,
            miss_count: self.miss_count,
            replacement_policy: self.replacement_policy,
            fifo_index: self.fifo_index,
        }
    }
}

impl CacheSet {
    /// Create a new cache set with the given associativity.
    pub fn new(associativity: usize, policy: ReplacementPolicy) -> (s: CacheSet)
        requires
            associativity >= 1,
        ensures
            s@ == initial_set(associativity, policy),
            set_inv(s@),
    {
        let mut lines: Vec<CacheLine> = Vec::new();
        let mut i: usize = 0;
        while i < associativity
            invariant
                i <= associativity,
                lines@ =~= Seq::new(i as nat, |j: int| empty_line()),
            decreases associativity - i,
        {
            lines.push(CacheLine::new());
            i = i + 1;
        }
        let s = CacheSet {
            lines: lines,
            associativity: associativity,
            access_count: 0,
            hit_count: 0,
            miss_count: 0,
            replacement_policy: policy,
            fifo_index: 0,
        };
        proof {
            assert(s@ =~= initial_set(associativity, policy));
        }
        s
    }

    /// Access this set with the given tag at the given time.
    /// Returns whether the access hit and which tag was evicted, if any.
    #[verifier::loop_isolation(false)]
    pub fn access(&mut self, tag: u64, timestamp: u64) -> (r: (bool, Option<u64>))
        requires
            set_inv(old(self)@),
            old(self)@.access_count < u64::MAX,
        ensures
            set_inv(final(self)@),
            final(self)@ == set_access(old(self)@, tag, timestamp).0,
            r.0 == set_access(old(self)@, tag, timestamp).1,
            r.1 == set_access(old(self)@, tag, timestamp).2,
            r.0 == has_matching_line(old(self)@.lines, tag),
    {
        let ghost s0 = self@;
        proof {
            lemma_set_access_preserves_inv(s0, tag, timestamp);
            lemma_first_matching(s0.lines, tag);
        }
        self.access_count = self.access_count + 1;
        let n = self.lines.len();
        let mut i: usize = 0;
        while i < n
            invariant
                i <= n,
                n == self.lines.len(),
                self.lines@ == s0.lines,
                self.associativity == s0.associativity,
                self.access_count == (s0.access_count + 1) as u64,
                self.hit_count == s0.hit_count,
                self.miss_count == s0.miss_count,
                self.replacement_policy == s0.replacement_policy,
                self.fifo_index == s0.fifo_index,
                set_inv(s0),
                s0.access_count < u64::MAX,
                forall|j: int| 0 <= j < i ==> !line_matches(#[trigger] s0.lines[j], tag),
            decreases n - i,
        {
            if self.lines[i].is_hit(tag) {
                proof {
                    assert(has_matching_line(s0.lines, tag));
                    assert(first_matching(s0.lines, tag) == i);
                }
                self.lines[i].update(tag, timestamp);
                self.hit_count = self.hit_count + 1;
                proof {
                    assert(self@ =~= set_access(s0, tag, timestamp).0);
                }
                return (true, None);
            }
            i = i + 1;
        }
        proof {
            assert(!has_matching_line(s0.lines, tag));
        }
        self.miss_count = self.miss_count + 1;
        let evicted = self.replace_line(tag, timestamp);
        proof {
            assert(self@ =~= set_access(s0, tag, timestamp).0);
        }
        (false, evicted)
    }

    /// Fill a line chosen by first-free order, then by the configured
    /// replacement policy, with the given tag.
    #[verifier::loop_isolation(false)]
    fn replace_line(&mut self, tag: u64, timestamp: u64) -> (evicted: Option<u64>)
        requires
            old(self)@.lines.len() == old(self)@.associativity,
            old(self)@.associativity >= 1,
            old(self)@.fifo_index < old(self)@.associativity,
            !has_matching_line(old(self)@.lines, tag),
            forall|j: int| 0 <= j < old(self)@.lines.len()
                ==> (#[trigger] old(self)@.lines[j]).access_count < u64::MAX,
        ensures
            final(self)@ == replace_spec(old(self)@, tag, timestamp).0,
            evicted == replace_spec(old(self)@, tag, timestamp).1,
    {
        let ghost s0 = self@;
        proof {
            lemma_first_invalid(s0.lines);
        }
        let n = self.lines.len();
        let mut i: usize = 0;
        while i < n
            invariant
                i <= n,
                n == self.lines.len(),
                self@ == s0,
                forall|j: int| 0 <= j < i ==> (#[trigger] s0.lines[j]).valid,
                forall|j: int| 0 <= j < s0.lines.len()
                    ==> (#[trigger] s0.lines[j]).access_count < u64::MAX,
            decreases n - i,
        {
            if !self.lines[i].valid {
                proof {
                    assert(has_invalid_line(s0.lines));
                    assert(first_invalid(s0.lines) == i);
                }
                self.lines[i].update(tag, timestamp);
                proof {
                    assert(self@ =~= replace_spec(s0, tag, timestamp).0);
                }
                return None;
            }
            i = i + 1;
        }
        proof {
            assert(!has_invalid_line(s0.lines));
            assert(all_valid(s0.lines));
        }
        let victim_idx = match self.replacement_policy {
            ReplacementPolicy::LRU => self.find_lru_victim(),
            ReplacementPolicy::FIFO => self.find_fifo_victim(),
            ReplacementPolicy::Random => self.find_random_victim(),
        };
        proof {
            if s0.replacement_policy is LRU {
                lemma_lru_victim(s0.lines);
            }
            assert(victim_idx as int == replace_victim(s0));
        }
        let evicted_tag = self.lines[victim_idx].tag;
        self.lines[victim_idx].update(tag, timestamp);
        proof {
            assert(self@ =~= replace_spec(s0, tag, timestamp).0);
        }
        Some(evicted_tag)
    }

    /// Find the LRU victim: the first line with the smallest timestamp.
    fn find_lru_victim(&self) -> (r: usize)
        requires
            self.lines@.len() >= 1,
        ensures
            r as int == lru_victim(self.lines@),
    {
        let ghost lines = self.lines@;
        let mut lru_idx: usize = 0;
        let mut oldest_time = self.lines[0].last_access;
        let n = self.lines.len();
        let mut i: usize = 1;
        while i < n
            invariant
                1 <= i <= n,
                n == self.lines@.len(),
                lines == self.lines@,
                lru_idx < i,
                oldest_time == lines[lru_idx as int].last_access,
                lru_victim(lines) == lru_from(lines, i as int, lru_idx as int),
            decreases n - i,
        {
            if self.lines[i].last_access < oldest_time {
                oldest_time = self.lines[i].last_access;
                lru_idx = i;
            }
            i = i + 1;
        }
        lru_idx
    }

    /// Find the FIFO victim: the line at the rotating cursor, which then
    /// advances modulo the associativity.
    fn find_fifo_victim(&mut self) -> (r: usize)
        requires
            old(self)@.associativity >= 1,
            old(self)@.fifo_index < old(self)@.associativity,
        ensures
            r == old(self)@.fifo_index,
            final(self)@ == (SetModel {
                lines: old(self)@.lines,
                associativity: old(self)@.associativity,
                access_count: old(self)@.access_count,
                hit_count: old(self)@.hit_count,
                miss_count: old(self)@.miss_count,
                replacement_policy: old(self)@.replacement_policy,
                fifo_index: ((old(self)@.fifo_index + 1) % old(
                    self)@.associativity as int) as usize,
            }),
    {
        let victim = self.fifo_index;
        self.fifo_index = (self.fifo_index + 1) % self.associativity;
        victim
    }

    /// Find the pseudo-random victim: `access_count mod associativity`,
    /// deterministic for reproducibility.
    fn find_random_victim(&self) -> (r: usize)
        requires
            self@.associativity >= 1,
        ensures
            r as int == self@.access_count as int % self@.associativity as int,
    {
        (self.access_count % (self.associativity as u64)) as usize
    }

    /// Invalidate the line holding `tag`, if any; returns whether one was
    /// found.  Used by flush-based attacks.
    #[verifier::loop_isolation(false)]
    pub fn flush(&mut self, tag: u64) -> (found: bool)
        requires
            set_inv(old(self)@),
        ensures
            set_inv(final(self)@),
            final(self)@ == set_flush(old(self)@, tag).0,
            found == set_flush(old(self)@, tag).1,
            found == has_matching_line(old(self)@.lines, tag),
    {
        let ghost s0 = self@;
        proof {
            lemma_set_flush_preserves_inv(s0, tag);
            lemma_first_matching(s0.lines, tag);
        }
        let n = self.lines.len();
        let mut i: usize = 0;
        while i < n
            invariant
                i <= n,
                n == self.lines.len(),
                self@ == s0,
                set_inv(s0),
                forall|j: int| 0 <= j < i ==> !line_matches(#[trigger] s0.lines[j], tag),
            decreases n - i,
        {
            if self.lines[i].is_hit(tag) {
                proof {
                    assert(has_matching_line(s0.lines, tag));
                    assert(first_matching(s0.lines, tag) == i);
                }
                self.lines[i].invalidate();
                proof {
                    assert(self@ =~= set_flush(s0, tag).0);
                }
                return true;
            }
            i = i + 1;
        }
        proof {
            assert(!has_matching_line(s0.lines, tag));
        }
        false
    }

    /// Whether every line of this set is valid.
    pub fn is_full(&self) -> (r: bool)
        ensures
            r == all_valid(self@.lines),
    {
        let n = self.lines.len();
        let mut i: usize = 0;
        while i < n
            invariant
                i <= n,
                n == self.lines@.len(),
                forall|j: int| 0 <= j < i ==> (#[trigger] self.lines@[j]).valid,
            decreases n - i,
        {
            if !self.lines[i].valid {
                return false;
            }
            i = i + 1;
        }
        true
    }

    /// The number of valid lines in this set.
    pub fn valid_lines(&self) -> (r: usize)
        ensures
            r as int == valid_count(self@.lines),
    {
        let n = self.lines.len();
        let mut count: usize = 0;
        let mut i: usize = 0;
        while i < n
            invariant
                i <= n,
                count <= i,
                n == self.lines@.len(),
                count as int == valid_count(self.lines@.take(i as int)),
            decreases n - i,
        {
            proof {
                assert(self.lines@.take(i + 1).drop_last() =~= self.lines@.take(i as int));
                assert(self.lines@.take(i + 1).last() == self.lines@[i as int]);
            }
            if self.lines[i].valid {
                count = count + 1;
            }
            i = i + 1;
        }
        proof {
            assert(self.lines@.take(n as int) =~= self.lines@);
        }
        count
    }
}

} // verus!
