//! A single cache line: validity, the stored tag, and bookkeeping used by
//! the replacement policies and the statistics interface.

use vstd::prelude::*;

verus! {

/// One storage slot of a cache set.  A line is created empty (invalid,
/// tag 0), filled or refreshed on an access, and invalidated on a flush.
#[derive(Clone, Copy, Debug, PartialEq, Eq, Structural)]
pub struct CacheLine {
    /// Whether the line currently holds a resident tag.
    pub valid: bool,
    /// The tag bits of the resident address.
    pub tag: u64,
    /// Timestamp of the most recent access; the recency metric for LRU.
    pub last_access: u64,
    /// How often this line has been filled or refreshed.
    pub access_count: u64,
}

/// A line holds `tag` exactly when it is valid and its tag bits match.
pub open spec fn line_matches(l: CacheLine, tag: u64) -> bool {
    l.valid && l.tag == tag
}

/// The state of a line that has never been filled.
pub open spec fn empty_line() -> CacheLine {
    CacheLine { valid: false, tag: 0, last_access: 0, access_count: 0 }
}

/// The state of `l` after it is filled or refreshed with `tag` at time
/// `timestamp`.
pub open spec fn filled_line(l: CacheLine, tag: u64, timestamp: u64) -> CacheLine {
    CacheLine {
        valid: true,
        tag: tag,
        last_access: timestamp,
        access_count: (l.access_count + 1) as u64,
    }
}

/// The state of `l` after it is invalidated.  The access counter is kept
/// for statistics.
pub open spec fn invalidated_line(l: CacheLine) -> CacheLine {
    CacheLine { valid: false, tag: 0, last_access: 0, access_count: l.access_count }
}

impl CacheLine {
    /// Create a new empty cache line.
    pub fn new() -> (l: CacheLine)
        ensures
            l == empty_line(),
    {
        CacheLine { valid: false, tag: 0, last_access: 0, access_count: 0 }
    }

    /// Check whether this line holds the given tag (a cache hit).
    pub fn is_hit(&self, tag: u64) -> (r: bool)
        ensures
            r == line_matches(*self, tag),
    {
        self.valid && self.tag == tag
    }

    /// Fill or refresh this line with `tag` at time `timestamp`.
    pub fn update(&mut self, tag: u64, timestamp: u64)
        requires
            old(self).access_count < u64::MAX,
        ensures
            *final(self) == filled_line(*old(self), tag, timestamp),
    {
        self.valid = true;
        self.tag = tag;
        self.last_access = timestamp;
        self.access_count = self.access_count + 1;
    }

    /// Mark this line invalid, e.g. for a flush operation.
    pub fn invalidate(&mut self)
        ensures
            *final(self) == invalidated_line(*old(self)),
    {
        self.valid = false;
        self.tag = 0;
        self.last_access = 0;
    }
}

} // verus!
