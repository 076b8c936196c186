use vstd::prelude::*;

verus! {

/// Decides which requests skip the cache: those larger than a threshold, and those whose
/// address has all the bits of one of the patterns set.
pub struct Bypasser {
    pub(crate) bypass_threshold: usize,
    pub(crate) bypass_patterns: Vec<u64>,
}

/// Whether `addr` has every bit of `pattern` set.
pub open spec fn matches_pattern(addr: u64, pattern: u64) -> bool {
    addr & pattern == pattern
}

impl Bypasser {
    /// Requests larger than this many bytes skip the cache.
    pub closed spec fn threshold(&self) -> usize {
        self.bypass_threshold
    }

    /// Address patterns whose matching requests skip the cache.
    pub closed spec fn patterns(&self) -> Seq<u64> {
        self.bypass_patterns@
    }

    /// A bypasser with this size threshold and these address patterns.
    pub fn new(bypass_threshold: usize, bypass_patterns: Vec<u64>) -> (b: Self)
        ensures
            b.threshold() == bypass_threshold,
            b.patterns() == bypass_patterns@,
    {
        Bypasser { bypass_threshold, bypass_patterns }
    }

    /// A request of `bytes` bytes at `addr` skips the cache when it is larger than the
    /// threshold or the address matches a pattern.
    pub fn should_bypass(&self, addr: u64, bytes: usize) -> (r: bool)
        ensures
            r == (bytes > self.threshold() || exists|i: int|
                0 <= i < self.patterns().len() && matches_pattern(addr, #[trigger] self.patterns()[i])),
            r == (bytes > self.threshold() || exists|i: int|
                0 <= i < self.patterns().len() && addr & #[trigger] self.patterns()[i]
                    == self.patterns()[i]),
    {
        if bytes > self.bypass_threshold {
            return true;
        }
        let mut i: usize = 0;
        while i < self.bypass_patterns.len()
            invariant
                i <= self.bypass_patterns@.len(),
                forall|j: int| 0 <= j < i ==> !matches_pattern(addr, #[trigger] self.bypass_patterns@[j]),
            decreases self.bypass_patterns@.len() - i,
        {
            let pattern = self.bypass_patterns[i];
            if addr & pattern == pattern {
                proof {
                    assert(matches_pattern(addr, self.patterns()[i as int]));
                }
                return true;
            }
            i = i + 1;
        }
        false
    }
}

/// An address matches a pattern exactly when it has every bit of the pattern set: sharing
/// only some of them is not enough, and the empty pattern matches every address.
pub proof fn law_match_needs_every_pattern_bit(addr: u64, pattern: u64)
    ensures
        matches_pattern(addr, pattern) <==> addr & pattern == pattern,
        addr & pattern != pattern ==> !matches_pattern(addr, pattern),
        matches_pattern(addr, 0),
        matches_pattern(pattern, pattern),
{
    assert(addr & 0 == 0) by (bit_vector);
    assert(pattern & pattern == pattern) by (bit_vector);
}

/// A request no larger than the threshold skips the cache only through a pattern all of
/// whose bits its address has; an address that lacks a bit of every pattern stays.
pub proof fn law_small_requests_bypass_only_on_full_match(b: Bypasser, addr: u64, bytes: usize)
    requires
        bytes <= b.threshold(),
        forall|i: int| 0 <= i < b.patterns().len() ==> addr & #[trigger] b.patterns()[i] != b.patterns()[i],
    ensures
        !(bytes > b.threshold() || exists|i: int|
            0 <= i < b.patterns().len() && matches_pattern(addr, #[trigger] b.patterns()[i])),
{
}

} // verus!
