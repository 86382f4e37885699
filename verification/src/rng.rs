use vstd::prelude::*;

verus! {

/// The state transition of the linear-congruential random source.
/// Every draw advances the state by exactly one application of this
/// function, so two sources seeded identically stay identical forever.
pub open spec fn next_state(s: u64) -> u64 {
    (((s as int) * 6364136223846793005 + 1442695040888963407) % 0x1_0000_0000_0000_0000) as u64
}

/// A deterministic seeded random source. It supplies the three draws the
/// generator needs: a uniform integer range, a uniform index into a finite
/// list, and (through `range`) coin flips and percent rolls.
pub struct RandomSource {
    pub state: u64,
}

impl RandomSource {
    pub fn new(seed: u64) -> (r: RandomSource)
        ensures
            r.state == seed,
    {
        RandomSource { state: seed }
    }

    /// Advance the state once and return it.
    pub fn next_u64(&mut self) -> (r: u64)
        ensures
            final(self).state == next_state(old(self).state),
            r == next_state(old(self).state),
    {
        let prod: u128 = (self.state as u128) * 6364136223846793005u128 + 1442695040888963407u128;
        let next: u64 = (prod % 0x1_0000_0000_0000_0000u128) as u64;
        self.state = next;
        next
    }

    /// A uniform draw from the half-open range `[low, high)`.
    pub fn range(&mut self, low: i32, high: i32) -> (r: i32)
        requires
            low < high,
        ensures
            low <= r < high,
            final(self).state == next_state(old(self).state),
            r == low + (next_state(old(self).state) as int) % (high - low),
    {
        let n = self.next_u64();
        let span: u64 = ((high as i64) - (low as i64)) as u64;
        assert(span == high - low);
        let off: u64 = n % span;
        assert(off < span);
        let r64: i64 = (low as i64) + (off as i64);
        assert(low <= r64 < high);
        r64 as i32
    }

    /// A uniform index into a list of `len` entries.
    pub fn random_index(&mut self, len: usize) -> (r: usize)
        requires
            1 <= len <= 0x4000_0000,
        ensures
            r < len,
            final(self).state == next_state(old(self).state),
            r == (next_state(old(self).state) as int) % (len as int),
    {
        let n = self.next_u64();
        let r64: u64 = n % (len as u64);
        assert(r64 < len);
        r64 as usize
    }
}

} // verus!
