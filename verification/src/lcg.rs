//! A simple deterministic generator for benchmark data.

use vstd::prelude::*;

verus! {

/// A linear congruential generator modulo 2⁶⁴.
#[derive(Debug)]
pub struct Lcg(u64);

impl View for Lcg {
    type V = u64;

    closed spec fn view(&self) -> u64 {
        self.0
    }
}

/// The state that follows a state.
pub open spec fn lcg_step(state: u64) -> u64 {
    ((state * 6_364_136_223_846_793_005 + 1_442_695_040_888_963_407) % 0x1_0000_0000_0000_0000) as u64
}

impl Lcg {
    /// A generator started from a seed.
    pub fn new(seed: u64) -> (lcg: Lcg)
        ensures
            lcg@ == seed ^ 0xdeadbeef_cafebabe,
    {
        Lcg(seed ^ 0xdeadbeef_cafebabe)
    }

    /// The next number.
    pub fn next(&mut self) -> (n: u64)
        ensures
            final(self)@ == lcg_step(old(self)@),
            final(self)@ == (old(self)@ * 6_364_136_223_846_793_005 + 1_442_695_040_888_963_407)
                % 0x1_0000_0000_0000_0000,
            n == final(self)@,
    {
        self.0 = self.0.wrapping_mul(6_364_136_223_846_793_005).wrapping_add(
            1_442_695_040_888_963_407,
        );
        self.0
    }

    /// The next number, brought into the range from `lo` up to below `hi`.
    pub fn u64_in(&mut self, lo: u64, hi: u64) -> (n: u64)
        requires
            lo < hi,
        ensures
            final(self)@ == lcg_step(old(self)@),
            final(self)@ == (old(self)@ * 6_364_136_223_846_793_005 + 1_442_695_040_888_963_407)
                % 0x1_0000_0000_0000_0000,
            n == lo + final(self)@ % ((hi - lo) as u64),
            lo <= n < hi,
    {
        lo + self.next() % (hi - lo)
    }
}

} // verus!
