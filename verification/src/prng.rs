//! Deterministic xorshift pseudo-random generator, used only for parameter
//! initialization. Determinism is load-bearing: the same seed must reproduce
//! the same bit-identical sequence on every run and platform.
use vstd::prelude::*;

use crate::fp;

verus! {

/// A 64-bit xorshift generator.
pub struct Xorrng {
    pub state: u64,
}

/// The xorshift successor of a state: three shift-and-xor steps
/// (right 12, left 25, right 17).
pub open spec fn next_state(s: u64) -> u64 {
    let a = s ^ (s >> 12u64);
    let b = a ^ (a << 25u64);
    b ^ (b >> 17u64)
}

/// The state after `n` xorshift steps from `s`.
pub open spec fn state_after(s: u64, n: nat) -> u64
    decreases n,
{
    if n == 0 {
        s
    } else {
        next_state(state_after(s, (n - 1) as nat))
    }
}

/// Bit pattern of one generator output `x` normalized to [0, 1) by division
/// by the largest 64-bit value, then affinely mapped into [lo, hi), all in
/// binary64 and exactly in this operation order:
/// (x as double / u64::MAX as double) * (hi - lo) + lo.
pub open spec fn scaled_bits(x: u64, lo: u64, hi: u64) -> u64 {
    fp::add_bits_of(
        fp::mul_bits_of(
            fp::div_bits_of(fp::u64_to_double_bits_of(x), fp::u64_to_double_bits_of(u64::MAX)),
            fp::sub_bits_of(hi, lo),
        ),
        lo,
    )
}

/// Stepping a state `a` times and then `b` more is stepping it `a + b`
/// times.
pub proof fn lemma_state_after_add(s: u64, a: nat, b: nat)
    ensures
        state_after(s, a + b) == state_after(state_after(s, a), b),
    decreases b,
{
    if b > 0 {
        lemma_state_after_add(s, a, (b - 1) as nat);
    }
}

impl Xorrng {
    /// Constructs a generator from a 64-bit seed and discards the first
    /// output, to step past the near-zero transient of xorshift on small
    /// seeds.
    pub fn seed(x: u64) -> (out: Self)
        ensures
            out.state == next_state(x),
    {
        let mut out = Self { state: x };
        out.next();
        out
    }

    /// Advances the state through one xorshift step and returns the new
    /// state. Never fails: every state has a successor.
    pub fn next(&mut self) -> (r: u64)
        ensures
            final(self).state == next_state(old(self).state),
            r == final(self).state,
    {
        self.state = self.state ^ (self.state >> 12u64);
        self.state = self.state ^ (self.state << 25u64);
        self.state = self.state ^ (self.state >> 17u64);
        self.state
    }

    /// Draws one value and maps it into [lo, hi). `lo` and `hi` are bit
    /// patterns of binary64 bounds; the result is the bit pattern of the
    /// drawn value. Consumes exactly one generator step.
    pub fn rand_float(&mut self, low: u64, high: u64) -> (r: u64)
        ensures
            final(self).state == next_state(old(self).state),
            r == scaled_bits(final(self).state, low, high),
    {
        let x = self.next();
        let unit = fp::div_bits(fp::u64_to_double_bits(x), fp::u64_to_double_bits(u64::MAX));
        fp::add_bits(fp::mul_bits(unit, fp::sub_bits(high, low)), low)
    }
}

} // verus!
