//! Draws for the weighted selection of productions.  A seeded source is a
//! SplitMix-style generator whose every step is pinned down exactly, so runs
//! can be reproduced; the system source draws from the process-wide generator.

use vstd::prelude::*;

verus! {

/// The additive step of the seeded generator.
pub const SEED_INCREMENT: u64 = 0x9E37_79B9_7F4A_7C15;

/// `(a + b)` modulo two to the sixty-fourth.
pub open spec fn wrap_add(a: u64, b: u64) -> u64 {
    ((a + b) % 0x1_0000_0000_0000_0000) as u64
}

/// `(a * b)` modulo two to the sixty-fourth.
pub open spec fn wrap_mul(a: u64, b: u64) -> u64 {
    ((a * b) % 0x1_0000_0000_0000_0000) as u64
}

/// The output mixing of one seeded draw.
pub open spec fn mix64(z0: u64) -> u64 {
    let z1 = wrap_mul(z0 ^ (z0 >> 30), 0xBF58_476D_1CE4_E5B9);
    let z2 = wrap_mul(z1 ^ (z1 >> 27), 0x94D0_49BB_1331_11EB);
    z2 ^ (z2 >> 31)
}

/// The seeded generator's next state.
pub open spec fn seeded_step(state: u64) -> u64 {
    wrap_add(state, SEED_INCREMENT)
}

/// The value one seeded draw yields.
pub open spec fn seeded_output(state: u64) -> u64 {
    mix64(seeded_step(state))
}

/// Relies on `rand::Rng::gen_range` over `rand::thread_rng`: a draw from a
/// non-empty range lies within it.
#[verifier::external_body]
fn system_below(n: u64) -> (r: u64)
    requires
        n >= 1,
    ensures
        r < n,
{
    rand::Rng::gen_range(&mut rand::thread_rng(), 0..n)
}

/// A source of draws: either a reproducible seeded generator, for testing
/// and replayable runs, or the process-wide system generator.
pub enum RandomSource {
    /// A deterministic generator at the given state.
    Seeded { state: u64 },
    /// The process-wide generator.
    System,
}

impl RandomSource {
    /// A reproducible source: equal seeds give equal draw sequences.
    pub fn seeded(seed: u64) -> (s: RandomSource)
        ensures
            s == (RandomSource::Seeded { state: seed }),
    {
        RandomSource::Seeded { state: seed }
    }

    /// A draw below `n`.  A seeded source steps exactly once.
    pub fn next_below(&mut self, n: u64) -> (r: u64)
        requires
            n >= 1,
        ensures
            r < n,
            match *old(self) {
                RandomSource::Seeded { state } => *final(self) == (RandomSource::Seeded {
                    state: seeded_step(state),
                }) && r == seeded_output(state) % n,
                RandomSource::System => *final(self) == RandomSource::System,
            },
    {
        match self {
            RandomSource::Seeded { state } => {
                let s0 = *state;
                let s1 = add_wrapped(s0, SEED_INCREMENT);
                *state = s1;
                let z = mix_exec(s1);
                z % n
            },
            RandomSource::System => system_below(n),
        }
    }
}

/// Wrapping addition on 64 bits.
fn add_wrapped(a: u64, b: u64) -> (r: u64)
    ensures
        r == wrap_add(a, b),
{
    let wide = (a as u128) + (b as u128);
    let lo = wide % 0x1_0000_0000_0000_0000u128;
    lo as u64
}

/// Wrapping multiplication on 64 bits.
fn mul_wrapped(a: u64, b: u64) -> (r: u64)
    ensures
        r == wrap_mul(a, b),
{
    proof {
        assert(a as int * b as int <= 0xFFFF_FFFF_FFFF_FFFFint * 0xFFFF_FFFF_FFFF_FFFFint)
            by (nonlinear_arith)
            requires
                a <= 0xFFFF_FFFF_FFFF_FFFFu64,
                b <= 0xFFFF_FFFF_FFFF_FFFFu64,
        ;
    }
    let wide = (a as u128) * (b as u128);
    let lo = wide % 0x1_0000_0000_0000_0000u128;
    lo as u64
}

/// The executable output mixing.
fn mix_exec(z0: u64) -> (r: u64)
    ensures
        r == mix64(z0),
{
    let z1 = mul_wrapped(z0 ^ (z0 >> 30), 0xBF58_476D_1CE4_E5B9);
    let z2 = mul_wrapped(z1 ^ (z1 >> 27), 0x94D0_49BB_1331_11EB);
    z2 ^ (z2 >> 31)
}

} // verus!
