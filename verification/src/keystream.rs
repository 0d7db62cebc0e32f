//! The keystream generator: a seeded linear congruential generator that
//! hands out one mask byte per call.
//!
//! The constants are kept for compatibility on the wire. They obscure a
//! message; they do not protect it.

use vstd::prelude::*;

verus! {

/// Multiplier of the recurrence.
pub const LCG_MULTIPLIER: u32 = 1_103_515_245;

/// Increment of the recurrence.
pub const LCG_INCREMENT: u32 = 12_345;

/// State used when a seed folds to zero.
pub const ZERO_FOLD_STATE: u32 = 0x6D2B_79F5;

/// The initial state for `seed`: the xor of its two halves, or the fixed
/// non-zero state when that xor is zero.
pub open spec fn folded(seed: u64) -> u32 {
    let f = (seed as u32) ^ ((seed >> 32) as u32);
    if f == 0 {
        ZERO_FOLD_STATE
    } else {
        f
    }
}

/// The state that follows `state`.
pub open spec fn advanced(state: u32) -> u32 {
    state.wrapping_mul(LCG_MULTIPLIER).wrapping_add(LCG_INCREMENT)
}

/// The byte given out on arriving at `state`: its top eight bits.
pub open spec fn emitted(state: u32) -> u8 {
    (state >> 24) as u8
}

/// The state reached from `state` after `n` bytes were given out.
pub open spec fn state_after(state: u32, n: nat) -> u32
    decreases n,
{
    if n == 0 {
        state
    } else {
        advanced(state_after(state, (n - 1) as nat))
    }
}

/// The first `n` bytes that a generator in `state` gives out.
pub open spec fn stream(state: u32, n: nat) -> Seq<u8> {
    Seq::new(n, |i: int| emitted(state_after(state, (i + 1) as nat)))
}

/// A generator of mask bytes. Its view is its 32-bit state.
#[derive(Debug)]
pub struct Keystream {
    state: u32,
}

impl Clone for Keystream {
    /// A second generator in the same state. The two advance independently.
    fn clone(&self) -> (k: Keystream)
        ensures
            k@ == self@,
    {
        Keystream { state: self.state }
    }
}

impl View for Keystream {
    type V = u32;

    closed spec fn view(&self) -> u32 {
        self.state
    }
}

impl Keystream {
    /// A generator seeded with `seed`. Its state is never zero at the start.
    pub fn new(seed: u64) -> (k: Keystream)
        ensures
            k@ == folded(seed),
            k@ != 0,
    {
        let low: u32 = #[verifier::truncate]
        (seed as u32);
        let high: u32 = #[verifier::truncate]
        ((seed >> 32) as u32);
        let f: u32 = low ^ high;
        let state: u32 = if f == 0 {
            ZERO_FOLD_STATE
        } else {
            f
        };
        Keystream { state }
    }

    /// Advances the generator by one step and gives out the byte of the new state.
    pub fn next_byte(&mut self) -> (b: u8)
        ensures
            final(self)@ == advanced(old(self)@),
            b == emitted(final(self)@),
    {
        let next: u32 = self.state.wrapping_mul(LCG_MULTIPLIER).wrapping_add(LCG_INCREMENT);
        self.state = next;
        let top: u32 = next >> 24;
        assert(top < 256 && top as u8 == (next >> 24) as u8) by (bit_vector)
            requires
                top == next >> 24,
        ;
        top as u8
    }

    /// The current state, by which two generators can be compared.
    pub fn state(&self) -> (s: u32)
        ensures
            s == self@,
    {
        self.state
    }
}

/// Taking `a` steps and then `b` more is taking `a + b` steps.
pub proof fn lemma_state_after_adds(state: u32, a: nat, b: nat)
    ensures
        state_after(state_after(state, a), b) == state_after(state, a + b),
    decreases b,
{
    if b > 0 {
        lemma_state_after_adds(state, a, (b - 1) as nat);
    }
}

/// A longer stream starts with the shorter one and goes on with the stream
/// of the state that the shorter one left behind.
pub proof fn lemma_stream_splits(state: u32, a: nat, b: nat)
    ensures
        stream(state, a + b) == stream(state, a) + stream(state_after(state, a), b),
{
    let whole = stream(state, a + b);
    let joined = stream(state, a) + stream(state_after(state, a), b);
    assert forall|i: int| 0 <= i < a + b implies whole[i] == joined[i] by {
        if i >= a {
            lemma_state_after_adds(state, a, (i - a + 1) as nat);
        }
    }
    assert(whole =~= joined);
}

} // verus!
