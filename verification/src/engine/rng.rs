//! xorshift32: deterministic, tiny, no dependencies. Same seed, same board.

use vstd::prelude::*;

verus! {

/// The state the generator starts from, and the one a zero seed maps to:
/// xorshift never leaves zero, so zero is never a usable state.
pub const DEFAULT_SEED: u32 = 0x2545_F491;

/// One xorshift32 step.
pub open spec fn xorshift(x: u32) -> u32 {
    let a = x ^ (x << 13u32);
    let b = a ^ (a >> 17u32);
    b ^ (b << 5u32)
}

/// The generator's state after `k` draws from state `s`.
pub open spec fn xs_iter(s: u32, k: nat) -> u32
    decreases k,
{
    if k == 0 {
        s
    } else {
        xorshift(xs_iter(s, (k - 1) as nat))
    }
}

/// A nonzero state stays nonzero: each of the three shifts-and-xors is
/// invertible.
pub proof fn lemma_xorshift_nonzero(x: u32)
    requires
        x != 0,
    ensures
        xorshift(x) != 0,
{
    let a = x ^ (x << 13u32);
    let b = a ^ (a >> 17u32);
    assert(a != 0) by (bit_vector)
        requires
            x != 0,
            a == x ^ (x << 13u32),
    ;
    assert(b != 0) by (bit_vector)
        requires
            a != 0,
            b == a ^ (a >> 17u32),
    ;
    assert(b ^ (b << 5u32) != 0) by (bit_vector)
        requires
            b != 0,
    ;
}

/// The state a seed gives: the seed itself, or the default for zero.
pub open spec fn seeded(seed: u32) -> u32 {
    if seed == 0 {
        DEFAULT_SEED
    } else {
        seed
    }
}

/// From a nonzero state every later draw is nonzero. With `seed` setting
/// the state to `seeded(v)` whatever it was before, and `next` stepping it
/// by `xorshift`, the `k`-th draw after seeding with `v` is
/// `xs_iter(seeded(v), k)`: the same seed gives the same draws.
pub proof fn lemma_draws_never_zero(s: u32, k: nat)
    requires
        s != 0,
    ensures
        xs_iter(s, k) != 0,
    decreases k,
{
    if k > 0 {
        lemma_draws_never_zero(s, (k - 1) as nat);
        lemma_xorshift_nonzero(xs_iter(s, (k - 1) as nat));
    }
}

pub struct Rng {
    state: u32,
}

impl Rng {
    /// The current state; the next draw is `xorshift` of it.
    pub closed spec fn state(&self) -> u32 {
        self.state
    }

    /// The state is never zero, which is what keeps xorshift from sticking.
    pub closed spec fn wf(&self) -> bool {
        self.state != 0
    }

    pub fn new() -> (r: Rng)
        ensures
            r.wf(),
            r.state() == DEFAULT_SEED,
    {
        Rng { state: DEFAULT_SEED }
    }

    /// Start over from `seed`, whatever the state was.
    pub fn seed(&mut self, seed: u32)
        ensures
            final(self).wf(),
            final(self).state() == seeded(seed),
    {
        self.state = if seed == 0 { DEFAULT_SEED } else { seed };
    }

    pub fn next(&mut self) -> (x: u32)
        requires
            old(self).wf(),
        ensures
            final(self).wf(),
            x == xorshift(old(self).state()),
            final(self).state() == x,
    {
        proof { lemma_xorshift_nonzero(self.state); }
        let mut x = self.state;
        x ^= x << 13u32;
        x ^= x >> 17u32;
        x ^= x << 5u32;
        self.state = x;
        x
    }
}

} // verus!
