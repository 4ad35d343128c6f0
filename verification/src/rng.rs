use vstd::prelude::*;

verus! {

/// State used in place of a zero seed, which would pin the xorshift
/// stream at zero forever.
pub const SEED_FALLBACK: u64 = 0x9E3779B97F4A7C15;

/// One xorshift update of the generator state.
pub open spec fn spec_next(s: u64) -> u64 {
    let a = s ^ (s << 13);
    let b = a ^ (a >> 7);
    b ^ (b << 17)
}

/// What `pick` returns when drawn from state `s` with bound `bound`.
pub open spec fn spec_pick(s: u64, bound: u64) -> u64 {
    spec_next(s) % bound
}

/// A small deterministic xorshift generator: the explicit, injectable,
/// seedable source of randomness that drives proposals and acceptance
/// draws. Equal seeds give bit-identical streams, so runs are
/// reproducible.
pub struct SeededRng {
    pub state: u64,
}

impl SeededRng {
    /// Starts a stream from `seed`; a zero seed falls back to a fixed
    /// nonzero state.
    pub fn new(seed: u64) -> (r: SeededRng)
        ensures
            r.state == (if seed == 0 {
                SEED_FALLBACK
            } else {
                seed
            }),
    {
        if seed == 0 {
            SeededRng { state: SEED_FALLBACK }
        } else {
            SeededRng { state: seed }
        }
    }

    /// Advances the stream one step and returns the new raw word.
    pub fn next_word(&mut self) -> (r: u64)
        ensures
            final(self).state == spec_next(old(self).state),
            r == spec_next(old(self).state),
    {
        let mut x = self.state;
        x = x ^ (x << 13u64);
        x = x ^ (x >> 7u64);
        x = x ^ (x << 17u64);
        self.state = x;
        x
    }

    /// Draws an index below `bound`.
    pub fn pick(&mut self, bound: usize) -> (r: usize)
        requires
            bound >= 1,
        ensures
            final(self).state == spec_next(old(self).state),
            r as u64 == spec_pick(old(self).state, bound as u64),
            r < bound,
    {
        let v = self.next_word();
        let m = v % (bound as u64);
        proof {
            assert(m < bound as u64);
        }
        m as usize
    }
}

} // verus!
