use vstd::prelude::*;

verus! {

/// One xorshift64 step: `x ^= x << 13; x ^= x >> 7; x ^= x << 17`.
pub open spec fn xorshift(x: u64) -> u64 {
    let a = x ^ (x << 13u64);
    let b = a ^ (a >> 7u64);
    b ^ (b << 17u64)
}

/// The state after `k` draws from state `s`.
pub open spec fn advance(s: u64, k: nat) -> u64
    decreases k,
{
    if k == 0 {
        s
    } else {
        xorshift(advance(s, (k - 1) as nat))
    }
}

/// The index in `[0, n)` taken from a drawn word `x`: the high word of `x * n`.
pub open spec fn index_of(x: u64, n: int) -> int {
    (x as int * n) / 0x1_0000_0000_0000_0000
}

/// Whether the unit value made of the top 53 bits of `x` lies below `num / den`.
pub open spec fn below(x: u64, num: int, den: int) -> bool {
    (x as int / 0x800) * den < num * 0x20_0000_0000_0000
}

/// The starting state: `seed | 1` when a seed is given, else
/// `(hi << 32) | lo | 1` from two entropy words.
pub open spec fn seed_state(seed: Option<u64>, lo: u32, hi: u32) -> u64 {
    match seed {
        Some(s) => s | 1,
        None => ((hi as u64) << 32u64) | (lo as u64) | 1,
    }
}

/// A seeded xorshift64 generator. Its state is never zero.
pub struct Rng {
    pub state: u64,
}

impl Rng {
    /// A generator whose state is `seed` with its low bit set.
    pub fn from_seed(seed: u64) -> (r: Rng)
        ensures
            r.state == seed | 1,
    {
        Rng { state: seed | 1 }
    }

    /// A generator from two 32-bit entropy words: `(hi << 32) | lo | 1`.
    pub fn from_entropy(lo: u32, hi: u32) -> (r: Rng)
        ensures
            r.state == ((hi as u64) << 32u64) | (lo as u64) | 1,
    {
        Rng { state: ((hi as u64) << 32u64) | (lo as u64) | 1 }
    }

    /// A generator seeded by `seed` when given, else by the two entropy words.
    pub fn seeded(seed: Option<u64>, lo: u32, hi: u32) -> (r: Rng)
        ensures
            r.state == seed_state(seed, lo, hi),
    {
        match seed {
            Some(s) => Rng::from_seed(s),
            None => Rng::from_entropy(lo, hi),
        }
    }

    /// Advances the state by one xorshift step and returns the new state.
    pub fn next_u64(&mut self) -> (r: u64)
        ensures
            r == xorshift(old(self).state),
            final(self).state == r,
    {
        let mut x = self.state;
        x = x ^ (x << 13u64);
        x = x ^ (x >> 7u64);
        x = x ^ (x << 17u64);
        self.state = x;
        x
    }

    /// A uniform index in `[0, n)`, by a widened multiply-shift.
    pub fn next_index(&mut self, n: usize) -> (r: usize)
        requires
            n > 0,
        ensures
            final(self).state == xorshift(old(self).state),
            r as int == index_of(final(self).state, n as int),
            r < n,
    {
        let x = self.next_u64();
        proof {
            assert((x as int) * (n as int) < 0x1_0000_0000_0000_0000 * (n as int)) by (nonlinear_arith)
                requires
                    (x as int) < 0x1_0000_0000_0000_0000,
                    n > 0,
            ;
            assert((x as int) * (n as int) <= u128::MAX) by (nonlinear_arith)
                requires
                    (x as int) < 0x1_0000_0000_0000_0000,
                    (n as int) < 0x1_0000_0000_0000_0000,
            ;
        }
        let wide = (x as u128) * (n as u128);
        let r = wide / 0x1_0000_0000_0000_0000u128;
        proof {
            vstd::arithmetic::div_mod::lemma_div_by_multiple_is_strongly_ordered(
                wide as int,
                0x1_0000_0000_0000_0000 * (n as int),
                n as int,
                0x1_0000_0000_0000_0000,
            );
        }
        r as usize
    }

    /// Draws once and tells whether the unit value drawn lies below `num / den`.
    pub fn chance(&mut self, num: u64, den: u64) -> (r: bool)
        requires
            den > 0,
        ensures
            final(self).state == xorshift(old(self).state),
            r == below(final(self).state, num as int, den as int),
    {
        let x = self.next_u64();
        let top = (x / 0x800) as u128;
        proof {
            assert((top as int) * (den as int) <= u128::MAX) by (nonlinear_arith)
                requires
                    (top as int) < 0x20_0000_0000_0000,
                    (den as int) < 0x1_0000_0000_0000_0000,
            ;
            assert((num as int) * 0x20_0000_0000_0000 <= u128::MAX) by (nonlinear_arith)
                requires
                    (num as int) < 0x1_0000_0000_0000_0000,
            ;
        }
        top * (den as u128) < (num as u128) * 0x20_0000_0000_0000u128
    }
}

} // verus!
