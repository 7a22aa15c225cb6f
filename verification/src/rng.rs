//! The pseudo-random sequence behind `rands`: a 64-bit linear congruential
//! generator, whose high bits give each draw.
use vstd::prelude::*;

verus! {

/// The multiplier of the generator.
pub const LCG_MUL: u64 = 6364136223846793005;

/// One step of the generator: `seed * LCG_MUL + 1`, modulo 2^64.
pub open spec fn lcg_step(seed: u64) -> u64 {
    ((seed as nat * LCG_MUL as nat + 1) % 0x1_0000_0000_0000_0000nat) as u64
}

/// The state after `k` steps from `seed`.
pub open spec fn lcg_state(seed: u64, k: nat) -> u64
    decreases k,
{
    if k == 0 {
        seed
    } else {
        lcg_step(lcg_state(seed, (k - 1) as nat))
    }
}

/// One step of the generator.
pub fn lcg_next(seed: u64) -> (r: u64)
    ensures
        r == lcg_step(seed),
{
    let m = seed.wrapping_mul(LCG_MUL);
    let r = m.wrapping_add(1);
    assert(m as nat == (seed as nat * LCG_MUL as nat) % 0x1_0000_0000_0000_0000nat);
    assert(r == lcg_step(seed)) by (nonlinear_arith)
        requires
            m as nat == (seed as nat * LCG_MUL as nat) % 0x1_0000_0000_0000_0000nat,
            r == (if m + 1 > u64::MAX {
                (m + 1 - 0x1_0000_0000_0000_0000int) as u64
            } else {
                (m + 1) as u64
            }),
    ;
    r
}

/// The `n` draws from `seed`: draw `i` is the top 31 bits of the state after
/// `i + 1` steps, a value below 2^31.
pub fn lcg_draws(seed: u64, n: usize) -> (out: Vec<u32>)
    ensures
        out@.len() == n,
        forall|i: int| 0 <= i < n ==> out@[i] as nat == (lcg_state(seed, (i + 1) as nat) >> 33u64) as nat,
        forall|i: int| 0 <= i < n ==> out@[i] < 0x8000_0000u32,
{
    let mut out: Vec<u32> = Vec::new();
    let mut s = seed;
    let mut i: usize = 0;
    while i < n
        invariant
            i <= n,
            out@.len() == i,
            s == lcg_state(seed, i as nat),
            forall|j: int| 0 <= j < i ==> out@[j] as nat == (lcg_state(seed, (j + 1) as nat) >> 33u64) as nat,
            forall|j: int| 0 <= j < i ==> out@[j] < 0x8000_0000u32,
        decreases n - i,
    {
        s = lcg_next(s);
        let top = s >> 33u64;
        assert(top < 0x8000_0000u64) by (bit_vector)
            requires
                top == s >> 33u64,
        ;
        out.push(top as u32);
        i = i + 1;
    }
    out
}

} // verus!
