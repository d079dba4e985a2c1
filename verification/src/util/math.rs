//! Integer logarithm.

use vstd::arithmetic::power2::{
    lemma2_to64, lemma_pow2_pos, lemma_pow2_strictly_increases, lemma_pow2_unfold, pow2,
};
use vstd::prelude::*;

verus! {

/// The base 2 logarithm of `x`, rounded down.
pub fn ilog2(x: u64) -> (d: u32)
    requires
        x > 0,
    ensures
        d < 64,
        pow2(d as nat) <= x < pow2((d + 1) as nat),
{
    let mut rest: u64 = x;
    let mut d: u32 = 0;
    proof {
        lemma2_to64();
    }
    while rest > 1
        invariant
            rest > 0,
            d < 64,
            rest * pow2(d as nat) <= x < (rest + 1) * pow2(d as nat),
        decreases rest,
    {
        let half: u64 = rest / 2;
        proof {
            lemma_pow2_unfold((d + 1) as nat);
            lemma_pow2_pos(d as nat);
            let p: int = pow2(d as nat) as int;
            assert(half * (2 * p) <= rest * p) by (nonlinear_arith)
                requires
                    half * 2 <= rest,
                    p > 0,
            ;
            assert((rest + 1) * p <= (half + 1) * (2 * p)) by (nonlinear_arith)
                requires
                    rest + 1 <= (half + 1) * 2,
                    p > 0,
            ;
            assert(2 * p <= half * (2 * p)) by (nonlinear_arith)
                requires
                    half >= 1,
                    p > 0,
            ;
            lemma2_to64();
            if d + 1 >= 64 {
                if d + 1 > 64 {
                    lemma_pow2_strictly_increases(64, (d + 1) as nat);
                }
                assert(false);
            }
        }
        rest = half;
        d = d + 1;
    }
    proof {
        lemma_pow2_unfold((d + 1) as nat);
        let p: int = pow2(d as nat) as int;
        assert(1 * p == p);
        assert((1 + 1) * p == 2 * p);
    }
    d
}

} // verus!
