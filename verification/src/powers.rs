//! Powers of two as capacities: computing `2^e` and the least exponent
//! whose power reaches a demand.

use vstd::prelude::*;
use vstd::arithmetic::power2::pow2;
use vstd::arithmetic::power2::lemma_pow2_unfold;
use vstd::arithmetic::power2::lemma_pow2_strictly_increases;
use vstd::arithmetic::power2::lemma2_to64;

verus! {

/// Powers of two grow with the exponent.
pub proof fn lemma_pow2_monotonic(a: nat, b: nat)
    requires
        a <= b,
    ensures
        pow2(a) <= pow2(b),
{
    if a < b {
        lemma_pow2_strictly_increases(a, b);
    }
}

/// Every power of two is at least one, and doubling goes with the next exponent.
pub proof fn lemma_pow2_step(e: nat)
    ensures
        pow2(e) >= 1,
        pow2(e + 1) == 2 * pow2(e),
{
    lemma_pow2_unfold(e + 1);
    lemma_pow2_monotonic(0, e);
    lemma2_to64();
}

/// Computes `2^exp` where it fits in a machine word.
pub fn two_to(exp: u32) -> (p: usize)
    requires
        pow2(exp as nat) <= usize::MAX,
    ensures
        p == pow2(exp as nat),
{
    let mut p: usize = 1;
    let mut e: u32 = 0;
    proof {
        lemma2_to64();
    }
    while e < exp
        invariant
            e <= exp,
            p == pow2(e as nat),
            pow2(exp as nat) <= usize::MAX,
        decreases exp - e,
    {
        proof {
            lemma_pow2_step(e as nat);
            lemma_pow2_monotonic((e + 1) as nat, exp as nat);
        }
        p = p * 2;
        e = e + 1;
    }
    p
}

/// Whether `dim` is the least exponent, one at least, with `2^dim >= need`.
pub open spec fn is_least_dim(dim: nat, need: nat) -> bool {
    &&& dim >= 1
    &&& pow2(dim) >= need
    &&& (dim > 1 ==> pow2((dim - 1) as nat) < need)
}

/// Two exponents that are both least for one demand are the same exponent.
pub proof fn lemma_least_dim_unique(a: nat, b: nat, need: nat)
    requires
        is_least_dim(a, need),
        is_least_dim(b, need),
    ensures
        a == b,
{
    if a < b {
        lemma_pow2_monotonic(a, (b - 1) as nat);
    }
    if b < a {
        lemma_pow2_monotonic(b, (a - 1) as nat);
    }
}

/// Finds the least exponent, one at least, whose power of two reaches
/// `need`. The caller names an exponent `bound` whose power reaches `need`
/// and fits in a machine word, which keeps the search from overflowing.
pub fn least_dim(need: usize, Ghost(bound): Ghost<nat>) -> (dim: u32)
    requires
        bound >= 1,
        need <= pow2(bound) <= usize::MAX,
    ensures
        is_least_dim(dim as nat, need as nat),
        dim <= bound,
{
    let mut dim: u32 = 1;
    let mut p: usize = 2;
    proof {
        lemma2_to64();
        lemma_capacity_exponent(bound);
    }
    while p < need
        invariant
            1 <= dim <= bound,
            bound < usize::BITS,
            p == pow2(dim as nat),
            need <= pow2(bound) <= usize::MAX,
            dim > 1 ==> pow2((dim - 1) as nat) < need,
        decreases bound - dim,
    {
        proof {
            lemma_pow2_step(dim as nat);
            assert(dim < bound);
            lemma_pow2_monotonic((dim + 1) as nat, bound);
        }
        p = p * 2;
        dim = dim + 1;
    }
    dim
}

/// A power of two that fits in a machine word has an exponent below the word's width.
pub proof fn lemma_capacity_exponent(dim: nat)
    requires
        pow2(dim) <= usize::MAX,
    ensures
        dim < usize::BITS,
{
    if dim >= usize::BITS {
        lemma_pow2_monotonic(usize::BITS as nat, dim);
        lemma2_to64();
        vstd::arithmetic::power2::lemma2_to64_rest();
    }
}

} // verus!
