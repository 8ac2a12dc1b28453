//! Facts about products and powers of two that the proofs share.
use vstd::prelude::*;
use vstd::arithmetic::power2::{
    lemma_pow2_adds,
    lemma_pow2_pos,
    lemma_pow2_strictly_increases,
    pow2,
};

verus! {

/// Powers of two multiply by adding exponents.
pub proof fn lemma_pow2_product(a: nat, b: nat)
    ensures
        pow2(a) * pow2(b) == pow2(a + b),
        pow2(a) > 0,
        pow2(b) > 0,
{
    lemma_pow2_adds(a, b);
    lemma_pow2_pos(a);
    lemma_pow2_pos(b);
}

/// Powers of two are ordered as their exponents.
pub proof fn lemma_pow2_ordered(a: nat, b: nat)
    requires
        a <= b,
    ensures
        pow2(a) <= pow2(b),
{
    if a < b {
        lemma_pow2_strictly_increases(a, b);
    }
}

/// Multiplication associates.
pub proof fn lemma_regroup(a: int, b: int, c: int)
    by (nonlinear_arith)
    ensures
        (a * b) * c == a * (b * c),
{
}

/// Multiplication distributes over a sum and a difference.
pub proof fn lemma_spread(a: int, b: int, c: int)
    by (nonlinear_arith)
    ensures
        (a + b) * c == a * c + b * c,
        (a - b) * c == a * c - b * c,
{
}

/// Of two non-negative numbers, the one with the larger square is larger.
pub proof fn lemma_square_order(a: int, b: int)
    by (nonlinear_arith)
    requires
        0 <= a,
        0 <= b,
        a * a <= b * b,
    ensures
        a <= b,
{
    if a > b {
        assert(a * a > b * b);
    }
}

/// Of two positive numbers, the larger has the larger square.
pub proof fn lemma_scaled_square_order(a: int, b: int)
    by (nonlinear_arith)
    requires
        0 < a < b,
    ensures
        a * a < b * b,
{
}

} // verus!
