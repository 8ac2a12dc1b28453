//! The binary32 interchange format as arithmetic on ordinals.
//!
//! A non-negative binary32 datum is identified by its *ordinal*: the 31 low
//! bits of its encoding read as a natural number. Ordinals `0 ..= 0x7f80_0000`
//! enumerate the non-negative values in increasing order, from zero through
//! the subnormals and the normals to infinity; larger ordinals are NaNs.
//! Every finite value is an integer multiple of 2^-149, so this module
//! measures magnitudes in that unit and never needs a fraction.
use vstd::prelude::*;
use vstd::arithmetic::power2::{lemma2_to64, lemma_pow2_pos, lemma_pow2_unfold, pow2};

verus! {

/// Ordinal of positive infinity, one past the largest finite ordinal.
pub const INFINITY_ORDINAL: u32 = 0x7f80_0000;

/// Smallest ordinal that is a NaN's and the one every operation returns for NaN.
pub const QUIET_NAN_ORDINAL: u32 = 0x7fc0_0000;

/// Binary exponent of the unit in the last place of ordinal `k`, counted from
/// 2^-149. Subnormals and the first binade of normals share exponent 0.
pub open spec fn exponent_of(k: nat) -> nat {
    if k < 0x100_0000 {
        0
    } else {
        (k / 0x80_0000 - 1) as nat
    }
}

/// Integer significand of ordinal `k`, with the leading bit made explicit.
pub open spec fn significand_of(k: nat) -> nat {
    (k - exponent_of(k) * 0x80_0000) as nat
}

/// Magnitude denoted by ordinal `k`, in units of 2^-149. The infinity ordinal
/// denotes 2^277, the value the next binade would start with.
pub open spec fn ordinal_value(k: nat) -> nat {
    significand_of(k) * pow2(exponent_of(k))
}

/// The pair `(e, m)` is the exponent and significand of some ordinal.
pub open spec fn is_canonical(e: nat, m: nat) -> bool {
    &&& m < 0x100_0000
    &&& e > 0 ==> m >= 0x80_0000
}

/// An ordinal splits into a canonical exponent and significand.
pub proof fn lemma_ordinal_split(k: nat)
    ensures
        is_canonical(exponent_of(k), significand_of(k)),
        k == exponent_of(k) * 0x80_0000 + significand_of(k),
        k <= INFINITY_ORDINAL ==> exponent_of(k) <= 254,
        k < INFINITY_ORDINAL ==> exponent_of(k) <= 253,
{
}

/// A canonical exponent and significand combine into the ordinal that splits
/// back into them.
pub proof fn lemma_ordinal_join(e: nat, m: nat)
    requires
        is_canonical(e, m),
    ensures
        exponent_of(e * 0x80_0000 + m) == e,
        significand_of(e * 0x80_0000 + m) == m,
        ordinal_value(e * 0x80_0000 + m) == m * pow2(e),
{
}

/// Stepping to the next ordinal adds one unit in the last place, also across
/// the boundary between two binades.
pub proof fn lemma_ordinal_step(k: nat)
    ensures
        ordinal_value(k + 1) == ordinal_value(k) + pow2(exponent_of(k)),
        ordinal_value(k) < ordinal_value(k + 1),
        exponent_of(k) <= exponent_of(k + 1) <= exponent_of(k) + 1,
{
    let e = exponent_of(k);
    let m = significand_of(k);
    lemma_ordinal_split(k);
    lemma_pow2_pos(e);
    if m + 1 < 0x100_0000 {
        lemma_ordinal_join(e, m + 1);
        assert(k + 1 == e * 0x80_0000 + (m + 1));
        assert((m + 1) * pow2(e) == m * pow2(e) + pow2(e)) by (nonlinear_arith);
    } else {
        lemma_ordinal_join(e + 1, 0x80_0000);
        assert(k + 1 == (e + 1) * 0x80_0000 + 0x80_0000);
        lemma_pow2_unfold(e + 1);
        assert(0x80_0000 * (2 * pow2(e)) == 0xff_ffff * pow2(e) + pow2(e)) by (nonlinear_arith);
    }
}

/// Ordinals and the magnitudes they denote are ordered alike.
pub proof fn lemma_ordinal_monotone(j: nat, k: nat)
    requires
        j < k,
    ensures
        ordinal_value(j) < ordinal_value(k),
        exponent_of(j) <= exponent_of(k),
    decreases k - j,
{
    lemma_ordinal_step(j);
    if j + 1 < k {
        lemma_ordinal_monotone(j + 1, k);
    }
}

/// The magnitudes at the ends of the finite range: zero, the smallest
/// subnormal, and 2^277 for infinity.
pub proof fn lemma_ordinal_landmarks()
    ensures
        ordinal_value(0) == 0,
        ordinal_value(1) == 1,
        ordinal_value(INFINITY_ORDINAL as nat) == 0x80_0000 * pow2(254),
{
    lemma2_to64();
    lemma_ordinal_join(0, 0);
    lemma_ordinal_join(0, 1);
    lemma_ordinal_join(254, 0x80_0000);
}

} // verus!
