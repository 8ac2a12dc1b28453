//! Gravity accumulation with squared-time scaling.
use vstd::prelude::*;
use vstd::arithmetic::power2::{lemma2_to64, lemma_pow2_pos, pow2};
use crate::powers::lemma_pow2_product;
use crate::encoding::{lemma_ordinal_join, ordinal_value};
use crate::rounding::rounds_to;
use crate::scalar::Binary32;
use crate::vector3::Vector3;

verus! {

/// Encoding of the down-scale constant, the binary32 nearest to 0.0875.
pub const GRAVITY_DOWN_SCALE_BITS: u32 = 0x3db3_3333;

/// The down-scale constant applied to the squared time step.
pub open spec fn gravity_down_scale() -> Binary32 {
    Binary32 { bits: GRAVITY_DOWN_SCALE_BITS }
}

/// The down-scale constant is the decimal 0.0875 rounded to the nearest
/// scalar: 875 / 10000, in units of 2^-149, rounds to its ordinal.
pub proof fn lemma_gravity_down_scale_is_nearest()
    ensures
        !gravity_down_scale().sign(),
        rounds_to(875 * (pow2(149) as int), 10000, gravity_down_scale().ordinal()),
{
    let k = gravity_down_scale().ordinal();
    let g = pow2(122) as int;
    lemma2_to64();
    lemma_pow2_pos(122);
    lemma_pow2_product(27, 122);
    assert(k == 122 * 0x80_0000 + 11744051);
    lemma_ordinal_join(122, 11744050);
    lemma_ordinal_join(122, 11744051);
    lemma_ordinal_join(122, 11744052);
    assert(ordinal_value((k - 1) as nat) == 11744050 * g);
    assert(ordinal_value(k) == 11744051 * g);
    assert(ordinal_value(k + 1) == 11744052 * g);
    assert(pow2(149) == 134217728 * g);
    assert((11744050 * g + 11744051 * g) * 10000 < 2 * (875 * (134217728 * g)) && 2 * (875 * (
    134217728 * g)) < (11744051 * g + 11744052 * g) * 10000) by (nonlinear_arith)
        requires
            g > 0,
    ;
}

/// The factor applied to gravity in one step: `(delta * delta) * 0.0875`.
pub open spec fn gravity_scale_factor(delta: Binary32) -> Binary32 {
    delta.spec_mul(delta).spec_mul(gravity_down_scale())
}

/// The increment of the gravity influence in one step.
pub open spec fn spec_gravity_increment(gravity: Vector3, delta: Binary32) -> Vector3 {
    gravity.spec_scaled(gravity_scale_factor(delta))
}

/// The increment of the gravity influence for one step, without touching any
/// accumulator.
pub fn gravity_influence_acceleration_native(gravity: &Vector3, delta: Binary32) -> (increment:
    Vector3)
    ensures
        increment == spec_gravity_increment(*gravity, delta),
{
    let delta_sqrd: Binary32 = delta.mul(delta);
    let scale_factor: Binary32 = delta_sqrd.mul(Binary32::from_bits(GRAVITY_DOWN_SCALE_BITS));
    gravity.multiply_scalar(scale_factor)
}

/// The increment of the gravity influence for one step.
pub fn gravity_influence_acceleration(gravity: &Vector3, delta: Binary32) -> (increment: Vector3)
    ensures
        increment == spec_gravity_increment(*gravity, delta),
{
    gravity_influence_acceleration_native(gravity, delta)
}

/// Adds one step's increment to the caller's gravity influence and returns
/// the updated value.
pub fn gravity_influence_core(gravity_influence: &mut Vector3, gravity: &Vector3, delta: Binary32) -> (updated:
    Vector3)
    ensures
        *final(gravity_influence) == old(gravity_influence).spec_plus(
            spec_gravity_increment(*gravity, delta),
        ),
        updated == *final(gravity_influence),
{
    let increment: Vector3 = gravity_influence_acceleration_native(gravity, delta);
    gravity_influence.add(&increment);
    *gravity_influence
}

/// Adds one step's increment to the caller's gravity influence and returns
/// the updated value.
pub fn gravity_influence(influence: &mut Vector3, gravity: &Vector3, delta: Binary32) -> (updated:
    Vector3)
    ensures
        *final(influence) == old(influence).spec_plus(
            spec_gravity_increment(*gravity, delta),
        ),
        updated == *final(influence),
{
    gravity_influence_core(influence, gravity, delta)
}

} // verus!
