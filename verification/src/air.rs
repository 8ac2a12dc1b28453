//! Air acceleration: a step along the wish direction, capped by how much
//! room the velocity already projected onto that direction leaves.
use vstd::prelude::*;
use vstd::arithmetic::power2::lemma_pow2_pos;
use crate::encoding::lemma_ordinal_landmarks;
use crate::scalar::Binary32;
use crate::vector3::Vector3;
use crate::length::{has_normal_length_sq, lemma_length_accuracy};
use crate::rescale::{is_moderate_length, lemma_with_length_has_length};

verus! {

/// The component of `a` along `b`: `(a . b / |b|^2) b`, and the zero vector
/// when the squared length of `b` equals zero.
pub open spec fn spec_project_onto_vector(a: Vector3, b: Vector3) -> Vector3 {
    let b_magnitude_sq = b.spec_length_sq();
    if b_magnitude_sq.spec_eq(Binary32::spec_zero()) {
        Vector3::spec_zero()
    } else {
        b.spec_scaled(a.spec_dot(b).spec_div(b_magnitude_sq))
    }
}

/// The vector itself when its length is at most `max_magnitude` or when
/// `max_magnitude` is at most zero; otherwise the vector scaled by
/// `max_magnitude / |vector|`.
pub open spec fn spec_clamp_magnitude(vector: Vector3, max_magnitude: Binary32) -> Vector3 {
    let current = vector.spec_magnitude();
    if current.spec_le(max_magnitude) || max_magnitude.spec_le(Binary32::spec_zero()) {
        vector
    } else {
        vector.spec_scaled(max_magnitude.spec_div(current))
    }
}

/// The wish direction does not point along the projected velocity.
pub open spec fn moves_away(wish_dir: Vector3, projected: Vector3) -> bool {
    wish_dir.spec_dot(projected).spec_le(Binary32::spec_zero())
}

/// Acceleration is applied: the projected speed is below the cap, or the
/// wish direction points away from the projected velocity.
pub open spec fn accelerates(current_vel: Vector3, wish_dir: Vector3, max_air_wish_speed: Binary32) -> bool {
    let projected = spec_project_onto_vector(current_vel, wish_dir);
    projected.spec_magnitude().spec_lt(max_air_wish_speed) || moves_away(wish_dir, projected)
}

/// The most the speed may change: the cap minus the projected speed when
/// moving along the projected velocity, the cap plus it when moving away.
pub open spec fn acceleration_ceiling(
    current_vel: Vector3,
    wish_dir: Vector3,
    max_air_wish_speed: Binary32,
) -> Binary32 {
    let projected = spec_project_onto_vector(current_vel, wish_dir);
    if moves_away(wish_dir, projected) {
        max_air_wish_speed.spec_add(projected.spec_magnitude())
    } else {
        max_air_wish_speed.spec_sub(projected.spec_magnitude())
    }
}

/// The velocity change of one step in the air.
pub open spec fn spec_air_acceleration(
    current_vel: Vector3,
    wish_dir: Vector3,
    air_accelerate: Binary32,
    max_air_wish_speed: Binary32,
    delta_time: Binary32,
) -> Vector3 {
    if accelerates(current_vel, wish_dir, max_air_wish_speed) {
        spec_clamp_magnitude(
            wish_dir.spec_normalized().spec_scaled(air_accelerate.spec_mul(delta_time)),
            acceleration_ceiling(current_vel, wish_dir, max_air_wish_speed),
        )
    } else {
        Vector3::spec_zero()
    }
}

/// The scalar is not a NaN and at most `2^-16` above `limit`.
pub open spec fn is_at_most_about(r: Binary32, limit: Binary32) -> bool {
    &&& !r.is_nan()
    &&& 65536 * (r.units() - limit.units()) <= limit.units()
}

/// Clamping bounds the length: for a vector whose squared length is a
/// normal number and a limit between 2^-60 and 2^60, the length of the
/// clamped vector exceeds the limit by at most `2^-16` of it.
pub proof fn lemma_clamp_bounds_length(vector: Vector3, max_magnitude: Binary32)
    requires
        has_normal_length_sq(vector),
        is_moderate_length(max_magnitude),
    ensures
        is_at_most_about(spec_clamp_magnitude(vector, max_magnitude).spec_magnitude(), max_magnitude),
{
    let current = vector.spec_magnitude();
    lemma_ordinal_landmarks();
    lemma_length_accuracy(vector);
    if current.spec_le(max_magnitude) {
        assert(spec_clamp_magnitude(vector, max_magnitude) == vector);
    } else {
        lemma_pow2_pos(89);
        assert(!max_magnitude.spec_le(Binary32::spec_zero()));
        assert(!current.spec_eq(Binary32::spec_zero()));
        assert(spec_clamp_magnitude(vector, max_magnitude) == vector.spec_with_length(
            max_magnitude,
        ));
        lemma_with_length_has_length(vector, max_magnitude);
    }
}

/// The velocity change is bounded by the room left: whenever the unclamped
/// step has a squared length that is a normal number and the ceiling lies
/// between 2^-60 and 2^60, the length of the velocity change exceeds the
/// ceiling by at most `2^-16` of it.
pub proof fn lemma_air_acceleration_is_bounded(
    current_vel: Vector3,
    wish_dir: Vector3,
    air_accelerate: Binary32,
    max_air_wish_speed: Binary32,
    delta_time: Binary32,
)
    requires
        accelerates(current_vel, wish_dir, max_air_wish_speed),
        has_normal_length_sq(
            wish_dir.spec_normalized().spec_scaled(air_accelerate.spec_mul(delta_time)),
        ),
        is_moderate_length(acceleration_ceiling(current_vel, wish_dir, max_air_wish_speed)),
    ensures
        is_at_most_about(
            spec_air_acceleration(
                current_vel,
                wish_dir,
                air_accelerate,
                max_air_wish_speed,
                delta_time,
            ).spec_magnitude(),
            acceleration_ceiling(current_vel, wish_dir, max_air_wish_speed),
        ),
{
    lemma_clamp_bounds_length(
        wish_dir.spec_normalized().spec_scaled(air_accelerate.spec_mul(delta_time)),
        acceleration_ceiling(current_vel, wish_dir, max_air_wish_speed),
    );
}

/// The velocity change is a function of the velocity, the wish direction,
/// the acceleration rate, the speed cap and the time step alone: two results
/// that both meet the contract of `air_accelerate_get_acceleration` for the
/// same five inputs are the same vector, whatever wish speed was passed.
pub proof fn lemma_air_acceleration_repeatable(
    current_vel: Vector3,
    wish_dir: Vector3,
    air_accelerate: Binary32,
    max_air_wish_speed: Binary32,
    delta_time: Binary32,
    first: Vector3,
    second: Vector3,
)
    requires
        first == spec_air_acceleration(
            current_vel,
            wish_dir,
            air_accelerate,
            max_air_wish_speed,
            delta_time,
        ),
        second == spec_air_acceleration(
            current_vel,
            wish_dir,
            air_accelerate,
            max_air_wish_speed,
            delta_time,
        ),
    ensures
        first == second,
        first.x.bits == second.x.bits,
        first.y.bits == second.y.bits,
        first.z.bits == second.z.bits,
{
}

/// Projects `a` onto `b`.
pub fn project_vector_onto_vector(a: &Vector3, b: &Vector3) -> (r: Vector3)
    ensures
        r == spec_project_onto_vector(*a, *b),
{
    let b_magnitude_sq: Binary32 = b.length_sq();
    if b_magnitude_sq.eq(Binary32::zero()) {
        return Vector3::zero();
    }
    let dot_product: Binary32 = a.dot(b);
    let scalar: Binary32 = dot_product.div(b_magnitude_sq);
    b.multiply_scalar(scalar)
}

/// Limits the length of `vector` to `max_magnitude`, keeping its direction.
pub fn clamp_vector_magnitude(vector: Vector3, max_magnitude: Binary32) -> (r: Vector3)
    ensures
        r == spec_clamp_magnitude(vector, max_magnitude),
{
    let current_magnitude: Binary32 = vector.magnitude();
    if current_magnitude.le(max_magnitude) || max_magnitude.le(Binary32::zero()) {
        vector
    } else {
        vector.multiply_scalar(max_magnitude.div(current_magnitude))
    }
}

/// Computes the velocity change of one step in the air without touching the
/// velocity. `_wish_speed` is accepted and has no effect.
pub fn air_accelerate_get_acceleration(
    current_vel: &Vector3,
    wish_dir: &Vector3,
    _wish_speed: Binary32,
    air_accelerate: Binary32,
    max_air_wish_speed: Binary32,
    delta_time: Binary32,
) -> (acceleration: Vector3)
    ensures
        acceleration == spec_air_acceleration(
            *current_vel,
            *wish_dir,
            air_accelerate,
            max_air_wish_speed,
            delta_time,
        ),
        !accelerates(*current_vel, *wish_dir, max_air_wish_speed) ==> acceleration
            == Vector3::spec_zero(),
{
    let proj_vel: Vector3 = project_vector_onto_vector(current_vel, wish_dir);
    let is_away: bool = wish_dir.dot(&proj_vel).le(Binary32::zero());
    if proj_vel.magnitude().lt(max_air_wish_speed) || is_away {
        let wish_dir_normalized: Vector3 = wish_dir.normalized();
        let velocity_change: Vector3 = wish_dir_normalized.multiply_scalar(
            air_accelerate.mul(delta_time),
        );
        let max_change: Binary32 = if !is_away {
            max_air_wish_speed.sub(proj_vel.magnitude())
        } else {
            max_air_wish_speed.add(proj_vel.magnitude())
        };
        clamp_vector_magnitude(velocity_change, max_change)
    } else {
        Vector3::zero()
    }
}

/// Computes the velocity change of one step in the air.
pub fn air_accelerate(
    current_vel: &Vector3,
    wish_dir: &Vector3,
    wish_speed: Binary32,
    air_accel: Binary32,
    max_air_wish_speed: Binary32,
    delta_time: Binary32,
) -> (acceleration: Vector3)
    ensures
        acceleration == spec_air_acceleration(
            *current_vel,
            *wish_dir,
            air_accel,
            max_air_wish_speed,
            delta_time,
        ),
{
    air_accelerate_get_acceleration(
        current_vel,
        wish_dir,
        wish_speed,
        air_accel,
        max_air_wish_speed,
        delta_time,
    )
}

/// Adds the velocity change of one step in the air to the caller's velocity.
pub fn air_accelerate_native(
    current_vel: &mut Vector3,
    wish_dir: &Vector3,
    wish_speed: Binary32,
    air_accelerate: Binary32,
    max_air_wish_speed: Binary32,
    delta_time: Binary32,
)
    ensures
        *final(current_vel) == old(current_vel).spec_plus(
            spec_air_acceleration(
                *old(current_vel),
                *wish_dir,
                air_accelerate,
                max_air_wish_speed,
                delta_time,
            ),
        ),
{
    let acceleration: Vector3 = air_accelerate_get_acceleration(
        current_vel,
        wish_dir,
        wish_speed,
        air_accelerate,
        max_air_wish_speed,
        delta_time,
    );
    current_vel.add(&acceleration);
}

} // verus!
