//! Ground movement: the input direction projected onto the contact surface
//! at unchanged speed, then scaled by the time step and a speed multiplier.
use vstd::prelude::*;
use crate::encoding::{lemma_ordinal_landmarks, lemma_ordinal_monotone};
use crate::scalar::Binary32;
use crate::vector3::Vector3;
use crate::ray::RayCollisionHit;
use crate::length::has_normal_length_sq;
use crate::rescale::{is_close_to, is_moderate_length, lemma_with_length_has_length};

verus! {

/// The direction actually moved in. Without ground contact it is the input
/// direction. With contact it is the input projected onto the contact plane
/// and rescaled to the input's length, unless the projection has squared
/// length zero, in which case the input direction is kept.
pub open spec fn ground_direction(direction: Vector3, down_ray_hit: Option<RayCollisionHit>) -> Vector3 {
    match down_ray_hit {
        None => direction,
        Some(hit) => {
            let projected = direction.spec_project_on_plane(hit.normal);
            if projected.spec_length_sq().spec_eq(Binary32::spec_zero()) {
                direction
            } else {
                projected.spec_with_length(direction.spec_magnitude())
            }
        },
    }
}

/// The displacement for one step: the ground direction times
/// `delta_time * speed_multiplier`.
pub open spec fn spec_player_move(
    direction: Vector3,
    delta_time: Binary32,
    speed_multiplier: Binary32,
    down_ray_hit: Option<RayCollisionHit>,
) -> Vector3 {
    ground_direction(direction, down_ray_hit).spec_scaled(delta_time.spec_mul(speed_multiplier))
}

/// Moving on a slope changes the direction, not the speed: when the
/// projection of the direction onto the contact plane has a squared length
/// that is a normal number, and the direction's own length lies between
/// 2^-60 and 2^60, the ground direction has the length of the input
/// direction to within `2^-16` of it.
pub proof fn lemma_slope_keeps_speed(direction: Vector3, hit: RayCollisionHit)
    requires
        has_normal_length_sq(direction.spec_project_on_plane(hit.normal)),
        is_moderate_length(direction.spec_magnitude()),
    ensures
        is_close_to(
            ground_direction(direction, Some(hit)).spec_magnitude(),
            direction.spec_magnitude(),
        ),
{
    let projected = direction.spec_project_on_plane(hit.normal);
    lemma_ordinal_landmarks();
    lemma_ordinal_monotone(0, projected.spec_length_sq().ordinal());
    assert(!projected.spec_length_sq().spec_eq(Binary32::spec_zero()));
    lemma_with_length_has_length(projected, direction.spec_magnitude());
}

/// Computes the displacement of the player for one step on the ground.
pub fn player_move_core(
    direction: &Vector3,
    delta_time: Binary32,
    speed_multiplier: Binary32,
    down_ray_hit: Option<RayCollisionHit>,
) -> (movement: Vector3)
    ensures
        movement == spec_player_move(*direction, delta_time, speed_multiplier, down_ray_hit),
        down_ray_hit.is_none() ==> movement == direction.spec_scaled(
            delta_time.spec_mul(speed_multiplier),
        ),
{
    let mut final_direction: Vector3 = direction.clone();
    if let Some(hit) = down_ray_hit {
        let projected: Vector3 = direction.project_on_plane(hit.normal_native());
        if !projected.length_sq().eq(Binary32::zero()) {
            let input_length: Binary32 = direction.length();
            final_direction = projected;
            final_direction.set_length(input_length);
        }
    }
    final_direction.multiply_scalar(delta_time.mul(speed_multiplier))
}

/// Computes the displacement of the player for one step on the ground.
pub fn player_move_native(
    direction: &Vector3,
    delta_time: Binary32,
    speed_multiplier: Binary32,
    down_ray_hit: Option<RayCollisionHit>,
) -> (movement: Vector3)
    ensures
        movement == spec_player_move(*direction, delta_time, speed_multiplier, down_ray_hit),
{
    player_move_core(direction, delta_time, speed_multiplier, down_ray_hit)
}

/// Computes the displacement of the player for one step on the ground.
pub fn player_move(
    direction: &Vector3,
    delta_time: Binary32,
    speed_multiplier: Binary32,
    down_ray_hit: Option<RayCollisionHit>,
) -> (movement: Vector3)
    ensures
        movement == spec_player_move(*direction, delta_time, speed_multiplier, down_ray_hit),
{
    player_move_core(direction, delta_time, speed_multiplier, down_ray_hit)
}

} // verus!
