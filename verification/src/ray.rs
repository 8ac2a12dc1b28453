//! The ground-contact record handed to ground movement.
use vstd::prelude::*;
use crate::scalar::Binary32;
use crate::vector3::Vector3;

verus! {

/// Where a downward ray met a surface: the surface normal, expected to have
/// unit length, and the distance from the ray's origin.
#[derive(Clone, Copy, Debug)]
pub struct RayCollisionHit {
    pub normal: Vector3,
    pub distance: Binary32,
}

impl RayCollisionHit {
    /// The record with the normal given by its components.
    pub fn new(normal_x: Binary32, normal_y: Binary32, normal_z: Binary32, distance: Binary32) -> (hit:
        RayCollisionHit)
        ensures
            hit == (RayCollisionHit {
                normal: Vector3 { x: normal_x, y: normal_y, z: normal_z },
                distance,
            }),
    {
        RayCollisionHit { normal: Vector3::new(normal_x, normal_y, normal_z), distance }
    }

    /// The record with the given normal and distance.
    pub fn new_native(normal: Vector3, distance: Binary32) -> (hit: RayCollisionHit)
        ensures
            hit == (RayCollisionHit { normal, distance }),
    {
        RayCollisionHit { normal, distance }
    }

    /// The surface normal.
    pub fn normal(&self) -> (n: Vector3)
        ensures
            n == self.normal,
    {
        self.normal
    }

    /// The distance from the ray's origin.
    pub fn distance(&self) -> (d: Binary32)
        ensures
            d == self.distance,
    {
        self.distance
    }

    /// The surface normal, by reference.
    pub fn normal_native(&self) -> (n: &Vector3)
        ensures
            *n == self.normal,
    {
        &self.normal
    }

    /// The distance from the ray's origin.
    pub fn distance_native(&self) -> (d: Binary32)
        ensures
            d == self.distance,
    {
        self.distance
    }
}

} // verus!
