//! Deterministic kinematics for a first-person player controller.
//!
//! Ground movement, gravity accumulation and air acceleration over
//! three-component vectors of IEEE 754 binary32 scalars. The scalar
//! arithmetic is carried out on the encodings in integer arithmetic, so
//! every result is the same on every machine, and each operation is proved
//! to return the exact result rounded to nearest, ties to even.
pub mod powers;
pub mod encoding;
pub mod rounding;
pub mod nearest;
pub mod scalar;
pub mod product;
pub mod sum;
pub mod quotient;
pub mod root;
pub mod order;
pub mod equality;
pub mod vector3;
pub mod ray;
pub mod ground;
pub mod gravity;
pub mod air;
pub mod accuracy;
pub mod length;
pub mod unit_norm;
pub mod rescale;
pub mod orthogonal;
pub mod degenerate;

pub use crate::scalar::Binary32;
pub use crate::vector3::Vector3;
pub use crate::ray::RayCollisionHit;
pub use crate::ground::{player_move, player_move_core, player_move_native};
pub use crate::gravity::{
    gravity_influence,
    gravity_influence_acceleration,
    gravity_influence_acceleration_native,
    gravity_influence_core,
};
pub use crate::air::{air_accelerate, air_accelerate_get_acceleration, air_accelerate_native};
