//! Three-component vectors over binary32 scalars.
//!
//! Every operation is a fixed sequence of scalar operations, each rounded on
//! its own; the spec functions here spell those sequences out, so two results
//! are equal exactly when their encodings are.
use vstd::prelude::*;
use crate::scalar::Binary32;

verus! {

/// A vector of three scalars, copied by value.
#[derive(Clone, Copy, Debug)]
pub struct Vector3 {
    pub x: Binary32,
    pub y: Binary32,
    pub z: Binary32,
}

impl Vector3 {
    /// The vector whose three components are positive zero.
    pub open spec fn spec_zero() -> Vector3 {
        Vector3 { x: Binary32::spec_zero(), y: Binary32::spec_zero(), z: Binary32::spec_zero() }
    }

    /// Sum of the componentwise products, added from left to right.
    pub open spec fn spec_dot(self, other: Vector3) -> Binary32 {
        self.x.spec_mul(other.x).spec_add(self.y.spec_mul(other.y)).spec_add(
            self.z.spec_mul(other.z),
        )
    }

    /// Squared length: the dot product of the vector with itself.
    pub open spec fn spec_length_sq(self) -> Binary32 {
        self.spec_dot(self)
    }

    /// Length: the square root of the squared length.
    pub open spec fn spec_magnitude(self) -> Binary32 {
        self.spec_length_sq().spec_sqrt()
    }

    /// Componentwise sum.
    pub open spec fn spec_plus(self, other: Vector3) -> Vector3 {
        Vector3 {
            x: self.x.spec_add(other.x),
            y: self.y.spec_add(other.y),
            z: self.z.spec_add(other.z),
        }
    }

    /// Each component multiplied by `scalar`.
    pub open spec fn spec_scaled(self, scalar: Binary32) -> Vector3 {
        Vector3 {
            x: self.x.spec_mul(scalar),
            y: self.y.spec_mul(scalar),
            z: self.z.spec_mul(scalar),
        }
    }

    /// Each component divided by the length when the length is greater than
    /// zero; the zero vector otherwise.
    pub open spec fn spec_normalized(self) -> Vector3 {
        let mag = self.spec_magnitude();
        if Binary32::spec_zero().spec_lt(mag) {
            Vector3 { x: self.x.spec_div(mag), y: self.y.spec_div(mag), z: self.z.spec_div(mag) }
        } else {
            Self::spec_zero()
        }
    }

    /// The vector rescaled by `length / |self|`; the vector itself when its
    /// length equals zero.
    pub open spec fn spec_with_length(self, length: Binary32) -> Vector3 {
        let mag = self.spec_magnitude();
        if mag.spec_eq(Binary32::spec_zero()) {
            self
        } else {
            self.spec_scaled(length.spec_div(mag))
        }
    }

    /// The vector minus its component along `plane_normal`, which is taken
    /// to have unit length: `v - (v . n) n`.
    pub open spec fn spec_project_on_plane(self, plane_normal: Vector3) -> Vector3 {
        let along = plane_normal.spec_scaled(self.spec_dot(plane_normal));
        Vector3 {
            x: self.x.spec_sub(along.x),
            y: self.y.spec_sub(along.y),
            z: self.z.spec_sub(along.z),
        }
    }

    /// The vector with the given components.
    pub fn new(x: Binary32, y: Binary32, z: Binary32) -> (v: Vector3)
        ensures
            v == (Vector3 { x, y, z }),
    {
        Vector3 { x, y, z }
    }

    /// The vector with the given components.
    pub fn new_wasm(x: Binary32, y: Binary32, z: Binary32) -> (v: Vector3)
        ensures
            v == (Vector3 { x, y, z }),
    {
        Vector3 { x, y, z }
    }

    /// The vector with the given components.
    pub fn from_components(x: Binary32, y: Binary32, z: Binary32) -> (v: Vector3)
        ensures
            v == (Vector3 { x, y, z }),
    {
        Vector3 { x, y, z }
    }

    /// The three components, in order.
    pub fn to_components(&self) -> (c: (Binary32, Binary32, Binary32))
        ensures
            c == (self.x, self.y, self.z),
    {
        (self.x, self.y, self.z)
    }

    /// The zero vector.
    pub fn zero() -> (v: Vector3)
        ensures
            v == Self::spec_zero(),
    {
        Vector3 { x: Binary32::zero(), y: Binary32::zero(), z: Binary32::zero() }
    }

    pub fn x(&self) -> (r: Binary32)
        ensures
            r == self.x,
    {
        self.x
    }

    pub fn y(&self) -> (r: Binary32)
        ensures
            r == self.y,
    {
        self.y
    }

    pub fn z(&self) -> (r: Binary32)
        ensures
            r == self.z,
    {
        self.z
    }

    pub fn get_x(&self) -> (r: Binary32)
        ensures
            r == self.x,
    {
        self.x
    }

    pub fn get_y(&self) -> (r: Binary32)
        ensures
            r == self.y,
    {
        self.y
    }

    pub fn get_z(&self) -> (r: Binary32)
        ensures
            r == self.z,
    {
        self.z
    }

    pub fn set_x(&mut self, x: Binary32)
        ensures
            *final(self) == (Vector3 { x, y: old(self).y, z: old(self).z }),
    {
        self.x = x;
    }

    pub fn set_y(&mut self, y: Binary32)
        ensures
            *final(self) == (Vector3 { x: old(self).x, y, z: old(self).z }),
    {
        self.y = y;
    }

    pub fn set_z(&mut self, z: Binary32)
        ensures
            *final(self) == (Vector3 { x: old(self).x, y: old(self).y, z }),
    {
        self.z = z;
    }

    pub fn set_x_native(&mut self, x: Binary32)
        ensures
            *final(self) == (Vector3 { x, y: old(self).y, z: old(self).z }),
    {
        self.x = x;
    }

    pub fn set_y_native(&mut self, y: Binary32)
        ensures
            *final(self) == (Vector3 { x: old(self).x, y, z: old(self).z }),
    {
        self.y = y;
    }

    pub fn set_z_native(&mut self, z: Binary32)
        ensures
            *final(self) == (Vector3 { x: old(self).x, y: old(self).y, z }),
    {
        self.z = z;
    }

    /// The dot product with `other`.
    pub fn dot(&self, other: &Vector3) -> (r: Binary32)
        ensures
            r == self.spec_dot(*other),
    {
        self.x.mul(other.x).add(self.y.mul(other.y)).add(self.z.mul(other.z))
    }

    /// Adds `other` to the vector in place.
    pub fn add(&mut self, other: &Vector3)
        ensures
            *final(self) == old(self).spec_plus(*other),
    {
        self.x = self.x.add(other.x);
        self.y = self.y.add(other.y);
        self.z = self.z.add(other.z);
    }

    /// The vector with each component multiplied by `scalar`.
    pub fn multiply_scalar(&self, scalar: Binary32) -> (r: Vector3)
        ensures
            r == self.spec_scaled(scalar),
    {
        Vector3 { x: self.x.mul(scalar), y: self.y.mul(scalar), z: self.z.mul(scalar) }
    }

    /// The squared length.
    pub fn length_sq(&self) -> (r: Binary32)
        ensures
            r == self.spec_length_sq(),
            r.is_nan() || !r.sign(),
    {
        let xx: Binary32 = self.x.mul(self.x);
        let yy: Binary32 = self.y.mul(self.y);
        let zz: Binary32 = self.z.mul(self.z);
        xx.add(yy).add(zz)
    }

    /// The length.
    pub fn magnitude(&self) -> (r: Binary32)
        ensures
            r == self.spec_magnitude(),
            r.is_nan() || !r.sign(),
    {
        self.length_sq().sqrt()
    }

    /// The length.
    pub fn length(&self) -> (r: Binary32)
        ensures
            r == self.spec_magnitude(),
            r.is_nan() || !r.sign(),
    {
        self.magnitude()
    }

    /// The vector scaled to unit length, or the zero vector when its length
    /// is not greater than zero.
    pub fn normalized(&self) -> (r: Vector3)
        ensures
            r == self.spec_normalized(),
            !Binary32::spec_zero().spec_lt(self.spec_magnitude()) ==> r == Self::spec_zero(),
    {
        let mag: Binary32 = self.magnitude();
        if mag.gt(Binary32::zero()) {
            Vector3 { x: self.x.div(mag), y: self.y.div(mag), z: self.z.div(mag) }
        } else {
            Self::zero()
        }
    }

    /// Rescales the vector in place to the given length, keeping its
    /// direction. A vector whose length equals zero is left as it is.
    pub fn set_length(&mut self, length: Binary32)
        ensures
            *final(self) == old(self).spec_with_length(length),
            old(self).spec_magnitude().spec_eq(Binary32::spec_zero()) ==> *final(self) == *old(
                self,
            ),
    {
        let current: Binary32 = self.magnitude();
        if !current.eq(Binary32::zero()) {
            let scale: Binary32 = length.div(current);
            self.x = self.x.mul(scale);
            self.y = self.y.mul(scale);
            self.z = self.z.mul(scale);
        }
    }

    /// Rescales the vector in place to the given length.
    pub fn set_length_native(&mut self, length: Binary32)
        ensures
            *final(self) == old(self).spec_with_length(length),
    {
        self.set_length(length);
    }

    /// Overwrites the vector with `other`.
    pub fn copy(&mut self, other: &Vector3)
        ensures
            *final(self) == *other,
    {
        self.x = other.x;
        self.y = other.y;
        self.z = other.z;
    }

    /// A copy of the vector.
    pub fn clone(&self) -> (r: Vector3)
        ensures
            r == *self,
    {
        Vector3 { x: self.x, y: self.y, z: self.z }
    }

    /// The projection of the vector onto the plane through the origin with
    /// the unit normal `plane_normal`.
    pub fn project_on_plane(&self, plane_normal: &Vector3) -> (r: Vector3)
        ensures
            r == self.spec_project_on_plane(*plane_normal),
    {
        let along: Vector3 = plane_normal.multiply_scalar(self.dot(plane_normal));
        Vector3 { x: self.x.sub(along.x), y: self.y.sub(along.y), z: self.z.sub(along.z) }
    }

    /// The projection of the vector onto the plane with unit normal
    /// `plane_normal`.
    pub fn project_on_plane_native(&self, plane_normal: &Vector3) -> (r: Vector3)
        ensures
            r == self.spec_project_on_plane(*plane_normal),
    {
        self.project_on_plane(plane_normal)
    }
}

} // verus!
