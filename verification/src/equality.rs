//! The `==` operator on scalars and vectors: numeric equality, under which
//! the two zeros are equal and a NaN equals nothing, itself included.
use vstd::prelude::*;
use vstd::std_specs::cmp::PartialEqSpecImpl;
use crate::scalar::Binary32;
use crate::vector3::Vector3;

verus! {

impl PartialEq for Binary32 {
    fn eq(&self, other: &Binary32) -> (r: bool) {
        Binary32::eq(*self, *other)
    }
}

impl PartialEqSpecImpl for Binary32 {
    open spec fn obeys_eq_spec() -> bool {
        true
    }

    open spec fn eq_spec(&self, other: &Binary32) -> bool {
        self.spec_eq(*other)
    }
}

impl PartialEq for Vector3 {
    fn eq(&self, other: &Vector3) -> (r: bool) {
        self.x.eq(other.x) && self.y.eq(other.y) && self.z.eq(other.z)
    }
}

impl PartialEqSpecImpl for Vector3 {
    open spec fn obeys_eq_spec() -> bool {
        true
    }

    open spec fn eq_spec(&self, other: &Vector3) -> bool {
        self.x.spec_eq(other.x) && self.y.spec_eq(other.y) && self.z.spec_eq(other.z)
    }
}

} // verus!
