//! A sphere as a shape alone: a centre and a radius.
use crate::scalar::Scalar;
use crate::vec3::Vec3;
use vstd::prelude::*;

verus! {

#[derive(Clone, Copy, Debug, PartialEq, Eq, Structural)]
pub struct Sphere {
    pub center: Vec3,
    pub radius: Scalar,
}

impl Sphere {
    pub fn new(center: Vec3, radius: Scalar) -> (s: Sphere)
        ensures
            s == (Sphere { center, radius }),
    {
        Sphere { center, radius }
    }

    pub fn center(&self) -> (c: Vec3)
        ensures
            c == self.center,
    {
        self.center
    }

    pub fn radius(&self) -> (r: Scalar)
        ensures
            r == self.radius,
    {
        self.radius
    }
}

} // verus!
