//! Rays: an origin, a direction and the time at which the ray is cast.
use crate::scalar::Scalar;
use crate::vec3::Vec3;
use vstd::prelude::*;

verus! {

#[derive(Clone, Copy, Debug, PartialEq, Eq, Structural)]
pub struct Ray {
    pub origin: Vec3,
    pub dir: Vec3,
    pub tm: Scalar,
}

impl Ray {
    pub fn new(origin: Vec3, dir: Vec3, time: Scalar) -> (r: Ray)
        ensures
            r == (Ray { origin, dir, tm: time }),
    {
        Ray { origin, dir, tm: time }
    }

    pub fn origin(&self) -> (r: Vec3)
        ensures
            r == self.origin,
    {
        self.origin
    }

    pub fn dir(&self) -> (r: Vec3)
        ensures
            r == self.dir,
    {
        self.dir
    }

    pub fn time(&self) -> (r: Scalar)
        ensures
            r == self.tm,
    {
        self.tm
    }
}

} // verus!
