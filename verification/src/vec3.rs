//! Points, directions and colours: three scalars.
use crate::scalar::Scalar;
use vstd::prelude::*;

verus! {

/// The pattern of 1e-8: below it, in absolute value, a component counts as zero.
pub const NEAR_ZERO_BITS: u64 = 0x3e45_798e_e230_8c3a;

/// The pattern of 1e-160: a squared length below it is too short to normalise.
pub const SHORTEST_SQUARED_BITS: u64 = 0x1eb6_7e9c_127b_6e74;

#[derive(Clone, Copy, Debug, PartialEq, Eq, Structural)]
pub struct Vec3(pub Scalar, pub Scalar, pub Scalar);

impl Vec3 {
    /// All three components are closer to zero than 1e-8.
    pub open spec fn near_zero_spec(self) -> bool {
        let eps = Scalar { bits: NEAR_ZERO_BITS };
        self.0.abs_spec().lt_spec(eps) && self.1.abs_spec().lt_spec(eps) && self.2.abs_spec().lt_spec(
            eps,
        )
    }

    /// Every component with its sign bit flipped.
    pub open spec fn neg_spec(self) -> Vec3 {
        Vec3(self.0.neg_spec(), self.1.neg_spec(), self.2.neg_spec())
    }

    /// A squared length from which a vector drawn in the unit cube is kept:
    /// at least 1e-160, so that it can be normalised, and at most 1, so that
    /// it lies in the unit ball.
    pub open spec fn in_unit_ball_spec(length_squared: Scalar) -> bool {
        Scalar { bits: SHORTEST_SQUARED_BITS }.le_spec(length_squared) && length_squared.le_spec(
            Scalar::one(),
        )
    }

    pub fn x(&self) -> (r: Scalar)
        ensures
            r == self.0,
    {
        self.0
    }

    pub fn y(&self) -> (r: Scalar)
        ensures
            r == self.1,
    {
        self.1
    }

    pub fn z(&self) -> (r: Scalar)
        ensures
            r == self.2,
    {
        self.2
    }

    /// Whether rejection sampling keeps a candidate in the unit disk: its
    /// squared length is below 1.
    pub fn in_unit_disk(length_squared: Scalar) -> (r: bool)
        ensures
            r == length_squared.lt_spec(Scalar::one()),
    {
        length_squared.lt(Scalar { bits: crate::scalar::ONE_BITS })
    }

    #[verifier::when_used_as_spec(near_zero_spec)]
    pub fn near_zero(self) -> (r: bool)
        ensures
            r == self.near_zero_spec(),
    {
        let eps = Scalar { bits: NEAR_ZERO_BITS };
        self.0.abs().lt(eps) && self.1.abs().lt(eps) && self.2.abs().lt(eps)
    }

    #[verifier::when_used_as_spec(neg_spec)]
    pub fn neg(self) -> (r: Vec3)
        ensures
            r == self.neg_spec(),
    {
        Vec3(self.0.neg(), self.1.neg(), self.2.neg())
    }

    /// Whether rejection sampling keeps a candidate of this squared length.
    #[verifier::when_used_as_spec(in_unit_ball_spec)]
    pub fn in_unit_ball(length_squared: Scalar) -> (r: bool)
        ensures
            r == Self::in_unit_ball_spec(length_squared),
    {
        Scalar { bits: SHORTEST_SQUARED_BITS }.le(length_squared) && length_squared.le(
            Scalar { bits: crate::scalar::ONE_BITS },
        )
    }

    /// The unit vector itself where it points into the hemisphere of the
    /// normal, its opposite where it does not. `facing` is the dot product of
    /// `on_unit_sphere` and the normal.
    pub fn random_on_hemisphere(on_unit_sphere: Vec3, facing: Scalar) -> (r: Vec3)
        ensures
            r == if Scalar::zero().lt_spec(facing) {
                on_unit_sphere
            } else {
                on_unit_sphere.neg_spec()
            },
    {
        if facing.gt(Scalar { bits: 0 }) {
            on_unit_sphere
        } else {
            on_unit_sphere.neg()
        }
    }
}

} // verus!
