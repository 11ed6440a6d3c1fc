//! How surfaces scatter light: diffusely, as a mirror, or as glass.
//!
//! A material decides whether a ray is scattered and which of the
//! directions that its caller has computed the scattered ray takes.
use crate::color::{white, Color};
use crate::hittable::HitRecord;
use crate::ray::Ray;
use crate::scalar::{Scalar, ONE_BITS};
use crate::util::Interval;
use crate::vec3::Vec3;
use vstd::prelude::*;

verus! {

/// A scattered ray, and how much of each channel it keeps.
#[derive(Clone, Copy, Debug, PartialEq, Eq, Structural)]
pub struct ScatterResult {
    pub scattered: Ray,
    pub attenuation: Color,
}

/// A diffuse surface.
#[derive(Clone, Copy, Debug, PartialEq, Eq, Structural)]
pub struct Lambertian {
    pub albedo: Color,
}

/// A mirror, blurred by `fuzz`, which lies between 0 and 1.
#[derive(Clone, Copy, Debug, PartialEq, Eq, Structural)]
pub struct Metal {
    pub albedo: Color,
    pub fuzz: Scalar,
}

/// Glass.
#[derive(Clone, Copy, Debug, PartialEq, Eq, Structural)]
pub struct Dielectric {
    pub refraction_index: Scalar,
}

/// The ray that leaves the point of a hit in a direction, at the time of
/// the ray that came in.
pub open spec fn leaving(r_in: Ray, rec: HitRecord, direction: Vec3) -> Ray {
    Ray { origin: rec.point, dir: direction, tm: r_in.tm }
}

impl Lambertian {
    pub fn new(albedo: Color) -> (m: Lambertian)
        ensures
            m.albedo == albedo,
    {
        Lambertian { albedo }
    }

    /// Always scatters. `direction` is the normal plus a random unit
    /// vector; where the two all but cancel, the ray leaves along the normal.
    pub fn scatter(&self, r_in: &Ray, rec: &HitRecord, direction: Vec3) -> (r: Option<
        ScatterResult,
    >)
        ensures
            r == Some(
                ScatterResult {
                    scattered: leaving(
                        *r_in,
                        *rec,
                        if direction.near_zero_spec() {
                            rec.normal
                        } else {
                            direction
                        },
                    ),
                    attenuation: self.albedo,
                },
            ),
    {
        let mut scattered_direction = direction;
        if scattered_direction.near_zero() {
            scattered_direction = rec.normal;
        }
        let scattered = Ray::new(rec.point, scattered_direction, r_in.time());
        Some(ScatterResult { scattered, attenuation: self.albedo })
    }
}

impl Metal {
    /// The fuzz is clamped into the range from 0 to 1.
    pub fn new(albedo: Color, fuzz: Scalar) -> (m: Metal)
        ensures
            m.albedo == albedo,
            m.fuzz == (Interval { min: Scalar::zero(), max: Scalar::one() }).clamp_spec(fuzz),
    {
        let fuzz = if fuzz.lt(Scalar { bits: 0 }) {
            Scalar { bits: 0 }
        } else if fuzz.gt(Scalar { bits: ONE_BITS }) {
            Scalar { bits: ONE_BITS }
        } else {
            fuzz
        };
        Metal { albedo, fuzz }
    }

    /// Scatters along `reflected`, the mirrored direction with the fuzz
    /// added, unless the fuzz has pushed it below the surface: `facing` is
    /// the dot product of `reflected` and the normal, and the ray is
    /// absorbed unless it is above zero.
    pub fn scatter(&self, r_in: &Ray, rec: &HitRecord, reflected: Vec3, facing: Scalar) -> (r:
        Option<ScatterResult>)
        ensures
            r == if Scalar::zero().lt_spec(facing) {
                Some(
                    ScatterResult {
                        scattered: leaving(*r_in, *rec, reflected),
                        attenuation: self.albedo,
                    },
                )
            } else {
                None
            },
            facing.le_spec(Scalar::zero()) ==> r is None,
    {
        let scattered = Ray::new(rec.point, reflected, r_in.time());
        if facing.gt(Scalar { bits: 0 }) {
            Some(ScatterResult { scattered, attenuation: self.albedo })
        } else {
            None
        }
    }
}

impl Dielectric {
    /// Glass reflects where it cannot refract, which is where the ratio of
    /// the refraction indices times the sine of the angle of incidence is
    /// above 1, and where its reflectance at that angle is above the draw.
    pub open spec fn reflects(ratio_sine: Scalar, reflectance: Scalar, draw: Scalar) -> bool {
        Scalar::one().lt_spec(ratio_sine) || draw.lt_spec(reflectance)
    }

    pub fn new(refraction_index: Scalar) -> (m: Dielectric)
        ensures
            m.refraction_index == refraction_index,
    {
        Dielectric { refraction_index }
    }

    /// The ratio of the refraction indices across the surface: `inverse`,
    /// one over the index of the glass, for a ray that enters it from
    /// outside, and the index itself for one that leaves it.
    pub fn ratio(&self, rec: &HitRecord, inverse: Scalar) -> (r: Scalar)
        ensures
            r == if rec.front_face {
                inverse
            } else {
                self.refraction_index
            },
    {
        if rec.front_face {
            inverse
        } else {
            self.refraction_index
        }
    }

    /// Always scatters, and keeps all of the light. The ray leaves along
    /// `reflected` where the glass reflects and along `refracted` where it
    /// does not. `ratio_sine` is the ratio of the refraction indices times
    /// the sine of the angle of incidence, `reflectance` the reflectance at
    /// that angle, and `draw` a uniform sample from 0 to 1.
    pub fn scatter(
        &self,
        r_in: &Ray,
        rec: &HitRecord,
        ratio_sine: Scalar,
        reflectance: Scalar,
        draw: Scalar,
        reflected: Vec3,
        refracted: Vec3,
    ) -> (r: Option<ScatterResult>)
        ensures
            r == Some(
                ScatterResult {
                    scattered: leaving(
                        *r_in,
                        *rec,
                        if Self::reflects(ratio_sine, reflectance, draw) {
                            reflected
                        } else {
                            refracted
                        },
                    ),
                    attenuation: white(),
                },
            ),
            r is Some && r->Some_0.attenuation == white(),
    {
        let cannot_refract = ratio_sine.gt(Scalar { bits: ONE_BITS });
        let dir = if cannot_refract || reflectance.gt(draw) {
            reflected
        } else {
            refracted
        };
        let one = Scalar { bits: ONE_BITS };
        Some(ScatterResult { scattered: Ray::new(rec.point, dir, r_in.time()), attenuation: Vec3(one, one, one) })
    }
}

} // verus!
