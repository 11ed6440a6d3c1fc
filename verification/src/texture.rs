//! Textures: one colour, or a checkerboard of two textures in space.
use crate::color::Color;
use crate::scalar::Scalar;
use crate::vec3::Vec3;
use vstd::prelude::*;

verus! {

/// A texture of one colour.
#[derive(Clone, Copy, Debug, PartialEq, Eq, Structural)]
pub struct SolidColor {
    pub albedo: Color,
}

#[derive(Debug, PartialEq, Eq)]
pub enum Texture {
    Solid(SolidColor),
    Checker(Box<CheckerTexture>),
}

/// A checkerboard of cubes with an edge of one over `inv_scale`.
#[derive(Debug, PartialEq, Eq)]
pub struct CheckerTexture {
    pub inv_scale: Scalar,
    pub even: Texture,
    pub odd: Texture,
}

impl SolidColor {
    pub fn new(albedo: Color) -> (t: SolidColor)
        ensures
            t.albedo == albedo,
    {
        SolidColor { albedo }
    }

    /// The colour, wherever the surface is hit.
    pub fn value(&self, u: Scalar, v: Scalar, point: Vec3) -> (c: Color)
        ensures
            c == self.albedo,
    {
        self.albedo
    }
}

impl CheckerTexture {
    /// The cube with these whole coordinates is an even one: the sum of the
    /// three is even.
    pub open spec fn is_even(x_integer: i32, y_integer: i32, z_integer: i32) -> bool {
        (x_integer + y_integer + z_integer) % 2 == 0
    }

    /// `inv_scale` is one over the edge of a cube.
    pub fn new(inv_scale: Scalar, even: Texture, odd: Texture) -> (t: CheckerTexture)
        ensures
            t == (CheckerTexture { inv_scale, even, odd }),
    {
        CheckerTexture { inv_scale, even, odd }
    }

    pub fn from_colors(inv_scale: Scalar, c1: Color, c2: Color) -> (t: CheckerTexture)
        ensures
            t == (CheckerTexture {
                inv_scale,
                even: Texture::Solid(SolidColor { albedo: c1 }),
                odd: Texture::Solid(SolidColor { albedo: c2 }),
            }),
    {
        CheckerTexture::new(
            inv_scale,
            Texture::Solid(SolidColor { albedo: c1 }),
            Texture::Solid(SolidColor { albedo: c2 }),
        )
    }

    /// The texture that a point takes its colour from. The three integers
    /// are the point's coordinates times `inv_scale`, rounded down.
    pub fn value(&self, x_integer: i32, y_integer: i32, z_integer: i32) -> (t: &Texture)
        ensures
            *t == if Self::is_even(x_integer, y_integer, z_integer) {
                self.even
            } else {
                self.odd
            },
    {
        let sum: i64 = x_integer as i64 + y_integer as i64 + z_integer as i64;
        if sum % 2 == 0 {
            &self.even
        } else {
            &self.odd
        }
    }
}

} // verus!
