//! The core of an offline ray tracer: intervals and bounding boxes, the
//! bounding-volume hierarchy, the hit tests, the materials and the shading
//! recursion.
//!
//! Numbers are held as IEEE-754 binary64 bit patterns ([`scalar::Scalar`]).
//! The crate compares them and never computes with them: every sum, product,
//! quotient and root is worked out by the caller and handed in, and every
//! decision that a ray tracer takes on such numbers is taken here, with a
//! contract that says which.
//!
//! - [`util`]: intervals; images as text.
//! - [`bvh`]: boxes and the slab test; building the hierarchy.
//! - [`hittable`]: hit records, spheres, surfaces, lists of surfaces and
//!   the linear search for the closest hit.
//! - [`traversal`]: the search of a surface, one test at a time, and the
//!   proof that it finds what the linear search finds.
//! - [`material`]: what is scattered, and where to.
//! - [`camera`]: the path of a ray through its bounces.
//! - [`color`], [`texture`], [`ray`], [`vec3`], [`sphere`]: the values that
//!   the others work on.
pub mod bvh;
pub mod camera;
pub mod color;
pub mod hittable;
pub mod material;
pub mod ray;
pub mod scalar;
pub mod sphere;
pub mod texture;
pub mod traversal;
pub mod util;
pub mod vec3;
