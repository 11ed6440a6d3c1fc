//! The shading recursion: what colour a ray brings back from the scene.
//!
//! A ray that misses everything brings back the sky. One that is scattered
//! brings back what the scattered ray brings back, times the attenuation of
//! the surface; one that is absorbed, or that has used up its bounces,
//! brings back black. What a ray hits and how it is scattered is the
//! caller's to find out, so the recursion is a machine: it names the ray to
//! follow, takes what became of it, and ends with the product to work out.
use crate::color::Color;
use crate::material::ScatterResult;
use crate::ray::Ray;
use crate::scalar::{Scalar, INFINITY_BITS};
use crate::util::Interval;
use vstd::prelude::*;

verus! {

/// The pattern of 0.001: how far along a scattered ray the search for the
/// next hit begins, so that the ray does not hit the surface it left.
pub const NEAREST_HIT_BITS: u64 = 0x3f50_624d_d2f1_a9fc;

/// The raster of an image and the budgets of its rays.
#[derive(Clone, Copy, Debug, PartialEq, Eq, Structural)]
pub struct Camera {
    pub image_width: u32,
    pub image_height: u32,
    pub samples_per_pixel: u32,
    pub max_depth: u32,
}

/// What became of a ray in the scene.
#[derive(Clone, Copy, Debug, PartialEq, Eq, Structural)]
pub enum Outcome {
    /// It hit nothing.
    Missed,
    /// It hit a surface that did not scatter it.
    Absorbed,
    /// It hit a surface that scattered it.
    Scattered(ScatterResult),
}

/// What a path ends with.
#[derive(Clone, Copy, Debug, PartialEq, Eq, Structural)]
pub enum Ending {
    /// Black: the last ray was absorbed, or no bounce was left for it.
    Black,
    /// The colour of the sky in the direction of this ray, which hit nothing.
    Sky(Ray),
}

/// The colour that a ray brings back, as the product that it is.
pub enum Shade {
    Black,
    Sky(Ray),
    /// The attenuation of a surface, channel by channel, times what the
    /// scattered ray brings back.
    Tinted(Color, Box<Shade>),
}

/// The colour that a ray brings back with `depth` bounces left, in a scene
/// where `world` says what becomes of each ray.
pub open spec fn color_ray_spec(ray: Ray, depth: nat, world: spec_fn(Ray) -> Outcome) -> Shade
    decreases depth,
{
    if depth == 0 {
        Shade::Black
    } else {
        match world(ray) {
            Outcome::Missed => Shade::Sky(ray),
            Outcome::Absorbed => Shade::Black,
            Outcome::Scattered(res) => Shade::Tinted(
                res.attenuation,
                Box::new(color_ray_spec(res.scattered, (depth - 1) as nat, world)),
            ),
        }
    }
}

/// The product of the attenuations from `from` on, the first outermost,
/// and what the path ends with.
pub open spec fn product(attenuations: Seq<Color>, from: int, ending: Ending) -> Shade
    decreases attenuations.len() - from,
{
    if from < 0 || from >= attenuations.len() {
        match ending {
            Ending::Black => Shade::Black,
            Ending::Sky(ray) => Shade::Sky(ray),
        }
    } else {
        Shade::Tinted(attenuations[from], Box::new(product(attenuations, from + 1, ending)))
    }
}

/// A path under way: the ray that is followed, the bounces left for it,
/// the attenuations of the surfaces that scattered it so far, and, once the
/// path has ended, what it ended with.
#[derive(Debug, PartialEq, Eq)]
pub struct Path {
    pub ray: Ray,
    pub depth: u32,
    pub attenuations: Vec<Color>,
    pub ending: Option<Ending>,
}

/// The state of a path.
pub struct Trail {
    pub ray: Ray,
    pub depth: nat,
    pub attenuations: Seq<Color>,
    pub ending: Option<Ending>,
}

impl Trail {
    /// The path of a ray with a budget of bounces, before anything is known
    /// of the ray. Without a bounce the path has ended, in black.
    pub open spec fn start(ray: Ray, depth: nat) -> Trail {
        Trail {
            ray,
            depth,
            attenuations: Seq::empty(),
            ending: if depth == 0 {
                Some(Ending::Black)
            } else {
                None
            },
        }
    }

    /// The path once it is known what became of its ray. A ray that missed
    /// ends the path with the sky, one that was absorbed with black. A
    /// scattered ray is followed with one bounce less, and where that was
    /// the last bounce the path ends in black. A path that has ended stays
    /// as it is.
    pub open spec fn after(self, outcome: Outcome) -> Trail {
        if self.ending is Some || self.depth == 0 {
            self
        } else {
            match outcome {
                Outcome::Missed => Trail { ending: Some(Ending::Sky(self.ray)), ..self },
                Outcome::Absorbed => Trail { ending: Some(Ending::Black), ..self },
                Outcome::Scattered(res) => Trail {
                    ray: res.scattered,
                    depth: (self.depth - 1) as nat,
                    attenuations: self.attenuations.push(res.attenuation),
                    ending: if self.depth == 1 {
                        Some(Ending::Black)
                    } else {
                        None
                    },
                },
            }
        }
    }

    /// The path as it ends where `world` says what becomes of each ray.
    pub open spec fn run(self, world: spec_fn(Ray) -> Outcome) -> Trail
        decreases self.depth,
    {
        if self.ending is Some || self.depth == 0 {
            self
        } else {
            match world(self.ray) {
                Outcome::Scattered(res) => self.after(world(self.ray)).run(world),
                _ => self.after(world(self.ray)),
            }
        }
    }

    /// The colour of a path that has ended.
    pub open spec fn shade(self) -> Shade {
        product(
            self.attenuations,
            0,
            match self.ending {
                Some(ending) => ending,
                None => Ending::Black,
            },
        )
    }
}

impl View for Path {
    type V = Trail;

    open spec fn view(&self) -> Trail {
        Trail {
            ray: self.ray,
            depth: self.depth as nat,
            attenuations: self.attenuations@,
            ending: self.ending,
        }
    }
}

impl Path {
    /// The ray to find the fate of next, or nothing once the path has ended.
    pub fn pending(&self) -> (r: Option<Ray>)
        ensures
            r == if self@.ending is Some || self@.depth == 0 {
                None
            } else {
                Some(self@.ray)
            },
    {
        if self.ending.is_some() || self.depth == 0 {
            None
        } else {
            Some(self.ray)
        }
    }

    /// Takes what became of the ray that was pending.
    pub fn resolve(&mut self, outcome: Outcome)
        ensures
            final(self)@ == old(self)@.after(outcome),
    {
        if self.ending.is_some() || self.depth == 0 {
            return ;
        }
        match outcome {
            Outcome::Missed => {
                self.ending = Some(Ending::Sky(self.ray));
            },
            Outcome::Absorbed => {
                self.ending = Some(Ending::Black);
            },
            Outcome::Scattered(res) => {
                self.ray = res.scattered;
                self.depth = self.depth - 1;
                self.attenuations.push(res.attenuation);
                if self.depth == 0 {
                    self.ending = Some(Ending::Black);
                }
            },
        }
    }
}

impl Camera {
    /// The part of a ray that is searched for a hit: from 0.001 on.
    pub open spec fn ray_t_spec() -> Interval {
        Interval { min: Scalar { bits: NEAREST_HIT_BITS }, max: Scalar::infinity() }
    }

    /// `height` is the width over the aspect ratio, cut to a whole number;
    /// the image is at least one row high.
    pub fn new(image_width: u32, samples_per_pixel: u32, max_depth: u32, height: u32) -> (c: Camera)
        ensures
            c.image_width == image_width,
            c.samples_per_pixel == samples_per_pixel,
            c.max_depth == max_depth,
            c.image_height == if height < 1 {
                1
            } else {
                height
            },
    {
        let image_height = if height < 1 {
            1
        } else {
            height
        };
        Camera { image_width, image_height, samples_per_pixel, max_depth }
    }

    /// Whether rays start on the defocus disk and not at the centre of the
    /// camera: they do unless the defocus angle is zero or below.
    pub fn defocuses(defocus_angle: Scalar) -> (r: bool)
        ensures
            r == !defocus_angle.le_spec(Scalar::zero()),
    {
        !defocus_angle.le(Scalar { bits: 0 })
    }

    #[verifier::when_used_as_spec(ray_t_spec)]
    pub fn ray_t() -> (r: Interval)
        ensures
            r == Camera::ray_t_spec(),
    {
        Interval { min: Scalar { bits: NEAREST_HIT_BITS }, max: Scalar { bits: INFINITY_BITS } }
    }

    /// Begins the path of a ray that may bounce `depth` times.
    pub fn color_ray(ray: &Ray, depth: u32) -> (path: Path)
        ensures
            path@ == Trail::start(*ray, depth as nat),
    {
        let ending = if depth == 0 {
            Some(Ending::Black)
        } else {
            None
        };
        Path { ray: *ray, depth, attenuations: Vec::new(), ending }
    }
}

/// A path ends, and with the colour that the recursion gives: black
/// without a bounce left; the sky for a ray that misses; black for one that
/// is absorbed; and for one that is scattered the attenuation times the
/// colour of the scattered ray with one bounce less.
pub proof fn lemma_path_is_recursion(ray: Ray, depth: nat, world: spec_fn(Ray) -> Outcome)
    ensures
        Trail::start(ray, depth).run(world).ending is Some,
        Trail::start(ray, depth).run(world).shade() == color_ray_spec(ray, depth, world),
{
    let trail = Trail::start(ray, depth);
    lemma_run_ends(trail, world);
    assert(product(trail.attenuations, 0, trail.run(world).ending->Some_0) == match trail.run(
        world,
    ).ending->Some_0 {
        Ending::Black => Shade::Black,
        Ending::Sky(r) => Shade::Sky(r),
    });
}

/// A path that goes on ends with the attenuations it had, then those of
/// the bounces to come, and what the recursion on its ray ends with.
proof fn lemma_run_ends(trail: Trail, world: spec_fn(Ray) -> Outcome)
    requires
        trail.ending is Some <==> trail.depth == 0,
        trail.ending is Some ==> trail.ending == Some(Ending::Black),
    ensures
        trail.run(world).ending is Some,
        trail.run(world).attenuations.len() >= trail.attenuations.len(),
        trail.run(world).attenuations.subrange(0, trail.attenuations.len() as int)
            == trail.attenuations,
        product(
            trail.run(world).attenuations,
            trail.attenuations.len() as int,
            trail.run(world).ending->Some_0,
        ) == color_ray_spec(trail.ray, trail.depth, world),
    decreases trail.depth,
{
    let n = trail.attenuations.len() as int;
    if trail.depth == 0 {
        assert(trail.run(world) == trail);
        assert(trail.attenuations.subrange(0, n) =~= trail.attenuations);
    } else {
        match world(trail.ray) {
            Outcome::Scattered(res) => {
                let next = trail.after(world(trail.ray));
                lemma_run_ends(next, world);
                let end = next.run(world);
                assert(trail.run(world) == end);
                assert(end.attenuations.subrange(0, n) =~= trail.attenuations) by {
                    assert(end.attenuations.subrange(0, n + 1) == next.attenuations);
                    assert forall|k: int| 0 <= k < n implies end.attenuations[k]
                        == trail.attenuations[k] by {
                        assert(end.attenuations.subrange(0, n + 1)[k] == end.attenuations[k]);
                    }
                }
                assert(end.attenuations[n] == res.attenuation) by {
                    assert(end.attenuations.subrange(0, n + 1)[n] == end.attenuations[n]);
                }
            },
            _ => {
                assert(trail.attenuations.subrange(0, n) =~= trail.attenuations);
            },
        }
    }
}

/// With one bounce a ray that is scattered brings back black times the
/// attenuation of the surface: the scattered ray is not followed.
pub proof fn lemma_one_bounce(ray: Ray, world: spec_fn(Ray) -> Outcome)
    ensures
        color_ray_spec(ray, 1, world) == match world(ray) {
            Outcome::Missed => Shade::Sky(ray),
            Outcome::Absorbed => Shade::Black,
            Outcome::Scattered(res) => Shade::Tinted(res.attenuation, Box::new(Shade::Black)),
        },
{
    reveal_with_fuel(color_ray_spec, 2);
}

/// No path follows more rays than its budget of bounces.
pub proof fn lemma_bounces_bounded(ray: Ray, depth: nat, world: spec_fn(Ray) -> Outcome)
    ensures
        Trail::start(ray, depth).run(world).attenuations.len() <= depth,
{
    lemma_run_bounded(Trail::start(ray, depth), world);
}

proof fn lemma_run_bounded(trail: Trail, world: spec_fn(Ray) -> Outcome)
    ensures
        trail.run(world).attenuations.len() <= trail.attenuations.len() + trail.depth,
    decreases trail.depth,
{
    if trail.ending is None && trail.depth > 0 {
        match world(trail.ray) {
            Outcome::Scattered(res) => {
                lemma_run_bounded(trail.after(world(trail.ray)), world);
            },
            _ => {},
        }
    }
}

} // verus!
