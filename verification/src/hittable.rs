//! What a ray can hit: spheres, nodes of the bounding-volume hierarchy, and
//! lists of either; and the record of a hit.
use crate::bvh::{AABB, BVHNode};
use crate::ray::Ray;
use crate::scalar::Scalar;
use crate::util::Interval;
use crate::vec3::Vec3;
use std::cmp::Ordering;
use vstd::prelude::*;

verus! {

/// Where a ray met a surface. `mat` is the index of the surface's material
/// in the scene's table of materials, which many surfaces may share.
#[derive(Clone, Copy, Debug, PartialEq, Eq, Structural)]
pub struct HitRecord {
    pub point: Vec3,
    pub normal: Vec3,
    pub mat: usize,
    pub t: Scalar,
    pub u: Scalar,
    pub v: Scalar,
    pub front_face: bool,
}

impl HitRecord {
    /// The record of a hit at `point`, with the normal turned against the
    /// ray. `facing` is the dot product of the ray's direction and the
    /// outward normal: where it is below zero the ray came from outside.
    pub open spec fn oriented(
        point: Vec3,
        t: Scalar,
        facing: Scalar,
        outward_normal: Vec3,
        mat: usize,
    ) -> HitRecord {
        let front_face = facing.lt_spec(Scalar::zero());
        HitRecord {
            point,
            normal: if front_face {
                outward_normal
            } else {
                outward_normal.neg_spec()
            },
            mat,
            t,
            u: Scalar::zero(),
            v: Scalar::zero(),
            front_face,
        }
    }

    pub fn new(point: Vec3, t: Scalar, facing: Scalar, outward_normal: Vec3, mat: usize) -> (r:
        HitRecord)
        ensures
            r == HitRecord::oriented(point, t, facing, outward_normal, mat),
    {
        let front_face = facing.lt(Scalar { bits: 0 });
        let normal = if front_face {
            outward_normal
        } else {
            outward_normal.neg()
        };
        HitRecord {
            point,
            normal,
            mat,
            t,
            u: Scalar { bits: 0 },
            v: Scalar { bits: 0 },
            front_face,
        }
    }
}

/// One root of the quadratic of a ray and a sphere, with what the hit record
/// needs should the root be taken: the point of the ray at the root, the
/// outward normal there (from the centre to the point, over the radius), and
/// the dot product of the ray's direction with that normal.
#[derive(Clone, Copy, Debug, PartialEq, Eq, Structural)]
pub struct Root {
    pub t: Scalar,
    pub point: Vec3,
    pub outward_normal: Vec3,
    pub facing: Scalar,
}

/// The quadratic of a ray and a sphere, solved: its discriminant, the root
/// at which the ray enters and the root at which it leaves.
#[derive(Clone, Copy, Debug, PartialEq, Eq, Structural)]
pub struct Roots {
    pub discriminant: Scalar,
    pub near: Root,
    pub far: Root,
}

/// A sphere whose centre moves along a ray as time goes from 0 to 1.
#[derive(Clone, Copy, Debug, PartialEq, Eq, Structural)]
pub struct Sphere {
    pub center: Ray,
    pub radius: Scalar,
    pub material: usize,
    pub bbox: AABB,
}

impl Sphere {
    /// A root is turned down where it is not above the interval's minimum or
    /// not below its maximum.
    pub open spec fn rejects(ray_t: Interval, root: Scalar) -> bool {
        root.le_spec(ray_t.min) || ray_t.max.le_spec(root)
    }

    /// The record of the hit at a root of this sphere.
    pub open spec fn record(self, root: Root) -> HitRecord {
        HitRecord::oriented(root.point, root.t, root.facing, root.outward_normal, self.material)
    }

    /// No hit under a negative discriminant; else the near root unless the
    /// interval turns it down, else the far root unless it is turned down too.
    pub open spec fn hit_spec(self, roots: Roots, ray_t: Interval) -> Option<HitRecord> {
        if roots.discriminant.lt_spec(Scalar::zero()) {
            None
        } else if !Self::rejects(ray_t, roots.near.t) {
            Some(self.record(roots.near))
        } else if !Self::rejects(ray_t, roots.far.t) {
            Some(self.record(roots.far))
        } else {
            None
        }
    }

    /// A sphere at rest. `low` and `high` are the centre less and plus the
    /// radius on every axis, in either order.
    pub fn stationary(center: Vec3, radius: Scalar, mat: usize, low: Vec3, high: Vec3) -> (s:
        Sphere)
        ensures
            s.center == (Ray { origin: center, dir: Vec3(Scalar::zero(), Scalar::zero(), Scalar::zero()), tm: Scalar::zero() }),
            s.radius == radius,
            s.material == mat,
            s.bbox == AABB::spanned(low, high),
    {
        let zero = Scalar { bits: 0 };
        Sphere {
            center: Ray::new(center, Vec3(zero, zero, zero), zero),
            radius,
            material: mat,
            bbox: AABB::from_points(low, high),
        }
    }

    /// A sphere whose centre is `center1` at time 0 and `center1 + travel`
    /// at time 1. `low1` and `high1` are the corners of the box around it at
    /// time 0, `low2` and `high2` those at time 1.
    pub fn moving(
        center1: Vec3,
        travel: Vec3,
        radius: Scalar,
        mat: usize,
        low1: Vec3,
        high1: Vec3,
        low2: Vec3,
        high2: Vec3,
    ) -> (s: Sphere)
        ensures
            s.center == (Ray { origin: center1, dir: travel, tm: Scalar::zero() }),
            s.radius == radius,
            s.material == mat,
            s.bbox == AABB::union(AABB::spanned(low1, high1), AABB::spanned(low2, high2)),
    {
        let box1 = AABB::from_points(low1, high1);
        let box2 = AABB::from_points(low2, high2);
        Sphere {
            center: Ray::new(center1, travel, Scalar { bits: 0 }),
            radius,
            material: mat,
            bbox: AABB::from_boxes(&box1, &box2),
        }
    }

    pub fn center(&self) -> (r: Ray)
        ensures
            r == self.center,
    {
        self.center
    }

    pub fn radius(&self) -> (r: Scalar)
        ensures
            r == self.radius,
    {
        self.radius
    }

    /// Which root of the solved quadratic the ray hits the sphere at, if any,
    /// within `ray_t`.
    pub fn hit(&self, roots: &Roots, ray_t: &Interval) -> (r: Option<HitRecord>)
        ensures
            r == self.hit_spec(*roots, *ray_t),
    {
        if roots.discriminant.lt(Scalar { bits: 0 }) {
            return None;
        }
        let mut root = roots.near;
        if root.t.le(ray_t.min) || root.t.ge(ray_t.max) {
            root = roots.far;
            if root.t.le(ray_t.min) || root.t.ge(ray_t.max) {
                return None;
            }
        }
        Some(HitRecord::new(root.point, root.t, root.facing, root.outward_normal, self.material))
    }

    pub fn bounding_box(&self) -> (b: &AABB)
        ensures
            *b == self.bbox,
    {
        &self.bbox
    }
}

/// Anything a ray can be tested against: a sphere, a node of the hierarchy
/// with all that hangs below it, or a list of surfaces.
#[derive(Debug, PartialEq, Eq)]
pub enum Surface {
    Sphere(Sphere),
    Node(Box<BVHNode>),
    List(HittableList),
}

/// What a ray hits of each of the first `n` surfaces within `ray_t`.
pub open spec fn hits_of(
    objects: Seq<Surface>,
    n: int,
    ray_t: Interval,
    bounds: spec_fn(AABB, Interval) -> bool,
    spheres: spec_fn(Sphere, Interval) -> Option<HitRecord>,
) -> Seq<Option<HitRecord>>
    decreases objects, n,
{
    if n <= 0 || n > objects.len() {
        Seq::empty()
    } else {
        hits_of(objects, n - 1, ray_t, bounds, spheres).push(
            objects[n - 1].hit_spec(ray_t, bounds, spheres),
        )
    }
}

/// The spheres below the first `n` surfaces, from left to right.
pub open spec fn spheres_of(objects: Seq<Surface>, n: int) -> Seq<Sphere>
    decreases objects, n,
{
    if n <= 0 || n > objects.len() {
        Seq::empty()
    } else {
        spheres_of(objects, n - 1) + objects[n - 1].spheres()
    }
}

/// The number of steps that the rest of a list takes at most, from the
/// surface at `next` on: one to end, and for each surface one more than the
/// surface takes.
pub open spec fn remaining(objects: Seq<Surface>, next: int) -> nat
    decreases objects, objects.len() - next,
{
    if 0 <= next < objects.len() {
        1 + objects[next].weight() + remaining(objects, next + 1)
    } else {
        1
    }
}

/// The first `n` surfaces of the one list are the same as those of the other.
pub open spec fn same_first(one: Seq<Surface>, other: Seq<Surface>, n: int) -> bool
    decreases one, n,
{
    if n <= 0 || n > one.len() || n > other.len() {
        true
    } else {
        same_first(one, other, n - 1) && one[n - 1].same(other[n - 1])
    }
}

impl Surface {
    /// The box around the surface.
    pub open spec fn bbox(self) -> AABB {
        match self {
            Surface::Sphere(s) => s.bbox,
            Surface::Node(n) => n.bbox,
            Surface::List(l) => l.bbox,
        }
    }

    /// What a ray hits of the surface within `ray_t`: what `spheres` says of
    /// a sphere, what the hierarchy finds below a node, and of a list the
    /// closest of what the ray hits of its surfaces, each within `ray_t`.
    pub open spec fn hit_spec(
        self,
        ray_t: Interval,
        bounds: spec_fn(AABB, Interval) -> bool,
        spheres: spec_fn(Sphere, Interval) -> Option<HitRecord>,
    ) -> Option<HitRecord>
        decreases self, 0int,
    {
        match self {
            Surface::Sphere(s) => spheres(s, ray_t),
            Surface::Node(n) => n.hit_spec(ray_t, bounds, spheres),
            Surface::List(l) => closest(
                hits_of(l.objects@, l.objects@.len() as int, ray_t, bounds, spheres),
                ray_t.max,
            ),
        }
    }

    /// The spheres below the surface, from left to right.
    pub open spec fn spheres(self) -> Seq<Sphere>
        decreases self, 0int,
    {
        match self {
            Surface::Sphere(s) => seq![s],
            Surface::Node(n) => n.left.spheres() + n.right.spheres(),
            Surface::List(l) => spheres_of(l.objects@, l.objects@.len() as int),
        }
    }

    /// No list is the surface or lies below it.
    pub open spec fn list_free(self) -> bool
        decreases self,
    {
        match self {
            Surface::Sphere(_) => true,
            Surface::Node(n) => n.left.list_free() && n.right.list_free(),
            Surface::List(_) => false,
        }
    }

    /// The two surfaces are alike through and through: the same spheres,
    /// nodes with the same boxes over children that are alike, and lists
    /// with the same boxes of as many surfaces, alike one by one.
    pub open spec fn same(self, other: Surface) -> bool
        decreases self, 0int,
    {
        match self {
            Surface::Sphere(s) => other == Surface::Sphere(s),
            Surface::Node(n) => other matches Surface::Node(m) && n.bbox == m.bbox && n.left.same(
                m.left,
            ) && n.right.same(m.right),
            Surface::List(l) => other matches Surface::List(m) && l.bbox == m.bbox
                && l.objects@.len() == m.objects@.len() && same_first(
                l.objects@,
                m.objects@,
                l.objects@.len() as int,
            ),
        }
    }

    /// How many nodes a ray passes on its way to the deepest sphere of the
    /// hierarchy; a list counts as its end.
    pub open spec fn height(self) -> nat
        decreases self,
    {
        match self {
            Surface::Sphere(_) => 0,
            Surface::Node(n) => 1 + if n.left.height() >= n.right.height() {
                n.left.height()
            } else {
                n.right.height()
            },
            Surface::List(_) => 0,
        }
    }

    /// The number of steps that a search of the surface takes at most: one
    /// for a sphere, for a node one more than for its children, and for a
    /// list one to begin, one to end, and for each of its surfaces one more
    /// than the surface takes.
    pub open spec fn weight(self) -> nat
        decreases self, 0int,
    {
        match self {
            Surface::Sphere(_) => 1,
            Surface::Node(n) => 1 + n.left.weight() + n.right.weight(),
            Surface::List(l) => 1 + remaining(l.objects@, 0),
        }
    }

    /// The minimum of the surface's box on an axis: what surfaces are
    /// ordered by.
    pub open spec fn key(self, axis: int) -> Scalar {
        self.bbox().axis(axis).min
    }

    /// The minimum of the box of `self` on an axis is below that of `other`.
    pub open spec fn below(&self, other: &Surface, axis_index: usize) -> bool {
        self.key(axis_index as int).lt_spec(other.key(axis_index as int))
    }

    /// `self` comes strictly before `other` where surfaces are sorted along
    /// an axis: its minimum is below, or is a number where the other is a
    /// NaN.
    pub open spec fn precedes(&self, other: &Surface, axis_index: usize) -> bool {
        self.key(axis_index as int).sorts_before_spec(other.key(axis_index as int))
    }

    pub fn bounding_box(&self) -> (b: &AABB)
        ensures
            *b == self.bbox(),
    {
        match self {
            Surface::Sphere(s) => &s.bbox,
            Surface::Node(n) => &n.bbox,
            Surface::List(l) => &l.bbox,
        }
    }

    #[verifier::when_used_as_spec(precedes)]
    pub fn comes_before(&self, other: &Surface, axis_index: usize) -> (r: bool)
        requires
            axis_index < 3,
        ensures
            r == self.precedes(other, axis_index),
    {
        let mine = self.bounding_box().axis_interval(axis_index);
        let theirs = other.bounding_box().axis_interval(axis_index);
        mine.min.sorts_before(theirs.min)
    }

    /// A copy of the surface, with a copy of all that hangs below it.
    pub fn duplicate(&self) -> (r: Surface)
        ensures
            r.same(*self),
            self.list_free() ==> r == *self,
        decreases *self,
    {
        match self {
            Surface::Sphere(s) => Surface::Sphere(*s),
            Surface::Node(n) => {
                let left = n.left.duplicate();
                let right = n.right.duplicate();
                Surface::Node(Box::new(BVHNode { left, right, bbox: n.bbox }))
            },
            Surface::List(l) => {
                let objects = duplicate_all(&l.objects);
                Surface::List(HittableList { objects, bbox: l.bbox })
            },
        }
    }
}

/// Copies of the surfaces of a list, in their order.
fn duplicate_all(objects: &Vec<Surface>) -> (copies: Vec<Surface>)
    ensures
        copies@.len() == objects@.len(),
        same_first(copies@, objects@, objects@.len() as int),
    decreases *objects,
{
    let mut copies: Vec<Surface> = Vec::new();
    let mut i: usize = 0;
    while i < objects.len()
        invariant
            i <= objects.len(),
            copies@.len() == i,
            same_first(copies@, objects@, i as int),
        decreases objects.len() - i,
    {
        proof {
            assert(decreases_to!(*objects => objects[i as int]));
        }
        let copy = objects[i].duplicate();
        let ghost before = copies@;
        copies.push(copy);
        proof {
            lemma_same_first_grows(before, copies@, objects@, i as int);
        }
        i = i + 1;
    }
    copies
}

/// Surfaces appended to a list leave its first surfaces the same as before.
proof fn lemma_same_first_grows(
    before: Seq<Surface>,
    after: Seq<Surface>,
    other: Seq<Surface>,
    n: int,
)
    requires
        0 <= n <= before.len() <= after.len(),
        forall|k: int| 0 <= k < before.len() ==> after[k] == before[k],
        same_first(before, other, n),
    ensures
        same_first(after, other, n),
    decreases n,
{
    if n > 0 && n <= other.len() {
        lemma_same_first_grows(before, after, other, n - 1);
    }
}

/// A surface that is the same as a sphere is that sphere.
pub proof fn lemma_same_sphere(one: Surface, other: Surface)
    requires
        one.same(other),
        other is Sphere,
    ensures
        one == other,
{
}

/// The surfaces are all spheres.
pub open spec fn all_spheres(objects: Seq<Surface>) -> bool {
    forall|k: int| 0 <= k < objects.len() ==> (#[trigger] objects[k]) is Sphere
}

/// The surfaces of a scene, and the box around them all.
#[derive(Debug, PartialEq, Eq)]
pub struct HittableList {
    pub objects: Vec<Surface>,
    pub bbox: AABB,
}

/// The linear search for the closest hit, as far as the last of `hits`: the
/// least `t` so far, which begins at `limit`, and the hit that has it. A hit
/// takes the place of the one before only where its `t` is below the least
/// so far, so of two hits at one `t` the earlier stays.
pub open spec fn scan(hits: Seq<Option<HitRecord>>, limit: Scalar) -> (Scalar, Option<HitRecord>)
    decreases hits.len(),
{
    if hits.len() == 0 {
        (limit, None)
    } else {
        let before = scan(hits.drop_last(), limit);
        match hits.last() {
            Some(rec) => if rec.t.lt_spec(before.0) {
                (rec.t, Some(rec))
            } else {
                before
            },
            None => before,
        }
    }
}

/// The closest of the hits below `limit`, the first of them where several
/// are as close.
pub open spec fn closest(hits: Seq<Option<HitRecord>>, limit: Scalar) -> Option<HitRecord> {
    scan(hits, limit).1
}

/// No hit among `hits` is below `limit`.
pub open spec fn none_below(hits: Seq<Option<HitRecord>>, limit: Scalar) -> bool {
    forall|k: int|
        0 <= k < hits.len() ==> match #[trigger] hits[k] {
            Some(rec) => !rec.t.lt_spec(limit),
            None => true,
        }
}

/// `hit` is one of `hits`.
pub open spec fn reported(hits: Seq<Option<HitRecord>>, hit: HitRecord) -> bool {
    exists|k: int| 0 <= k < hits.len() && #[trigger] hits[k] == Some(hit)
}

/// No two different hits among `hits` stand at the same `t`.
pub open spec fn no_ties(hits: Seq<Option<HitRecord>>) -> bool {
    forall|j: int, k: int|
        0 <= j < hits.len() && 0 <= k < hits.len() && (#[trigger] hits[j]) is Some && (
        #[trigger] hits[k]) is Some && hits[j]->Some_0.t.same_number(hits[k]->Some_0.t)
            ==> hits[j] == hits[k]
}

/// `answer` is a closest hit among those of `hits` that are below `limit`:
/// nothing where none is, else one of them that no other is below.
pub open spec fn is_closest(
    hits: Seq<Option<HitRecord>>,
    limit: Scalar,
    answer: Option<HitRecord>,
) -> bool {
    match answer {
        None => none_below(hits, limit),
        Some(hit) => hit.t.lt_spec(limit) && reported(hits, hit) && none_below(hits, hit.t),
    }
}

/// `hit` stands at place `k` of `hits`, every hit before it is further
/// away, and no hit after it is closer.
pub open spec fn first_closest_at(hits: Seq<Option<HitRecord>>, hit: HitRecord, k: int) -> bool {
    &&& 0 <= k < hits.len() && hits[k] == Some(hit)
    &&& forall|j: int|
        0 <= j < k ==> match #[trigger] hits[j] {
            Some(rec) => !rec.t.le_spec(hit.t),
            None => true,
        }
    &&& forall|j: int|
        k <= j < hits.len() ==> match #[trigger] hits[j] {
            Some(rec) => !rec.t.lt_spec(hit.t),
            None => true,
        }
}

/// `answer` is the first of the closest hits among those of `hits` that
/// are below `limit`, or nothing where none is below `limit`.
pub open spec fn is_first_closest(
    hits: Seq<Option<HitRecord>>,
    limit: Scalar,
    answer: Option<HitRecord>,
) -> bool {
    match answer {
        None => none_below(hits, limit),
        Some(hit) => hit.t.lt_spec(limit) && exists|k: int| first_closest_at(hits, hit, k),
    }
}

impl HittableList {
    pub fn new() -> (list: HittableList)
        ensures
            list.objects@ == Seq::<Surface>::empty(),
            list.bbox == AABB::empty_spec(),
    {
        HittableList { objects: Vec::new(), bbox: AABB::empty() }
    }

    /// The list of one surface.
    pub fn from_hittable(surface: Surface) -> (list: HittableList)
        ensures
            list.objects@ == seq![surface],
            list.bbox == surface.bbox(),
    {
        let bbox = *surface.bounding_box();
        let mut objects: Vec<Surface> = Vec::new();
        objects.push(surface);
        assert(objects@ =~= seq![surface]);
        HittableList { objects, bbox }
    }

    pub fn count(&self) -> (n: usize)
        ensures
            n == self.objects@.len(),
    {
        self.objects.len()
    }

    /// Appends a surface and widens the list's box by the surface's.
    pub fn add(&mut self, object: Surface)
        ensures
            final(self).objects@ == old(self).objects@.push(object),
            final(self).bbox == AABB::union(old(self).bbox, object.bbox()),
    {
        self.bbox = AABB::from_boxes(&self.bbox, object.bounding_box());
        self.objects.push(object);
    }

    /// Empties the list. The box around no surfaces is the empty box.
    pub fn clear(&mut self)
        ensures
            final(self).objects@ == Seq::<Surface>::empty(),
            final(self).bbox == AABB::empty_spec(),
    {
        self.objects.clear();
        self.bbox = AABB::empty();
    }

    /// The closest of what a ray hits of the list's surfaces within `ray_t`.
    /// `hits` holds, for each surface of the list in turn, what the ray hits
    /// of it within `ray_t`.
    pub fn hit(&self, hits: &Vec<Option<HitRecord>>, ray_t: &Interval) -> (r: Option<HitRecord>)
        requires
            hits@.len() == self.objects@.len(),
        ensures
            r == closest(hits@, ray_t.max),
    {
        let mut rec_out: Option<HitRecord> = None;
        let mut closest_so_far = ray_t.max;
        let mut i: usize = 0;
        while i < hits.len()
            invariant
                i <= hits.len(),
                (closest_so_far, rec_out) == scan(hits@.take(i as int), ray_t.max),
            decreases hits.len() - i,
        {
            assert(hits@.take(i + 1).drop_last() =~= hits@.take(i as int));
            match hits[i] {
                Some(rec) => {
                    if rec.t.lt(closest_so_far) {
                        closest_so_far = rec.t;
                        rec_out = Some(rec);
                    }
                },
                None => {},
            }
            i = i + 1;
        }
        assert(hits@.take(i as int) =~= hits@);
        rec_out
    }

    pub fn bounding_box(&self) -> (b: &AABB)
        ensures
            *b == self.bbox,
    {
        &self.bbox
    }
}

/// Orders two surfaces by the minimum of their boxes on an axis: `Less`
/// where the minimum of the first is below that of the second, `Greater` in
/// every other case, that of equal minima and that of a NaN too.
pub fn box_compare(a: &Surface, b: &Surface, axis_index: usize) -> (r: Ordering)
    requires
        axis_index < 3,
    ensures
        r == if a.below(b, axis_index) {
            Ordering::Less
        } else {
            Ordering::Greater
        },
{
    let mine = a.bounding_box().axis_interval(axis_index);
    let theirs = b.bounding_box().axis_interval(axis_index);
    if mine.min.lt(theirs.min) {
        Ordering::Less
    } else {
        Ordering::Greater
    }
}

/// Where the root that a sphere is hit at, and the bounds of the interval,
/// are no NaNs, the hit lies strictly inside the interval.
pub proof fn lemma_sphere_hit_inside(sphere: Sphere, roots: Roots, ray_t: Interval)
    requires
        !ray_t.min.nan(),
        !ray_t.max.nan(),
        !roots.near.t.nan(),
        !roots.far.t.nan(),
    ensures
        sphere.hit_spec(roots, ray_t) matches Some(rec) ==> ray_t.surrounds_spec(rec.t),
{
}

/// A sphere is hit at the near root whenever the interval has room for it,
/// whether or not it has room for the far root too.
pub proof fn lemma_sphere_near_root_first(sphere: Sphere, roots: Roots, ray_t: Interval)
    requires
        !roots.discriminant.lt_spec(Scalar::zero()),
        ray_t.surrounds_spec(roots.near.t),
    ensures
        sphere.hit_spec(roots, ray_t) == Some(sphere.record(roots.near)),
{
}


/// The linear search ends with the least `t` it has seen, or with the limit,
/// and with a closest hit.
pub proof fn lemma_scan_finds_closest(hits: Seq<Option<HitRecord>>, limit: Scalar)
    ensures
        is_closest(hits, limit, closest(hits, limit)),
        scan(hits, limit).0 == match closest(hits, limit) {
            Some(hit) => hit.t,
            None => limit,
        },
    decreases hits.len(),
{
    if hits.len() > 0 {
        let front = hits.drop_last();
        lemma_scan_finds_closest(front, limit);
        let before = scan(front, limit);
        let after = scan(hits, limit);
        assert forall|k: int| 0 <= k < front.len() implies front[k] == hits[k] by {}
        match after.1 {
            None => {
                assert forall|k: int| 0 <= k < hits.len() implies match #[trigger] hits[k] {
                    Some(rec) => !rec.t.lt_spec(limit),
                    None => true,
                } by {
                    if k < front.len() {
                        assert(front[k] == hits[k]);
                    }
                }
            },
            Some(hit) => {
                if before.1 == Some(hit) && after == before {
                    let w = choose|w: int| 0 <= w < front.len() && #[trigger] front[w] == Some(hit);
                    assert(hits[w] == Some(hit));
                } else {
                    assert(hits[hits.len() - 1] == Some(hit));
                }
                assert forall|k: int| 0 <= k < hits.len() implies match #[trigger] hits[k] {
                    Some(rec) => !rec.t.lt_spec(hit.t),
                    None => true,
                } by {
                    if k < front.len() {
                        assert(front[k] == hits[k]);
                    }
                }
            },
        }
    }
}

/// Of two hits at one `t` the linear search keeps the earlier: every hit
/// before the one it ends with is strictly further away.
pub proof fn lemma_scan_keeps_first(hits: Seq<Option<HitRecord>>, limit: Scalar) -> (at: int)
    requires
        closest(hits, limit) is Some,
    ensures
        0 <= at < hits.len(),
        hits[at] == closest(hits, limit),
        forall|k: int|
            0 <= k < at ==> match #[trigger] hits[k] {
                Some(rec) => !rec.t.le_spec(closest(hits, limit)->Some_0.t),
                None => true,
            },
    decreases hits.len(),
{
    let front = hits.drop_last();
    let before = scan(front, limit);
    lemma_scan_finds_closest(front, limit);
    assert forall|k: int| 0 <= k < front.len() implies front[k] == hits[k] by {}
    if scan(hits, limit) == before {
        let at = lemma_scan_keeps_first(front, limit);
        assert forall|k: int| 0 <= k < at implies match #[trigger] hits[k] {
            Some(rec) => !rec.t.le_spec(closest(hits, limit)->Some_0.t),
            None => true,
        } by {
            assert(front[k] == hits[k]);
        }
        at
    } else {
        let hit = hits.last()->Some_0;
        assert forall|k: int| 0 <= k < hits.len() - 1 implies match #[trigger] hits[k] {
            Some(rec) => !rec.t.le_spec(hit.t),
            None => true,
        } by {
            assert(front[k] == hits[k]);
            match before.1 {
                Some(least) => {
                    assert(none_below(front, least.t));
                },
                None => {
                    assert(none_below(front, limit));
                },
            }
        }
        hits.len() - 1
    }
}

/// Two closest hits among the same hits are equally far: both are nothing,
/// or both stand at the same `t`. Where no two of the hits share a `t`,
/// they are the same hit.
pub proof fn lemma_closest_agree(
    hits: Seq<Option<HitRecord>>,
    limit: Scalar,
    one: Option<HitRecord>,
    other: Option<HitRecord>,
)
    requires
        is_closest(hits, limit, one),
        is_closest(hits, limit, other),
    ensures
        one is None <==> other is None,
        one is Some ==> one->Some_0.t.same_number(other->Some_0.t),
        no_ties(hits) ==> one == other,
{
    match (one, other) {
        (Some(a), Some(b)) => {
            let j = choose|j: int| 0 <= j < hits.len() && #[trigger] hits[j] == Some(a);
            let k = choose|k: int| 0 <= k < hits.len() && #[trigger] hits[k] == Some(b);
            assert(!a.t.lt_spec(b.t));
            assert(!b.t.lt_spec(a.t));
            if no_ties(hits) {
                assert(hits[j]->Some_0.t.same_number(hits[k]->Some_0.t));
                assert(hits[j] == hits[k]);
            }
        },
        (Some(a), None) => {
            let j = choose|j: int| 0 <= j < hits.len() && #[trigger] hits[j] == Some(a);
        },
        (None, Some(b)) => {
            let k = choose|k: int| 0 <= k < hits.len() && #[trigger] hits[k] == Some(b);
        },
        (None, None) => {},
    }
}

/// The linear search ends with the first of the closest hits.
pub proof fn lemma_scan_is_first_closest(hits: Seq<Option<HitRecord>>, limit: Scalar)
    ensures
        is_first_closest(hits, limit, closest(hits, limit)),
{
    lemma_scan_finds_closest(hits, limit);
    if let Some(hit) = closest(hits, limit) {
        let at = lemma_scan_keeps_first(hits, limit);
        assert(first_closest_at(hits, hit, at));
    }
}

/// There is one first of the closest hits, and no other.
pub proof fn lemma_first_closest_unique(
    hits: Seq<Option<HitRecord>>,
    limit: Scalar,
    one: Option<HitRecord>,
    other: Option<HitRecord>,
)
    requires
        is_first_closest(hits, limit, one),
        is_first_closest(hits, limit, other),
    ensures
        one == other,
{
    match (one, other) {
        (Some(a), Some(b)) => {
            let j = choose|j: int| first_closest_at(hits, a, j);
            let k = choose|k: int| first_closest_at(hits, b, k);
            if j < k {
                assert(!a.t.le_spec(b.t));
                assert(!b.t.lt_spec(a.t));
            } else if k < j {
                assert(!b.t.le_spec(a.t));
                assert(!a.t.lt_spec(b.t));
            }
        },
        (Some(a), None) => {
            let j = choose|j: int| first_closest_at(hits, a, j);
            assert(hits[j] == Some(a));
        },
        (None, Some(b)) => {
            let k = choose|k: int| first_closest_at(hits, b, k);
            assert(hits[k] == Some(b));
        },
        (None, None) => {},
    }
}

/// The first of the closest hits is a closest hit.
pub proof fn lemma_first_is_closest(
    hits: Seq<Option<HitRecord>>,
    limit: Scalar,
    answer: Option<HitRecord>,
)
    requires
        is_first_closest(hits, limit, answer),
    ensures
        is_closest(hits, limit, answer),
{
    if let Some(hit) = answer {
        let k = choose|k: int| first_closest_at(hits, hit, k);
        assert(hits[k] == Some(hit));
        assert forall|j: int| 0 <= j < hits.len() implies match #[trigger] hits[j] {
            Some(rec) => !rec.t.lt_spec(hit.t),
            None => true,
        } by {}
    }
}

} // verus!
