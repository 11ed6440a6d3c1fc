//! Axis-aligned bounding boxes and the bounding-volume hierarchy.
use crate::hittable::{all_spheres, lemma_same_sphere, HitRecord, Sphere, Surface};
use crate::scalar::Scalar;
use crate::util::Interval;
use crate::vec3::Vec3;
use vstd::prelude::*;

verus! {

/// A box in space: one interval on each of the three axes.
#[derive(Clone, Copy, Debug, PartialEq, Eq, Structural)]
pub struct AABB {
    pub x: Interval,
    pub y: Interval,
    pub z: Interval,
}

/// The two ray parameters at which a ray crosses the pair of planes that
/// bound a box along one axis: `t0` for the plane at the interval's minimum,
/// `t1` for the one at its maximum. Either may be infinite or a NaN.
#[derive(Clone, Copy, Debug, PartialEq, Eq, Structural)]
pub struct Slab {
    pub t0: Scalar,
    pub t1: Scalar,
}

/// The interval between two coordinates, whichever is the greater.
pub open spec fn between(a: Scalar, b: Scalar) -> Interval {
    if a.le_spec(b) {
        Interval { min: a, max: b }
    } else {
        Interval { min: b, max: a }
    }
}

impl Slab {
    /// What is left of the running interval once it is cut down to the part
    /// of the ray inside the slab. The lesser of `t0` and `t1` is where the
    /// ray enters and the greater where it leaves; it raises the running
    /// minimum and lowers the running maximum, and never widens the interval.
    pub open spec fn clip(self, running: Interval) -> Interval {
        let (enter, leave) = if self.t0.lt_spec(self.t1) {
            (self.t0, self.t1)
        } else {
            (self.t1, self.t0)
        };
        Interval {
            min: if running.min.lt_spec(enter) {
                enter
            } else {
                running.min
            },
            max: if leave.lt_spec(running.max) {
                leave
            } else {
                running.max
            },
        }
    }
}

impl AABB {
    /// The box whose three intervals are empty.
    pub open spec fn empty_spec() -> AABB {
        AABB { x: Interval::empty_spec(), y: Interval::empty_spec(), z: Interval::empty_spec() }
    }

    /// The box spanned by two corners, in whatever order they are given.
    pub open spec fn spanned(a: Vec3, b: Vec3) -> AABB {
        AABB { x: between(a.0, b.0), y: between(a.1, b.1), z: between(a.2, b.2) }
    }

    /// The least box around both: the union of the intervals, axis by axis.
    pub open spec fn union(a: AABB, b: AABB) -> AABB {
        AABB {
            x: Interval::union(a.x, b.x),
            y: Interval::union(a.y, b.y),
            z: Interval::union(a.z, b.z),
        }
    }

    /// The interval on axis 0, 1 or 2.
    pub open spec fn axis(self, n: int) -> Interval {
        if n == 0 {
            self.x
        } else if n == 1 {
            self.y
        } else {
            self.z
        }
    }

    /// The point lies in the box: each coordinate in the interval of its axis.
    pub open spec fn holds(self, point: Vec3) -> bool {
        self.x.contains_spec(point.0) && self.y.contains_spec(point.1) && self.z.contains_spec(
            point.2,
        )
    }

    /// No bound of the box is a NaN.
    pub open spec fn numeric(self) -> bool {
        &&& !self.x.min.nan() && !self.x.max.nan()
        &&& !self.y.min.nan() && !self.y.max.nan()
        &&& !self.z.min.nan() && !self.z.max.nan()
    }

    /// The box reaches at least as far as `other` on every axis, both ways.
    pub open spec fn encloses(self, other: AABB) -> bool {
        &&& self.x.min.le_spec(other.x.min) && other.x.max.le_spec(self.x.max)
        &&& self.y.min.le_spec(other.y.min) && other.y.max.le_spec(self.y.max)
        &&& self.z.min.le_spec(other.z.min) && other.z.max.le_spec(self.z.max)
    }

    /// The slab test from axis `axis` on, with `running` what the axes before
    /// it have left of the ray's interval: each slab cuts the interval down,
    /// and the ray misses as soon as the maximum is not above the minimum.
    pub open spec fn hit_from(slabs: Seq<Slab>, axis: int, running: Interval) -> bool
        decreases slabs.len() - axis,
    {
        if axis < 0 || axis >= slabs.len() {
            true
        } else {
            let cut = slabs[axis].clip(running);
            !cut.max.le_spec(cut.min) && Self::hit_from(slabs, axis + 1, cut)
        }
    }

    /// The slab test over all axes.
    pub open spec fn hit_spec(slabs: Seq<Slab>, ray_t: Interval) -> bool {
        Self::hit_from(slabs, 0, ray_t)
    }

    #[verifier::when_used_as_spec(empty_spec)]
    pub fn empty() -> (r: AABB)
        ensures
            r == AABB::empty_spec(),
    {
        AABB { x: Interval::empty(), y: Interval::empty(), z: Interval::empty() }
    }

    pub fn new(x: Interval, y: Interval, z: Interval) -> (r: AABB)
        ensures
            r == (AABB { x, y, z }),
    {
        AABB { x, y, z }
    }

    /// Treats the two points as extrema of the box, so that no order of
    /// minimum and maximum coordinates is asked of the caller.
    pub fn from_points(a: Vec3, b: Vec3) -> (r: AABB)
        ensures
            r == AABB::spanned(a, b),
    {
        let x = if a.0.le(b.0) {
            Interval::new(a.0, b.0)
        } else {
            Interval::new(b.0, a.0)
        };
        let y = if a.1.le(b.1) {
            Interval::new(a.1, b.1)
        } else {
            Interval::new(b.1, a.1)
        };
        let z = if a.2.le(b.2) {
            Interval::new(a.2, b.2)
        } else {
            Interval::new(b.2, a.2)
        };
        AABB { x, y, z }
    }

    pub fn from_boxes(box1: &AABB, box2: &AABB) -> (r: AABB)
        ensures
            r == AABB::union(*box1, *box2),
    {
        let x = Interval::from_intervals(&box1.x, &box2.x);
        let y = Interval::from_intervals(&box1.y, &box2.y);
        let z = Interval::from_intervals(&box1.z, &box2.z);
        AABB { x, y, z }
    }

    /// The interval of the axis asked for.
    pub fn axis_interval(&self, n: usize) -> (r: &Interval)
        requires
            n < 3,
        ensures
            *r == self.axis(n as int),
    {
        if n == 0 {
            &self.x
        } else if n == 1 {
            &self.y
        } else {
            &self.z
        }
    }

    /// The slab test. `slabs` holds, for each axis of the box, the ray
    /// parameters at which the ray crosses the two bounding planes; `ray_t`
    /// is the part of the ray that is searched. The ray hits the box where
    /// every axis leaves an interval whose maximum is above its minimum.
    pub fn hit(slabs: &[Slab; 3], ray_t: &Interval) -> (r: bool)
        ensures
            r == AABB::hit_spec(slabs@, *ray_t),
    {
        let mut min = ray_t.min;
        let mut max = ray_t.max;
        let mut axis: usize = 0;
        while axis < 3
            invariant
                axis <= 3,
                slabs@.len() == 3,
                AABB::hit_spec(slabs@, *ray_t) == AABB::hit_from(
                    slabs@,
                    axis as int,
                    Interval { min, max },
                ),
            decreases 3 - axis,
        {
            let t0 = slabs[axis].t0;
            let t1 = slabs[axis].t1;
            if t0.lt(t1) {
                if t0.gt(min) {
                    min = t0;
                }
                if t1.lt(max) {
                    max = t1;
                }
            } else {
                if t1.gt(min) {
                    min = t1;
                }
                if t0.lt(max) {
                    max = t0;
                }
            }
            if max.le(min) {
                return false;
            }
            axis = axis + 1;
        }
        true
    }
}

/// A node of the hierarchy: two children and the box around both.
#[derive(Debug, PartialEq, Eq)]
pub struct BVHNode {
    pub left: Surface,
    pub right: Surface,
    pub bbox: AABB,
}

/// The interval with its maximum lowered to where a hit was found, so that
/// only a closer hit is looked for from then on.
pub open spec fn cut_off(ray_t: Interval, hit: Option<HitRecord>) -> Interval {
    Interval {
        min: ray_t.min,
        max: match hit {
            Some(rec) => rec.t,
            None => ray_t.max,
        },
    }
}

/// The surfaces from `from` up to `to` stand in order along the axis.
pub open spec fn sorted_on(objects: Seq<Surface>, from: int, to: int, axis: int) -> bool {
    forall|i: int, j: int|
        from <= i <= j < to ==> objects[i].key(axis).total_rank() <= objects[j].key(
            axis,
        ).total_rank()
}

/// No surface before `mid` comes after one from `mid` on, along the axis.
pub open spec fn split_on(objects: Seq<Surface>, mid: int, axis: int) -> bool {
    forall|i: int, j: int|
        0 <= i < mid <= j < objects.len() ==> objects[i].key(axis).total_rank() <= objects[j].key(
            axis,
        ).total_rank()
}

/// `after` is `before` with the surfaces from `start` up to `end` in another
/// order: the same surfaces as often, and all others where they were.
pub open spec fn rearranged(before: Seq<Surface>, after: Seq<Surface>, start: int, end: int) -> bool {
    &&& after.len() == before.len()
    &&& forall|k: int| 0 <= k < before.len() && !(start <= k < end) ==> after[k] == before[k]
    &&& after.subrange(start, end).to_multiset() == before.subrange(start, end).to_multiset()
}

/// Whether a surface stands at a given place in the order along an axis.
pub open spec fn of_rank(axis: int, rank: int) -> spec_fn(Surface) -> bool {
    |surface: Surface| surface.key(axis).total_rank() == rank
}

/// The surfaces of `objects` that stand at one place in the order along an
/// axis, in the order in which `objects` has them.
pub open spec fn with_rank(objects: Seq<Surface>, axis: int, rank: int) -> Seq<Surface> {
    objects.filter(of_rank(axis, rank))
}

/// Between `before` and `after`, the surfaces from `start` up to `end` that
/// stand at one place in the order along the axis have kept their order
/// among themselves.
pub open spec fn stable(
    before: Seq<Surface>,
    after: Seq<Surface>,
    start: int,
    end: int,
    axis: int,
) -> bool {
    forall|rank: int| #[trigger]
        with_rank(after.subrange(start, end), axis, rank) == with_rank(
            before.subrange(start, end),
            axis,
            rank,
        )
}

/// Nothing is left of a list of which no surface stands at the place.
proof fn lemma_none_of_rank(objects: Seq<Surface>, axis: int, rank: int)
    requires
        forall|k: int| 0 <= k < objects.len() ==> objects[k].key(axis).total_rank() != rank,
    ensures
        with_rank(objects, axis, rank) == Seq::<Surface>::empty(),
    decreases objects.len(),
{
    reveal(Seq::filter);
    if objects.len() > 0 {
        lemma_none_of_rank(objects.drop_last(), axis, rank);
    }
}

/// A rearrangement of part of a range is one of the whole range.
proof fn lemma_rearranged_widen(
    before: Seq<Surface>,
    after: Seq<Surface>,
    start: int,
    end: int,
    from: int,
    to: int,
)
    requires
        0 <= start <= from <= to <= end <= before.len(),
        rearranged(before, after, from, to),
    ensures
        rearranged(before, after, start, end),
{
    broadcast use vstd::seq_lib::lemma_multiset_commutative;

    let b = before.subrange(start, end);
    let a = after.subrange(start, end);
    let b0 = before.subrange(start, from);
    let b1 = before.subrange(from, to);
    let b2 = before.subrange(to, end);
    let a0 = after.subrange(start, from);
    let a1 = after.subrange(from, to);
    let a2 = after.subrange(to, end);
    assert(a0 =~= b0);
    assert(a2 =~= b2);
    assert(b =~= (b0 + b1) + b2);
    assert(a =~= (a0 + a1) + a2);
    assert(((b0 + b1) + b2).to_multiset() =~= ((a0 + a1) + a2).to_multiset());
}

/// Two rearrangements of one range, one after the other, are one.
proof fn lemma_rearranged_twice(
    first: Seq<Surface>,
    second: Seq<Surface>,
    third: Seq<Surface>,
    start: int,
    end: int,
)
    requires
        rearranged(first, second, start, end),
        rearranged(second, third, start, end),
    ensures
        rearranged(first, third, start, end),
{
}

/// Every surface of a rearranged range stood somewhere in that range before.
proof fn lemma_rearranged_origin(
    before: Seq<Surface>,
    after: Seq<Surface>,
    start: int,
    end: int,
    i: int,
) -> (k: int)
    requires
        0 <= start <= i < end <= before.len(),
        rearranged(before, after, start, end),
    ensures
        start <= k < end,
        before[k] == after[i],
{
    broadcast use vstd::seq_lib::to_multiset_contains;

    let a = after.subrange(start, end);
    let b = before.subrange(start, end);
    assert(a[i - start] == after[i]);
    assert(a.contains(after[i]));
    assert(a.to_multiset().count(after[i]) > 0);
    assert(b.to_multiset().count(after[i]) > 0);
    assert(b.contains(after[i]));
    let w = choose|w: int| 0 <= w < b.len() && b[w] == after[i];
    w + start
}

/// Taking the surface at `i` out and putting it back at `j`, before all the
/// surfaces that come after it, rearranges the range and leaves one more
/// surface in order.
proof fn lemma_insertion_step(u: Seq<Surface>, start: int, end: int, i: int, j: int, axis: int)
    requires
        0 <= start <= j <= i < end <= u.len(),
        sorted_on(u, start, i, axis),
        forall|k: int|
            j <= k < i ==> u[i].key(axis).total_rank() < (#[trigger] u[k]).key(axis).total_rank(),
        j == start || u[j - 1].key(axis).total_rank() <= u[i].key(axis).total_rank(),
    ensures
        rearranged(u, u.remove(i).insert(j, u[i]), start, end),
        sorted_on(u.remove(i).insert(j, u[i]), start, i + 1, axis),
        stable(u, u.remove(i).insert(j, u[i]), start, end, axis),
{
    broadcast use
        vstd::seq_lib::to_multiset_remove,
        vstd::seq_lib::to_multiset_insert,
        vstd::seq_lib::to_multiset_contains,
    ;

    let r = u.remove(i).insert(j, u[i]);
    let moved = u[i];
    assert forall|k: int| 0 <= k < u.len() implies #[trigger] r[k] == (if k < j {
        u[k]
    } else if k == j {
        moved
    } else if k <= i {
        u[k - 1]
    } else {
        u[k]
    }) by {}
    let us = u.subrange(start, end);
    let rs = r.subrange(start, end);
    assert(rs =~= us.remove(i - start).insert(j - start, moved));
    assert(us[i - start] == moved);
    assert(us.contains(moved));
    assert(us.remove(i - start).to_multiset() == us.to_multiset().remove(moved));
    assert(rs.to_multiset() == us.to_multiset().remove(moved).insert(moved));
    assert(us.to_multiset().count(moved) > 0);
    assert(rs.to_multiset() =~= us.to_multiset());
    assert forall|a: int, b: int| start <= a <= b < i + 1 implies r[a].key(axis).total_rank()
        <= r[b].key(axis).total_rank() by {
        if a < j && b == j {
            assert(u[a].key(axis).total_rank() <= u[j - 1].key(axis).total_rank());
        }
    }
    assert forall|rank: int| #[trigger]
        with_rank(rs, axis, rank) == with_rank(us, axis, rank) by {
        lemma_move_keeps_ranks(us, i - start, j - start, axis, rank);
    }
}

/// Moving a surface forward past surfaces that all come after it leaves
/// the surfaces of every place in the order they had.
proof fn lemma_move_keeps_ranks(us: Seq<Surface>, i: int, j: int, axis: int, rank: int)
    requires
        0 <= j <= i < us.len(),
        forall|k: int|
            j <= k < i ==> us[i].key(axis).total_rank() < (#[trigger] us[k]).key(axis).total_rank(),
    ensures
        with_rank(us.remove(i).insert(j, us[i]), axis, rank) == with_rank(us, axis, rank),
{
    broadcast use Seq::filter_distributes_over_add;

    let moved = us[i];
    let alone = seq![moved];
    let front = us.subrange(0, j);
    let passed = us.subrange(j, i);
    let back = us.subrange(i + 1, us.len() as int);
    let pred = of_rank(axis, rank);
    assert(us =~= ((front + passed) + alone) + back);
    assert(us.remove(i).insert(j, moved) =~= ((front + alone) + passed) + back);
    if moved.key(axis).total_rank() == rank {
        assert forall|k: int| 0 <= k < passed.len() implies passed[k].key(axis).total_rank()
            != rank by {
            assert(passed[k] == us[j + k]);
        }
        lemma_none_of_rank(passed, axis, rank);
        assert((front + alone).filter(pred) + passed.filter(pred) =~= (front + passed).filter(
            pred,
        ) + alone.filter(pred));
    } else {
        lemma_none_of_rank(alone, axis, rank);
        assert((front + alone).filter(pred) + passed.filter(pred) =~= (front + passed).filter(
            pred,
        ) + alone.filter(pred));
    }
}

/// `rand::random_range` on the range below `bound`. The crate draws a
/// uniform sample from the thread's generator; all that is claimed here is
/// that the sample lies in the range. An empty range would panic there.
#[verifier::external_body]
fn random_below(bound: usize) -> (r: usize)
    requires
        bound > 0,
    ensures
        r < bound,
{
    rand::random_range(..bound)
}

/// Sorts the surfaces from `start` up to `end` along an axis, by the minimum
/// of their boxes, and leaves the others where they are. Surfaces that stand
/// at the same place in the order keep their order among themselves.
pub fn sort_range(objects: &mut Vec<Surface>, start: usize, end: usize, axis_index: usize)
    requires
        start <= end <= old(objects).len(),
        axis_index < 3,
    ensures
        rearranged(old(objects)@, final(objects)@, start as int, end as int),
        sorted_on(final(objects)@, start as int, end as int, axis_index as int),
        stable(old(objects)@, final(objects)@, start as int, end as int, axis_index as int),
{
    let ghost before = objects@;
    let ghost axis = axis_index as int;
    let mut i: usize = start;
    while i < end
        invariant
            start <= i <= end <= objects.len(),
            axis_index < 3,
            axis == axis_index as int,
            rearranged(before, objects@, start as int, end as int),
            sorted_on(objects@, start as int, i as int, axis),
            stable(before, objects@, start as int, end as int, axis),
        decreases end - i,
    {
        let mut j: usize = i;
        let mut placed = false;
        while !placed
            invariant
                start <= j <= i < end <= objects.len(),
                axis_index < 3,
                axis == axis_index as int,
                forall|k: int|
                    j <= k < i ==> objects@[i as int].key(axis).total_rank() < (
                    #[trigger] objects@[k]).key(axis).total_rank(),
                placed ==> j == start || objects@[j - 1].key(axis).total_rank() <= objects@[i as int].key(
                    axis,
                ).total_rank(),
            decreases
                    (if placed {
                        0int
                    } else {
                        1 + j - start
                    }),
        {
            if j == start {
                placed = true;
            } else if objects[i].comes_before(&objects[j - 1], axis_index) {
                j = j - 1;
            } else {
                placed = true;
            }
        }
        let ghost unsorted = objects@;
        if j < i {
            let moved = objects.remove(i);
            objects.insert(j, moved);
        }
        proof {
            assert(objects@ =~= unsorted.remove(i as int).insert(j as int, unsorted[i as int]));
            lemma_insertion_step(unsorted, start as int, end as int, i as int, j as int, axis);
            lemma_rearranged_twice(before, unsorted, objects@, start as int, end as int);
            assert forall|rank: int| #[trigger]
                with_rank(objects@.subrange(start as int, end as int), axis, rank) == with_rank(
                    before.subrange(start as int, end as int),
                    axis,
                    rank,
                ) by {
                assert(with_rank(unsorted.subrange(start as int, end as int), axis, rank)
                    == with_rank(before.subrange(start as int, end as int), axis, rank));
            }
        }
        i = i + 1;
    }
}

impl BVHNode {
    /// The node is what building over `objects` gives. Its box is the union
    /// of its children's. Over one surface both children are copies of that
    /// surface, the same as it through and through; over two, the left child
    /// is a copy of the first and the right child one of the second;
    /// over more, the children are nodes built over the first half and over
    /// the rest, and along one of the three axes no surface of the first half
    /// comes after one of the rest. The half is the length over two, rounded down.
    pub open spec fn built_over(self, objects: Seq<Surface>) -> bool
        decreases objects.len(),
    {
        &&& self.bbox == AABB::union(self.left.bbox(), self.right.bbox())
        &&& if objects.len() <= 1 {
            objects.len() == 1 && self.left.same(objects[0]) && self.right.same(objects[0])
        } else if objects.len() == 2 {
            self.left.same(objects[0]) && self.right.same(objects[1])
        } else {
            let mid = (objects.len() / 2) as int;
            &&& self.left matches Surface::Node(l) && l.built_over(objects.subrange(0, mid))
            &&& self.right matches Surface::Node(r) && r.built_over(
                objects.subrange(mid, objects.len() as int),
            )
            &&& exists|axis: int| 0 <= axis < 3 && #[trigger] split_on(objects, mid, axis)
        }
    }

    /// What a ray hits below this node within `ray_t`, where `bounds` says
    /// which boxes the ray passes through within an interval and `spheres`
    /// what it hits of a sphere within an interval. Nothing, where the ray
    /// misses the node's box. Else the left child is searched within `ray_t`
    /// and the right child within `ray_t` cut off at the left child's hit;
    /// the hit below the right child is the answer if there is one, that
    /// below the left child if not.
    pub open spec fn hit_spec(
        self,
        ray_t: Interval,
        bounds: spec_fn(AABB, Interval) -> bool,
        spheres: spec_fn(Sphere, Interval) -> Option<HitRecord>,
    ) -> Option<HitRecord>
        decreases self, 0int,
    {
        if !bounds(self.bbox, ray_t) {
            None
        } else {
            let left_hit = self.left.hit_spec(ray_t, bounds, spheres);
            let right_hit = self.right.hit_spec(cut_off(ray_t, left_hit), bounds, spheres);
            match right_hit {
                Some(hit) => Some(hit),
                None => left_hit,
            }
        }
    }

    /// Builds the hierarchy over the surfaces from `start` up to `end`,
    /// splitting along an axis drawn at random at every node. The surfaces of
    /// the range are reordered as the splits ask; the node is built over the
    /// range as it stands afterwards.
    pub fn new(objects: &mut Vec<Surface>, start: usize, end: usize) -> (node: BVHNode)
        requires
            start < end <= old(objects).len(),
        ensures
            rearranged(old(objects)@, final(objects)@, start as int, end as int),
            node.built_over(final(objects)@.subrange(start as int, end as int)),
            end - start <= 2 ==> final(objects)@ == old(objects)@,
        decreases end - start, 1int,
    {
        let axis_index = random_below(3);
        BVHNode::new_on_axis(objects, start, end, axis_index)
    }

    /// Builds the hierarchy over the surfaces from `start` up to `end`,
    /// splitting along the given axis at this node and along axes drawn at
    /// random below it. A range of more than two surfaces is sorted along the
    /// axis and cut in the middle.
    pub fn new_on_axis(objects: &mut Vec<Surface>, start: usize, end: usize, axis_index: usize) -> (node:
        BVHNode)
        requires
            start < end <= old(objects).len(),
            axis_index < 3,
        ensures
            rearranged(old(objects)@, final(objects)@, start as int, end as int),
            node.built_over(final(objects)@.subrange(start as int, end as int)),
            end - start <= 2 ==> final(objects)@ == old(objects)@,
            end - start > 2 ==> split_on(
                final(objects)@.subrange(start as int, end as int),
                ((end - start) / 2) as int,
                axis_index as int,
            ),
        decreases end - start, 0int,
    {
        let span = end - start;
        let ghost before = objects@;
        let left: Surface;
        let right: Surface;
        if span == 1 {
            left = objects[start].duplicate();
            right = objects[start].duplicate();
        } else if span == 2 {
            left = objects[start].duplicate();
            right = objects[start + 1].duplicate();
        } else {
            sort_range(objects, start, end, axis_index);
            let ghost sorted = objects@;
            let mid = start + span / 2;
            let lower = BVHNode::new(objects, start, mid);
            let ghost halfway = objects@;
            let upper = BVHNode::new(objects, mid, end);
            proof {
                let s = start as int;
                let m = mid as int;
                let e = end as int;
                let axis = axis_index as int;
                lemma_rearranged_widen(sorted, halfway, s, e, s, m);
                lemma_rearranged_widen(halfway, objects@, s, e, m, e);
                lemma_rearranged_twice(before, sorted, halfway, s, e);
                lemma_rearranged_twice(before, halfway, objects@, s, e);
                let range = objects@.subrange(s, e);
                assert(range.subrange(0, m - s) =~= halfway.subrange(s, m));
                assert(range.subrange(m - s, range.len() as int) =~= objects@.subrange(m, e));
                assert((range.len() / 2) as int == m - s);
                assert forall|i: int, j: int| 0 <= i < m - s <= j < range.len() implies range[i].key(
                    axis,
                ).total_rank() <= range[j].key(axis).total_rank() by {
                    let a = lemma_rearranged_origin(sorted, halfway, s, m, i + s);
                    let b = lemma_rearranged_origin(halfway, objects@, m, e, j + s);
                    assert(range[i] == sorted[a]);
                    assert(range[j] == sorted[b]);
                }
                assert(split_on(range, m - s, axis));
            }
            left = Surface::Node(Box::new(lower));
            right = Surface::Node(Box::new(upper));
        }
        let bbox = AABB::from_boxes(left.bounding_box(), right.bounding_box());
        proof {
            let range = objects@.subrange(start as int, end as int);
            if span <= 2 {
                assert(objects@ == before);
                assert(range[0] == objects@[start as int]);
                if span == 2 {
                    assert(range[1] == objects@[start + 1]);
                }
            }
        }
        BVHNode { left, right, bbox }
    }
}

/// The box spanned by two corners has no interval with its minimum above
/// its maximum, and spans the same numbers whichever corner comes first,
/// where no coordinate is a NaN.
pub proof fn lemma_spanned_order_free(a: Vec3, b: Vec3)
    requires
        !a.0.nan() && !a.1.nan() && !a.2.nan(),
        !b.0.nan() && !b.1.nan() && !b.2.nan(),
    ensures
        AABB::spanned(a, b).x.min.le_spec(AABB::spanned(a, b).x.max),
        AABB::spanned(a, b).y.min.le_spec(AABB::spanned(a, b).y.max),
        AABB::spanned(a, b).z.min.le_spec(AABB::spanned(a, b).z.max),
        forall|n: int|
            0 <= n < 3 ==> AABB::spanned(a, b).axis(n).min.same_number(
                #[trigger] AABB::spanned(b, a).axis(n).min,
            ) && AABB::spanned(a, b).axis(n).max.same_number(AABB::spanned(b, a).axis(n).max),
{
}

/// The empty box is a left unit of the union of boxes.
pub proof fn lemma_union_empty_box(b: AABB)
    ensures
        AABB::union(AABB::empty_spec(), b) == b,
{
}

/// A slab only ever narrows the interval that is searched.
pub proof fn lemma_clip_narrows(slab: Slab, running: Interval)
    requires
        !running.min.nan(),
        !running.max.nan(),
    ensures
        running.min.le_spec(slab.clip(running).min),
        slab.clip(running).max.le_spec(running.max),
{
}

/// A ray hits a box only within the interval that was searched: no slab test
/// succeeds on an interval that is empty or a single point to begin with.
pub proof fn lemma_no_hit_in_empty(slabs: Seq<Slab>, ray_t: Interval)
    requires
        slabs.len() == 3,
        ray_t.max.le_spec(ray_t.min),
    ensures
        !AABB::hit_spec(slabs, ray_t),
{
    let cut = slabs[0].clip(ray_t);
    assert(cut.max.le_spec(cut.min));
}

/// Two to the power of `n`.
pub open spec fn two_to(n: nat) -> nat
    decreases n,
{
    if n == 0 {
        1
    } else {
        2 * two_to((n - 1) as nat)
    }
}

/// The hierarchy is as shallow as halving allows. A node built over one or
/// two spheres has them as its children; one built over more lies so few
/// nodes above its deepest sphere that two to the power of one less than
/// that number is below the number of spheres.
pub proof fn lemma_built_height(node: BVHNode, objects: Seq<Surface>)
    requires
        node.built_over(objects),
        all_spheres(objects),
    ensures
        Surface::Node(Box::new(node)).height() >= 1,
        objects.len() <= 2 ==> Surface::Node(Box::new(node)).height() == 1,
        objects.len() >= 2 ==> two_to((Surface::Node(Box::new(node)).height() - 1) as nat)
            <= objects.len() - 1,
    decreases objects.len(),
{
    if objects.len() <= 2 {
        assert(objects[0] is Sphere);
        if objects.len() == 2 {
            assert(objects[1] is Sphere);
        }
        lemma_same_sphere(node.left, objects[0]);
        lemma_same_sphere(node.right, objects[objects.len() - 1]);
        assert(node.left.height() == 0);
        assert(node.right.height() == 0);
        assert(Surface::Node(Box::new(node)).height() == 1);
        assert(two_to(0) == 1);
    } else {
        let mid = (objects.len() / 2) as int;
        let front = objects.subrange(0, mid);
        let back = objects.subrange(mid, objects.len() as int);
        let l = node.left->Node_0;
        let r = node.right->Node_0;
        assert(all_spheres(front)) by {
            assert forall|k: int| 0 <= k < front.len() implies (#[trigger] front[k]) is Sphere by {
                assert(objects[k] is Sphere);
            }
        }
        assert(all_spheres(back)) by {
            assert forall|k: int| 0 <= k < back.len() implies (#[trigger] back[k]) is Sphere by {
                assert(objects[mid + k] is Sphere);
            }
        }
        lemma_built_height(*l, front);
        lemma_built_height(*r, back);
        assert(node.left == Surface::Node(Box::new(*l)));
        assert(node.right == Surface::Node(Box::new(*r)));
        let hl = node.left.height();
        let hr = node.right.height();
        assert(two_to(0) == 1);
        assert(2 * two_to((hl - 1) as nat) <= objects.len() - 1);
        assert(2 * two_to((hr - 1) as nat) <= objects.len() - 1);
        let h = Surface::Node(Box::new(node)).height();
        assert(h - 1 == if hl >= hr {
            hl
        } else {
            hr
        });
        assert(two_to((h - 1) as nat) == 2 * two_to((h - 2) as nat));
    }
}

/// A ray that hits a box within an interval hits it within any longer
/// one: lengthening the interval at its far end loses no box.
pub proof fn lemma_hit_in_longer(slabs: Seq<Slab>, ray_t: Interval, max: Scalar)
    requires
        max.le_spec(ray_t.max),
        AABB::hit_spec(slabs, Interval { min: ray_t.min, max }),
    ensures
        AABB::hit_spec(slabs, ray_t),
{
    lemma_hit_from_longer(slabs, 0, Interval { min: ray_t.min, max }, ray_t);
}

proof fn lemma_hit_from_longer(slabs: Seq<Slab>, axis: int, short: Interval, long: Interval)
    requires
        0 <= axis,
        short.min == long.min,
        short.max.le_spec(long.max),
        AABB::hit_from(slabs, axis, short),
    ensures
        AABB::hit_from(slabs, axis, long),
    decreases slabs.len() - axis,
{
    if axis < slabs.len() {
        lemma_hit_from_longer(slabs, axis + 1, slabs[axis].clip(short), slabs[axis].clip(long));
    }
}

/// The union of two boxes holds every point that either holds, where no
/// bound of either is a NaN.
pub proof fn lemma_union_encloses(a: AABB, b: AABB, point: Vec3)
    requires
        forall|n: int| 0 <= n < 3 ==> !(#[trigger] a.axis(n)).min.nan() && !a.axis(n).max.nan(),
        forall|n: int| 0 <= n < 3 ==> !(#[trigger] b.axis(n)).min.nan() && !b.axis(n).max.nan(),
        a.holds(point) || b.holds(point),
    ensures
        AABB::union(a, b).holds(point),
{
    assert(!a.axis(0).min.nan() && !a.axis(1).min.nan() && !a.axis(2).min.nan());
    assert(!b.axis(0).min.nan() && !b.axis(1).min.nan() && !b.axis(2).min.nan());
}

/// Every node below the surface has the union of its children's boxes as
/// its box, and no sphere or list below it has a NaN for a bound.
pub open spec fn well_boxed(surface: Surface) -> bool
    decreases surface,
{
    match surface {
        Surface::Sphere(s) => s.bbox.numeric(),
        Surface::Node(n) => {
            &&& n.bbox == AABB::union(n.left.bbox(), n.right.bbox())
            &&& well_boxed(n.left)
            &&& well_boxed(n.right)
        },
        Surface::List(l) => l.bbox.numeric(),
    }
}

/// The box of a surface without lists encloses the box of every sphere
/// below it.
pub proof fn lemma_boxes_enclose(surface: Surface, k: int)
    requires
        well_boxed(surface),
        surface.list_free(),
        0 <= k < surface.spheres().len(),
    ensures
        surface.bbox().numeric(),
        surface.bbox().encloses(surface.spheres()[k].bbox),
    decreases surface,
{
    match surface {
        Surface::List(_) => {},
        Surface::Sphere(s) => {},
        Surface::Node(n) => {
            let lefts = n.left.spheres();
            lemma_boxes_numeric(n.left);
            lemma_boxes_numeric(n.right);
            if k < lefts.len() {
                lemma_boxes_enclose(n.left, k);
            } else {
                lemma_boxes_enclose(n.right, k - lefts.len());
            }
        },
    }
}

proof fn lemma_boxes_numeric(surface: Surface)
    requires
        well_boxed(surface),
    ensures
        surface.bbox().numeric(),
    decreases surface,
{
    match surface {
        Surface::List(_) => {},
        Surface::Sphere(s) => {},
        Surface::Node(n) => {
            lemma_boxes_numeric(n.left);
            lemma_boxes_numeric(n.right);
        },
    }
}

/// A hierarchy built over spheres whose boxes have no NaN for a bound has
/// at every node the union of the boxes below it.
pub proof fn lemma_built_well_boxed(node: BVHNode, objects: Seq<Surface>)
    requires
        node.built_over(objects),
        all_spheres(objects),
        forall|k: int| 0 <= k < objects.len() ==> (#[trigger] objects[k]).bbox().numeric(),
    ensures
        well_boxed(Surface::Node(Box::new(node))),
    decreases objects.len(),
{
    if objects.len() <= 2 {
        assert(objects[0] is Sphere && objects[0].bbox().numeric());
        if objects.len() == 2 {
            assert(objects[1] is Sphere && objects[1].bbox().numeric());
        }
        lemma_same_sphere(node.left, objects[0]);
        lemma_same_sphere(node.right, objects[objects.len() - 1]);
        assert(well_boxed(node.left));
        assert(well_boxed(node.right));
    } else {
        let mid = (objects.len() / 2) as int;
        let front = objects.subrange(0, mid);
        let back = objects.subrange(mid, objects.len() as int);
        let l = node.left->Node_0;
        let r = node.right->Node_0;
        assert(all_spheres(front)) by {
            assert forall|k: int| 0 <= k < front.len() implies (#[trigger] front[k]) is Sphere by {
                assert(objects[k] is Sphere);
            }
        }
        assert(all_spheres(back)) by {
            assert forall|k: int| 0 <= k < back.len() implies (#[trigger] back[k]) is Sphere by {
                assert(objects[mid + k] is Sphere);
            }
        }
        assert forall|k: int| 0 <= k < front.len() implies (#[trigger] front[k]).bbox().numeric() by {
            assert(objects[k].bbox().numeric());
        }
        assert forall|k: int| 0 <= k < back.len() implies (#[trigger] back[k]).bbox().numeric() by {
            assert(objects[mid + k].bbox().numeric());
        }
        lemma_built_well_boxed(*l, front);
        lemma_built_well_boxed(*r, back);
        assert(node.left == Surface::Node(Box::new(*l)));
        assert(node.right == Surface::Node(Box::new(*r)));
    }
}

/// No list lies below a node that was built over spheres.
pub proof fn lemma_built_list_free(node: BVHNode, objects: Seq<Surface>)
    requires
        node.built_over(objects),
        all_spheres(objects),
    ensures
        Surface::Node(Box::new(node)).list_free(),
    decreases objects.len(),
{
    if objects.len() <= 2 {
        assert(objects[0] is Sphere);
        if objects.len() == 2 {
            assert(objects[1] is Sphere);
        }
        lemma_same_sphere(node.left, objects[0]);
        lemma_same_sphere(node.right, objects[objects.len() - 1]);
        assert(node.left.list_free());
        assert(node.right.list_free());
    } else {
        let mid = (objects.len() / 2) as int;
        let front = objects.subrange(0, mid);
        let back = objects.subrange(mid, objects.len() as int);
        let l = node.left->Node_0;
        let r = node.right->Node_0;
        assert(all_spheres(front)) by {
            assert forall|k: int| 0 <= k < front.len() implies (#[trigger] front[k]) is Sphere by {
                assert(objects[k] is Sphere);
            }
        }
        assert(all_spheres(back)) by {
            assert forall|k: int| 0 <= k < back.len() implies (#[trigger] back[k]) is Sphere by {
                assert(objects[mid + k] is Sphere);
            }
        }
        lemma_built_list_free(*l, front);
        lemma_built_list_free(*r, back);
        assert(node.left == Surface::Node(Box::new(*l)));
        assert(node.right == Surface::Node(Box::new(*r)));
        assert(node.left.list_free());
        assert(node.right.list_free());
    }
}

} // verus!
