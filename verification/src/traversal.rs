//! The search of a surface for what a ray hits, one test at a time.
//!
//! Whether a ray passes through a box, and where it meets a sphere, takes
//! arithmetic that is the caller's. So the search is a machine: it names the
//! next test, the caller makes it and hands back the outcome, and the machine
//! decides what to test after that, until it names the hit. Below a node the
//! machine descends as the hierarchy asks, left before right and the interval
//! cut off at every hit; through a list it goes surface by surface, each
//! within the interval that the list was met with, and keeps the closest.
use crate::bvh::{cut_off, AABB, BVHNode};
use crate::hittable::{
    all_spheres, closest, first_closest_at, hits_of, is_closest, is_first_closest,
    lemma_closest_agree, lemma_first_closest_unique, lemma_first_is_closest, lemma_same_sphere,
    lemma_scan_finds_closest, lemma_scan_is_first_closest, no_ties, none_below, remaining, scan,
    spheres_of, HitRecord, HittableList, Roots, Sphere, Surface,
};
use crate::scalar::Scalar;
use crate::util::Interval;
use vstd::prelude::*;

verus! {

/// What a search asks of its caller next.
#[derive(Clone, Copy, Debug, PartialEq, Eq, Structural)]
pub enum Probe {
    /// Does the ray pass through this box within this interval?
    Bounds { bbox: AABB, ray_t: Interval },
    /// What does the ray hit of this sphere within this interval?
    Sphere { sphere: Sphere, ray_t: Interval },
    /// Nothing more: the search has ended with this hit, or with none.
    Done { hit: Option<HitRecord> },
}

/// A list that is being gone through: its surfaces and the place of the
/// next of them; the interval that each is searched within; the hit that
/// the search had when it met the list; and the least `t` among the hits
/// of the surfaces gone through, which begins at the interval's maximum,
/// with the hit that has it.
pub struct Scan {
    pub objects: Seq<Surface>,
    pub next: int,
    pub within: Interval,
    pub outer_found: Option<HitRecord>,
    pub closest: Scalar,
    pub out: Option<HitRecord>,
}

/// What waits to be taken up by a search.
pub enum Item {
    /// A surface to be searched.
    Visit(Surface),
    /// A list that is gone through, under the surface of it that is searched.
    Scan(Scan),
}

/// The state of a search: what is still to be taken up, the last first;
/// the interval that is searched, its maximum lowered to the latest hit;
/// and that hit.
pub struct Walk {
    pub pending: Seq<Item>,
    pub ray_t: Interval,
    pub found: Option<HitRecord>,
}

impl Item {
    /// The number of steps that the item takes at most.
    pub open spec fn weight(self) -> nat {
        match self {
            Item::Visit(surface) => surface.weight(),
            Item::Scan(scan) => remaining(scan.objects, scan.next),
        }
    }

    /// The machine takes the item up by itself, without a test.
    pub open spec fn inner(self) -> bool {
        match self {
            Item::Visit(surface) => surface is List,
            Item::Scan(_) => true,
        }
    }
}

/// The work left in what is pending.
pub open spec fn work(pending: Seq<Item>) -> nat
    decreases pending.len(),
{
    if pending.len() == 0 {
        0
    } else {
        pending.last().weight() + work(pending.drop_last())
    }
}

impl Scan {
    /// The list with the hit of the surface that was searched last taken
    /// in: it takes the place of the hit kept so far where its `t` is below
    /// the least so far.
    pub open spec fn taking(self, found: Option<HitRecord>) -> Scan {
        match found {
            Some(rec) => if rec.t.lt_spec(self.closest) {
                Scan { closest: rec.t, out: Some(rec), ..self }
            } else {
                self
            },
            None => self,
        }
    }

    /// A surface of the list is still to be searched.
    pub open spec fn more(self) -> bool {
        0 <= self.next < self.objects.len()
    }
}

impl Walk {
    /// The search of one surface, before any test.
    pub open spec fn start(root: Surface, ray_t: Interval) -> Walk {
        Walk { pending: seq![Item::Visit(root)], ray_t, found: None }
    }

    /// The machine has a step to take by itself: a list is met, or a
    /// surface of a list has been searched.
    pub open spec fn inner(self) -> bool {
        self.pending.len() > 0 && self.pending.last().inner()
    }

    /// The search after the step that the machine takes by itself. A list
    /// that is met is gone through from its first surface, within the
    /// interval as it stands, and the hit so far is put aside. In a list
    /// that is gone through, the hit of the surface searched last is taken
    /// in; then the next surface is searched, within the interval that the
    /// list was met with and with no hit so far; or, after the last, the
    /// closest hit of the list is to the search what the hit of a sphere is:
    /// the latest hit, which cuts the interval off.
    pub open spec fn step(self) -> Walk {
        if self.pending.len() == 0 {
            self
        } else {
            let rest = self.pending.drop_last();
            match self.pending.last() {
                Item::Visit(Surface::List(list)) => Walk {
                    pending: rest.push(
                        Item::Scan(
                            Scan {
                                objects: list.objects@,
                                next: 0,
                                within: self.ray_t,
                                outer_found: self.found,
                                closest: self.ray_t.max,
                                out: None,
                            },
                        ),
                    ),
                    ray_t: self.ray_t,
                    found: None,
                },
                Item::Scan(scan) => {
                    let taken = scan.taking(self.found);
                    if scan.more() {
                        Walk {
                            pending: rest.push(
                                Item::Scan(Scan { next: scan.next + 1, ..taken }),
                            ).push(Item::Visit(scan.objects[scan.next])),
                            ray_t: scan.within,
                            found: None,
                        }
                    } else {
                        Walk {
                            pending: rest,
                            ray_t: cut_off(scan.within, taken.out),
                            found: match taken.out {
                                Some(rec) => Some(rec),
                                None => scan.outer_found,
                            },
                        }
                    }
                },
                _ => self,
            }
        }
    }

    /// The search once the machine has taken every step that it takes by
    /// itself: it has ended, or it waits for a test.
    pub open spec fn settled(self) -> Walk
        decreases work(self.pending),
    {
        if self.inner() {
            proof {
                lemma_step_shrinks(self);
            }
            self.step().settled()
        } else {
            self
        }
    }

    /// The test that the search waits for.
    pub open spec fn probe(self) -> Probe {
        let ready = self.settled();
        if ready.pending.len() == 0 {
            Probe::Done { hit: ready.found }
        } else {
            match ready.pending.last() {
                Item::Visit(Surface::Sphere(sphere)) => Probe::Sphere { sphere, ray_t: ready.ray_t },
                Item::Visit(Surface::Node(node)) => Probe::Bounds {
                    bbox: node.bbox,
                    ray_t: ready.ray_t,
                },
                _ => Probe::Done { hit: ready.found },
            }
        }
    }

    /// The search after a test of a node's box. A node that the ray misses
    /// is dropped with all below it; one that it passes through gives way to
    /// its children, the left one to be visited first. An outcome that was
    /// not asked for changes nothing.
    pub open spec fn after_bounds(self, inside: bool) -> Walk {
        if self.pending.len() == 0 {
            self
        } else {
            match self.pending.last() {
                Item::Visit(Surface::Node(node)) => Walk {
                    pending: if inside {
                        self.pending.drop_last().push(Item::Visit(node.right)).push(
                            Item::Visit(node.left),
                        )
                    } else {
                        self.pending.drop_last()
                    },
                    ..self
                },
                _ => self,
            }
        }
    }

    /// The search after a test of a sphere. A hit becomes the latest hit and
    /// cuts the interval off; a miss changes neither. An outcome that was not
    /// asked for changes nothing.
    pub open spec fn after_sphere(self, hit: Option<HitRecord>) -> Walk {
        if self.pending.len() == 0 {
            self
        } else {
            match self.pending.last() {
                Item::Visit(Surface::Sphere(_)) => Walk {
                    pending: self.pending.drop_last(),
                    ray_t: cut_off(self.ray_t, hit),
                    found: match hit {
                        Some(rec) => Some(rec),
                        None => self.found,
                    },
                },
                _ => self,
            }
        }
    }

    /// The hit that the search ends with where every test is answered by
    /// `bounds` and `spheres`.
    pub open spec fn run(
        self,
        bounds: spec_fn(AABB, Interval) -> bool,
        spheres: spec_fn(Sphere, Interval) -> Option<HitRecord>,
    ) -> Option<HitRecord>
        decreases work(self.pending),
    {
        if self.pending.len() == 0 {
            self.found
        } else {
            match self.pending.last() {
                Item::Visit(Surface::Sphere(sphere)) => {
                    proof {
                        lemma_work_shrinks(self.pending);
                    }
                    self.after_sphere(spheres(sphere, self.ray_t)).run(bounds, spheres)
                },
                Item::Visit(Surface::Node(node)) => {
                    proof {
                        lemma_work_shrinks(self.pending);
                    }
                    self.after_bounds(bounds(node.bbox, self.ray_t)).run(bounds, spheres)
                },
                _ => {
                    proof {
                        lemma_step_shrinks(self);
                    }
                    self.step().run(bounds, spheres)
                },
            }
        }
    }
}

/// Taking up the last item leaves less work, whether it is dropped or, a
/// node, gives way to its children.
pub proof fn lemma_work_shrinks(pending: Seq<Item>)
    requires
        pending.len() > 0,
    ensures
        pending.last() matches Item::Visit(surface) ==> work(pending.drop_last()) < work(pending),
        pending.last() matches Item::Visit(Surface::Node(node)) ==> work(
            pending.drop_last().push(Item::Visit(node.right)).push(Item::Visit(node.left)),
        ) < work(pending),
{
    match pending.last() {
        Item::Visit(Surface::Node(node)) => {
            let rest = pending.drop_last();
            let one = rest.push(Item::Visit(node.right));
            let two = one.push(Item::Visit(node.left));
            assert(two.drop_last() =~= one);
            assert(one.drop_last() =~= rest);
            assert(work(two) == node.left.weight() + work(one));
            assert(work(one) == node.right.weight() + work(rest));
        },
        _ => {},
    }
}

/// A step that the machine takes by itself leaves less work.
pub proof fn lemma_step_shrinks(walk: Walk)
    requires
        walk.inner(),
    ensures
        work(walk.step().pending) < work(walk.pending),
{
    let rest = walk.pending.drop_last();
    match walk.pending.last() {
        Item::Visit(Surface::List(list)) => {
            let after = walk.step().pending;
            assert(after.drop_last() =~= rest);
        },
        Item::Scan(scan) => {
            if scan.more() {
                let taken = scan.taking(walk.found);
                let one = rest.push(Item::Scan(Scan { next: scan.next + 1, ..taken }));
                let two = one.push(Item::Visit(scan.objects[scan.next]));
                assert(walk.step().pending == two);
                assert(two.drop_last() =~= one);
                assert(one.drop_last() =~= rest);
                assert(work(two) == scan.objects[scan.next].weight() + work(one));
                assert(work(one) == remaining(taken.objects, scan.next + 1) + work(rest));
                assert(taken.objects == scan.objects);
            }
        },
        _ => {},
    }
}

/// What waits to be taken up by a search under way.
#[derive(Clone, Copy)]
enum Visit<'a> {
    Sphere(Sphere),
    Node(&'a BVHNode),
    List(&'a HittableList),
    Scan {
        list: &'a HittableList,
        next: usize,
        within: Interval,
        outer_found: Option<HitRecord>,
        closest: Scalar,
        out: Option<HitRecord>,
    },
}

impl<'a> Visit<'a> {
    spec fn item(self) -> Item {
        match self {
            Visit::Sphere(s) => Item::Visit(Surface::Sphere(s)),
            Visit::Node(n) => Item::Visit(Surface::Node(Box::new(*n))),
            Visit::List(l) => Item::Visit(Surface::List(*l)),
            Visit::Scan { list, next, within, outer_found, closest, out } => Item::Scan(
                Scan {
                    objects: list.objects@,
                    next: next as int,
                    within,
                    outer_found,
                    closest,
                    out,
                },
            ),
        }
    }

    fn of(surface: &'a Surface) -> (v: Visit<'a>)
        ensures
            v.item() == Item::Visit(*surface),
    {
        match surface {
            Surface::Sphere(s) => Visit::Sphere(*s),
            Surface::Node(n) => Visit::Node(&**n),
            Surface::List(l) => Visit::List(l),
        }
    }
}

/// A search under way. Its state is its view, a [`Walk`].
pub struct Traversal<'a> {
    pending: Vec<Visit<'a>>,
    ray_t: Interval,
    found: Option<HitRecord>,
}

impl<'a> View for Traversal<'a> {
    type V = Walk;

    closed spec fn view(&self) -> Walk {
        Walk {
            pending: Seq::new(self.pending@.len(), |i: int| self.pending@[i].item()),
            ray_t: self.ray_t,
            found: self.found,
        }
    }
}

impl Surface {
    /// Begins the search of the surface for what a ray hits within `ray_t`.
    pub fn hit<'a>(&'a self, ray_t: &Interval) -> (search: Traversal<'a>)
        ensures
            search@ == Walk::start(*self, *ray_t),
    {
        let mut pending: Vec<Visit<'a>> = Vec::new();
        pending.push(Visit::of(self));
        let search = Traversal { pending, ray_t: *ray_t, found: None };
        assert(search@.pending =~= seq![Item::Visit(*self)]);
        search
    }
}

impl BVHNode {
    /// Begins the search of the hierarchy below the node for what a ray
    /// hits within `ray_t`.
    pub fn hit<'a>(&'a self, ray_t: &Interval) -> (search: Traversal<'a>)
        ensures
            search@ == Walk::start(Surface::Node(Box::new(*self)), *ray_t),
    {
        let mut pending: Vec<Visit<'a>> = Vec::new();
        pending.push(Visit::Node(self));
        let search = Traversal { pending, ray_t: *ray_t, found: None };
        assert(search@.pending =~= seq![Item::Visit(Surface::Node(Box::new(*self)))]);
        search
    }
}

impl<'a> Traversal<'a> {
    /// Whether the machine has a step to take by itself.
    fn inner(&self) -> (r: bool)
        ensures
            r == self@.inner(),
    {
        let n = self.pending.len();
        if n == 0 {
            false
        } else {
            match self.pending[n - 1] {
                Visit::Sphere(_) => false,
                Visit::Node(_) => false,
                Visit::List(_) => true,
                Visit::Scan { .. } => true,
            }
        }
    }

    /// Takes the step that the machine takes by itself.
    fn step(&mut self)
        requires
            old(self)@.inner(),
        ensures
            final(self)@ == old(self)@.step(),
    {
        let n = self.pending.len();
        match self.pending[n - 1] {
            Visit::Sphere(_) => {},
            Visit::Node(_) => {},
            Visit::List(list) => {
                self.pending.pop();
                self.pending.push(
                    Visit::Scan {
                        list,
                        next: 0,
                        within: self.ray_t,
                        outer_found: self.found,
                        closest: self.ray_t.max,
                        out: None,
                    },
                );
                self.found = None;
                assert(self@.pending =~= old(self)@.step().pending);
            },
            Visit::Scan { list, next, within, outer_found, closest, out } => {
                self.pending.pop();
                let mut least = closest;
                let mut kept = out;
                match self.found {
                    Some(rec) => {
                        if rec.t.lt(least) {
                            least = rec.t;
                            kept = Some(rec);
                        }
                    },
                    None => {},
                }
                if next < list.objects.len() {
                    self.pending.push(
                        Visit::Scan {
                            list,
                            next: next + 1,
                            within,
                            outer_found,
                            closest: least,
                            out: kept,
                        },
                    );
                    self.pending.push(Visit::of(&list.objects[next]));
                    self.ray_t = within;
                    self.found = None;
                } else {
                    self.ray_t = match kept {
                        Some(rec) => Interval::new(within.min, rec.t),
                        None => within,
                    };
                    self.found = match kept {
                        Some(rec) => Some(rec),
                        None => outer_found,
                    };
                }
                assert(self@.pending =~= old(self)@.step().pending);
            },
        }
    }

    /// The test to make next, or the end of the search. The machine first
    /// takes the steps that it takes by itself.
    pub fn probe(&mut self) -> (p: Probe)
        ensures
            final(self)@ == old(self)@.settled(),
            p == old(self)@.probe(),
    {
        while self.inner()
            invariant
                self@.settled() == old(self)@.settled(),
            decreases work(self@.pending),
        {
            proof {
                lemma_step_shrinks(self@);
            }
            self.step();
        }
        let n = self.pending.len();
        if n == 0 {
            Probe::Done { hit: self.found }
        } else {
            match self.pending[n - 1] {
                Visit::Sphere(sphere) => Probe::Sphere { sphere, ray_t: self.ray_t },
                Visit::Node(node) => Probe::Bounds { bbox: node.bbox, ray_t: self.ray_t },
                _ => Probe::Done { hit: self.found },
            }
        }
    }

    /// Takes the outcome of a test of a box: whether the ray passes through
    /// it within the interval that was named.
    pub fn answer_bounds(&mut self, inside: bool)
        ensures
            final(self)@ == old(self)@.after_bounds(inside),
    {
        let n = self.pending.len();
        if n == 0 {
            return ;
        }
        match self.pending[n - 1] {
            Visit::Node(node) => {
                self.pending.pop();
                if inside {
                    self.pending.push(Visit::of(&node.right));
                    self.pending.push(Visit::of(&node.left));
                }
                assert(self@.pending =~= old(self)@.after_bounds(inside).pending);
            },
            _ => {},
        }
    }

    /// Takes the outcome of a test of a sphere: what the ray hits of it
    /// within the interval that was named.
    pub fn answer_sphere(&mut self, hit: Option<HitRecord>)
        ensures
            final(self)@ == old(self)@.after_sphere(hit),
    {
        let n = self.pending.len();
        if n == 0 {
            return ;
        }
        match self.pending[n - 1] {
            Visit::Sphere(_) => {
                self.pending.pop();
                match hit {
                    Some(rec) => {
                        self.ray_t = Interval::new(self.ray_t.min, rec.t);
                        self.found = Some(rec);
                    },
                    None => {},
                }
                assert(self@.pending =~= old(self)@.after_sphere(hit).pending);
            },
            _ => {},
        }
    }
}

/// Every step leaves less work, the machine's own and those that answer a
/// test: a search ends after no more steps than the weight of the surface.
pub proof fn lemma_answers_make_progress(
    root: Surface,
    ray_t: Interval,
    walk: Walk,
    inside: bool,
    hit: Option<HitRecord>,
)
    ensures
        work(Walk::start(root, ray_t).pending) == root.weight(),
        walk.inner() ==> work(walk.step().pending) < work(walk.pending),
        !walk.inner() && walk.probe() is Bounds ==> work(walk.after_bounds(inside).pending) < work(
            walk.pending,
        ),
        !walk.inner() && walk.probe() is Sphere ==> work(walk.after_sphere(hit).pending) < work(
            walk.pending,
        ),
{
    let alone = seq![Item::Visit(root)];
    assert(alone.drop_last() =~= Seq::<Item>::empty());
    assert(work(alone.drop_last()) == 0);
    if walk.inner() {
        lemma_step_shrinks(walk);
    }
    if walk.pending.len() > 0 {
        lemma_work_shrinks(walk.pending);
    }
}

/// The search of a surface, with every test answered by `bounds` and
/// `spheres`, ends with what the ray hits of the surface: the machine visits
/// the hierarchy as its definition descends it, and goes through a list as
/// the linear search does.
pub proof fn lemma_run_is_hit(
    root: Surface,
    ray_t: Interval,
    bounds: spec_fn(AABB, Interval) -> bool,
    spheres: spec_fn(Sphere, Interval) -> Option<HitRecord>,
)
    ensures
        Walk::start(root, ray_t).run(bounds, spheres) == root.hit_spec(ray_t, bounds, spheres),
{
    let walk = Walk::start(root, ray_t);
    assert(walk.pending =~= Seq::<Item>::empty().push(Item::Visit(root)));
    lemma_run_visits(Seq::empty(), root, ray_t, None, bounds, spheres);
}

/// A search that is about to visit `surface` goes on as if the visit were
/// one step: the surface gone from what is pending, and its hit, if it has
/// one, the latest.
proof fn lemma_run_visits(
    rest: Seq<Item>,
    surface: Surface,
    ray_t: Interval,
    found: Option<HitRecord>,
    bounds: spec_fn(AABB, Interval) -> bool,
    spheres: spec_fn(Sphere, Interval) -> Option<HitRecord>,
)
    ensures
        (Walk { pending: rest.push(Item::Visit(surface)), ray_t, found }).run(bounds, spheres) == (
        Walk {
            pending: rest,
            ray_t: cut_off(ray_t, surface.hit_spec(ray_t, bounds, spheres)),
            found: match surface.hit_spec(ray_t, bounds, spheres) {
                Some(rec) => Some(rec),
                None => found,
            },
        }).run(bounds, spheres),
    decreases surface, 0int,
{
    let walk = Walk { pending: rest.push(Item::Visit(surface)), ray_t, found };
    assert(walk.pending.drop_last() =~= rest);
    assert(walk.pending.last() == Item::Visit(surface));
    match surface {
        Surface::Sphere(s) => {
            assert(cut_off(ray_t, None) == ray_t);
        },
        Surface::Node(node) => {
            if bounds(node.bbox, ray_t) {
                let left_hit = node.left.hit_spec(ray_t, bounds, spheres);
                let cut = cut_off(ray_t, left_hit);
                let left_found = match left_hit {
                    Some(rec) => Some(rec),
                    None => found,
                };
                assert(walk.after_bounds(true) == Walk {
                    pending: rest.push(Item::Visit(node.right)).push(Item::Visit(node.left)),
                    ray_t,
                    found,
                });
                lemma_run_visits(
                    rest.push(Item::Visit(node.right)),
                    node.left,
                    ray_t,
                    found,
                    bounds,
                    spheres,
                );
                lemma_run_visits(rest, node.right, cut, left_found, bounds, spheres);
                let right_hit = node.right.hit_spec(cut, bounds, spheres);
                assert(cut_off(cut, right_hit) == cut_off(
                    ray_t,
                    surface.hit_spec(ray_t, bounds, spheres),
                ));
            } else {
                assert(walk.after_bounds(false) == Walk { pending: rest, ray_t, found });
                assert(cut_off(ray_t, None) == ray_t);
            }
        },
        Surface::List(list) => {
            let begun = Scan {
                objects: list.objects@,
                next: 0,
                within: ray_t,
                outer_found: found,
                closest: ray_t.max,
                out: None,
            };
            assert(walk.step() == Walk { pending: rest.push(Item::Scan(begun)), ray_t, found: None });
            lemma_run_scans(rest, begun, ray_t, None, bounds, spheres);
        },
    }
}

/// A search that is going through a list goes on as if the rest of the
/// list were one step: the list gone from what is pending, and its closest
/// hit, if it has one, the latest.
proof fn lemma_run_scans(
    rest: Seq<Item>,
    scan_now: Scan,
    ray_t: Interval,
    found: Option<HitRecord>,
    bounds: spec_fn(AABB, Interval) -> bool,
    spheres: spec_fn(Sphere, Interval) -> Option<HitRecord>,
)
    requires
        0 <= scan_now.next <= scan_now.objects.len(),
        (scan_now.taking(found).closest, scan_now.taking(found).out) == scan(
            hits_of(scan_now.objects, scan_now.next, scan_now.within, bounds, spheres),
            scan_now.within.max,
        ),
    ensures
        (Walk { pending: rest.push(Item::Scan(scan_now)), ray_t, found }).run(bounds, spheres) == ({
            let hit = closest(
                hits_of(
                    scan_now.objects,
                    scan_now.objects.len() as int,
                    scan_now.within,
                    bounds,
                    spheres,
                ),
                scan_now.within.max,
            );
            (Walk {
                pending: rest,
                ray_t: cut_off(scan_now.within, hit),
                found: match hit {
                    Some(rec) => Some(rec),
                    None => scan_now.outer_found,
                },
            }).run(bounds, spheres)
        }),
    decreases scan_now.objects, scan_now.objects.len() - scan_now.next,
{
    let walk = Walk { pending: rest.push(Item::Scan(scan_now)), ray_t, found };
    assert(walk.pending.drop_last() =~= rest);
    assert(walk.pending.last() == Item::Scan(scan_now));
    let taken = scan_now.taking(found);
    if scan_now.more() {
        let k = scan_now.next;
        let child = scan_now.objects[k];
        let then = Scan { next: k + 1, ..taken };
        let under = rest.push(Item::Scan(then));
        assert(walk.step() == Walk {
            pending: under.push(Item::Visit(child)),
            ray_t: scan_now.within,
            found: None,
        });
        lemma_run_visits(under, child, scan_now.within, None, bounds, spheres);
        let hit = child.hit_spec(scan_now.within, bounds, spheres);
        let before = hits_of(scan_now.objects, k, scan_now.within, bounds, spheres);
        let after = hits_of(scan_now.objects, k + 1, scan_now.within, bounds, spheres);
        assert(after == before.push(hit));
        assert(after.drop_last() =~= before);
        lemma_run_scans(rest, then, cut_off(scan_now.within, hit), hit, bounds, spheres);
    }
}

/// What `spheres` says a ray hits of a sphere between `min` and `max`.
pub open spec fn sphere_answer(
    spheres: spec_fn(Sphere, Interval) -> Option<HitRecord>,
    sphere: Sphere,
    min: Scalar,
    max: Scalar,
) -> Option<HitRecord> {
    spheres(sphere, Interval { min, max })
}

/// What `spheres` says a ray hits of each sphere of a list within `ray_t`.
pub open spec fn answers(
    list: Seq<Sphere>,
    spheres: spec_fn(Sphere, Interval) -> Option<HitRecord>,
    ray_t: Interval,
) -> Seq<Option<HitRecord>> {
    Seq::new(list.len(), |k: int| sphere_answer(spheres, list[k], ray_t.min, ray_t.max))
}

/// A hit, where it lies below `max`.
pub open spec fn within(hit: Option<HitRecord>, max: Scalar) -> Option<HitRecord> {
    match hit {
        Some(rec) => if rec.t.lt_spec(max) {
            Some(rec)
        } else {
            None
        },
        None => None,
    }
}

/// A sphere answers a search that is cut off earlier as it answers the
/// search within `ray_t`, but for a hit that the cut leaves out: where a ray
/// meets a sphere does not depend on how far one looks.
pub open spec fn steady(
    spheres: spec_fn(Sphere, Interval) -> Option<HitRecord>,
    ray_t: Interval,
) -> bool {
    forall|sphere: Sphere, max: Scalar|
        max.le_spec(ray_t.max) ==> #[trigger] sphere_answer(spheres, sphere, ray_t.min, max)
            == within(sphere_answer(spheres, sphere, ray_t.min, ray_t.max), max)
}

/// Every box below the first `n` surfaces lets through the rays that hit a
/// sphere below it.
pub open spec fn boxes_admit_first(
    objects: Seq<Surface>,
    n: int,
    bounds: spec_fn(AABB, Interval) -> bool,
    spheres: spec_fn(Sphere, Interval) -> Option<HitRecord>,
    min: Scalar,
) -> bool
    decreases objects, n,
{
    if n <= 0 || n > objects.len() {
        true
    } else {
        boxes_admit_first(objects, n - 1, bounds, spheres, min) && boxes_admit(
            objects[n - 1],
            bounds,
            spheres,
            min,
        )
    }
}

/// Every box of a node below the surface lets through the rays that hit a
/// sphere below it: no test of a box turns down an interval in which one of
/// its spheres is hit.
pub open spec fn boxes_admit(
    surface: Surface,
    bounds: spec_fn(AABB, Interval) -> bool,
    spheres: spec_fn(Sphere, Interval) -> Option<HitRecord>,
    min: Scalar,
) -> bool
    decreases surface, 0int,
{
    match surface {
        Surface::Sphere(_) => true,
        Surface::List(list) => boxes_admit_first(
            list.objects@,
            list.objects@.len() as int,
            bounds,
            spheres,
            min,
        ),
        Surface::Node(node) => {
            &&& forall|k: int, max: Scalar|
                0 <= k < surface.spheres().len() && (#[trigger] sphere_answer(
                    spheres,
                    surface.spheres()[k],
                    min,
                    max,
                )) is Some ==> bounds(node.bbox, Interval { min, max })
            &&& boxes_admit(node.left, bounds, spheres, min)
            &&& boxes_admit(node.right, bounds, spheres, min)
        },
    }
}

/// The first of the closest hits of two lists, one after the other, from
/// the first of the closest of the one and the first of those of the other
/// that are closer still.
proof fn lemma_first_closest_of_both(
    one: Seq<Option<HitRecord>>,
    other: Seq<Option<HitRecord>>,
    limit: Scalar,
    first: Option<HitRecord>,
    second: Option<HitRecord>,
)
    requires
        is_first_closest(one, limit, first),
        is_first_closest(other, cut_off(Interval { min: limit, max: limit }, first).max, second),
    ensures
        is_first_closest(
            one + other,
            limit,
            match second {
                Some(hit) => Some(hit),
                None => first,
            },
        ),
{
    let both = one + other;
    assert forall|k: int| 0 <= k < one.len() implies both[k] == one[k] by {}
    assert forall|k: int| 0 <= k < other.len() implies both[one.len() + k] == other[k] by {}
    let bound = match first {
        Some(hit) => hit.t,
        None => limit,
    };
    assert(none_below(one, bound)) by {
        lemma_first_is_closest(one, limit, first);
    }
    match second {
        Some(hit) => {
            let w = choose|w: int| first_closest_at(other, hit, w);
            let at = one.len() + w;
            assert(both[at] == Some(hit));
            assert forall|j: int| 0 <= j < at implies match #[trigger] both[j] {
                Some(rec) => !rec.t.le_spec(hit.t),
                None => true,
            } by {
                if j < one.len() {
                    assert(both[j] == one[j]);
                } else {
                    assert(both[j] == other[j - one.len()]);
                }
            }
            assert forall|j: int| at <= j < both.len() implies match #[trigger] both[j] {
                Some(rec) => !rec.t.lt_spec(hit.t),
                None => true,
            } by {
                assert(both[j] == other[j - one.len()]);
            }
            assert(first_closest_at(both, hit, at));
        },
        None => {
            match first {
                Some(hit) => {
                    let at = choose|w: int| first_closest_at(one, hit, w);
                    assert(both[at] == Some(hit));
                    assert forall|j: int| 0 <= j < at implies match #[trigger] both[j] {
                        Some(rec) => !rec.t.le_spec(hit.t),
                        None => true,
                    } by {
                        assert(both[j] == one[j]);
                    }
                    assert forall|j: int| at <= j < both.len() implies match #[trigger] both[j] {
                        Some(rec) => !rec.t.lt_spec(hit.t),
                        None => true,
                    } by {
                        if j < one.len() {
                            assert(both[j] == one[j]);
                        } else {
                            assert(both[j] == other[j - one.len()]);
                        }
                    }
                    assert(first_closest_at(both, hit, at));
                },
                None => {
                    assert forall|k: int| 0 <= k < both.len() implies match #[trigger] both[k] {
                        Some(rec) => !rec.t.lt_spec(limit),
                        None => true,
                    } by {
                        if k < one.len() {
                            assert(both[k] == one[k]);
                        } else {
                            assert(both[k] == other[k - one.len()]);
                        }
                    }
                },
            }
        },
    }
}

/// The hierarchy finds the first of the closest hits. Where the spheres
/// answer steadily and every box lets through the rays that hit a sphere
/// below it, what a ray hits of a surface within `ray_t` cut off at `limit`
/// is, among the hits below `limit` of the spheres below the surface from
/// left to right, the first of the closest.
pub proof fn lemma_search_finds_closest(
    surface: Surface,
    ray_t: Interval,
    limit: Scalar,
    bounds: spec_fn(AABB, Interval) -> bool,
    spheres: spec_fn(Sphere, Interval) -> Option<HitRecord>,
)
    requires
        limit.le_spec(ray_t.max),
        steady(spheres, ray_t),
        boxes_admit(surface, bounds, spheres, ray_t.min),
    ensures
        is_first_closest(
            answers(surface.spheres(), spheres, ray_t),
            limit,
            surface.hit_spec(Interval { min: ray_t.min, max: limit }, bounds, spheres),
        ),
    decreases surface, 0int,
{
    let searched = Interval { min: ray_t.min, max: limit };
    let all = answers(surface.spheres(), spheres, ray_t);
    match surface {
        Surface::List(list) => {
            lemma_list_finds_closest(
                list.objects@,
                list.objects@.len() as int,
                ray_t,
                limit,
                bounds,
                spheres,
            );
        },
        Surface::Sphere(s) => {
            let found = surface.hit_spec(searched, bounds, spheres);
            assert(found == sphere_answer(spheres, s, ray_t.min, limit));
            assert(all[0] == sphere_answer(spheres, s, ray_t.min, ray_t.max));
            assert(all.len() == 1);
            if let Some(hit) = found {
                assert(first_closest_at(all, hit, 0));
            }
        },
        Surface::Node(node) => {
            if bounds(node.bbox, searched) {
                let left_hit = node.left.hit_spec(searched, bounds, spheres);
                let cut = cut_off(searched, left_hit);
                lemma_search_finds_closest(node.left, ray_t, limit, bounds, spheres);
                lemma_search_finds_closest(node.right, ray_t, cut.max, bounds, spheres);
                let right_hit = node.right.hit_spec(cut, bounds, spheres);
                let lefts = answers(node.left.spheres(), spheres, ray_t);
                let rights = answers(node.right.spheres(), spheres, ray_t);
                assert(all =~= lefts + rights);
                lemma_first_closest_of_both(lefts, rights, limit, left_hit, right_hit);
            } else {
                assert forall|k: int| 0 <= k < all.len() implies match #[trigger] all[k] {
                    Some(rec) => !rec.t.lt_spec(limit),
                    None => true,
                } by {
                    let sphere = surface.spheres()[k];
                    assert(sphere_answer(spheres, sphere, ray_t.min, limit) == within(all[k], limit));
                    if all[k] is Some && all[k]->Some_0.t.lt_spec(limit) {
                        assert(sphere_answer(spheres, sphere, ray_t.min, limit) is Some);
                        assert(bounds(node.bbox, Interval { min: ray_t.min, max: limit }));
                    }
                }
            }
        },
    }
}

/// Going through a list finds the first of the closest hits of all the
/// spheres below its surfaces, as far as it has gone.
proof fn lemma_list_finds_closest(
    objects: Seq<Surface>,
    n: int,
    ray_t: Interval,
    limit: Scalar,
    bounds: spec_fn(AABB, Interval) -> bool,
    spheres: spec_fn(Sphere, Interval) -> Option<HitRecord>,
)
    requires
        0 <= n <= objects.len(),
        limit.le_spec(ray_t.max),
        steady(spheres, ray_t),
        boxes_admit_first(objects, objects.len() as int, bounds, spheres, ray_t.min),
    ensures
        is_first_closest(
            answers(spheres_of(objects, n), spheres, ray_t),
            limit,
            closest(
                hits_of(objects, n, Interval { min: ray_t.min, max: limit }, bounds, spheres),
                limit,
            ),
        ),
    decreases objects, n,
{
    let searched = Interval { min: ray_t.min, max: limit };
    if n > 0 {
        let child = objects[n - 1];
        lemma_admit_first(objects, objects.len() as int, n - 1, bounds, spheres, ray_t.min);
        lemma_list_finds_closest(objects, n - 1, ray_t, limit, bounds, spheres);
        lemma_search_finds_closest(child, ray_t, limit, bounds, spheres);
        let before = hits_of(objects, n - 1, searched, bounds, spheres);
        let hit = child.hit_spec(searched, bounds, spheres);
        let one = answers(spheres_of(objects, n - 1), spheres, ray_t);
        let other = answers(child.spheres(), spheres, ray_t);
        let first = closest(before, limit);
        let cut = cut_off(Interval { min: limit, max: limit }, first).max;
        lemma_scan_finds_closest(before, limit);
        assert(scan(before, limit).0 == cut);
        lemma_first_is_closest(one, limit, first);
        let second = match hit {
            Some(rec) => if rec.t.lt_spec(cut) {
                Some(rec)
            } else {
                None
            },
            None => None,
        };
        assert(is_first_closest(other, cut, second)) by {
            if second is None {
                match hit {
                    Some(rec) => {
                        let at = choose|k: int| first_closest_at(other, rec, k);
                        assert forall|j: int| 0 <= j < other.len() implies match #[trigger] other[j] {
                            Some(g) => !g.t.lt_spec(cut),
                            None => true,
                        } by {
                            if j < at {
                            } else {
                            }
                        }
                    },
                    None => {
                        assert forall|j: int| 0 <= j < other.len() implies match #[trigger] other[j] {
                            Some(g) => !g.t.lt_spec(cut),
                            None => true,
                        } by {}
                    },
                }
            }
        }
        lemma_first_closest_of_both(one, other, limit, first, second);
        let after = hits_of(objects, n, searched, bounds, spheres);
        assert(after == before.push(hit));
        assert(after.drop_last() =~= before);
        assert(answers(spheres_of(objects, n), spheres, ray_t) =~= one + other);
    }
}

/// What holds of the boxes below the first surfaces of a list holds of
/// those below each of them.
proof fn lemma_admit_first(
    objects: Seq<Surface>,
    n: int,
    k: int,
    bounds: spec_fn(AABB, Interval) -> bool,
    spheres: spec_fn(Sphere, Interval) -> Option<HitRecord>,
    min: Scalar,
)
    requires
        0 <= k < n <= objects.len(),
        boxes_admit_first(objects, n, bounds, spheres, min),
    ensures
        boxes_admit(objects[k], bounds, spheres, min),
    decreases n,
{
    if k < n - 1 {
        lemma_admit_first(objects, n - 1, k, bounds, spheres, min);
    }
}

/// The hierarchy and the linear search agree. For any surface, lists among
/// them, any ray and
/// any interval whose maximum is no NaN, where the spheres answer steadily
/// and every box lets through the rays that hit a sphere below it: what the
/// hierarchy finds is what the linear search over the spheres below the
/// surface finds, from left to right: the same hit, material and all, or
/// nothing.
pub proof fn lemma_hierarchy_agrees_with_scan(
    surface: Surface,
    ray_t: Interval,
    bounds: spec_fn(AABB, Interval) -> bool,
    spheres: spec_fn(Sphere, Interval) -> Option<HitRecord>,
)
    requires
        !ray_t.max.nan(),
        steady(spheres, ray_t),
        boxes_admit(surface, bounds, spheres, ray_t.min),
    ensures
        surface.hit_spec(ray_t, bounds, spheres) == closest(
            answers(surface.spheres(), spheres, ray_t),
            ray_t.max,
        ),
{
    let all = answers(surface.spheres(), spheres, ray_t);
    lemma_search_finds_closest(surface, ray_t, ray_t.max, bounds, spheres);
    lemma_scan_is_first_closest(all, ray_t.max);
    lemma_first_closest_unique(
        all,
        ray_t.max,
        surface.hit_spec(ray_t, bounds, spheres),
        closest(all, ray_t.max),
    );
}

/// The spheres that the surfaces are.
pub open spec fn sphere_list(objects: Seq<Surface>) -> Seq<Sphere> {
    Seq::new(objects.len(), |k: int| objects[k]->Sphere_0)
}

/// Two lists hold the same spheres, in whatever order and however often.
pub open spec fn same_spheres(one: Seq<Sphere>, other: Seq<Sphere>) -> bool {
    forall|sphere: Sphere| one.contains(sphere) <==> other.contains(sphere)
}

/// The first of the closest hits of the spheres below a node that was
/// built over spheres is the first of the closest hits of those spheres in
/// their order: below the node they stand in that order, the only surface
/// of a node over one surface twice.
proof fn lemma_built_first_closest(
    node: BVHNode,
    objects: Seq<Surface>,
    spheres: spec_fn(Sphere, Interval) -> Option<HitRecord>,
    ray_t: Interval,
    limit: Scalar,
    answer: Option<HitRecord>,
)
    requires
        node.built_over(objects),
        all_spheres(objects),
        is_first_closest(
            answers(Surface::Node(Box::new(node)).spheres(), spheres, ray_t),
            limit,
            answer,
        ),
    ensures
        is_first_closest(answers(sphere_list(objects), spheres, ray_t), limit, answer),
    decreases objects.len(),
{
    let below = Surface::Node(Box::new(node)).spheres();
    let list = sphere_list(objects);
    let from = answers(below, spheres, ray_t);
    let to = answers(list, spheres, ray_t);
    assert(below == node.left.spheres() + node.right.spheres());
    if objects.len() == 1 {
        assert(objects[0] is Sphere);
        lemma_same_sphere(node.left, objects[0]);
        lemma_same_sphere(node.right, objects[0]);
        assert(below =~= seq![list[0], list[0]]);
        assert(from[0] == to[0] && from[1] == to[0]);
        if let Some(hit) = answer {
            let k = choose|k: int| first_closest_at(from, hit, k);
            if k == 1 {
                assert(from[0] == Some(hit));
            }
            assert(first_closest_at(to, hit, 0));
        }
    } else if objects.len() == 2 {
        assert(objects[0] is Sphere);
        assert(objects[1] is Sphere);
        lemma_same_sphere(node.left, objects[0]);
        lemma_same_sphere(node.right, objects[1]);
        assert(below =~= list);
    } else {
        let mid = (objects.len() / 2) as int;
        let front = objects.subrange(0, mid);
        let back = objects.subrange(mid, objects.len() as int);
        let l = node.left->Node_0;
        let r = node.right->Node_0;
        assert(all_spheres(front)) by {
            assert forall|k: int| 0 <= k < front.len() implies (#[trigger] front[k]) is Sphere by {
                assert(objects[k] is Sphere);
            }
        }
        assert(all_spheres(back)) by {
            assert forall|k: int| 0 <= k < back.len() implies (#[trigger] back[k]) is Sphere by {
                assert(objects[mid + k] is Sphere);
            }
        }
        assert(node.left == Surface::Node(Box::new(*l)));
        assert(node.right == Surface::Node(Box::new(*r)));
        let lefts = answers(node.left.spheres(), spheres, ray_t);
        let rights = answers(node.right.spheres(), spheres, ray_t);
        assert(from =~= lefts + rights);
        // The first of the closest on either side, found by the linear search.
        let first = closest(lefts, limit);
        let cut = cut_off(Interval { min: limit, max: limit }, first).max;
        let second = closest(rights, cut);
        lemma_scan_is_first_closest(lefts, limit);
        lemma_scan_is_first_closest(rights, cut);
        lemma_first_closest_of_both(lefts, rights, limit, first, second);
        let joined = match second {
            Some(hit) => Some(hit),
            None => first,
        };
        lemma_first_closest_unique(from, limit, answer, joined);
        lemma_built_first_closest(*l, front, spheres, ray_t, limit, first);
        lemma_built_first_closest(*r, back, spheres, ray_t, cut, second);
        let fronts = answers(sphere_list(front), spheres, ray_t);
        let backs = answers(sphere_list(back), spheres, ray_t);
        assert(to =~= fronts + backs);
        lemma_first_closest_of_both(fronts, backs, limit, first, second);
    }
}

/// A hierarchy built over spheres and the linear search over those spheres
/// agree, whichever axes the hierarchy was split along. For any ray and any
/// interval whose maximum is no NaN, where the spheres answer steadily and
/// every box lets through the rays that hit a sphere below it: what the
/// hierarchy finds is what the linear search finds over the spheres in the
/// order in which building left them: the same hit, material and all, or
/// nothing.
pub proof fn lemma_built_hierarchy_agrees_with_scan(
    node: BVHNode,
    objects: Seq<Surface>,
    ray_t: Interval,
    bounds: spec_fn(AABB, Interval) -> bool,
    spheres: spec_fn(Sphere, Interval) -> Option<HitRecord>,
)
    requires
        node.built_over(objects),
        all_spheres(objects),
        !ray_t.max.nan(),
        steady(spheres, ray_t),
        boxes_admit(Surface::Node(Box::new(node)), bounds, spheres, ray_t.min),
    ensures
        node.hit_spec(ray_t, bounds, spheres) == closest(
            answers(sphere_list(objects), spheres, ray_t),
            ray_t.max,
        ),
{
    let surface = Surface::Node(Box::new(node));
    let found = surface.hit_spec(ray_t, bounds, spheres);
    let hits = answers(sphere_list(objects), spheres, ray_t);
    lemma_search_finds_closest(surface, ray_t, ray_t.max, bounds, spheres);
    lemma_built_first_closest(node, objects, spheres, ray_t, ray_t.max, found);
    lemma_scan_is_first_closest(hits, ray_t.max);
    lemma_first_closest_unique(hits, ray_t.max, found, closest(hits, ray_t.max));
}

/// Lists of the same surfaces, in whatever order, hold the same spheres.
proof fn lemma_same_surfaces(before: Seq<Surface>, after: Seq<Surface>)
    requires
        before.to_multiset() == after.to_multiset(),
        all_spheres(after),
    ensures
        all_spheres(before),
        same_spheres(sphere_list(before), sphere_list(after)),
{
    broadcast use vstd::seq_lib::to_multiset_contains;

    assert forall|k: int| 0 <= k < before.len() implies (#[trigger] before[k]) is Sphere by {
        assert(before.contains(before[k]));
        assert(after.to_multiset().count(before[k]) > 0);
        assert(after.contains(before[k]));
    }
    let one = sphere_list(before);
    let other = sphere_list(after);
    assert forall|sphere: Sphere| one.contains(sphere) <==> other.contains(sphere) by {
        if one.contains(sphere) {
            let k = choose|k: int| 0 <= k < one.len() && one[k] == sphere;
            assert(before[k] == Surface::Sphere(sphere));
            assert(before.contains(before[k]));
            assert(after.to_multiset().count(before[k]) > 0);
            assert(after.contains(before[k]));
            let j = choose|j: int| 0 <= j < after.len() && after[j] == before[k];
            assert(other[j] == sphere);
        }
        if other.contains(sphere) {
            let k = choose|k: int| 0 <= k < other.len() && other[k] == sphere;
            assert(after[k] == Surface::Sphere(sphere));
            assert(after.contains(after[k]));
            assert(before.to_multiset().count(after[k]) > 0);
            assert(before.contains(after[k]));
            let j = choose|j: int| 0 <= j < before.len() && before[j] == after[k];
            assert(one[j] == sphere);
        }
    }
}

/// A closest hit among the hits of some spheres is one among the hits of
/// any list of the same spheres, and hits that never tie in the one list
/// never tie in the other.
proof fn lemma_closest_among_same(
    one: Seq<Sphere>,
    other: Seq<Sphere>,
    spheres: spec_fn(Sphere, Interval) -> Option<HitRecord>,
    ray_t: Interval,
    limit: Scalar,
    answer: Option<HitRecord>,
)
    requires
        same_spheres(one, other),
        is_closest(answers(one, spheres, ray_t), limit, answer),
    ensures
        is_closest(answers(other, spheres, ray_t), limit, answer),
{
    let from = answers(one, spheres, ray_t);
    let to = answers(other, spheres, ray_t);
    assert forall|k: int| 0 <= k < to.len() implies exists|j: int|
        0 <= j < from.len() && from[j] == #[trigger] to[k] by {
        assert(other.contains(other[k]));
        assert(one.contains(other[k]));
        let j = choose|j: int| 0 <= j < one.len() && one[j] == other[k];
        assert(from[j] == to[k]);
    }
    let bound = match answer {
        Some(hit) => hit.t,
        None => limit,
    };
    assert(none_below(from, bound));
    assert forall|k: int| 0 <= k < to.len() implies match #[trigger] to[k] {
        Some(rec) => !rec.t.lt_spec(bound),
        None => true,
    } by {
        let j = choose|j: int| 0 <= j < from.len() && from[j] == to[k];
        assert(from[j] == to[k]);
    }
    if let Some(hit) = answer {
        let w = choose|w: int| 0 <= w < from.len() && #[trigger] from[w] == Some(hit);
        assert(one.contains(one[w]));
        assert(other.contains(one[w]));
        let k = choose|k: int| 0 <= k < other.len() && other[k] == one[w];
        assert(to[k] == Some(hit));
    }
}

/// A hierarchy built over spheres agrees with the linear search over those
/// spheres in any order, that before building too, as far as the order
/// leaves it open which hit the search finds. Under the conditions of
/// [`lemma_built_hierarchy_agrees_with_scan`]: the hierarchy finds a hit
/// exactly where the linear search over `before` does, and the two hits
/// stand at the same `t`. Where no two spheres are hit at the same `t`, the
/// two hits are one and the same, material and all.
pub proof fn lemma_built_hierarchy_agrees_with_any_scan(
    node: BVHNode,
    objects: Seq<Surface>,
    before: Seq<Surface>,
    ray_t: Interval,
    bounds: spec_fn(AABB, Interval) -> bool,
    spheres: spec_fn(Sphere, Interval) -> Option<HitRecord>,
)
    requires
        node.built_over(objects),
        all_spheres(objects),
        before.to_multiset() == objects.to_multiset(),
        !ray_t.max.nan(),
        steady(spheres, ray_t),
        boxes_admit(Surface::Node(Box::new(node)), bounds, spheres, ray_t.min),
    ensures
        ({
            let found = node.hit_spec(ray_t, bounds, spheres);
            let scanned = closest(answers(sphere_list(before), spheres, ray_t), ray_t.max);
            &&& found is None <==> scanned is None
            &&& found is Some ==> found->Some_0.t.same_number(scanned->Some_0.t)
            &&& no_ties(answers(sphere_list(before), spheres, ray_t)) ==> found == scanned
        }),
{
    let found = node.hit_spec(ray_t, bounds, spheres);
    let built = answers(sphere_list(objects), spheres, ray_t);
    let hits = answers(sphere_list(before), spheres, ray_t);
    lemma_built_hierarchy_agrees_with_scan(node, objects, ray_t, bounds, spheres);
    lemma_scan_finds_closest(built, ray_t.max);
    lemma_same_surfaces(before, objects);
    lemma_closest_among_same(
        sphere_list(objects),
        sphere_list(before),
        spheres,
        ray_t,
        ray_t.max,
        found,
    );
    lemma_scan_finds_closest(hits, ray_t.max);
    lemma_closest_agree(hits, ray_t.max, found, closest(hits, ray_t.max));
}

/// The solved quadratic of a sphere, as `roots_of` has it.
pub open spec fn roots_for(roots_of: spec_fn(Sphere) -> Roots, sphere: Sphere) -> Roots {
    roots_of(sphere)
}

/// How spheres answer where each is tested with its solved quadratic.
pub open spec fn sphere_test(roots_of: spec_fn(Sphere) -> Roots) -> spec_fn(
    Sphere,
    Interval,
) -> Option<HitRecord> {
    |sphere: Sphere, ray_t: Interval| sphere.hit_spec(roots_of(sphere), ray_t)
}

/// Every quadratic that has roots has them in order: the near root is not
/// above the far one, and neither is a NaN.
pub open spec fn roots_in_order(roots_of: spec_fn(Sphere) -> Roots) -> bool {
    forall|sphere: Sphere|
        {
            let roots = #[trigger] roots_for(roots_of, sphere);
            roots.discriminant.lt_spec(Scalar::zero()) || roots.near.t.le_spec(roots.far.t)
        }
}

/// The hit test of spheres answers steadily: with roots in order and an
/// interval whose minimum is no NaN, cutting the interval off earlier
/// changes the answer only by leaving out a hit beyond the cut.
pub proof fn lemma_sphere_test_steady(roots_of: spec_fn(Sphere) -> Roots, ray_t: Interval)
    requires
        roots_in_order(roots_of),
        !ray_t.min.nan(),
    ensures
        steady(sphere_test(roots_of), ray_t),
{
    let spheres = sphere_test(roots_of);
    assert forall|sphere: Sphere, max: Scalar| max.le_spec(ray_t.max) implies #[trigger] sphere_answer(
        spheres,
        sphere,
        ray_t.min,
        max,
    ) == within(sphere_answer(spheres, sphere, ray_t.min, ray_t.max), max) by {
        let roots = roots_for(roots_of, sphere);
        let cut = Interval { min: ray_t.min, max };
        let whole = Interval { min: ray_t.min, max: ray_t.max };
        assert(sphere_answer(spheres, sphere, ray_t.min, max) == sphere.hit_spec(roots, cut));
        assert(sphere_answer(spheres, sphere, ray_t.min, ray_t.max) == sphere.hit_spec(
            roots,
            whole,
        ));
    }
}

/// Boxes are there to save tests, not to change what is found: a search
/// that takes every box for hit finds, with the hit test of spheres on roots
/// in order, what the linear search finds.
pub proof fn lemma_unpruned_search_agrees_with_scan(
    surface: Surface,
    ray_t: Interval,
    roots_of: spec_fn(Sphere) -> Roots,
)
    requires
        roots_in_order(roots_of),
        !ray_t.min.nan(),
        !ray_t.max.nan(),
    ensures
        surface.hit_spec(ray_t, |bbox: AABB, within: Interval| true, sphere_test(roots_of))
            == closest(answers(surface.spheres(), sphere_test(roots_of), ray_t), ray_t.max),
{
    let bounds = |bbox: AABB, within: Interval| true;
    lemma_sphere_test_steady(roots_of, ray_t);
    assert forall|bbox: AABB, within: Interval| #[trigger] box_answer(bounds, bbox, within) by {}
    lemma_every_box_admits(surface, bounds, sphere_test(roots_of), ray_t.min);
    lemma_hierarchy_agrees_with_scan(surface, ray_t, bounds, sphere_test(roots_of));
}

/// What `bounds` says of a box and an interval.
pub open spec fn box_answer(
    bounds: spec_fn(AABB, Interval) -> bool,
    bbox: AABB,
    within: Interval,
) -> bool {
    bounds(bbox, within)
}

proof fn lemma_every_box_admits(
    surface: Surface,
    bounds: spec_fn(AABB, Interval) -> bool,
    spheres: spec_fn(Sphere, Interval) -> Option<HitRecord>,
    min: Scalar,
)
    requires
        forall|bbox: AABB, within: Interval| #[trigger] box_answer(bounds, bbox, within),
    ensures
        boxes_admit(surface, bounds, spheres, min),
    decreases surface, 0int,
{
    match surface {
        Surface::Sphere(_) => {},
        Surface::List(list) => {
            lemma_every_box_admits_first(
                list.objects@,
                list.objects@.len() as int,
                bounds,
                spheres,
                min,
            );
        },
        Surface::Node(node) => {
            lemma_every_box_admits(node.left, bounds, spheres, min);
            lemma_every_box_admits(node.right, bounds, spheres, min);
            assert forall|k: int, max: Scalar|
                0 <= k < surface.spheres().len() && (#[trigger] sphere_answer(
                    spheres,
                    surface.spheres()[k],
                    min,
                    max,
                )) is Some implies bounds(node.bbox, Interval { min, max }) by {
                assert(box_answer(bounds, node.bbox, Interval { min, max }));
            }
        },
    }
}

proof fn lemma_every_box_admits_first(
    objects: Seq<Surface>,
    n: int,
    bounds: spec_fn(AABB, Interval) -> bool,
    spheres: spec_fn(Sphere, Interval) -> Option<HitRecord>,
    min: Scalar,
)
    requires
        forall|bbox: AABB, within: Interval| #[trigger] box_answer(bounds, bbox, within),
    ensures
        boxes_admit_first(objects, n, bounds, spheres, min),
    decreases objects, n,
{
    if 0 < n <= objects.len() {
        lemma_every_box_admits_first(objects, n - 1, bounds, spheres, min);
        lemma_every_box_admits(objects[n - 1], bounds, spheres, min);
    }
}

/// What a ray hits of the first `n` of some spheres, as surfaces of a list,
/// is what `spheres` says of them.
proof fn lemma_hits_of_spheres(
    objects: Seq<Surface>,
    n: int,
    ray_t: Interval,
    bounds: spec_fn(AABB, Interval) -> bool,
    spheres: spec_fn(Sphere, Interval) -> Option<HitRecord>,
)
    requires
        all_spheres(objects),
        0 <= n <= objects.len(),
    ensures
        hits_of(objects, n, ray_t, bounds, spheres) == answers(
            sphere_list(objects),
            spheres,
            ray_t,
        ).take(n),
    decreases n,
{
    let all = answers(sphere_list(objects), spheres, ray_t);
    if n > 0 {
        lemma_hits_of_spheres(objects, n - 1, ray_t, bounds, spheres);
        assert(objects[n - 1] is Sphere);
        let sphere = objects[n - 1]->Sphere_0;
        assert(objects[n - 1] == Surface::Sphere(sphere));
        assert(sphere_list(objects)[n - 1] == sphere);
        assert(Interval { min: ray_t.min, max: ray_t.max } == ray_t);
        assert(objects[n - 1].hit_spec(ray_t, bounds, spheres) == spheres(sphere, ray_t));
        assert(all[n - 1] == spheres(sphere, ray_t));
        assert(hits_of(objects, n, ray_t, bounds, spheres) == hits_of(
            objects,
            n - 1,
            ray_t,
            bounds,
            spheres,
        ).push(spheres(sphere, ray_t)));
        assert(all.take(n) =~= all.take(n - 1).push(all[n - 1]));
    } else {
        assert(all.take(0) =~= Seq::<Option<HitRecord>>::empty());
    }
}

/// The search of a hierarchy built over spheres and the search of a list
/// of those spheres end alike. For any ray and any interval whose maximum
/// is no NaN, where the spheres answer steadily and every box lets through
/// the rays that hit a sphere below it: run to their ends with the same
/// answers, the search of the node and the search of a list that holds the
/// spheres in the order in which building left them end with the same hit,
/// material and all, or both with none.
pub proof fn lemma_hierarchy_search_agrees_with_list_search(
    node: BVHNode,
    list: HittableList,
    ray_t: Interval,
    bounds: spec_fn(AABB, Interval) -> bool,
    spheres: spec_fn(Sphere, Interval) -> Option<HitRecord>,
)
    requires
        node.built_over(list.objects@),
        all_spheres(list.objects@),
        !ray_t.max.nan(),
        steady(spheres, ray_t),
        boxes_admit(Surface::Node(Box::new(node)), bounds, spheres, ray_t.min),
    ensures
        Walk::start(Surface::Node(Box::new(node)), ray_t).run(bounds, spheres) == Walk::start(
            Surface::List(list),
            ray_t,
        ).run(bounds, spheres),
        Walk::start(Surface::List(list), ray_t).run(bounds, spheres) == closest(
            answers(sphere_list(list.objects@), spheres, ray_t),
            ray_t.max,
        ),
{
    let objects = list.objects@;
    let all = answers(sphere_list(objects), spheres, ray_t);
    lemma_run_is_hit(Surface::Node(Box::new(node)), ray_t, bounds, spheres);
    lemma_run_is_hit(Surface::List(list), ray_t, bounds, spheres);
    lemma_built_hierarchy_agrees_with_scan(node, objects, ray_t, bounds, spheres);
    lemma_hits_of_spheres(objects, objects.len() as int, ray_t, bounds, spheres);
    assert(all.take(objects.len() as int) =~= all);
}

/// The search of a hierarchy built over spheres and the search of a list
/// of the same spheres in any order, that before building too, end alike as
/// far as the order leaves it open. Under the conditions of
/// [`lemma_hierarchy_search_agrees_with_list_search`]: the one ends with a
/// hit exactly where the other does, and the two hits stand at the same `t`.
/// Where no two spheres are hit at the same `t`, the two hits are one and the
/// same, material and all.
pub proof fn lemma_hierarchy_search_agrees_with_any_list_search(
    node: BVHNode,
    objects: Seq<Surface>,
    list: HittableList,
    ray_t: Interval,
    bounds: spec_fn(AABB, Interval) -> bool,
    spheres: spec_fn(Sphere, Interval) -> Option<HitRecord>,
)
    requires
        node.built_over(objects),
        all_spheres(objects),
        list.objects@.to_multiset() == objects.to_multiset(),
        !ray_t.max.nan(),
        steady(spheres, ray_t),
        boxes_admit(Surface::Node(Box::new(node)), bounds, spheres, ray_t.min),
    ensures
        ({
            let found = Walk::start(Surface::Node(Box::new(node)), ray_t).run(bounds, spheres);
            let scanned = Walk::start(Surface::List(list), ray_t).run(bounds, spheres);
            &&& found is None <==> scanned is None
            &&& found is Some ==> found->Some_0.t.same_number(scanned->Some_0.t)
            &&& no_ties(answers(sphere_list(list.objects@), spheres, ray_t)) ==> found == scanned
        }),
{
    let before = list.objects@;
    let all = answers(sphere_list(before), spheres, ray_t);
    lemma_run_is_hit(Surface::Node(Box::new(node)), ray_t, bounds, spheres);
    lemma_run_is_hit(Surface::List(list), ray_t, bounds, spheres);
    lemma_built_hierarchy_agrees_with_any_scan(node, objects, before, ray_t, bounds, spheres);
    lemma_same_surfaces(before, objects);
    lemma_hits_of_spheres(before, before.len() as int, ray_t, bounds, spheres);
    assert(all.take(before.len() as int) =~= all);
}

} // verus!
