use std::cmp::Ordering;
use tracerust::bvh::{sort_range, BVHNode, Slab, AABB};
use tracerust::hittable::{box_compare, HitRecord, HittableList, Root, Roots, Sphere, Surface};
use tracerust::scalar::Scalar;
use tracerust::traversal::Probe;
use tracerust::util::Interval;
use tracerust::vec3::Vec3;

fn s(x: f64) -> Scalar {
    Scalar::from_bits(x.to_bits())
}

fn f(x: Scalar) -> f64 {
    f64::from_bits(x.to_bits())
}

fn v(p: [f64; 3]) -> Vec3 {
    Vec3(s(p[0]), s(p[1]), s(p[2]))
}

fn p(w: Vec3) -> [f64; 3] {
    [f(w.0), f(w.1), f(w.2)]
}

fn iv(min: f64, max: f64) -> Interval {
    Interval { min: s(min), max: s(max) }
}

fn plus(a: [f64; 3], b: [f64; 3]) -> [f64; 3] {
    [a[0] + b[0], a[1] + b[1], a[2] + b[2]]
}

fn minus(a: [f64; 3], b: [f64; 3]) -> [f64; 3] {
    [a[0] + -b[0], a[1] + -b[1], a[2] + -b[2]]
}

fn times(a: [f64; 3], k: f64) -> [f64; 3] {
    [a[0] * k, a[1] * k, a[2] * k]
}

fn dot(a: [f64; 3], b: [f64; 3]) -> f64 {
    a[0] * b[0] + a[1] * b[1] + a[2] * b[2]
}

fn stationary(center: [f64; 3], radius: f64, mat: usize) -> Sphere {
    let r = [radius, radius, radius];
    Sphere::stationary(v(center), s(radius), mat, v(minus(center, r)), v(plus(center, r)))
}

fn slabs(bbox: &AABB, origin: [f64; 3], dir: [f64; 3]) -> [Slab; 3] {
    let mut out = [Slab { t0: s(0.), t1: s(0.) }; 3];
    for axis in 0..3 {
        let ax = bbox.axis_interval(axis);
        let adinv = 1. / dir[axis];
        let t0 = (f(ax.min()) - origin[axis]) * adinv;
        let t1 = (f(ax.max()) - origin[axis]) * adinv;
        out[axis] = Slab { t0: s(t0), t1: s(t1) };
    }
    out
}

fn roots(sphere: &Sphere, origin: [f64; 3], dir: [f64; 3]) -> Roots {
    let center = p(sphere.center().origin());
    let radius = f(sphere.radius());
    let oc = minus(center, origin);
    let a = dot(dir, dir);
    let h = dot(dir, oc);
    let cc = dot(oc, oc) - radius * radius;
    let disc = h * h - a * cc;
    let sqrtd = disc.sqrt();
    let at = |t: f64| {
        let point = plus(origin, times(dir, t));
        let normal = times(minus(point, center), 1.0 / radius);
        Root { t: s(t), point: v(point), outward_normal: v(normal), facing: s(dot(dir, normal)) }
    };
    Roots { discriminant: s(disc), near: at((h - sqrtd) / a), far: at((h + sqrtd) / a) }
}

/// Runs a search to its end; also counts the tests of spheres it asked for.
fn search(root: &Surface, origin: [f64; 3], dir: [f64; 3], ray_t: &Interval) -> (Option<HitRecord>, usize) {
    let mut walk = root.hit(ray_t);
    let mut tested = 0;
    loop {
        match walk.probe() {
            Probe::Done { hit } => return (hit, tested),
            Probe::Bounds { bbox, ray_t } => {
                let inside = AABB::hit(&slabs(&bbox, origin, dir), &ray_t);
                walk.answer_bounds(inside);
            }
            Probe::Sphere { sphere, ray_t } => {
                tested += 1;
                walk.answer_sphere(sphere.hit(&roots(&sphere, origin, dir), &ray_t));
            }
        }
    }
}

fn list_of(spheres: &[Sphere]) -> HittableList {
    let mut list = HittableList::new();
    for sp in spheres.iter() {
        list.add(Surface::Sphere(*sp));
    }
    list
}

fn brute_force(spheres: &[Sphere], origin: [f64; 3], dir: [f64; 3], ray_t: &Interval) -> Option<HitRecord> {
    let list = list_of(spheres);
    let hits: Vec<Option<HitRecord>> =
        spheres.iter().map(|sp| sp.hit(&roots(sp, origin, dir), ray_t)).collect();
    list.hit(&hits, ray_t)
}

fn scene() -> Vec<Sphere> {
    let mut out = Vec::new();
    let mut k = 0usize;
    for a in -3..4 {
        for b in -3..4 {
            let x = a as f64 * 1.3 + 0.17 * (k % 5) as f64;
            let y = 0.4 * ((k * 7) % 11) as f64 - 2.0;
            let z = b as f64 * 1.1 - 0.13 * (k % 3) as f64;
            out.push(stationary([x, y, z], 0.2 + 0.05 * (k % 4) as f64, k));
            k += 1;
        }
    }
    out
}

fn surfaces(spheres: &[Sphere]) -> Vec<Surface> {
    spheres.iter().map(|sp| Surface::Sphere(*sp)).collect()
}

fn leaves(surface: &Surface, out: &mut Vec<Sphere>) {
    match surface {
        Surface::Sphere(sp) => out.push(*sp),
        Surface::Node(n) => {
            leaves(&n.left, out);
            leaves(&n.right, out);
        }
        Surface::List(l) => {
            for o in l.objects.iter() {
                leaves(o, out);
            }
        }
    }
}

fn check_boxes(surface: &Surface) {
    if let Surface::Node(n) = surface {
        assert_eq!(n.bbox, AABB::from_boxes(n.left.bounding_box(), n.right.bounding_box()));
        check_boxes(&n.left);
        check_boxes(&n.right);
    }
}

fn sorted_by_material(mut spheres: Vec<Sphere>) -> Vec<usize> {
    spheres.sort_by_key(|sp| sp.material);
    spheres.iter().map(|sp| sp.material).collect()
}

#[test]
fn node_over_one_surface_holds_it_twice() {
    let mut objects = surfaces(&[stationary([0., 0., 0.], 1., 5)]);
    let node = BVHNode::new(&mut objects, 0, 1);
    assert_eq!(node.left, objects[0]);
    assert_eq!(node.right, objects[0]);
    assert_eq!(node.bbox, *objects[0].bounding_box());
}

#[test]
fn node_over_two_surfaces_keeps_their_order() {
    let a = stationary([5., 0., 0.], 1., 0);
    let b = stationary([-5., 0., 0.], 1., 1);
    let mut objects = surfaces(&[a, b]);
    let node = BVHNode::new(&mut objects, 0, 2);
    assert_eq!(node.left, Surface::Sphere(a));
    assert_eq!(node.right, Surface::Sphere(b));
    assert_eq!(node.bbox, AABB::new(iv(-6., 6.), iv(-1., 1.), iv(-1., 1.)));
    assert_eq!(objects, surfaces(&[a, b]));
}

#[test]
fn node_over_three_surfaces_splits_one_and_two() {
    let a = stationary([5., 0., 0.], 1., 0);
    let b = stationary([-5., 0., 0.], 1., 1);
    let c = stationary([0., 0., 0.], 1., 2);
    let mut objects = surfaces(&[a, b, c]);
    let node = BVHNode::new_on_axis(&mut objects, 0, 3, 0);
    assert_eq!(objects, surfaces(&[b, c, a]));
    match (&node.left, &node.right) {
        (Surface::Node(l), Surface::Node(r)) => {
            assert_eq!(l.left, Surface::Sphere(b));
            assert_eq!(l.right, Surface::Sphere(b));
            assert_eq!(r.left, Surface::Sphere(c));
            assert_eq!(r.right, Surface::Sphere(a));
        }
        _ => panic!("children of a node over three surfaces are nodes"),
    }
    assert_eq!(node.bbox, AABB::new(iv(-6., 6.), iv(-1., 1.), iv(-1., 1.)));
}

#[test]
fn build_keeps_every_surface_of_the_range_and_touches_no_other() {
    let spheres = scene();
    let mut objects = surfaces(&spheres);
    let n = objects.len();
    let node = BVHNode::new(&mut objects, 3, n - 4);
    for k in 0..3 {
        assert_eq!(objects[k], Surface::Sphere(spheres[k]));
    }
    for k in n - 4..n {
        assert_eq!(objects[k], Surface::Sphere(spheres[k]));
    }
    let after: Vec<Sphere> = objects[3..n - 4]
        .iter()
        .map(|o| match o {
            Surface::Sphere(sp) => *sp,
            _ => panic!("the list held spheres only"),
        })
        .collect();
    assert_eq!(sorted_by_material(after.clone()), sorted_by_material(spheres[3..n - 4].to_vec()));
    let mut below = Vec::new();
    leaves(&Surface::Node(Box::new(node)), &mut below);
    let mut seen: Vec<usize> = below.iter().map(|sp| sp.material).collect();
    seen.sort();
    seen.dedup();
    let expected: Vec<usize> = (3..n - 4).collect();
    assert_eq!(seen, expected);
}

#[test]
fn every_node_has_the_union_of_its_children_as_box() {
    let mut objects = surfaces(&scene());
    let n = objects.len();
    let node = BVHNode::new(&mut objects, 0, n);
    check_boxes(&Surface::Node(Box::new(node)));
}

#[test]
fn build_on_an_axis_leaves_the_halves_on_either_side() {
    for axis in 0..3 {
        let mut objects = surfaces(&scene());
        let n = objects.len();
        let _node = BVHNode::new_on_axis(&mut objects, 0, n, axis);
        let key = |o: &Surface| f(o.bounding_box().axis_interval(axis).min());
        let mid = n / 2;
        for i in 0..mid {
            for j in mid..n {
                assert!(key(&objects[i]) <= key(&objects[j]));
            }
        }
    }
}

#[test]
fn the_axis_is_drawn_among_all_three() {
    // Three spheres that sort differently along each axis.
    let a = stationary([0., 10., 20.], 1., 0);
    let b = stationary([10., 20., 0.], 1., 1);
    let c = stationary([20., 0., 10.], 1., 2);
    let by_axis = [[0usize, 1, 2], [2, 0, 1], [1, 2, 0]];
    let mut seen = [false; 3];
    for _ in 0..300 {
        let mut objects = surfaces(&[a, b, c]);
        let _node = BVHNode::new(&mut objects, 0, 3);
        let first = match &objects[0] {
            Surface::Sphere(sp) => sp.material,
            _ => panic!("the list held spheres only"),
        };
        let axis = by_axis.iter().position(|order| order[0] == first).unwrap();
        seen[axis] = true;
    }
    assert_eq!(seen, [true, true, true]);
}

#[test]
fn sort_range_sorts_stably_and_only_the_range() {
    let at = |x: f64, mat: usize| stationary([x, 0., 0.], 1., mat);
    let input = [at(9., 0), at(3., 1), at(1., 2), at(3., 3), at(2., 4), at(0., 5)];
    let mut objects = surfaces(&input);
    sort_range(&mut objects, 1, 5, 0);
    let order: Vec<usize> = objects
        .iter()
        .map(|o| match o {
            Surface::Sphere(sp) => sp.material,
            _ => panic!("the list held spheres only"),
        })
        .collect();
    assert_eq!(order, vec![0, 2, 4, 1, 3, 5]);
}

#[test]
fn sort_range_sorts_along_the_axis_asked_for() {
    let a = stationary([0., 10., 20.], 1., 0);
    let b = stationary([10., 20., 0.], 1., 1);
    let c = stationary([20., 0., 10.], 1., 2);
    let expected = [[0usize, 1, 2], [2, 0, 1], [1, 2, 0]];
    for axis in 0..3 {
        let mut objects = surfaces(&[a, b, c]);
        sort_range(&mut objects, 0, 3, axis);
        let order: Vec<usize> = objects
            .iter()
            .map(|o| match o {
                Surface::Sphere(sp) => sp.material,
                _ => panic!("the list held spheres only"),
            })
            .collect();
        assert_eq!(order, expected[axis].to_vec());
    }
}

#[test]
fn box_compare_is_less_only_for_a_lesser_minimum() {
    let a = Surface::Sphere(stationary([0., 0., 0.], 1., 0));
    let b = Surface::Sphere(stationary([5., -5., 0.], 1., 1));
    assert_eq!(box_compare(&a, &b, 0), Ordering::Less);
    assert_eq!(box_compare(&b, &a, 0), Ordering::Greater);
    assert_eq!(box_compare(&a, &b, 1), Ordering::Greater);
    assert_eq!(box_compare(&b, &a, 1), Ordering::Less);
    assert_eq!(box_compare(&a, &b, 2), Ordering::Greater);
    assert_eq!(box_compare(&a, &a, 2), Ordering::Greater);
    assert!(a.comes_before(&b, 0));
    assert!(!a.comes_before(&a, 0));
    // Against a NaN nothing is below, either way; in the order for sorting a NaN comes last.
    let odd = Surface::Sphere(stationary([f64::NAN, 0., 0.], 1., 2));
    assert_eq!(box_compare(&a, &odd, 0), Ordering::Greater);
    assert_eq!(box_compare(&odd, &a, 0), Ordering::Greater);
    assert!(a.comes_before(&odd, 0));
    assert!(!odd.comes_before(&a, 0));
}

#[test]
fn duplicate_copies_the_whole_surface() {
    let mut objects = surfaces(&scene());
    let n = objects.len();
    let node = Surface::Node(Box::new(BVHNode::new(&mut objects, 0, n)));
    assert_eq!(node.duplicate(), node);
}

#[test]
fn hierarchy_finds_what_the_linear_scan_finds() {
    let spheres = scene();
    let mut objects = surfaces(&spheres);
    let n = objects.len();
    let root = Surface::Node(Box::new(BVHNode::new(&mut objects, 0, n)));
    let origins = [[0., 0., -10.], [8., 1., 0.5], [-0.3, 6., 0.2], [0.1, -0.4, 0.3]];
    let mut found = 0;
    let mut missed = 0;
    let mut saved = false;
    for o in origins.iter() {
        for i in -6..7 {
            for j in -6..7 {
                let target = [i as f64 * 0.7, -0.5 + 0.1 * j as f64, j as f64 * 0.6];
                let d = minus(target, *o);
                for ray_t in [iv(0.001, f64::INFINITY), iv(0.001, 9.0), iv(5.0, 12.0)].iter() {
                    let (got, tested) = search(&root, *o, d, ray_t);
                    let expected = brute_force(&spheres, *o, d, ray_t);
                    assert_eq!(got.map(|r| r.t), expected.map(|r| r.t));
                    assert_eq!(got.map(|r| r.mat), expected.map(|r| r.mat));
                    assert_eq!(got, expected);
                    if got.is_some() {
                        found += 1;
                    } else {
                        missed += 1;
                    }
                    if tested < spheres.len() / 2 {
                        saved = true;
                    }
                }
            }
        }
    }
    assert!(found > 20);
    assert!(missed > 20);
    assert!(saved);
}

#[test]
fn search_of_a_sphere_asks_for_that_sphere_and_ends() {
    let sp = stationary([0., 0., 0.], 1., 3);
    let root = Surface::Sphere(sp);
    let ray_t = iv(0.001, 50.);
    let mut walk = root.hit(&ray_t);
    assert_eq!(walk.probe(), Probe::Sphere { sphere: sp, ray_t });
    let rec = sp.hit(&roots(&sp, [0., 0., -5.], [0., 0., 1.]), &ray_t);
    walk.answer_sphere(rec);
    assert_eq!(walk.probe(), Probe::Done { hit: rec });
    walk.answer_sphere(None);
    walk.answer_bounds(true);
    assert_eq!(walk.probe(), Probe::Done { hit: rec });
}

#[test]
fn search_visits_left_then_right_and_cuts_the_interval_off() {
    let near = stationary([0., 0., 0.], 1., 0);
    let far = stationary([0., 0., 10.], 1., 1);
    let mut objects = surfaces(&[far, near]);
    let node = BVHNode::new(&mut objects, 0, 2);
    let ray_t = iv(0.001, f64::INFINITY);
    let o = [0., 0., -5.];
    let d = [0., 0., 1.];
    let mut walk = node.hit(&ray_t);
    assert_eq!(walk.probe(), Probe::Bounds { bbox: node.bbox, ray_t });
    walk.answer_sphere(None);
    assert_eq!(walk.probe(), Probe::Bounds { bbox: node.bbox, ray_t });
    walk.answer_bounds(true);
    assert_eq!(walk.probe(), Probe::Sphere { sphere: far, ray_t });
    let far_hit = far.hit(&roots(&far, o, d), &ray_t);
    assert_eq!(far_hit.unwrap().t, s(14.));
    walk.answer_sphere(far_hit);
    let cut = iv(0.001, 14.);
    assert_eq!(walk.probe(), Probe::Sphere { sphere: near, ray_t: cut });
    let near_hit = near.hit(&roots(&near, o, d), &cut);
    assert_eq!(near_hit.unwrap().t, s(4.));
    walk.answer_sphere(near_hit);
    assert_eq!(walk.probe(), Probe::Done { hit: near_hit });
}

#[test]
fn search_keeps_the_left_hit_when_the_right_child_has_none_closer() {
    let near = stationary([0., 0., 0.], 1., 0);
    let far = stationary([0., 0., 10.], 1., 1);
    let mut objects = surfaces(&[near, far]);
    let node = BVHNode::new(&mut objects, 0, 2);
    let (got, tested) =
        search(&Surface::Node(Box::new(node)), [0., 0., -5.], [0., 0., 1.], &iv(0.001, f64::INFINITY));
    assert_eq!(got.unwrap().mat, 0);
    assert_eq!(got.unwrap().t, s(4.));
    assert_eq!(tested, 2);
}

#[test]
fn a_box_that_is_missed_hides_all_below_it() {
    let a = stationary([0., 0., 0.], 1., 0);
    let b = stationary([3., 0., 0.], 1., 1);
    let mut objects = surfaces(&[a, b]);
    let node = BVHNode::new(&mut objects, 0, 2);
    let ray_t = iv(0.001, f64::INFINITY);
    let mut walk = node.hit(&ray_t);
    walk.answer_bounds(false);
    assert_eq!(walk.probe(), Probe::Done { hit: None });
    let (got, tested) =
        search(&Surface::Node(Box::new(node)), [0., 5., -5.], [0., 0., 1.], &ray_t);
    assert!(got.is_none());
    assert_eq!(tested, 0);
}

#[test]
fn at_equal_distance_the_first_sphere_wins_in_the_hierarchy_and_in_the_list() {
    let a = stationary([0., 0., 0.], 1., 0);
    let b = stationary([0., 0., 0.], 1., 1);
    let mut objects = surfaces(&[a, b]);
    let node = BVHNode::new(&mut objects, 0, 2);
    let ray_t = iv(0.001, f64::INFINITY);
    let o = [0., 0., -5.];
    let d = [0., 0., 1.];
    // The right child is searched below the left hit, where it has nothing closer.
    let (got, _) = search(&Surface::Node(Box::new(node)), o, d, &ray_t);
    assert_eq!(got.unwrap().mat, 0);
    let expected = brute_force(&[a, b], o, d, &ray_t);
    assert_eq!(expected.unwrap().mat, 0);
    assert_eq!(got.unwrap().t, expected.unwrap().t);
}

#[test]
fn list_scan_keeps_the_first_of_the_closest() {
    let rec = |t: f64, mat: usize| {
        Some(HitRecord::new(v([0., 0., 0.]), s(t), s(-1.), v([0., 0., 1.]), mat))
    };
    let of = |n: usize| list_of(&vec![stationary([0., 0., 0.], 1., 0); n]);
    let ray_t = iv(0.001, 100.);
    assert_eq!(of(0).hit(&vec![], &ray_t), None);
    assert_eq!(of(2).hit(&vec![None, None], &ray_t), None);
    assert_eq!(of(4).hit(&vec![rec(5., 0), None, rec(3., 2), rec(4., 3)], &ray_t), rec(3., 2));
    assert_eq!(of(2).hit(&vec![rec(3., 0), rec(3., 1)], &ray_t), rec(3., 0));
    assert_eq!(of(2).hit(&vec![rec(100., 0), rec(200., 1)], &ray_t), None);
    assert_eq!(of(2).hit(&vec![rec(f64::NAN, 0), rec(7., 1)], &ray_t), rec(7., 1));
}

#[test]
fn list_grows_its_box_with_its_surfaces() {
    let mut list = HittableList::new();
    assert_eq!(list.count(), 0);
    assert_eq!(*list.bounding_box(), AABB::empty());
    let a = stationary([0., 0., 0.], 1., 0);
    let b = stationary([3., 0., 0.], 1., 1);
    list.add(Surface::Sphere(a));
    assert_eq!(*list.bounding_box(), a.bbox);
    list.add(Surface::Sphere(b));
    assert_eq!(list.count(), 2);
    assert_eq!(*list.bounding_box(), AABB::new(iv(-1., 4.), iv(-1., 1.), iv(-1., 1.)));
    assert_eq!(list.objects, surfaces(&[a, b]));
    list.clear();
    assert_eq!(list.count(), 0);
    assert_eq!(*list.bounding_box(), AABB::empty());
    list.add(Surface::Sphere(b));
    assert_eq!(*list.bounding_box(), b.bbox);
}

#[test]
fn list_of_one_surface_has_its_box() {
    let a = stationary([0., 0., 0.], 1., 0);
    let b = stationary([3., 0., 0.], 1., 1);
    let mut objects = surfaces(&[a, b]);
    let node = BVHNode::new(&mut objects, 0, 2);
    let bbox = node.bbox;
    let list = HittableList::from_hittable(Surface::Node(Box::new(node)));
    assert_eq!(list.count(), 1);
    assert_eq!(*list.bounding_box(), bbox);
}

#[test]
fn a_ray_along_a_face_of_the_box_misses_the_box_though_it_grazes_the_sphere() {
    let sp = stationary([0., 0., 0.], 1., 0);
    let other = stationary([0., 0., 10.], 1., 1);
    let mut objects = surfaces(&[sp, other]);
    let node = BVHNode::new(&mut objects, 0, 2);
    let ray_t = iv(0.001, f64::INFINITY);
    let o = [1., 0., -5.];
    let d = [0., 0., 1.];
    // The sphere is touched at one point.
    let grazed = sp.hit(&roots(&sp, o, d), &ray_t).unwrap();
    assert_eq!(grazed.t, s(5.));
    assert_eq!(brute_force(&[sp, other], o, d, &ray_t).unwrap().mat, 0);
    // The slab of the box along x is left at a NaN and entered at minus infinity: a miss.
    assert!(!AABB::hit(&slabs(&node.bbox, o, d), &ray_t));
    let (got, tested) = search(&Surface::Node(Box::new(node)), o, d, &ray_t);
    assert!(got.is_none());
    assert_eq!(tested, 0);
}

#[test]
fn a_list_that_hangs_in_the_hierarchy_is_searched_as_a_list() {
    let near = stationary([0., 0., 0.], 1., 0);
    let behind = stationary([0., 0., 3.], 1., 1);
    let far = stationary([0., 0., 10.], 1., 2);
    // The list holds the sphere behind before the near one.
    let list = list_of(&[behind, near]);
    let bbox = *list.bounding_box();
    let mut objects = vec![Surface::Sphere(far), Surface::List(list)];
    let node = BVHNode::new(&mut objects, 0, 2);
    assert_eq!(node.right, objects[1]);
    assert_eq!(node.bbox, AABB::from_boxes(&far.bbox, &bbox));
    let ray_t = iv(0.001, f64::INFINITY);
    let o = [0., 0., -5.];
    let d = [0., 0., 1.];
    let mut walk = node.hit(&ray_t);
    assert_eq!(walk.probe(), Probe::Bounds { bbox: node.bbox, ray_t });
    walk.answer_bounds(true);
    assert_eq!(walk.probe(), Probe::Sphere { sphere: far, ray_t });
    let far_hit = far.hit(&roots(&far, o, d), &ray_t);
    walk.answer_sphere(far_hit);
    // The list is met with the interval cut off at the hit so far, and each
    // of its surfaces is searched within that interval.
    let cut = iv(0.001, 14.);
    assert_eq!(walk.probe(), Probe::Sphere { sphere: behind, ray_t: cut });
    // An outcome that was not asked for changes nothing.
    walk.answer_bounds(false);
    assert_eq!(walk.probe(), Probe::Sphere { sphere: behind, ray_t: cut });
    let behind_hit = behind.hit(&roots(&behind, o, d), &cut);
    assert_eq!(behind_hit.unwrap().t, s(7.));
    walk.answer_sphere(behind_hit);
    assert_eq!(walk.probe(), Probe::Sphere { sphere: near, ray_t: cut });
    let near_hit = near.hit(&roots(&near, o, d), &cut);
    assert_eq!(near_hit.unwrap().t, s(4.));
    walk.answer_sphere(near_hit);
    assert_eq!(walk.probe(), Probe::Done { hit: near_hit });
    assert_eq!(walk.probe(), Probe::Done { hit: near_hit });
    let (got, tested) = search(&Surface::Node(Box::new(node)), o, d, &ray_t);
    assert_eq!(got, near_hit);
    assert_eq!(tested, 3);
}

#[test]
fn a_list_keeps_the_hit_so_far_when_it_has_nothing_closer() {
    let near = stationary([0., 0., 0.], 1., 0);
    let far = stationary([0., 0., 10.], 1., 1);
    let mut objects = vec![Surface::Sphere(near), Surface::List(list_of(&[far]))];
    let node = BVHNode::new(&mut objects, 0, 2);
    let ray_t = iv(0.001, f64::INFINITY);
    let o = [0., 0., -5.];
    let d = [0., 0., 1.];
    let mut walk = node.hit(&ray_t);
    walk.probe();
    walk.answer_bounds(true);
    let near_hit = near.hit(&roots(&near, o, d), &ray_t);
    walk.probe();
    walk.answer_sphere(near_hit);
    let cut = iv(0.001, 4.);
    assert_eq!(walk.probe(), Probe::Sphere { sphere: far, ray_t: cut });
    walk.answer_sphere(far.hit(&roots(&far, o, d), &cut));
    assert_eq!(walk.probe(), Probe::Done { hit: near_hit });
}

#[test]
fn the_search_of_a_list_is_its_linear_scan() {
    let spheres = scene();
    let list = list_of(&spheres);
    let origins = [[0., 0., -10.], [8., 1., 0.5], [0.1, -0.4, 0.3]];
    let mut found = 0;
    for o in origins.iter() {
        for i in -4..5 {
            for j in -4..5 {
                let d = minus([i as f64 * 0.9, -0.5 + 0.1 * j as f64, j as f64 * 0.8], *o);
                let ray_t = iv(0.001, f64::INFINITY);
                let hits: Vec<Option<HitRecord>> =
                    spheres.iter().map(|sp| sp.hit(&roots(sp, *o, d), &ray_t)).collect();
                let expected = list.hit(&hits, &ray_t);
                let root = Surface::List(list_of(&spheres));
                let (got, tested) = search(&root, *o, d, &ray_t);
                assert_eq!(got, expected);
                assert_eq!(tested, spheres.len());
                if got.is_some() {
                    found += 1;
                }
            }
        }
    }
    assert!(found > 5);
}

#[test]
fn an_empty_list_is_hit_by_nothing() {
    let root = Surface::List(HittableList::new());
    let ray_t = iv(0.001, f64::INFINITY);
    let mut walk = root.hit(&ray_t);
    assert_eq!(walk.probe(), Probe::Done { hit: None });
}

#[test]
fn a_list_of_lists_finds_the_closest_of_all() {
    let a = stationary([0., 0., 8.], 1., 0);
    let b = stationary([0., 0., 2.], 1., 1);
    let c = stationary([0., 0., 5.], 1., 2);
    let mut outer = HittableList::new();
    outer.add(Surface::List(list_of(&[a])));
    outer.add(Surface::List(list_of(&[])));
    outer.add(Surface::List(list_of(&[c, b])));
    assert_eq!(*outer.bounding_box(), AABB::new(iv(-1., 1.), iv(-1., 1.), iv(1., 9.)));
    let root = Surface::List(outer);
    let ray_t = iv(0.001, f64::INFINITY);
    let (got, tested) = search(&root, [0., 0., -5.], [0., 0., 1.], &ray_t);
    assert_eq!(got.unwrap().mat, 1);
    assert_eq!(got.unwrap().t, s(6.));
    assert_eq!(tested, 3);
    let (none, _) = search(&root, [0., 5., -5.], [0., 0., 1.], &ray_t);
    assert!(none.is_none());
}

#[test]
fn duplicate_copies_lists_with_all_they_hold() {
    let a = stationary([0., 0., 8.], 1., 0);
    let b = stationary([0., 0., 2.], 1., 1);
    let mut objects = surfaces(&[a, b]);
    let node = BVHNode::new(&mut objects, 0, 2);
    let mut list = list_of(&[b, a]);
    list.add(Surface::Node(Box::new(node)));
    list.add(Surface::List(list_of(&[a])));
    let root = Surface::List(list);
    assert_eq!(root.duplicate(), root);
}
