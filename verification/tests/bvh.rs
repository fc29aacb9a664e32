use raytracer::bvh::{
    build_bvh, build_bvh_recursive, range_bounds, sort_range, union_bounds, BVHNode, ObjectInfo,
    LEAF_SIZE,
};
use raytracer::coord::{Axis, Coord, Vec3};
use raytracer::scene::{build_scene_bvh, intersect_scene, Scene};
use raytracer::traverse::{intersect_bvh, pick_nearer, scan_objects, scan_scene, HitInfo};
use std::cell::Cell;

fn key(value: f32) -> Coord {
    Coord::from_bits(value.to_bits()).unwrap()
}

fn value(c: Coord) -> f32 {
    f32::from_bits(c.to_bits())
}

fn corner(x: f32, y: f32, z: f32) -> Vec3 {
    Vec3::new(key(x), key(y), key(z))
}

fn widest_axis(bmin: Vec3, bmax: Vec3) -> Axis {
    let ex = value(bmax.x) - value(bmin.x);
    let ey = value(bmax.y) - value(bmin.y);
    let ez = value(bmax.z) - value(bmin.z);
    if ex > ey && ex > ez {
        Axis::X
    } else if ey > ez {
        Axis::Y
    } else {
        Axis::Z
    }
}

#[derive(Clone, Copy)]
struct Ball {
    center: [f32; 3],
    radius: f32,
}

impl Ball {
    fn info(&self, index: usize) -> ObjectInfo {
        let [x, y, z] = self.center;
        let r = self.radius;
        ObjectInfo {
            index,
            bmin: corner(x - r, y - r, z - r),
            bmax: corner(x + r, y + r, z + r),
            centroid: corner(x, y, z),
        }
    }

    fn hit(&self, origin: [f32; 3], dir: [f32; 3]) -> Option<f32> {
        let oc = [origin[0] - self.center[0], origin[1] - self.center[1], origin[2] - self.center[2]];
        let a = dir[0] * dir[0] + dir[1] * dir[1] + dir[2] * dir[2];
        let b = 2.0 * (oc[0] * dir[0] + oc[1] * dir[1] + oc[2] * dir[2]);
        let c = oc[0] * oc[0] + oc[1] * oc[1] + oc[2] * oc[2] - self.radius * self.radius;
        let disc = b * b - 4.0 * a * c;
        if disc < 0.0 {
            return None;
        }
        let root = disc.sqrt();
        let t1 = (-b - root) / (2.0 * a);
        let t2 = (-b + root) / (2.0 * a);
        if t1 > 0.001 {
            Some(t1)
        } else if t2 > 0.001 {
            Some(t2)
        } else {
            None
        }
    }
}

fn ray_meets_box(origin: [f32; 3], dir: [f32; 3], bmin: Vec3, bmax: Vec3) -> bool {
    let lo = [value(bmin.x), value(bmin.y), value(bmin.z)];
    let hi = [value(bmax.x), value(bmax.y), value(bmax.z)];
    let mut near = f32::NEG_INFINITY;
    let mut far = f32::INFINITY;
    for axis in 0..3 {
        let inv = if dir[axis].abs() < 1e-8 { 1e32 } else { 1.0 / dir[axis] };
        let mut t0 = (lo[axis] - 1e-3 - origin[axis]) * inv;
        let mut t1 = (hi[axis] + 1e-3 - origin[axis]) * inv;
        if t0 > t1 {
            std::mem::swap(&mut t0, &mut t1);
        }
        if t0 > near {
            near = t0;
        }
        if t1 < far {
            far = t1;
        }
    }
    near <= far
}

struct Lcg(u64);

impl Lcg {
    fn next(&mut self) -> f32 {
        self.0 = self.0.wrapping_mul(6364136223846793005).wrapping_add(1442695040888963407);
        ((self.0 >> 40) as f32) / ((1u64 << 24) as f32)
    }

    fn between(&mut self, lo: f32, hi: f32) -> f32 {
        lo + (hi - lo) * self.next()
    }
}

fn random_balls(rng: &mut Lcg, count: usize) -> Vec<Ball> {
    (0..count)
        .map(|_| Ball {
            center: [rng.between(-20.0, 20.0), rng.between(-5.0, 5.0), rng.between(-20.0, 20.0)],
            radius: rng.between(0.3, 2.0),
        })
        .collect()
}

fn scene_of(balls: &[Ball]) -> Scene {
    let mut scene = Scene::new();
    for (i, ball) in balls.iter().enumerate() {
        let info = ball.info(i);
        assert_eq!(scene.add_object(info.bmin, info.bmax, info.centroid), i);
    }
    scene
}

fn infos_of(balls: &[Ball]) -> Vec<ObjectInfo> {
    balls.iter().enumerate().map(|(i, b)| b.info(i)).collect()
}

fn count_under(node: &BVHNode) -> usize {
    match (&node.left, &node.right) {
        (None, None) => node.indices.len(),
        (l, r) => {
            l.as_ref().map_or(0, |n| count_under(n)) + r.as_ref().map_or(0, |n| count_under(n))
        }
    }
}

fn flatten(node: &BVHNode, out: &mut Vec<usize>) {
    if node.left.is_none() && node.right.is_none() {
        out.extend_from_slice(&node.indices);
    }
    if let Some(l) = &node.left {
        flatten(l, out);
    }
    if let Some(r) = &node.right {
        flatten(r, out);
    }
}

fn check_node(node: &BVHNode, infos: &[ObjectInfo]) {
    let mut under = Vec::new();
    flatten(node, &mut under);
    assert!(!under.is_empty());
    for axis in [Axis::X, Axis::Y, Axis::Z] {
        let lo = under.iter().map(|&i| infos[i].bmin.component(axis).key).min().unwrap();
        let hi = under.iter().map(|&i| infos[i].bmax.component(axis).key).max().unwrap();
        assert_eq!(node.bounds_min.component(axis).key, lo);
        assert_eq!(node.bounds_max.component(axis).key, hi);
    }
    if under.len() <= LEAF_SIZE {
        assert!(node.left.is_none() && node.right.is_none());
        assert_eq!(node.indices, under);
    } else {
        assert!(node.indices.is_empty());
        let left = node.left.as_ref().unwrap();
        let right = node.right.as_ref().unwrap();
        assert_eq!(count_under(left), under.len() / 2);
        assert_eq!(count_under(right), under.len() - under.len() / 2);
        let axis = widest_axis(node.bounds_min, node.bounds_max);
        let (mut l, mut r) = (Vec::new(), Vec::new());
        flatten(left, &mut l);
        flatten(right, &mut r);
        let left_max = l.iter().map(|&i| infos[i].centroid.component(axis).key).max().unwrap();
        let right_min = r.iter().map(|&i| infos[i].centroid.component(axis).key).min().unwrap();
        assert!(left_max <= right_min);
        check_node(left, infos);
        check_node(right, infos);
    }
}

#[test]
fn union_of_two_boxes() {
    let (lo, hi) = union_bounds(
        corner(0.0, 0.0, 0.0),
        corner(1.0, 1.0, 1.0),
        corner(-1.0, 0.5, 0.25),
        corner(0.5, 2.0, 0.75),
    );
    assert_eq!(lo, corner(-1.0, 0.0, 0.0));
    assert_eq!(hi, corner(1.0, 2.0, 1.0));
}

#[test]
fn bounds_of_a_range_ignore_the_rest() {
    let balls = [
        Ball { center: [100.0, 100.0, 100.0], radius: 1.0 },
        Ball { center: [0.0, 0.0, 0.0], radius: 1.0 },
        Ball { center: [3.0, -1.0, 0.5], radius: 0.5 },
        Ball { center: [-100.0, 0.0, 0.0], radius: 1.0 },
    ];
    let infos = infos_of(&balls);
    let (lo, hi) = range_bounds(&infos, 1, 3);
    assert_eq!(lo, corner(-1.0, -1.5, -1.0));
    assert_eq!(hi, corner(3.5, 1.0, 1.0));
    let (lo, hi) = range_bounds(&infos, 3, 4);
    assert_eq!(lo, corner(-101.0, -1.0, -1.0));
    assert_eq!(hi, corner(-99.0, 1.0, 1.0));
}

#[test]
fn sort_orders_a_range_by_centre_and_keeps_ties_in_place() {
    let xs = [9.0f32, 5.0, -1.0, 5.0, 2.0, -7.0, 0.0];
    let balls: Vec<Ball> = xs.iter().map(|&x| Ball { center: [x, -x, 1.0], radius: 1.0 }).collect();
    let mut infos = infos_of(&balls);
    sort_range(&mut infos, 1, 6, Axis::X);
    let order: Vec<usize> = infos.iter().map(|o| o.index).collect();
    assert_eq!(order, vec![0, 5, 2, 4, 1, 3, 6]);
    sort_range(&mut infos, 0, 7, Axis::Y);
    let order: Vec<usize> = infos.iter().map(|o| o.index).collect();
    assert_eq!(order, vec![0, 1, 3, 4, 6, 2, 5]);
    sort_range(&mut infos, 3, 3, Axis::Z);
    let same: Vec<usize> = infos.iter().map(|o| o.index).collect();
    assert_eq!(same, order);
}

#[test]
fn sort_agrees_with_a_stable_sort_on_many_ties() {
    let mut rng = Lcg(31);
    for count in [0usize, 1, 2, 3, 7, 64, 1000] {
        let balls: Vec<Ball> = (0..count)
            .map(|_| Ball { center: [(rng.next() * 12.0).floor() - 6.0, rng.next(), 0.0], radius: 1.0 })
            .collect();
        let mut infos = infos_of(&balls);
        let mut expected = infos.clone();
        expected.sort_by_key(|o| o.centroid.x.key);
        sort_range(&mut infos, 0, count, Axis::X);
        assert_eq!(infos, expected);
    }
}

#[test]
fn an_empty_scene_has_no_hierarchy() {
    let mut infos: Vec<ObjectInfo> = Vec::new();
    assert!(build_bvh(&mut infos, &widest_axis).is_none());
    let mut scene = Scene::new();
    build_scene_bvh(&mut scene, &widest_axis);
    assert!(scene.bvh.is_none());
    let hit = intersect_scene(&scene, &|_a: Vec3, _b: Vec3| true, &|_i: usize| Some(key(1.0)));
    assert_eq!(hit, None);
}

#[test]
fn up_to_eight_objects_make_one_leaf() {
    let mut rng = Lcg(7);
    for count in [1usize, 2, 8] {
        let balls = random_balls(&mut rng, count);
        let scene = infos_of(&balls);
        let mut infos = scene.clone();
        let root = build_bvh(&mut infos, &widest_axis).unwrap();
        assert!(root.left.is_none() && root.right.is_none());
        assert_eq!(root.indices, (0..count).collect::<Vec<usize>>());
        assert_eq!(infos, scene);
        check_node(&root, &scene);
    }
}

#[test]
fn nine_objects_split_four_and_five() {
    let balls: Vec<Ball> =
        (0..9).map(|i| Ball { center: [(8 - i) as f32 * 3.0, 0.0, 0.0], radius: 1.0 }).collect();
    let scene = infos_of(&balls);
    let mut infos = scene.clone();
    let root = build_bvh(&mut infos, &widest_axis).unwrap();
    assert!(root.indices.is_empty());
    let left = root.left.as_ref().unwrap();
    let right = root.right.as_ref().unwrap();
    assert_eq!(left.indices, vec![8, 7, 6, 5]);
    assert_eq!(right.indices, vec![4, 3, 2, 1, 0]);
    assert_eq!(root.bounds_min, corner(-1.0, -1.0, -1.0));
    assert_eq!(root.bounds_max, corner(25.0, 1.0, 1.0));
    assert_eq!(left.bounds_max, corner(10.0, 1.0, 1.0));
    assert_eq!(right.bounds_min, corner(11.0, -1.0, -1.0));
    let order: Vec<usize> = infos.iter().map(|o| o.index).collect();
    assert_eq!(order, vec![8, 7, 6, 5, 4, 3, 2, 1, 0]);
}

#[test]
fn a_built_hierarchy_is_a_balanced_median_split() {
    let mut rng = Lcg(2024);
    for count in [9usize, 17, 64, 100, 333] {
        let balls = random_balls(&mut rng, count);
        let scene = infos_of(&balls);
        let mut infos = scene.clone();
        let root = build_bvh(&mut infos, &widest_axis).unwrap();
        check_node(&root, &scene);
        let mut under = Vec::new();
        flatten(&root, &mut under);
        assert_eq!(under, infos.iter().map(|o| o.index).collect::<Vec<usize>>());
        under.sort();
        assert_eq!(under, (0..count).collect::<Vec<usize>>());
    }
}

#[test]
fn building_a_part_leaves_the_rest_of_the_list() {
    let mut rng = Lcg(5);
    let balls = random_balls(&mut rng, 40);
    let scene = infos_of(&balls);
    let mut infos = scene.clone();
    let node = build_bvh_recursive(&mut infos, 10, 30, &widest_axis);
    assert_eq!(&infos[..10], &scene[..10]);
    assert_eq!(&infos[30..], &scene[30..]);
    let mut under = Vec::new();
    flatten(&node, &mut under);
    assert_eq!(under, infos[10..30].iter().map(|o| o.index).collect::<Vec<usize>>());
    under.sort();
    assert_eq!(under, (10..30).collect::<Vec<usize>>());
    check_node(&node, &scene);
}

#[test]
fn the_axis_comes_from_the_caller() {
    let balls: Vec<Ball> = (0..9)
        .map(|i| Ball { center: [i as f32 * 10.0, (8 - i) as f32, 0.0], radius: 0.5 })
        .collect();
    let mut infos = infos_of(&balls);
    let root = build_bvh(&mut infos, &|_a: Vec3, _b: Vec3| Axis::Y).unwrap();
    assert_eq!(root.left.as_ref().unwrap().indices, vec![8, 7, 6, 5]);
    assert_eq!(root.right.as_ref().unwrap().indices, vec![4, 3, 2, 1, 0]);
}

#[test]
fn a_scan_keeps_the_first_of_the_nearest() {
    let hits = [Some(5.0f32), None, Some(2.0), Some(0.0005), Some(2.0), Some(f32::INFINITY), Some(-1.0)];
    let test = |i: usize| hits[i].map(key);
    assert_eq!(scan_scene(7, &test), Some(HitInfo { index: 2, t: key(2.0) }));
    assert_eq!(scan_scene(2, &test), Some(HitInfo { index: 0, t: key(5.0) }));
    assert_eq!(scan_scene(0, &test), None);
    assert_eq!(scan_objects(&vec![4, 2, 0], &test), Some(HitInfo { index: 4, t: key(2.0) }));
    assert_eq!(scan_objects(&vec![1, 3, 5, 6], &test), None);
    assert_eq!(scan_objects(&vec![], &test), None);
}

#[test]
fn the_guard_distance_itself_is_no_hit() {
    let at_guard = |_i: usize| Some(key(0.001));
    assert_eq!(scan_scene(1, &at_guard), None);
    let just_beyond = |_i: usize| Some(Coord { key: key(0.001).key + 1 });
    assert!(scan_scene(1, &just_beyond).is_some());
}

#[test]
fn of_two_hits_the_nearer_wins_and_the_first_on_a_tie() {
    let a = Some(HitInfo { index: 1, t: key(3.0) });
    let b = Some(HitInfo { index: 2, t: key(2.0) });
    let c = Some(HitInfo { index: 3, t: key(3.0) });
    assert_eq!(pick_nearer(a, b), b);
    assert_eq!(pick_nearer(b, a), b);
    assert_eq!(pick_nearer(a, c), a);
    assert_eq!(pick_nearer(None, a), a);
    assert_eq!(pick_nearer(a, None), a);
    assert_eq!(pick_nearer(None, None), None);
}

#[test]
fn a_missed_box_hides_what_is_under_it() {
    let balls: Vec<Ball> =
        (0..20).map(|i| Ball { center: [i as f32 * 3.0, 0.0, 0.0], radius: 1.0 }).collect();
    let mut infos = infos_of(&balls);
    let root = build_bvh(&mut infos, &widest_axis).unwrap();
    let tested = Cell::new(0usize);
    let test = |i: usize| {
        tested.set(tested.get() + 1);
        Some(key(1.0 + i as f32))
    };
    assert_eq!(intersect_bvh(&root, &|_a: Vec3, _b: Vec3| false, &test), None);
    assert_eq!(tested.get(), 0);
    let all = intersect_bvh(&root, &|_a: Vec3, _b: Vec3| true, &test);
    assert_eq!(all, Some(HitInfo { index: 0, t: key(1.0) }));
    assert_eq!(tested.get(), 20);
    let right_only = |_bmin: Vec3, bmax: Vec3| value(bmax.x) > 40.0;
    tested.set(0);
    let hit = intersect_bvh(&root, &right_only, &test);
    assert_eq!(hit, Some(HitInfo { index: 10, t: key(11.0) }));
    assert_eq!(tested.get(), 10);
}

#[test]
fn hierarchy_and_linear_scan_agree_on_random_scenes() {
    let mut rng = Lcg(99);
    for scene_no in 0..4 {
        let count = 50 + 37 * scene_no;
        let balls = random_balls(&mut rng, count);
        let plain = scene_of(&balls);
        let mut scene = scene_of(&balls);
        build_scene_bvh(&mut scene, &widest_axis);
        assert!(scene.bvh.is_some() && plain.bvh.is_none());
        assert_eq!(scene.objects, plain.objects);
        let mut hits = 0;
        for _ in 0..250 {
            let origin = [rng.between(-30.0, 30.0), rng.between(-8.0, 8.0), rng.between(-30.0, 30.0)];
            let mut dir = [rng.between(-1.0, 1.0), rng.between(-0.4, 0.4), rng.between(-1.0, 1.0)];
            let len = (dir[0] * dir[0] + dir[1] * dir[1] + dir[2] * dir[2]).sqrt();
            if len < 1e-3 {
                continue;
            }
            for d in dir.iter_mut() {
                *d /= len;
            }
            let meets = |bmin: Vec3, bmax: Vec3| ray_meets_box(origin, dir, bmin, bmax);
            let test = |i: usize| balls[i].hit(origin, dir).and_then(|t| Coord::from_bits(t.to_bits()));
            let through = intersect_scene(&scene, &meets, &test);
            let linear = intersect_scene(&plain, &meets, &test);
            assert_eq!(linear, scan_scene(count, &test));
            assert_eq!(through.map(|h| h.t), linear.map(|h| h.t));
            if let Some(h) = through {
                assert_eq!(test(h.index), Some(h.t));
                hits += 1;
            }
        }
        assert!(hits > 10);
    }
}

#[test]
fn a_unit_ball_is_hit_four_units_down_the_ray() {
    let ball = Ball { center: [0.0, 0.0, 0.0], radius: 1.0 };
    let origin = [0.0, 0.0, 5.0];
    let dir = [0.0, 0.0, -1.0];
    let test = |_i: usize| ball.hit(origin, dir).map(key);
    assert_eq!(scan_scene(1, &test), Some(HitInfo { index: 0, t: key(4.0) }));
    let mut scene = scene_of(&[ball]);
    build_scene_bvh(&mut scene, &widest_axis);
    let meets = |bmin: Vec3, bmax: Vec3| ray_meets_box(origin, dir, bmin, bmax);
    assert_eq!(intersect_scene(&scene, &meets, &test), Some(HitInfo { index: 0, t: key(4.0) }));
}

#[test]
fn a_scene_numbers_its_objects_in_the_order_added() {
    let balls = [
        Ball { center: [1.0, 2.0, 3.0], radius: 0.5 },
        Ball { center: [-1.0, 0.0, 0.0], radius: 2.0 },
    ];
    let scene = scene_of(&balls);
    assert_eq!(scene.objects, infos_of(&balls));
    assert!(scene.bvh.is_none());
    assert_eq!(scene.objects[1].bmin, corner(-3.0, -2.0, -2.0));
    assert_eq!(scene.objects[0].centroid, corner(1.0, 2.0, 3.0));
}

#[test]
fn an_object_added_after_the_build_is_not_in_the_hierarchy() {
    let mut rng = Lcg(11);
    let balls = random_balls(&mut rng, 12);
    let mut scene = scene_of(&balls);
    build_scene_bvh(&mut scene, &widest_axis);
    let late = Ball { center: [0.0, 0.0, 0.0], radius: 1.0 }.info(12);
    assert_eq!(scene.add_object(late.bmin, late.bmax, late.centroid), 12);
    let only_late = |i: usize| if i == 12 { Some(key(1.0)) } else { None };
    assert_eq!(intersect_scene(&scene, &|_a: Vec3, _b: Vec3| true, &only_late), None);
    build_scene_bvh(&mut scene, &widest_axis);
    assert_eq!(
        intersect_scene(&scene, &|_a: Vec3, _b: Vec3| true, &only_late),
        Some(HitInfo { index: 12, t: key(1.0) })
    );
    let mut under = Vec::new();
    flatten(scene.bvh.as_ref().unwrap(), &mut under);
    under.sort();
    assert_eq!(under, (0..13).collect::<Vec<usize>>());
}
