use raytracer::coord::Coord;
use raytracer::geometry::{first_beyond_guard, march, order_crossing, ray_aabb_intersect, slab_hit};
use std::cell::Cell;

fn key(value: f32) -> Coord {
    Coord::from_bits(value.to_bits()).unwrap()
}

fn pair(a: f32, b: f32) -> (Coord, Coord) {
    (key(a), key(b))
}

/// The crossings of the slabs of the box from `lo` to `hi` by the ray from `origin` along `dir`.
fn crossings(origin: [f32; 3], dir: [f32; 3], lo: [f32; 3], hi: [f32; 3]) -> [(Coord, Coord); 3] {
    let one = |axis: usize| pair((lo[axis] - origin[axis]) / dir[axis], (hi[axis] - origin[axis]) / dir[axis]);
    [one(0), one(1), one(2)]
}

#[test]
fn a_crossing_is_put_in_order() {
    assert_eq!(order_crossing(pair(3.0, -1.0)), pair(-1.0, 3.0));
    assert_eq!(order_crossing(pair(-1.0, 3.0)), pair(-1.0, 3.0));
    assert_eq!(order_crossing(pair(2.0, 2.0)), pair(2.0, 2.0));
    assert_eq!(
        order_crossing(pair(f32::INFINITY, f32::NEG_INFINITY)),
        pair(f32::NEG_INFINITY, f32::INFINITY)
    );
}

#[test]
fn the_first_root_beyond_the_guard_is_taken() {
    assert_eq!(first_beyond_guard(key(4.0), key(6.0)), Some(key(4.0)));
    assert_eq!(first_beyond_guard(key(-1.0), key(1.0)), Some(key(1.0)));
    assert_eq!(first_beyond_guard(key(0.0005), key(2.0)), Some(key(2.0)));
    assert_eq!(first_beyond_guard(key(0.001), key(0.002)), Some(key(0.002)));
    assert_eq!(first_beyond_guard(key(-3.0), key(-1.0)), None);
    assert_eq!(first_beyond_guard(key(-3.0), key(0.001)), None);
}

#[test]
fn a_ray_along_an_axis_hits_the_near_face_of_a_cube() {
    let [x, y, z] = crossings([0.0, 0.0, 5.0], [1e-9, 1e-9, -1.0], [-0.5; 3], [0.5; 3]);
    assert_eq!(slab_hit(x, y, z), Some(key(4.5)));
    assert!(ray_aabb_intersect(x, y, z));
}

#[test]
fn a_ray_from_inside_a_cube_hits_the_far_face() {
    let [x, y, z] = crossings([0.0, 0.0, 0.0], [1e-9, 1e-9, 1.0], [-1.0; 3], [1.0; 3]);
    assert_eq!(slab_hit(x, y, z), Some(key(1.0)));
}

#[test]
fn a_cube_behind_the_ray_is_not_hit_but_its_box_is_crossed() {
    let [x, y, z] = crossings([0.0, 0.0, 5.0], [1e-9, 1e-9, 1.0], [-0.5; 3], [0.5; 3]);
    assert_eq!(slab_hit(x, y, z), None);
    assert!(ray_aabb_intersect(x, y, z));
}

#[test]
fn a_ray_that_passes_beside_a_box_misses_it() {
    let [x, y, z] = crossings([3.0, 0.0, 5.0], [1e-9, 1e-9, -1.0], [-0.5; 3], [0.5; 3]);
    assert_eq!(slab_hit(x, y, z), None);
    assert!(!ray_aabb_intersect(x, y, z));
    let [x, y, z] = crossings([0.0, 3.0, 5.0], [0.5, 0.0001, -0.8], [-0.5; 3], [0.5; 3]);
    assert!(!ray_aabb_intersect(x, y, z));
}

#[test]
fn a_diagonal_ray_enters_at_the_last_slab() {
    let x = pair(1.0, 3.0);
    let y = pair(4.0, 2.0);
    let z = pair(0.5, 5.0);
    assert_eq!(slab_hit(x, y, z), Some(key(2.0)));
    assert!(ray_aabb_intersect(x, y, z));
    assert_eq!(slab_hit(x, pair(3.5, 4.0), z), None);
    assert!(!ray_aabb_intersect(x, pair(3.5, 4.0), z));
    assert!(ray_aabb_intersect(x, pair(3.0, 4.0), z));
    assert_eq!(slab_hit(x, pair(3.0, 4.0), z), Some(key(3.0)));
}

#[test]
fn a_march_stops_at_the_first_sample_inside() {
    let asked = Cell::new(0usize);
    let inside = |i: usize| {
        asked.set(asked.get() + 1);
        i >= 37 && i != 40
    };
    assert_eq!(march(100, &inside), Some(37));
    assert_eq!(asked.get(), 38);
    assert_eq!(march(37, &inside), None);
    assert_eq!(march(0, &|_i: usize| true), None);
    assert_eq!(march(1, &|_i: usize| true), Some(0));
    assert_eq!(march(100, &|_i: usize| false), None);
}

#[test]
fn a_box_around_a_crossed_box_is_crossed() {
    let inner = [pair(2.0, 3.0), pair(2.5, 4.0), pair(1.0, 2.75)];
    let outer = [pair(5.0, 1.0), pair(2.0, 4.5), pair(0.0, 3.0)];
    assert!(ray_aabb_intersect(inner[0], inner[1], inner[2]));
    assert!(ray_aabb_intersect(outer[0], outer[1], outer[2]));
    assert_eq!(slab_hit(inner[0], inner[1], inner[2]), Some(key(2.5)));
    assert_eq!(slab_hit(outer[0], outer[1], outer[2]), Some(key(2.0)));
}
