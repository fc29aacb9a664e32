use raytracer::coord::{Axis, Coord, Vec3, EPSILON_KEY, INFINITY_KEY};

fn key(value: f32) -> Coord {
    Coord::from_bits(value.to_bits()).unwrap()
}

#[test]
fn keys_of_well_known_numbers() {
    assert_eq!(key(0.0).key, 0);
    assert_eq!(key(-0.0).key, 0);
    assert_eq!(key(1.0).key, 0x3F80_0000);
    assert_eq!(key(-1.0).key, -0x3F80_0000);
    assert_eq!(key(f32::INFINITY).key, INFINITY_KEY);
    assert_eq!(key(f32::NEG_INFINITY).key, -INFINITY_KEY);
    assert_eq!(key(0.001).key, EPSILON_KEY);
    assert_eq!(key(f32::MIN_POSITIVE).key, 0x0080_0000);
}

#[test]
fn patterns_that_are_no_numbers_have_no_key() {
    assert_eq!(Coord::from_bits(f32::NAN.to_bits()), None);
    assert_eq!(Coord::from_bits(0x7F80_0001), None);
    assert_eq!(Coord::from_bits(0xFF80_0001), None);
    assert_eq!(Coord::from_bits(0xFFFF_FFFF), None);
    assert!(Coord::from_bits(0x7F80_0000).is_some());
    assert!(Coord::from_bits(0xFF80_0000).is_some());
}

#[test]
fn keys_order_as_the_numbers_do() {
    let samples = [
        f32::NEG_INFINITY,
        -1.0e30,
        -1000.0,
        -1.5,
        -1.0,
        -0.001,
        -1.0e-40,
        0.0,
        1.0e-40,
        0.001,
        0.5,
        1.0,
        1.73,
        1000.0,
        3.0e38,
        f32::INFINITY,
    ];
    for a in samples {
        for b in samples {
            assert_eq!(a < b, key(a).key < key(b).key);
            assert_eq!(a == b, key(a) == key(b));
        }
    }
}

#[test]
fn bits_round_trip() {
    for value in [0.0f32, 1.0, -1.0, 0.001, -123.456, 1.0e-40, f32::INFINITY, f32::NEG_INFINITY] {
        let bits = key(value).to_bits();
        assert_eq!(f32::from_bits(bits), value);
        assert_eq!(Coord::from_bits(bits), Some(key(value)));
    }
    assert_eq!(key(-0.0).to_bits(), 0);
    assert_eq!(Coord { key: -1 }.to_bits(), 0x8000_0001);
}

#[test]
fn min_and_max_of_scalars() {
    assert_eq!(key(-2.0).min(key(3.0)), key(-2.0));
    assert_eq!(key(-2.0).max(key(3.0)), key(3.0));
    assert_eq!(key(3.0).min(key(-2.0)), key(-2.0));
    assert_eq!(key(3.0).max(key(3.0)), key(3.0));
}

#[test]
fn min_and_max_of_corners_go_by_component() {
    let a = Vec3::new(key(1.0), key(5.0), key(-3.0));
    let b = Vec3::new(key(2.0), key(-5.0), key(-3.5));
    assert_eq!(a.min(b), Vec3::new(key(1.0), key(-5.0), key(-3.5)));
    assert_eq!(a.max(b), Vec3::new(key(2.0), key(5.0), key(-3.0)));
    assert_eq!(a.component(Axis::X), key(1.0));
    assert_eq!(a.component(Axis::Y), key(5.0));
    assert_eq!(a.component(Axis::Z), key(-3.0));
}
