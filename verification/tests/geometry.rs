use differential_growth::geometry::distance;
use differential_growth::geometry::integer_sqrt;
use differential_growth::geometry::midpoint_of;
use differential_growth::geometry::squared_distance;
use differential_growth::geometry::valid_new_vertex;
use differential_growth::geometry::zone_coordinate;
use differential_growth::geometry::Point;
use differential_growth::geometry::SCALE;

#[test]
fn scale_is_a_billion() {
    assert_eq!(SCALE, 1_000_000_000);
}

#[test]
fn point_new_keeps_coordinates() {
    let p = Point::new(3, 7);
    assert_eq!(p.x, 3);
    assert_eq!(p.y, 7);
    assert_eq!(p, Point { x: 3, y: 7 });
}

#[test]
fn valid_new_vertex_accepts_the_closed_unit_square() {
    assert!(valid_new_vertex(0, 0));
    assert!(valid_new_vertex(SCALE, SCALE));
    assert!(valid_new_vertex(SCALE / 2, 1));
    assert!(!valid_new_vertex(SCALE + 1, 0));
    assert!(!valid_new_vertex(0, SCALE + 1));
    assert!(!valid_new_vertex(u32::MAX, u32::MAX));
}

#[test]
fn integer_sqrt_rounds_down() {
    assert_eq!(integer_sqrt(0), 0);
    assert_eq!(integer_sqrt(1), 1);
    assert_eq!(integer_sqrt(2), 1);
    assert_eq!(integer_sqrt(3), 1);
    assert_eq!(integer_sqrt(4), 2);
    assert_eq!(integer_sqrt(15), 3);
    assert_eq!(integer_sqrt(16), 4);
    assert_eq!(integer_sqrt(17), 4);
    assert_eq!(integer_sqrt(1_000_000_000_000_000_000), 1_000_000_000);
    assert_eq!(integer_sqrt(999_999_999_999_999_999), 999_999_999);
    assert_eq!(integer_sqrt(2_000_000_000_000_000_000), 1_414_213_562);
    assert_eq!(integer_sqrt(u64::MAX), u32::MAX);
}

#[test]
fn integer_sqrt_brackets_its_argument() {
    let mut n: u64 = 1;
    for _ in 0..200 {
        let r = integer_sqrt(n) as u128;
        assert!(r * r <= n as u128);
        assert!((r + 1) * (r + 1) > n as u128);
        n = n.wrapping_mul(6364136223846793005).wrapping_add(1442695040888963407);
    }
}

#[test]
fn squared_distance_is_symmetric_and_exact() {
    let a = Point { x: 0, y: 0 };
    let b = Point { x: 3, y: 4 };
    assert_eq!(squared_distance(a, b), 25);
    assert_eq!(squared_distance(b, a), 25);
    assert_eq!(squared_distance(a, a), 0);
    let c = Point { x: SCALE, y: SCALE };
    assert_eq!(squared_distance(a, c), 2_000_000_000_000_000_000);
}

#[test]
fn distance_rounds_down() {
    let a = Point { x: 0, y: 0 };
    assert_eq!(distance(a, Point { x: 3, y: 4 }), 5);
    assert_eq!(distance(a, Point { x: 1, y: 1 }), 1);
    assert_eq!(distance(a, Point { x: SCALE, y: SCALE }), 1_414_213_562);
    assert_eq!(distance(a, a), 0);
}

#[test]
fn midpoint_rounds_each_coordinate_down() {
    let a = Point { x: 0, y: 10 };
    let b = Point { x: 5, y: 20 };
    assert_eq!(midpoint_of(a, b), Point { x: 2, y: 15 });
    assert_eq!(midpoint_of(b, a), Point { x: 2, y: 15 });
    let c = Point { x: u32::MAX, y: u32::MAX };
    assert_eq!(midpoint_of(c, c), c);
}

#[test]
fn zone_coordinate_floors_and_keeps_the_border_inside() {
    assert_eq!(zone_coordinate(0, 4), 0);
    assert_eq!(zone_coordinate(249_999_999, 4), 0);
    assert_eq!(zone_coordinate(250_000_000, 4), 1);
    assert_eq!(zone_coordinate(500_000_000, 4), 2);
    assert_eq!(zone_coordinate(999_999_999, 4), 3);
    assert_eq!(zone_coordinate(SCALE, 4), 3);
    assert_eq!(zone_coordinate(u32::MAX, 4), 3);
    assert_eq!(zone_coordinate(SCALE, 1), 0);
    assert_eq!(zone_coordinate(123, 1), 0);
}
