use navmesh::geometry::{area_exceeds, cross, distance_squared, isqrt, isqrt_ceil, orient, Point3};
use navmesh::motion::{advance, step_for};

#[test]
fn point_new_keeps_coordinates() {
    let p = Point3::new(1, -2, 3);
    assert_eq!(p, Point3 { x: 1, y: -2, z: 3 });
}

#[test]
fn isqrt_rounds_down() {
    assert_eq!(isqrt(0), 0);
    assert_eq!(isqrt(1), 1);
    assert_eq!(isqrt(15), 3);
    assert_eq!(isqrt(16), 4);
    assert_eq!(isqrt(17), 4);
    assert_eq!(isqrt(889_778), 943);
    assert_eq!(isqrt(u128::MAX), u64::MAX);
}

#[test]
fn isqrt_ceil_rounds_up() {
    assert_eq!(isqrt_ceil(0), 0);
    assert_eq!(isqrt_ceil(1), 1);
    assert_eq!(isqrt_ceil(15), 4);
    assert_eq!(isqrt_ceil(16), 4);
    assert_eq!(isqrt_ceil(17), 5);
    assert_eq!(isqrt_ceil(889_778), 944);
    let top: u128 = (u64::MAX as u128) * (u64::MAX as u128);
    assert_eq!(isqrt_ceil(top), u64::MAX);
    assert_eq!(isqrt_ceil(top - 1), u64::MAX);
}

#[test]
fn distance_squared_is_exact() {
    let a = Point3::new(1, 2, 3);
    let b = Point3::new(4, 6, 3);
    assert_eq!(distance_squared(a, b), 25);
    assert_eq!(distance_squared(b, a), 25);
    assert_eq!(distance_squared(a, a), 0);
    let lo = Point3::new(i32::MIN, i32::MIN, i32::MIN);
    let hi = Point3::new(i32::MAX, i32::MAX, i32::MAX);
    let side: u128 = u32::MAX as u128;
    assert_eq!(distance_squared(lo, hi), 3 * side * side);
}

#[test]
fn orient_tells_left_from_right() {
    let o = Point3::new(0, 0, 0);
    let p = Point3::new(10, 5, 0);
    assert_eq!(orient(o, p, Point3::new(0, -7, 10)), 100);
    assert_eq!(orient(o, p, Point3::new(0, 9, -10)), -100);
    assert_eq!(orient(o, p, Point3::new(20, 1, 0)), 0);
    assert_eq!(orient(o, o, Point3::new(3, 4, 5)), 0);
}

#[test]
fn cross_is_the_plane_normal() {
    let n = cross(Point3::new(0, 0, 0), Point3::new(1000, 0, 0), Point3::new(0, 0, 1000));
    assert_eq!((n.x, n.y, n.z), (0, -1_000_000, 0));
    let flat = cross(Point3::new(0, 0, 0), Point3::new(1, 1, 1), Point3::new(3, 3, 3));
    assert_eq!((flat.x, flat.y, flat.z), (0, 0, 0));
}

#[test]
fn step_for_rounds_down_to_grid_units_and_keeps_the_rest() {
    assert_eq!(step_for(0, 1000, 16), (16, 0));
    assert_eq!(step_for(0, 1500, 1), (1, 500));
    assert_eq!(step_for(0, 999, 1), (0, 999));
    assert_eq!(step_for(999, 999, 1), (1, 998));
    assert_eq!(step_for(1, 999, 1), (1, 0));
    assert_eq!(step_for(0, 0, 1000), (0, 0));
    assert_eq!(step_for(7, 0, 1000), (0, 7));
    let most: u64 = 999 + u32::MAX as u64 * u32::MAX as u64;
    assert_eq!(step_for(999, u32::MAX, u32::MAX), (most / 1000, (most % 1000) as u32));
}

#[test]
fn advance_shares_the_step_between_the_axes() {
    let origin = Point3::new(0, 0, 0);
    assert_eq!(advance(origin, Point3::new(30, 0, 40), 10), Point3::new(6, 0, 8));
    assert_eq!(advance(origin, Point3::new(-30, 0, -40), 10), Point3::new(-6, 0, -8));
    assert_eq!(advance(origin, Point3::new(20, 10, 20), 15), Point3::new(10, 5, 10));
}

#[test]
fn advance_stops_at_the_waypoint() {
    let origin = Point3::new(0, 0, 0);
    let wp = Point3::new(3, 0, 4);
    assert_eq!(advance(origin, wp, 5), wp);
    assert_eq!(advance(origin, wp, 500), wp);
    assert_eq!(advance(wp, wp, 0), wp);
    assert_eq!(advance(wp, wp, 7), wp);
}

#[test]
fn advance_with_no_step_stays() {
    let origin = Point3::new(0, 0, 0);
    assert_eq!(advance(origin, Point3::new(3, 0, 4), 0), origin);
}

#[test]
fn advance_moves_one_unit_when_every_share_rounds_to_nothing() {
    let origin = Point3::new(0, 0, 0);
    assert_eq!(advance(origin, Point3::new(5, 5, 5), 1), Point3::new(1, 0, 0));
    assert_eq!(advance(origin, Point3::new(2, -5, 5), 1), Point3::new(0, -1, 0));
    assert_eq!(advance(origin, Point3::new(2, 3, -5), 1), Point3::new(0, 0, -1));
}

#[test]
fn advance_never_exceeds_the_step_and_always_gains() {
    let targets = [
        Point3::new(1000, 0, 0),
        Point3::new(-700, 300, 200),
        Point3::new(3, 900, -4),
        Point3::new(i32::MAX, i32::MIN, i32::MAX),
    ];
    for wp in targets {
        for step in [1u64, 2, 7, 100, 1000] {
            let mut pos = Point3::new(10, -20, 30);
            let mut ticks = 0;
            while pos != wp && ticks < 50 {
                let next = advance(pos, wp, step);
                assert!(distance_squared(next, pos) <= (step as u128) * (step as u128));
                assert!(distance_squared(next, wp) < distance_squared(pos, wp));
                pos = next;
                ticks += 1;
            }
        }
    }
}

#[test]
fn cross_of_the_farthest_points_does_not_overflow() {
    let a = Point3::new(i32::MIN, i32::MIN, i32::MIN);
    let b = Point3::new(i32::MAX, i32::MIN, i32::MAX);
    let c = Point3::new(i32::MIN, i32::MAX, i32::MAX);
    let side: i128 = u32::MAX as i128;
    let n = cross(a, b, c);
    assert_eq!((n.x, n.y, n.z), (-side * side, -side * side, side * side));
    assert!(area_exceeds(a, b, c, u64::MAX));
}

#[test]
fn area_exceeds_compares_twice_the_area() {
    let a = Point3::new(0, 0, 0);
    let b = Point3::new(3, 0, 0);
    let c = Point3::new(0, 0, 4);
    assert!(area_exceeds(a, b, c, 0));
    assert!(area_exceeds(a, b, c, 11));
    assert!(!area_exceeds(a, b, c, 12));
    assert!(!area_exceeds(a, b, c, u64::MAX));
    assert!(!area_exceeds(a, b, Point3::new(9, 0, 0), 0));
    assert!(area_exceeds(a, Point3::new(2, 3, 6), Point3::new(6, 2, -3), 48));
    assert!(!area_exceeds(a, Point3::new(2, 3, 6), Point3::new(6, 2, -3), 49));
}
