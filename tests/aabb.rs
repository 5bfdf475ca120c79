use graphics_engine::aabb::{longest_axis_of, slab_test, Corner, AABB};
use graphics_engine::key::{bits_from_key, key_from_bits};

fn key(v: f32) -> i32 {
    key_from_bits(if v == 0.0 { 0.0f32 } else { v }.to_bits())
}

fn value(k: i32) -> f32 {
    f32::from_bits(bits_from_key(k))
}

fn corner(x: f32, y: f32, z: f32) -> Corner {
    Corner::new(key(x), key(y), key(z))
}

fn boxed(min: (f32, f32, f32), max: (f32, f32, f32)) -> AABB {
    AABB::with_bounds(corner(min.0, min.1, min.2), corner(max.0, max.1, max.2))
}

fn extent(a: i32, b: i32) -> i32 {
    key(value(b) - value(a))
}

#[test]
fn merge_is_commutative_and_minimal() {
    let a = boxed((0.0, -1.0, 2.0), (1.0, 1.0, 3.0));
    let b = boxed((-2.0, 0.5, 2.5), (0.5, 4.0, 2.75));
    let m = a.merge(b);
    assert_eq!(m, b.merge(a));
    assert_eq!(m, boxed((-2.0, -1.0, 2.0), (1.0, 4.0, 3.0)));
    assert!(m.contains(corner(0.0, 0.0, 2.5)));
    assert!(m.contains(corner(-2.0, 4.0, 3.0)));
    assert!(!m.contains(corner(1.5, 0.0, 2.5)));
}

#[test]
fn merge_with_empty_is_identity() {
    let a = boxed((0.0, -1.0, 2.0), (1.0, 1.0, 3.0));
    assert_eq!(a.merge(AABB::empty()), a);
    assert_eq!(AABB::empty().merge(a), a);
    assert_eq!(AABB::full().merge(a), AABB::full());
}

#[test]
fn merge_is_associative() {
    let a = boxed((0.0, 0.0, 0.0), (1.0, 1.0, 1.0));
    let b = boxed((2.0, -3.0, 0.5), (2.5, 0.0, 0.75));
    let c = boxed((-1.0, 5.0, -5.0), (0.0, 6.0, 5.0));
    assert_eq!(a.merge(b).merge(c), a.merge(b.merge(c)));
}

#[test]
fn full_box_is_recognised() {
    assert!(AABB::full().is_full());
    assert!(!AABB::empty().is_full());
    assert!(!boxed((0.0, 0.0, 0.0), (1.0, 1.0, 1.0)).is_full());
    assert!(AABB::full().contains(corner(1e30, -1e30, 0.0)));
}

#[test]
fn longest_axis_ties_go_to_later_axis() {
    assert_eq!(longest_axis_of(corner(5.0, 5.0, 3.0)), 1);
    assert_eq!(longest_axis_of(corner(5.0, 3.0, 5.0)), 2);
    assert_eq!(longest_axis_of(corner(5.0, 5.0, 5.0)), 2);
    assert_eq!(longest_axis_of(corner(6.0, 5.0, 5.0)), 0);
    assert_eq!(longest_axis_of(corner(1.0, 2.0, 3.0)), 2);
}

#[test]
fn longest_axis_of_box_measures_extents() {
    let b = boxed((0.0, 10.0, -1.0), (5.0, 15.0, 2.0));
    assert_eq!(b.size(&extent), corner(5.0, 5.0, 3.0));
    assert_eq!(b.longest_axis(&extent), 1);
    let c = boxed((-4.0, 0.0, 0.0), (4.0, 1.0, 1.0));
    assert_eq!(c.longest_axis(&extent), 0);
}

fn slabs(b: AABB, origin: (f32, f32, f32), dir: (f32, f32, f32)) -> bool {
    let o = [origin.0, origin.1, origin.2];
    let d = [dir.0, dir.1, dir.2];
    let slab = |lo: i32, hi: i32, a: usize| (key((value(lo) - o[a]) / d[a]), key((value(hi) - o[a]) / d[a]));
    let by_method = b.intersect(&slab);
    let by_intervals = slab_test(slab(b.min.x, b.max.x, 0), slab(b.min.y, b.max.y, 1), slab(b.min.z, b.max.z, 2));
    assert_eq!(by_method, by_intervals);
    by_method
}

#[test]
fn slab_test_hits_box_ahead() {
    let b = boxed((-1.0, -1.0, -1.0), (1.0, 1.0, 1.0));
    assert!(slabs(b, (0.0, 0.0, 5.0), (0.0, 0.0, -1.0)));
    assert!(slabs(b, (3.0, 3.0, 3.0), (-1.0, -1.0, -1.0)));
}

#[test]
fn slab_test_misses_box_behind_or_aside() {
    let b = boxed((-1.0, -1.0, -1.0), (1.0, 1.0, 1.0));
    assert!(!slabs(b, (0.0, 0.0, 5.0), (0.0, 0.0, 1.0)));
    assert!(!slabs(b, (3.0, 0.0, 5.0), (0.0, 0.0, -1.0)));
    assert!(!slabs(b, (0.0, 0.0, 5.0), (1.0, 0.0, -0.1)));
}

#[test]
fn slab_test_accepts_origin_inside_box() {
    let b = boxed((-1.0, -1.0, -1.0), (1.0, 1.0, 1.0));
    assert!(slabs(b, (0.0, 0.0, 0.0), (0.0, 1.0, 0.0)));
}

#[test]
fn slab_test_on_raw_intervals() {
    assert!(slab_test((1, 5), (2, 6), (4, 3)));
    assert!(!slab_test((1, 2), (3, 4), (0, 9)));
    assert!(!slab_test((-9, -3), (-8, -2), (-7, -1 - 1)));
    assert!(slab_test((5, 1), (6, 2), (3, 4)));
}

fn midpoint(a: i32, b: i32) -> i32 {
    key(value(a) + (value(b) - value(a)) / 2.0)
}

#[test]
fn center_is_midpoint_of_each_axis() {
    let b = boxed((0.0, -4.0, 1.0), (2.0, 4.0, 2.0));
    assert_eq!(b.center(&midpoint), corner(1.0, 0.0, 1.5));
}

#[test]
fn around_three_points_is_least_box() {
    let b = AABB::around(corner(0.0, 2.0, -1.0), corner(-3.0, 1.0, 0.5), corner(1.0, 5.0, 0.0));
    assert_eq!(b, boxed((-3.0, 1.0, -1.0), (1.0, 5.0, 0.5)));
}
