use rrt_planner::num::{abs_diff, interp_comp, isqrt_ceil, steer3};
use rrt_planner::readmap::OccupancyMap;
use rrt_planner::rrt::RRTPlanner;
use rrt_planner::structs::Point;

fn free_map(w: usize, h: usize) -> OccupancyMap {
    OccupancyMap::from_cells(w, h, 1, vec![false; w * h]).unwrap()
}

fn planner_on_free_map(step: i64) -> RRTPlanner {
    RRTPlanner::new(
        Point { x: 10, y: 10 },
        Point { x: 90, y: 90 },
        free_map(100, 100),
        step,
        5,
        100,
        10,
    )
}

fn d2(a: &Point, b: &Point) -> i64 {
    (a.x - b.x) * (a.x - b.x) + (a.y - b.y) * (a.y - b.y)
}

#[test]
fn isqrt_ceil_small_values() {
    assert_eq!(isqrt_ceil(0), 0);
    assert_eq!(isqrt_ceil(1), 1);
    assert_eq!(isqrt_ceil(2), 2);
    assert_eq!(isqrt_ceil(4), 2);
    assert_eq!(isqrt_ceil(10), 4);
    assert_eq!(isqrt_ceil(16), 4);
    assert_eq!(isqrt_ceil(10_000), 100);
}

#[test]
fn abs_diff_both_orders() {
    assert_eq!(abs_diff(7, -3), 10);
    assert_eq!(abs_diff(-3, 7), 10);
    assert_eq!(abs_diff(5, 5), 0);
}

#[test]
fn interp_endpoints_are_exact() {
    assert_eq!(interp_comp(3, 99, 0, 7), 3);
    assert_eq!(interp_comp(3, 99, 7, 7), 99);
    assert_eq!(interp_comp(99, 3, 5, 5), 3);
}

#[test]
fn interp_midpoint_rounds_toward_start() {
    // from 0 to 5 in 2 steps: the middle sample is 5 * 1 / 2 = 2.
    assert_eq!(interp_comp(0, 5, 1, 2), 2);
    // descending: from 5 to 0, the middle sample is 5 - 2 = 3.
    assert_eq!(interp_comp(5, 0, 1, 2), 3);
}

#[test]
fn steer_returns_target_within_step() {
    let p = planner_on_free_map(15);
    let near = Point { x: 10, y: 10 };
    let target = Point { x: 15, y: 15 };
    // squared distance 50 <= 225, so the target is reached exactly.
    assert_eq!(p.create_step(&near, &target), target);
    // a point exactly one step away is also reached exactly.
    let on_circle = Point { x: 25, y: 10 };
    assert_eq!(p.create_step(&near, &on_circle), on_circle);
}

#[test]
fn steer_caps_at_step_size_along_axis() {
    let p = planner_on_free_map(15);
    let near = Point { x: 0, y: 0 };
    let far = Point { x: 100, y: 0 };
    assert_eq!(p.create_step(&near, &far), Point { x: 15, y: 0 });
}

#[test]
fn steer_distance_never_exceeds_step() {
    let p = planner_on_free_map(15);
    let near = Point { x: 0, y: 0 };
    for &(x, y) in &[(33i64, 77i64), (1, 1), (16, 0), (-200, 350), (999, -999)] {
        let q = Point { x, y };
        let stepped = p.create_step(&near, &q);
        assert!(d2(&near, &stepped) <= 15 * 15);
    }
}

#[test]
fn steer3_diagonal_exact_value() {
    // |(100, 0, 0)| = 100 > 15: each component advances by its share.
    let (x, y, z) = steer3(0, 0, 0, 60, 80, 0, 15);
    // d = 100, so x = 60 * 15 / 100 = 9 and y = 80 * 15 / 100 = 12.
    assert_eq!((x, y, z), (9, 12, 0));
}

#[test]
fn random_point_stays_in_map_extent() {
    let p = planner_on_free_map(15);
    for _ in 0..50 {
        let q = p.random_point();
        assert!(0 <= q.x && q.x < 100);
        assert!(0 <= q.y && q.y < 100);
    }
}
