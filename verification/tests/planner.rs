use rrt_planner::readmap::OccupancyMap;
use rrt_planner::readmap3d::OccupancyMap3D;
use rrt_planner::rrt::RRTPlanner;
use rrt_planner::rrt3d::RRTPlanner3D;
use rrt_planner::structs::Point;
use rrt_planner::structs3d::Point3;

fn d2(a: &Point, b: &Point) -> i64 {
    (a.x - b.x) * (a.x - b.x) + (a.y - b.y) * (a.y - b.y)
}

fn d2_3(a: &Point3, b: &Point3) -> i64 {
    (a.x - b.x) * (a.x - b.x) + (a.y - b.y) * (a.y - b.y) + (a.z - b.z) * (a.z - b.z)
}

#[test]
fn free_grid_plan_succeeds_and_connects_start_to_goal() {
    let map = OccupancyMap::from_cells(100, 100, 1, vec![false; 100 * 100]).unwrap();
    let start = Point { x: 10, y: 10 };
    let goal = Point { x: 90, y: 90 };
    let mut planner = RRTPlanner::new(start, goal, map, 15, 5, 5000, 10);
    let path = planner.RRT().expect("a free grid must be solvable");
    assert!(path.len() >= 2);
    assert_eq!(path[0], start);
    let last = path[path.len() - 1];
    assert!(last == goal || d2(&last, &goal) <= 5 * 5);
}

#[test]
fn separating_band_makes_planning_fail() {
    // a full-height obstacle band at x in [45, 55] leaves no corridor.
    let mut cells = vec![false; 100 * 100];
    for y in 0..100 {
        for x in 45..=55 {
            cells[y * 100 + x] = true;
        }
    }
    let map = OccupancyMap::from_cells(100, 100, 1, cells).unwrap();
    let start = Point { x: 10, y: 50 };
    let goal = Point { x: 90, y: 50 };
    let mut planner = RRTPlanner::new(start, goal, map, 15, 5, 300, 20);
    assert!(planner.RRT().is_none());
    assert!(planner.path_records().is_none());
    // the tree never crossed the band: the interpolated collision samples
    // hit every column an edge passes through.
    for (x, _y, _parent) in planner.node_records() {
        assert!(x < 45);
    }
}

#[test]
fn full_goal_bias_succeeds_in_few_iterations() {
    // with goal bias one, every sample is the goal; a straight free line
    // from start to goal must be found almost immediately.
    let map =
        OccupancyMap3D::replicate_from(100, 100, 1, vec![false; 100 * 100], 2, 10).unwrap();
    let start = Point3 { x: 10, y: 10, z: 0 };
    let goal = Point3 { x: 90, y: 90, z: 10 };
    let mut planner = RRTPlanner3D::new(start, goal, map, 15, 5)
        .with_goal_bias(1000)
        .with_max_iter(50)
        .with_collision_steps(20);
    let path = planner.plan().expect("full goal bias on a free map must succeed");
    assert_eq!(path[0], start);
    let last = path[path.len() - 1];
    assert!(last == goal || d2_3(&last, &goal) <= 5 * 5);
    assert_eq!(planner.path().unwrap(), &path);
}

#[test]
fn full_bias_free_corridor_within_budget_must_succeed() {
    // the whole box between start and goal is free, the bias is one, the
    // step is at least two, and the budget exceeds the squared start-goal
    // distance: the planner's contract itself promises success here.
    let map =
        OccupancyMap3D::replicate_from(20, 20, 1, vec![false; 400], 2, 10).unwrap();
    let start = Point3 { x: 1, y: 1, z: 0 };
    let goal = Point3 { x: 9, y: 8, z: 10 };
    // squared distance 64 + 49 + 100 = 213 < 300 iterations
    let mut planner = RRTPlanner3D::new(start, goal, map, 3, 2)
        .with_goal_bias(1000)
        .with_max_iter(300)
        .with_collision_steps(20);
    let path = planner.plan().expect("promised by the planner's contract");
    assert_eq!(path[0], start);
    assert_eq!(path[path.len() - 1], goal);
}

#[test]
fn biased_sampler_at_probability_one_returns_goal() {
    let map =
        OccupancyMap3D::replicate_from(10, 10, 1, vec![false; 100], 2, 10).unwrap();
    let start = Point3 { x: 1, y: 1, z: 0 };
    let goal = Point3 { x: 8, y: 8, z: 10 };
    let planner = RRTPlanner3D::new(start, goal, map, 3, 2).with_goal_bias(1000);
    for _ in 0..20 {
        assert_eq!(planner.random_point(), goal);
    }
}

#[test]
fn builders_clamp_their_arguments() {
    let map =
        OccupancyMap3D::replicate_from(10, 10, 1, vec![false; 100], 2, 10).unwrap();
    let planner = RRTPlanner3D::new(
        Point3 { x: 1, y: 1, z: 0 },
        Point3 { x: 8, y: 8, z: 10 },
        map,
        3,
        2,
    );
    assert_eq!(planner.goal_bias, 50);
    assert_eq!(planner.max_iter, 20_000);
    assert_eq!(planner.collision_steps, 20);
    let planner = planner.with_goal_bias(1500).with_max_iter(77).with_collision_steps(-4);
    assert_eq!(planner.goal_bias, 1000);
    assert_eq!(planner.max_iter, 77);
    assert_eq!(planner.collision_steps, 1);
}

#[test]
fn node_records_carry_parent_indices() {
    let map =
        OccupancyMap3D::replicate_from(100, 100, 1, vec![false; 100 * 100], 2, 10).unwrap();
    let start = Point3 { x: 10, y: 10, z: 0 };
    let goal = Point3 { x: 90, y: 90, z: 10 };
    let mut planner = RRTPlanner3D::new(start, goal, map, 15, 5)
        .with_goal_bias(1000)
        .with_max_iter(50)
        .with_collision_steps(20);
    let path = planner.plan().expect("full goal bias on a free map must succeed");
    let records = planner.node_records();
    assert_eq!(records.len(), planner.tree.nodes.len());
    assert_eq!(records[0], (10, 10, 0, -1));
    for (i, &(_x, _y, _z, parent)) in records.iter().enumerate().skip(1) {
        assert!(0 <= parent && (parent as usize) < i);
    }
    let path_rows = planner.path_records().unwrap();
    assert_eq!(path_rows.len(), path.len());
    assert_eq!(path_rows[0], (10, 10, 0));
}

#[test]
fn planner_2d_records_found_path() {
    let map = OccupancyMap::from_cells(50, 50, 1, vec![false; 50 * 50]).unwrap();
    let start = Point { x: 5, y: 5 };
    let goal = Point { x: 40, y: 40 };
    let mut planner = RRTPlanner::new(start, goal, map, 10, 4, 5000, 10);
    let path = planner.RRT().expect("a free grid must be solvable");
    let rows = planner.path_records().expect("a found path must export");
    assert_eq!(rows.len(), path.len());
    assert_eq!(rows[0], (5, 5));
    let recs = planner.node_records();
    assert_eq!(recs.len(), planner.tree.nodes().len());
    assert_eq!(recs[0], (5, 5, -1));
}
