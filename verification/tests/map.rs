use rrt_planner::readmap::{is_black, MapError, OccupancyMap};
use rrt_planner::readmap3d::OccupancyMap3D;
use rrt_planner::structs::Point;
use rrt_planner::structs3d::Point3;

#[test]
fn black_pixels_are_obstacles() {
    assert!(is_black(0, 0, 0));
    assert!(is_black(10, 10, 10));
    assert!(!is_black(11, 0, 0));
    assert!(!is_black(0, 200, 0));
    assert!(!is_black(255, 255, 255));
}

#[test]
fn from_cells_rejects_bad_input() {
    assert_eq!(
        OccupancyMap::from_cells(0, 5, 1, vec![]).unwrap_err(),
        MapError::EmptyGrid
    );
    assert_eq!(
        OccupancyMap::from_cells(5, 5, 0, vec![false; 25]).unwrap_err(),
        MapError::BadCellSize
    );
    assert_eq!(
        OccupancyMap::from_cells(5, 5, 1_000_000, vec![false; 25]).unwrap_err(),
        MapError::TooLarge
    );
    assert_eq!(
        OccupancyMap::from_cells(5, 5, 1, vec![false; 24]).unwrap_err(),
        MapError::WrongCellCount
    );
    assert!(OccupancyMap::from_cells(5, 5, 1, vec![false; 25]).is_ok());
}

#[test]
fn replicate_from_rejects_bad_input() {
    assert_eq!(
        OccupancyMap3D::replicate_from(5, 5, 1, vec![false; 25], 0, 1).unwrap_err(),
        MapError::EmptyGrid
    );
    assert_eq!(
        OccupancyMap3D::replicate_from(5, 5, 1, vec![false; 25], 3, 0).unwrap_err(),
        MapError::BadCellSize
    );
    assert_eq!(
        OccupancyMap3D::replicate_from(5, 5, 1, vec![false; 25], 2_000_000, 1_000,
        ).unwrap_err(),
        MapError::TooLarge
    );
    assert!(OccupancyMap3D::replicate_from(5, 5, 1, vec![false; 25], 3, 10).is_ok());
}

#[test]
fn out_of_bounds_points_are_occupied() {
    let m = OccupancyMap::from_cells(10, 10, 1, vec![false; 100]).unwrap();
    assert!(m.is_obstructed(-1, 5));
    assert!(m.is_obstructed(5, -1));
    assert!(m.is_obstructed(10, 5));
    assert!(m.is_obstructed(5, 10));
    assert!(!m.is_obstructed(0, 0));
    assert!(!m.is_obstructed(9, 9));
}

#[test]
fn coordinates_round_to_nearest_cell() {
    // 10x10 grid, 10 units per cell; only cell (1, 0) is an obstacle.
    let mut cells = vec![false; 100];
    cells[1] = true;
    let m = OccupancyMap::from_cells(10, 10, 10, cells).unwrap();
    // 5 rounds up to cell 1, 4 rounds down to cell 0.
    assert!(m.is_obstructed(5, 0));
    assert!(m.is_obstructed(14, 4));
    assert!(!m.is_obstructed(4, 0));
    assert!(!m.is_obstructed(15, 0));
    // 96 rounds to cell 10, outside the grid; 94 rounds to cell 9, inside.
    assert!(m.is_obstructed(96, 0));
    assert!(!m.is_obstructed(94, 0));
}

#[test]
fn degenerate_segment_matches_point_query() {
    let mut cells = vec![false; 100];
    cells[55] = true; // cell (5, 5)
    let m = OccupancyMap::from_cells(10, 10, 1, cells).unwrap();
    let free = Point { x: 2, y: 2 };
    let blocked = Point { x: 5, y: 5 };
    for steps in [1, 3, 20] {
        assert!(!m.is_path_colliding(&free, &free, steps));
        assert!(m.is_path_colliding(&blocked, &blocked, steps));
    }
    // a non-positive step count is clamped, not an error.
    assert!(!m.is_path_colliding(&free, &free, 0));
    assert!(m.is_path_colliding(&blocked, &blocked, -7));
}

#[test]
fn segment_through_obstacle_collides() {
    // a vertical wall of obstacles at x = 5.
    let mut cells = vec![false; 100];
    for y in 0..10 {
        cells[y * 10 + 5] = true;
    }
    let m = OccupancyMap::from_cells(10, 10, 1, cells).unwrap();
    let a = Point { x: 1, y: 4 };
    let b = Point { x: 9, y: 4 };
    assert!(m.is_path_colliding(&a, &b, 20));
    // a segment that stays on the free side does not collide.
    let c = Point { x: 1, y: 8 };
    assert!(!m.is_path_colliding(&a, &c, 20));
}

#[test]
fn volume_replicates_layers_and_bounds_depth() {
    // 10x10 grid, cell (2, 3) an obstacle, 3 layers of thickness 10.
    let mut cells = vec![false; 100];
    cells[3 * 10 + 2] = true;
    let m = OccupancyMap3D::replicate_from(10, 10, 1, cells, 3, 10).unwrap();
    // the same cell is an obstacle on every layer.
    assert!(m.is_obstructed_xyz(2, 3, 0));
    assert!(m.is_obstructed_xyz(2, 3, 10));
    assert!(m.is_obstructed_xyz(2, 3, 20));
    assert!(!m.is_obstructed_xyz(2, 4, 10));
    // below the first and beyond the last layer everything is occupied.
    assert!(m.is_obstructed_xyz(2, 4, -6));
    assert!(m.is_obstructed_xyz(2, 4, 25));
    // a degenerate 3D segment matches the point query.
    let p = Point3 { x: 2, y: 4, z: 10 };
    assert!(!m.is_colliding(&p, &p, 5));
    let q = Point3 { x: 2, y: 3, z: 10 };
    assert!(m.is_colliding(&q, &q, 5));
}
