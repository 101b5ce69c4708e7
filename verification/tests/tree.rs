use rrt_planner::structs::{Point, RRTTree};
use rrt_planner::structs3d::{Point3, RRTTree3D};

#[test]
fn new_tree_has_single_parentless_root() {
    let t = RRTTree::new(Point { x: 3, y: 4 });
    assert_eq!(t.nodes().len(), 1);
    assert_eq!(t.nodes()[0].coord, Point { x: 3, y: 4 });
    assert!(t.nodes()[0].parent_idx.is_none());
}

#[test]
fn add_node_returns_prior_count_and_grows_by_one() {
    let mut t = RRTTree::new(Point { x: 0, y: 0 });
    let n: usize = 40;
    for i in 0..n {
        let idx = t.add_node(Point { x: i as i64, y: 1 }, i);
        assert_eq!(idx, i + 1);
        assert_eq!(t.nodes().len(), i + 2);
    }
    // after n successful insertions the count is n + 1, root included,
    // and the earlier nodes are untouched.
    assert_eq!(t.nodes().len(), n + 1);
    assert_eq!(t.nodes()[0].coord, Point { x: 0, y: 0 });
    assert_eq!(t.nodes()[1].coord, Point { x: 0, y: 1 });
}

#[test]
fn get_node_in_and_out_of_bounds() {
    let mut t = RRTTree::new(Point { x: 0, y: 0 });
    t.add_node(Point { x: 5, y: 6 }, 0);
    assert_eq!(t.get_node(1).unwrap().coord, Point { x: 5, y: 6 });
    assert!(t.get_node(2).is_none());
}

#[test]
fn nearest_picks_minimal_distance() {
    let mut t = RRTTree::new(Point { x: 0, y: 0 });
    t.add_node(Point { x: 10, y: 0 }, 0);
    t.add_node(Point { x: 5, y: 5 }, 0);
    assert_eq!(t.nearest_node_idx(&Point { x: 9, y: 1 }), 1);
    assert_eq!(t.nearest_node_idx(&Point { x: 1, y: 0 }), 0);
    assert_eq!(t.nearest_node_idx(&Point { x: 5, y: 6 }), 2);
}

#[test]
fn nearest_breaks_ties_toward_lowest_index() {
    let mut t = RRTTree::new(Point { x: 0, y: 0 });
    t.add_node(Point { x: 4, y: 0 }, 0);
    // (2, 0) is equidistant from both nodes: the earlier one wins.
    assert_eq!(t.nearest_node_idx(&Point { x: 2, y: 0 }), 0);
}

#[test]
fn reconstruct_path_runs_root_to_node() {
    let mut t = RRTTree::new(Point { x: 0, y: 0 });
    let a = t.add_node(Point { x: 1, y: 1 }, 0);
    let b = t.add_node(Point { x: 2, y: 2 }, a);
    let c = t.add_node(Point { x: 9, y: 9 }, 0);
    let path = t.reconstruct_path(b);
    assert_eq!(
        path,
        vec![Point { x: 0, y: 0 }, Point { x: 1, y: 1 }, Point { x: 2, y: 2 }]
    );
    // depth of `c` is 1, so its path has two points.
    let side = t.reconstruct_path(c);
    assert_eq!(side.len(), 2);
    assert_eq!(side[0], Point { x: 0, y: 0 });
    assert_eq!(side[1], Point { x: 9, y: 9 });
    // the root alone reconstructs to itself.
    assert_eq!(t.reconstruct_path(0), vec![Point { x: 0, y: 0 }]);
}

#[test]
fn tree3d_mirrors_the_2d_behaviour() {
    let mut t = RRTTree3D::new(Point3 { x: 0, y: 0, z: 0 });
    let a = t.add_node(Point3 { x: 3, y: 0, z: 4 }, 0);
    let b = t.add_node(Point3 { x: 6, y: 0, z: 8 }, a);
    assert_eq!(t.nodes.len(), 3);
    assert_eq!(t.nearest(&Point3 { x: 2, y: 0, z: 3 }), 1);
    assert_eq!(t.nearest(&Point3 { x: 0, y: 1, z: 0 }), 0);
    let path = t.reconstruct_path(b);
    assert_eq!(path.len(), 3);
    assert_eq!(path[0], Point3 { x: 0, y: 0, z: 0 });
    assert_eq!(path[2], Point3 { x: 6, y: 0, z: 8 });
}
