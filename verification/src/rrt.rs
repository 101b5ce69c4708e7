//! The 2D RRT planner: repeatedly sample a target (uniform over the map's
//! extent), steer from the nearest tree node toward it by at most one step,
//! keep the move when its segment is collision-free, and stop as soon as a
//! new node lands within the goal radius.

use vstd::prelude::*;

use crate::num::{clamp_steps, sq, sqrt_ceil, steer3, steer_advance, COORD_LIMIT};
use crate::readmap::OccupancyMap;
use crate::sampling::sample_below;
use crate::structs::{Point, RRTNode, RRTTree};

verus! {

/// The 2D planner: configuration, the exclusively owned map and search
/// tree, and the path found so far (if any).
pub struct RRTPlanner {
    pub start: Point,
    pub goal: Point,
    pub map: OccupancyMap,
    pub step_size: i64,
    pub goal_radius: i64,
    pub max_iter: u32,
    pub num_collision_check_steps: i32,
    pub tree: RRTTree,
    pub path_found: Option<Vec<Point>>,
}

/// The flat export row for one tree node: its coordinates followed by its
/// parent's index, with `-1` standing in for the parentless root.
pub open spec fn node_record(n: RRTNode) -> (i64, i64, i64) {
    (
        n.coord.x,
        n.coord.y,
        if n.parent_idx is Some {
            n.parent_idx->0 as i64
        } else {
            (-1) as i64
        },
    )
}

impl RRTPlanner {
    /// Structural invariant: everything owned is well-formed, the tree is
    /// rooted at the start, the configuration is positive and in bounds,
    /// and any recorded path runs from the start to within the goal radius.
    pub open spec fn wf(self) -> bool {
        &&& self.map.wf()
        &&& self.start.wf()
        &&& self.goal.wf()
        &&& 1 <= self.step_size <= COORD_LIMIT
        &&& 1 <= self.goal_radius <= COORD_LIMIT
        &&& self.tree.wf()
        &&& self.tree.nodes@[0].coord == self.start
        &&& self.edges_ok()
        &&& (self.path_found matches Some(p) ==> p@.len() >= 1 && p@[0] == self.start
            && p@.last().dist2(self.goal) <= sq(self.goal_radius as int))
    }

    /// Every edge of the search tree was inserted safely: each non-root
    /// node lies within one step of its parent, and its connecting segment
    /// passed the collision query on the planner's own map.
    pub open spec fn edges_ok(self) -> bool {
        forall|i: int|
            1 <= i < self.tree.nodes@.len() ==> ({
                let n = #[trigger] self.tree.nodes@[i];
                n.parent_idx is Some && n.parent_idx->0 < i && self.tree.nodes@[n.parent_idx->0
                    as int].coord.dist2(n.coord) <= sq(self.step_size as int)
                    && !self.map.seg_colliding(
                    self.tree.nodes@[n.parent_idx->0 as int].coord,
                    n.coord,
                    clamp_steps(self.num_collision_check_steps as int),
                )
            })
    }


    /// Consecutive points of any root-to-node walk are safely connected:
    /// each adjacent pair is a tree edge, so it spans at most one step and
    /// its segment passed the collision query on the planner's own map.
    pub proof fn lemma_walk_edges_safe(self, idx: int, k: int)
        requires
            self.wf(),
            0 <= idx < self.tree.nodes@.len(),
            0 <= k < self.tree.path_from(idx).len() - 1,
        ensures
            self.tree.path_from(idx)[k].dist2(self.tree.path_from(idx)[k + 1]) <= sq(
                self.step_size as int,
            ),
            !self.map.seg_colliding(
                self.tree.path_from(idx)[k],
                self.tree.path_from(idx)[k + 1],
                clamp_steps(self.num_collision_check_steps as int),
            ),
        decreases idx,
    {
        let p = self.tree.path_from(idx);
        if idx > 0 {
            let par = self.tree.nodes@[idx].parent_idx->0 as int;
            self.tree.lemma_path_from_props(par);
            if k < p.len() - 2 {
                self.lemma_walk_edges_safe(par, k);
            } else {
                assert(p[k] == self.tree.path_from(par).last());
                assert(p[k + 1] == self.tree.nodes@[idx].coord);
            }
        }
    }

    /// A planner over the given map, its tree holding exactly the start
    /// node and no path yet.
    pub fn new(
        start: Point,
        goal: Point,
        map: OccupancyMap,
        step_size: i64,
        goal_radius: i64,
        max_iter: u32,
        num_collision_check_steps: i32,
    ) -> (r: RRTPlanner)
        requires
            start.wf(),
            goal.wf(),
            map.wf(),
            1 <= step_size <= COORD_LIMIT,
            1 <= goal_radius <= COORD_LIMIT,
        ensures
            r.wf(),
            r.start == start,
            r.goal == goal,
            r.map == map,
            r.step_size == step_size,
            r.goal_radius == goal_radius,
            r.max_iter == max_iter,
            r.num_collision_check_steps == num_collision_check_steps,
            r.tree.nodes@.len() == 1,
            r.tree.nodes@[0].coord == start,
            r.path_found is None,
    {
        RRTPlanner {
            start,
            goal,
            map,
            step_size,
            goal_radius,
            max_iter,
            num_collision_check_steps,
            tree: RRTTree::new(start),
            path_found: None,
        }
    }

    /// A target drawn uniformly from the map's extent: each component is
    /// uniform over `[0, dimension * cell_size)`.
    pub fn random_point(&self) -> (r: Point)
        requires
            self.map.wf(),
        ensures
            r.wf(),
            0 <= r.x < self.map.width * self.map.cell_size,
            0 <= r.y < self.map.height * self.map.cell_size,
    {
        proof {
            assert(self.map.width <= self.map.width * self.map.cell_size && self.map.cell_size
                <= self.map.width * self.map.cell_size && self.map.height <= self.map.height
                * self.map.cell_size && 1 <= self.map.width * self.map.cell_size && 1
                <= self.map.height * self.map.cell_size) by (nonlinear_arith)
                requires
                    1 <= self.map.width,
                    1 <= self.map.height,
                    1 <= self.map.cell_size,
            ;
        }
        let wc: u64 = (self.map.width as u64) * (self.map.cell_size as u64);
        let hc: u64 = (self.map.height as u64) * (self.map.cell_size as u64);
        let x: i64 = sample_below(wc) as i64;
        let y: i64 = sample_below(hc) as i64;
        Point { x, y }
    }

    /// Steer from `nearest_coord` toward `q_rand`: reach `q_rand` exactly
    /// when it is within one step, else move at most `step_size` toward it.
    pub fn create_step(&self, nearest_coord: &Point, q_rand: &Point) -> (r: Point)
        requires
            nearest_coord.wf(),
            q_rand.wf(),
            1 <= self.step_size <= COORD_LIMIT,
        ensures
            r.wf(),
            nearest_coord.dist2(r) <= sq(self.step_size as int),
            nearest_coord.dist2(*q_rand) <= sq(self.step_size as int) ==> r == *q_rand,
            nearest_coord.dist2(*q_rand) > sq(self.step_size as int) ==> ({
                let d = sqrt_ceil(nearest_coord.dist2(*q_rand));
                r.x == steer_advance(
                    nearest_coord.x as int,
                    q_rand.x as int,
                    self.step_size as int,
                    d,
                ) && r.y == steer_advance(
                    nearest_coord.y as int,
                    q_rand.y as int,
                    self.step_size as int,
                    d,
                )
            }),
    {
        let (rx, ry, _rz) = steer3(
            nearest_coord.x,
            nearest_coord.y,
            0,
            q_rand.x,
            q_rand.y,
            0,
            self.step_size,
        );
        proof {
            crate::num::lemma_sq_swap(nearest_coord.x as int, rx as int);
            crate::num::lemma_sq_swap(nearest_coord.y as int, ry as int);
            crate::num::lemma_sq_swap(nearest_coord.x as int, q_rand.x as int);
            crate::num::lemma_sq_swap(nearest_coord.y as int, q_rand.y as int);
            assert(sq(0int) == 0) by (nonlinear_arith);
            assert(_rz == 0);
            assert(sq(q_rand.x - nearest_coord.x) + sq(q_rand.y - nearest_coord.y) + sq(0 - 0)
                == nearest_coord.dist2(*q_rand));
        }
        Point { x: rx, y: ry }
    }

    /// Run the search for up to `max_iter` iterations. On success the
    /// returned path starts at the start position and ends within the goal
    /// radius (at the goal itself unless a tree node already matched it
    /// exactly), and the same path is recorded on the planner; on
    /// exhaustion nothing is returned and the recorded path is unchanged.
    /// The tree only ever grows: at most one node per iteration, and no
    /// node is ever removed or altered.
    #[allow(non_snake_case)]
    #[verifier::rlimit(100)]
    pub fn RRT(&mut self) -> (r: Option<Vec<Point>>)
        requires
            old(self).wf(),
        ensures
            final(self).wf(),
            final(self).start == old(self).start,
            final(self).goal == old(self).goal,
            final(self).map == old(self).map,
            final(self).step_size == old(self).step_size,
            final(self).goal_radius == old(self).goal_radius,
            final(self).max_iter == old(self).max_iter,
            final(self).num_collision_check_steps == old(self).num_collision_check_steps,
            old(self).tree.nodes@.len() <= final(self).tree.nodes@.len() <= old(
                self,
            ).tree.nodes@.len() + old(self).max_iter,
            forall|j: int|
                0 <= j < old(self).tree.nodes@.len() ==> final(self).tree.nodes@[j] == old(
                    self,
                ).tree.nodes@[j],
            r matches Some(p) ==> ((final(self).path_found matches Some(q) && q@ == p@) && p@.len()
                >= 1 && p@[0] == old(self).start && p@.last() == old(self).goal),
            r matches Some(p) ==> (exists|idx: int|
                0 <= idx < final(self).tree.nodes@.len()
                    && (#[trigger] final(self).tree.nodes@[idx].coord.dist2(old(self).goal)) <= sq(
                    old(self).goal_radius as int,
                ) && (p@ == final(self).tree.path_from(idx) || p@ == final(self).tree.path_from(
                    idx,
                ).push(old(self).goal))),
            r is None ==> final(self).path_found == old(self).path_found,
            r is None ==> forall|j: int|
                old(self).tree.nodes@.len() <= j < final(self).tree.nodes@.len()
                    ==> (#[trigger] final(self).tree.nodes@[j]).coord.dist2(old(self).goal) > sq(
                    old(self).goal_radius as int,
                ),
    {
        let gr: i64 = self.goal_radius;
        proof {
            assert(sq(gr as int) <= 1_000_000_000_000 && 0 <= sq(gr as int)) by (nonlinear_arith)
                requires
                    1 <= gr <= 1_000_000,
            ;
        }
        let radius_sq: u64 = (gr as u64) * (gr as u64);
        let mut i: u32 = 0;
        while i < self.max_iter
            invariant
                self.wf(),
                self.start == old(self).start,
                self.goal == old(self).goal,
                self.map == old(self).map,
                self.step_size == old(self).step_size,
                self.goal_radius == old(self).goal_radius,
                self.max_iter == old(self).max_iter,
                self.num_collision_check_steps == old(self).num_collision_check_steps,
                self.path_found == old(self).path_found,
                radius_sq == sq(self.goal_radius as int),
                i <= self.max_iter,
                old(self).tree.nodes@.len() <= self.tree.nodes@.len() <= old(
                    self,
                ).tree.nodes@.len() + i,
                forall|j: int|
                    0 <= j < old(self).tree.nodes@.len() ==> self.tree.nodes@[j] == old(
                        self,
                    ).tree.nodes@[j],
                forall|j: int|
                    old(self).tree.nodes@.len() <= j < self.tree.nodes@.len() ==> (#[trigger] self.tree.nodes@[j]).coord.dist2(
                        old(self).goal,
                    ) > sq(old(self).goal_radius as int),
            decreases self.max_iter - i,
        {
            let q_rand = self.random_point();
            let nearest_node_idx = self.tree.nearest_node_idx(&q_rand);
            let nearest_node_coord = self.tree.nodes[nearest_node_idx].coord;
            let q_new = self.create_step(&nearest_node_coord, &q_rand);
            if !self.map.is_path_colliding(
                &nearest_node_coord,
                &q_new,
                self.num_collision_check_steps,
            ) {
                let ghost pre_self = *self;
                let new_node_idx = self.tree.add_node(q_new, nearest_node_idx);
                proof {
                    lemma_edges_ok_push(pre_self, *self, nearest_node_idx);
                }
                if q_new.dist_sq(&self.goal) <= radius_sq {
                    let mut path = self.tree.reconstruct_path(new_node_idx);
                    if path[path.len() - 1] != self.goal {
                        path.push(self.goal);
                        proof {
                            assert(sq(0int) == 0) by (nonlinear_arith);
                            assert(self.goal.dist2(self.goal) == 0);
                        }
                    }
                    self.path_found = Some(clone_points(&path));
                    proof {
                        assert(0 <= new_node_idx < self.tree.nodes@.len()
                            && self.tree.nodes@[new_node_idx as int].coord.dist2(self.goal) <= sq(
                            self.goal_radius as int,
                        ) && (path@ == self.tree.path_from(new_node_idx as int) || path@
                            == self.tree.path_from(new_node_idx as int).push(self.goal)));
                    }
                    return Some(path);
                }
            }
            i = i + 1;
        }
        None
    }

    /// One export row per tree node, in insertion order: coordinates, then
    /// the parent index with `-1` for the root.
    pub fn node_records(&self) -> (r: Vec<(i64, i64, i64)>)
        requires
            self.tree.wf(),
            self.tree.nodes@.len() <= 0x7fff_ffff_ffff_ffff,
        ensures
            r@.len() == self.tree.nodes@.len(),
            forall|i: int| 0 <= i < r@.len() ==> r@[i] == node_record(self.tree.nodes@[i]),
    {
        let mut r: Vec<(i64, i64, i64)> = Vec::new();
        let mut i: usize = 0;
        while i < self.tree.nodes.len()
            invariant
                self.tree.nodes@.len() <= 0x7fff_ffff_ffff_ffff,
                i <= self.tree.nodes@.len(),
                r@.len() == i,
                forall|j: int| 0 <= j < i ==> r@[j] == node_record(self.tree.nodes@[j]),
            decreases self.tree.nodes@.len() - i,
        {
            let n = &self.tree.nodes[i];
            let parent: i64 = match n.parent_idx {
                Some(p) => p as i64,
                None => -1,
            };
            r.push((n.coord.x, n.coord.y, parent));
            i = i + 1;
        }
        r
    }

    /// One export row per path point, in start-to-goal order, coordinates
    /// only; nothing when no path has been found.
    pub fn path_records(&self) -> (r: Option<Vec<(i64, i64)>>)
        ensures
            r is Some <==> self.path_found is Some,
            r matches Some(v) ==> (self.path_found matches Some(p) && v@.len() == p@.len()
                && forall|i: int| 0 <= i < v@.len() ==> v@[i] == ((p@[i].x, p@[i].y))),
    {
        match &self.path_found {
            None => None,
            Some(p) => {
                let mut v: Vec<(i64, i64)> = Vec::new();
                let mut i: usize = 0;
                while i < p.len()
                    invariant
                        self.path_found matches Some(q) && q@ == p@,
                        i <= p@.len(),
                        v@.len() == i,
                        forall|j: int| 0 <= j < i ==> v@[j] == ((p@[j].x, p@[j].y)),
                    decreases p@.len() - i,
                {
                    v.push((p[i].x, p[i].y));
                    i = i + 1;
                }
                Some(v)
            },
        }
    }
}

/// Appending one safely inserted node preserves the edge invariant: the
/// old edges are untouched, and the new node's edge was checked before the
/// call.
proof fn lemma_edges_ok_push(pre: RRTPlanner, post: RRTPlanner, parent: usize)
    requires
        pre.edges_ok(),
        post.map == pre.map,
        post.step_size == pre.step_size,
        post.num_collision_check_steps == pre.num_collision_check_steps,
        post.tree.nodes@.len() == pre.tree.nodes@.len() + 1,
        forall|j: int| 0 <= j < pre.tree.nodes@.len() ==> post.tree.nodes@[j] == pre.tree.nodes@[j],
        ({
            let n = post.tree.nodes@[post.tree.nodes@.len() - 1];
            n.parent_idx == Some(parent) && (parent as int) < pre.tree.nodes@.len()
                && post.tree.nodes@[parent as int].coord.dist2(n.coord) <= sq(
                post.step_size as int,
            ) && !post.map.seg_colliding(
                post.tree.nodes@[parent as int].coord,
                n.coord,
                clamp_steps(post.num_collision_check_steps as int),
            )
        }),
    ensures
        post.edges_ok(),
{
    assert forall|i: int| 1 <= i < post.tree.nodes@.len() implies ({
        let n = #[trigger] post.tree.nodes@[i];
        n.parent_idx is Some && n.parent_idx->0 < i && post.tree.nodes@[n.parent_idx->0
            as int].coord.dist2(n.coord) <= sq(post.step_size as int)
            && !post.map.seg_colliding(
            post.tree.nodes@[n.parent_idx->0 as int].coord,
            n.coord,
            clamp_steps(post.num_collision_check_steps as int),
        )
    }) by {
        if i < pre.tree.nodes@.len() {
            assert(pre.tree.nodes@[i] == post.tree.nodes@[i]);
            let n = pre.tree.nodes@[i];
            assert(pre.tree.nodes@[n.parent_idx->0 as int] == post.tree.nodes@[n.parent_idx->0
                as int]);
        }
    }
}

/// An element-for-element copy of a point vector.
fn clone_points(v: &Vec<Point>) -> (r: Vec<Point>)
    ensures
        r@ == v@,
{
    let mut r: Vec<Point> = Vec::new();
    let mut i: usize = 0;
    while i < v.len()
        invariant
            i <= v@.len(),
            r@ == v@.subrange(0, i as int),
        decreases v@.len() - i,
    {
        r.push(v[i]);
        proof {
            assert(r@ =~= v@.subrange(0, i + 1));
        }
        i = i + 1;
    }
    proof {
        assert(r@ =~= v@);
    }
    r
}

} // verus!
