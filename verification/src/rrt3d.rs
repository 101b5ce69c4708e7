//! The 3D RRT planner: like the 2D variant, with one more axis and a goal
//! bias — each sample is the goal itself with the configured probability,
//! which speeds convergence toward it.

use vstd::prelude::*;

use crate::num::{between, clamp_steps, interp_spec, lemma_interp_between,
    lemma_steer_advance_progress, sq, sqrt_ceil, steer3, steer_advance, COORD_LIMIT};
use crate::readmap3d::OccupancyMap3D;
use crate::sampling::sample_below;
use crate::structs3d::{Point3, RRTNode3D, RRTTree3D};

verus! {

/// Goal-bias probabilities are expressed in thousandths: this value stands
/// for probability one.
pub const BIAS_SCALE: u64 = 1000;

/// The flat export row for one tree node: its coordinates followed by its
/// parent's index, with `-1` standing in for the parentless root.
pub open spec fn node_record3(n: RRTNode3D) -> (i64, i64, i64, i64) {
    (
        n.coord.x,
        n.coord.y,
        n.coord.z,
        if n.parent_idx is Some {
            n.parent_idx->0 as i64
        } else {
            (-1) as i64
        },
    )
}

/// The 3D planner: configuration, the exclusively owned map and search
/// tree, and the path found so far (if any).
pub struct RRTPlanner3D {
    pub start: Point3,
    pub goal: Point3,
    pub map: OccupancyMap3D,
    pub step_size: i64,
    pub goal_radius: i64,
    pub goal_bias: u64,
    pub max_iter: u32,
    pub collision_steps: i32,
    pub tree: RRTTree3D,
    pub path_found: Option<Vec<Point3>>,
}

impl RRTPlanner3D {
    /// Structural invariant: everything owned is well-formed, the tree is
    /// rooted at the start, the configuration is positive and in bounds,
    /// the goal bias is a probability, and any recorded path runs from the
    /// start to within the goal radius.
    pub open spec fn wf(self) -> bool {
        &&& self.map.wf()
        &&& self.start.wf()
        &&& self.goal.wf()
        &&& 1 <= self.step_size <= COORD_LIMIT
        &&& 1 <= self.goal_radius <= COORD_LIMIT
        &&& self.goal_bias <= BIAS_SCALE
        &&& self.tree.wf()
        &&& self.tree.nodes@[0].coord == self.start
        &&& self.edges_ok()
        &&& (self.path_found matches Some(p) ==> p@.len() >= 1 && p@[0] == self.start
            && p@.last().dist2(self.goal) <= sq(self.goal_radius as int))
    }

    /// Every edge of the search tree was inserted safely: each non-root
    /// node lies within one step of its parent, and its connecting segment
    /// passed the collision query on the planner's own map.
    pub open spec fn edges_ok(self) -> bool {
        forall|i: int|
            1 <= i < self.tree.nodes@.len() ==> ({
                let n = #[trigger] self.tree.nodes@[i];
                n.parent_idx is Some && n.parent_idx->0 < i && self.tree.nodes@[n.parent_idx->0
                    as int].coord.dist2(n.coord) <= sq(self.step_size as int)
                    && !self.map.seg_colliding(
                    self.tree.nodes@[n.parent_idx->0 as int].coord,
                    n.coord,
                    clamp_steps(self.collision_steps as int),
                )
            })
    }

    /// The whole axis-aligned box spanned by the start and the goal is free
    /// of obstacles.
    pub open spec fn corridor_free(self) -> bool {
        forall|x: int, y: int, z: int|
            between(self.start.x as int, self.goal.x as int, x) && between(
                self.start.y as int,
                self.goal.y as int,
                y,
            ) && between(self.start.z as int, self.goal.z as int, z)
                ==> !#[trigger] self.map.occupied_at(x, y, z)
    }


    /// Consecutive points of any root-to-node walk are safely connected:
    /// each adjacent pair is a tree edge, so it spans at most one step and
    /// its segment passed the collision query on the planner's own map.
    pub proof fn lemma_walk_edges_safe(self, idx: int, k: int)
        requires
            self.wf(),
            0 <= idx < self.tree.nodes@.len(),
            0 <= k < self.tree.path_from(idx).len() - 1,
        ensures
            self.tree.path_from(idx)[k].dist2(self.tree.path_from(idx)[k + 1]) <= sq(
                self.step_size as int,
            ),
            !self.map.seg_colliding(
                self.tree.path_from(idx)[k],
                self.tree.path_from(idx)[k + 1],
                clamp_steps(self.collision_steps as int),
            ),
        decreases idx,
    {
        let p = self.tree.path_from(idx);
        if idx > 0 {
            let par = self.tree.nodes@[idx].parent_idx->0 as int;
            self.tree.lemma_path_from_props(par);
            if k < p.len() - 2 {
                self.lemma_walk_edges_safe(par, k);
            } else {
                assert(p[k] == self.tree.path_from(par).last());
                assert(p[k + 1] == self.tree.nodes@[idx].coord);
            }
        }
    }

    /// A planner over the given volume with the default goal bias (five
    /// percent), iteration budget and collision step count; its tree holds
    /// exactly the start node and no path yet.
    pub fn new(start: Point3, goal: Point3, map: OccupancyMap3D, step_size: i64, goal_radius: i64)
        -> (r: RRTPlanner3D)
        requires
            start.wf(),
            goal.wf(),
            map.wf(),
            1 <= step_size <= COORD_LIMIT,
            1 <= goal_radius <= COORD_LIMIT,
        ensures
            r.wf(),
            r.start == start,
            r.goal == goal,
            r.map == map,
            r.step_size == step_size,
            r.goal_radius == goal_radius,
            r.goal_bias == 50,
            r.max_iter == 20_000,
            r.collision_steps == 20,
            r.tree.nodes@.len() == 1,
            r.tree.nodes@[0].coord == start,
            r.path_found is None,
    {
        RRTPlanner3D {
            start,
            goal,
            map,
            step_size,
            goal_radius,
            goal_bias: 50,
            max_iter: 20_000,
            collision_steps: 20,
            tree: RRTTree3D::new(start),
            path_found: None,
        }
    }

    /// Set the goal bias, in thousandths, clamped to probability one.
    pub fn with_goal_bias(self, bias: u64) -> (r: RRTPlanner3D)
        requires
            self.wf(),
        ensures
            r.wf(),
            r.goal_bias == (if bias > BIAS_SCALE {
                BIAS_SCALE as int
            } else {
                bias as int
            }),
            r == (RRTPlanner3D { goal_bias: r.goal_bias, ..self }),
    {
        let clamped: u64 = if bias > BIAS_SCALE {
            BIAS_SCALE
        } else {
            bias
        };
        RRTPlanner3D { goal_bias: clamped, ..self }
    }

    /// Set the iteration budget.
    pub fn with_max_iter(self, iters: u32) -> (r: RRTPlanner3D)
        requires
            self.wf(),
        ensures
            r.wf(),
            r == (RRTPlanner3D { max_iter: iters, ..self }),
    {
        RRTPlanner3D { max_iter: iters, ..self }
    }

    /// Set the collision check step count, clamped to at least one step.
    pub fn with_collision_steps(self, steps: i32) -> (r: RRTPlanner3D)
        requires
            self.wf(),
        ensures
            self.tree.nodes@.len() == 1 ==> r.wf(),
            r.collision_steps == clamp_steps(steps as int),
            r == (RRTPlanner3D { collision_steps: r.collision_steps, ..self }),
    {
        let clamped: i32 = if steps < 1 {
            1
        } else {
            steps
        };
        RRTPlanner3D { collision_steps: clamped, ..self }
    }

    /// A sampled target: the goal itself with probability `goal_bias`
    /// (always, at bias one), otherwise each component uniform over the
    /// volume's extent on its axis.
    pub fn random_point(&self) -> (r: Point3)
        requires
            self.wf(),
        ensures
            r.wf(),
            self.goal_bias >= BIAS_SCALE ==> r == self.goal,
            r == self.goal || (0 <= r.x < self.map.width * self.map.cell_size && 0 <= r.y
                < self.map.height * self.map.cell_size && 0 <= r.z < self.map.depth * self.map.dz),
    {
        let draw: u64 = sample_below(BIAS_SCALE);
        if draw < self.goal_bias {
            return self.goal;
        }
        proof {
            assert(self.map.width <= self.map.width * self.map.cell_size && self.map.cell_size
                <= self.map.width * self.map.cell_size && self.map.height <= self.map.height
                * self.map.cell_size && self.map.depth <= self.map.depth * self.map.dz
                && self.map.dz <= self.map.depth * self.map.dz && 1 <= self.map.width
                * self.map.cell_size && 1 <= self.map.height * self.map.cell_size && 1
                <= self.map.depth * self.map.dz) by (nonlinear_arith)
                requires
                    1 <= self.map.width,
                    1 <= self.map.height,
                    1 <= self.map.depth,
                    1 <= self.map.cell_size,
                    1 <= self.map.dz,
            ;
        }
        let wc: u64 = (self.map.width as u64) * (self.map.cell_size as u64);
        let hc: u64 = (self.map.height as u64) * (self.map.cell_size as u64);
        let dd: u64 = (self.map.depth as u64) * (self.map.dz as u64);
        let x: i64 = sample_below(wc) as i64;
        let y: i64 = sample_below(hc) as i64;
        let z: i64 = sample_below(dd) as i64;
        Point3 { x, y, z }
    }

    /// Steer from `from` toward `to`: reach `to` exactly when it is within
    /// one step, else move at most `step_size` toward it.
    fn steer(&self, from: &Point3, to: &Point3) -> (r: Point3)
        requires
            from.wf(),
            to.wf(),
            1 <= self.step_size <= COORD_LIMIT,
        ensures
            r.wf(),
            from.dist2(r) <= sq(self.step_size as int),
            from.dist2(*to) <= sq(self.step_size as int) ==> r == *to,
            from.dist2(*to) > sq(self.step_size as int) ==> ({
                let d = sqrt_ceil(from.dist2(*to));
                r.x == steer_advance(from.x as int, to.x as int, self.step_size as int, d) && r.y
                    == steer_advance(from.y as int, to.y as int, self.step_size as int, d) && r.z
                    == steer_advance(from.z as int, to.z as int, self.step_size as int, d)
            }),
            between(from.x as int, to.x as int, r.x as int),
            between(from.y as int, to.y as int, r.y as int),
            between(from.z as int, to.z as int, r.z as int),
    {
        let (rx, ry, rz) = steer3(from.x, from.y, from.z, to.x, to.y, to.z, self.step_size);
        proof {
            crate::num::lemma_sq_swap(from.x as int, rx as int);
            crate::num::lemma_sq_swap(from.y as int, ry as int);
            crate::num::lemma_sq_swap(from.z as int, rz as int);
            crate::num::lemma_sq_swap(from.x as int, to.x as int);
            crate::num::lemma_sq_swap(from.y as int, to.y as int);
            crate::num::lemma_sq_swap(from.z as int, to.z as int);
            assert(sq(to.x - from.x) + sq(to.y - from.y) + sq(to.z - from.z) == from.dist2(*to));
        }
        Point3 { x: rx, y: ry, z: rz }
    }

    /// Run the search for up to `max_iter` iterations. On success the
    /// returned path starts at the start position and ends within the goal
    /// radius (at the goal itself unless a tree node already matched it
    /// exactly), and the same path is recorded on the planner; on
    /// exhaustion nothing is returned and the recorded path is unchanged.
    /// The tree only ever grows: at most one node per iteration, and no
    /// node is ever removed or altered.
    #[verifier::rlimit(100)]
    pub fn plan(&mut self) -> (r: Option<Vec<Point3>>)
        requires
            old(self).wf(),
        ensures
            final(self).wf(),
            final(self).start == old(self).start,
            final(self).goal == old(self).goal,
            final(self).map == old(self).map,
            final(self).step_size == old(self).step_size,
            final(self).goal_radius == old(self).goal_radius,
            final(self).goal_bias == old(self).goal_bias,
            final(self).max_iter == old(self).max_iter,
            final(self).collision_steps == old(self).collision_steps,
            old(self).tree.nodes@.len() <= final(self).tree.nodes@.len() <= old(
                self,
            ).tree.nodes@.len() + old(self).max_iter,
            forall|j: int|
                0 <= j < old(self).tree.nodes@.len() ==> final(self).tree.nodes@[j] == old(
                    self,
                ).tree.nodes@[j],
            r matches Some(p) ==> ((final(self).path_found matches Some(q) && q@ == p@) && p@.len()
                >= 1 && p@[0] == old(self).start && p@.last() == old(self).goal),
            r matches Some(p) ==> (exists|idx: int|
                0 <= idx < final(self).tree.nodes@.len()
                    && (#[trigger] final(self).tree.nodes@[idx].coord.dist2(old(self).goal)) <= sq(
                    old(self).goal_radius as int,
                ) && (p@ == final(self).tree.path_from(idx) || p@ == final(self).tree.path_from(
                    idx,
                ).push(old(self).goal))),
            r is None ==> final(self).path_found == old(self).path_found,
            r is None ==> forall|j: int|
                old(self).tree.nodes@.len() <= j < final(self).tree.nodes@.len()
                    ==> (#[trigger] final(self).tree.nodes@[j]).coord.dist2(old(self).goal) > sq(
                    old(self).goal_radius as int,
                ),
            (old(self).goal_bias == BIAS_SCALE && 2 <= old(self).step_size
                && old(self).corridor_free() && old(self).tree.nodes@.len() == 1 && old(
                self,
            ).start.dist2(old(self).goal) < old(self).max_iter) ==> r is Some,
    {
        let ghost live: bool = old(self).goal_bias == BIAS_SCALE && 2 <= old(self).step_size
            && old(self).corridor_free() && old(self).tree.nodes@.len() == 1 && old(
            self,
        ).start.dist2(old(self).goal) < old(self).max_iter;
        let ghost d0: int = old(self).start.dist2(old(self).goal);
        let gr: i64 = self.goal_radius;
        proof {
            assert(sq(gr as int) <= 1_000_000_000_000 && 0 <= sq(gr as int)) by (nonlinear_arith)
                requires
                    1 <= gr <= 1_000_000,
            ;
        }
        let radius_sq: u64 = (gr as u64) * (gr as u64);
        let mut i: u32 = 0;
        while i < self.max_iter
            invariant
                self.wf(),
                self.start == old(self).start,
                self.goal == old(self).goal,
                self.map == old(self).map,
                self.step_size == old(self).step_size,
                self.goal_radius == old(self).goal_radius,
                self.goal_bias == old(self).goal_bias,
                self.max_iter == old(self).max_iter,
                self.collision_steps == old(self).collision_steps,
                self.path_found == old(self).path_found,
                radius_sq == sq(self.goal_radius as int),
                live == (old(self).goal_bias == BIAS_SCALE && 2 <= old(self).step_size && old(
                    self,
                ).corridor_free() && old(self).tree.nodes@.len() == 1 && old(self).start.dist2(
                    old(self).goal,
                ) < old(self).max_iter),
                d0 == old(self).start.dist2(old(self).goal),
                i <= self.max_iter,
                old(self).tree.nodes@.len() <= self.tree.nodes@.len() <= old(
                    self,
                ).tree.nodes@.len() + i,
                forall|j: int|
                    0 <= j < old(self).tree.nodes@.len() ==> self.tree.nodes@[j] == old(
                        self,
                    ).tree.nodes@[j],
                forall|j: int|
                    old(self).tree.nodes@.len() <= j < self.tree.nodes@.len()
                        ==> (#[trigger] self.tree.nodes@[j]).coord.dist2(old(self).goal) > sq(
                        old(self).goal_radius as int,
                    ),
                live ==> forall|j: int|
                    0 <= j < self.tree.nodes@.len() ==> (between(
                        old(self).start.x as int,
                        old(self).goal.x as int,
                        (#[trigger] self.tree.nodes@[j]).coord.x as int,
                    ) && between(
                        old(self).start.y as int,
                        old(self).goal.y as int,
                        self.tree.nodes@[j].coord.y as int,
                    ) && between(
                        old(self).start.z as int,
                        old(self).goal.z as int,
                        self.tree.nodes@[j].coord.z as int,
                    )),
                live ==> exists|j: int|
                    0 <= j < self.tree.nodes@.len() && (#[trigger] self.tree.nodes@[j]).coord.dist2(
                        old(self).goal,
                    ) + i <= d0,
            decreases self.max_iter - i,
        {
            let q_rand = self.random_point();
            let nearest_idx = self.tree.nearest(&q_rand);
            let q_near = self.tree.nodes[nearest_idx].coord;
            let q_new = self.steer(&q_near, &q_rand);
            let ghost st: int = clamp_steps(self.collision_steps as int);
            let ghost pre_self = *self;
            proof {
                if live {
                    assert(q_rand == self.goal);
                    assert(between(old(self).start.x as int, old(self).goal.x as int, q_new.x as int)
                        && between(old(self).start.y as int, old(self).goal.y as int, q_new.y as int)
                        && between(
                        old(self).start.z as int,
                        old(self).goal.z as int,
                        q_new.z as int,
                    ));
                    if self.map.seg_colliding(q_near, q_new, st) {
                        let k = choose|k: int|
                            0 <= k <= st && #[trigger] self.map.occupied_at(
                                interp_spec(q_near.x as int, q_new.x as int, k, st),
                                interp_spec(q_near.y as int, q_new.y as int, k, st),
                                interp_spec(q_near.z as int, q_new.z as int, k, st),
                            );
                        lemma_interp_between(q_near.x as int, q_new.x as int, k, st);
                        lemma_interp_between(q_near.y as int, q_new.y as int, k, st);
                        lemma_interp_between(q_near.z as int, q_new.z as int, k, st);
                        assert(!old(self).map.occupied_at(
                            interp_spec(q_near.x as int, q_new.x as int, k, st),
                            interp_spec(q_near.y as int, q_new.y as int, k, st),
                            interp_spec(q_near.z as int, q_new.z as int, k, st),
                        ));
                        assert(false);
                    }
                    assert(exists|j: int|
                        0 <= j < pre_self.tree.nodes@.len() && (
                        #[trigger] pre_self.tree.nodes@[j]).coord.dist2(old(self).goal) + i <= d0);
                }
            }
            if !self.map.is_colliding(&q_near, &q_new, self.collision_steps) {
                let new_idx = self.tree.add_node(q_new, nearest_idx);
                proof {
                    lemma_edges_ok_push3(pre_self, *self, nearest_idx);
                    if live {
                        assert forall|j: int| 0 <= j < self.tree.nodes@.len() implies (between(
                            old(self).start.x as int,
                            old(self).goal.x as int,
                            (#[trigger] self.tree.nodes@[j]).coord.x as int,
                        ) && between(
                            old(self).start.y as int,
                            old(self).goal.y as int,
                            self.tree.nodes@[j].coord.y as int,
                        ) && between(
                            old(self).start.z as int,
                            old(self).goal.z as int,
                            self.tree.nodes@[j].coord.z as int,
                        )) by {
                            if j < self.tree.nodes@.len() - 1 {
                                assert(self.tree.nodes@[j] == pre_self.tree.nodes@[j]);
                            }
                        }
                    }
                }
                if q_new.dist_sq(&self.goal) <= radius_sq {
                    let mut path = self.tree.reconstruct_path(new_idx);
                    if path[path.len() - 1] != self.goal {
                        path.push(self.goal);
                        proof {
                            assert(sq(0int) == 0) by (nonlinear_arith);
                            assert(self.goal.dist2(self.goal) == 0);
                        }
                    }
                    self.path_found = Some(clone_points3(&path));
                    proof {
                        assert(0 <= new_idx < self.tree.nodes@.len()
                            && self.tree.nodes@[new_idx as int].coord.dist2(self.goal) <= sq(
                            self.goal_radius as int,
                        ) && (path@ == self.tree.path_from(new_idx as int) || path@
                            == self.tree.path_from(new_idx as int).push(self.goal)));
                    }
                    return Some(path);
                }
                proof {
                    if live {
                        let m: int = q_near.dist2(self.goal);
                        let jw = choose|j: int|
                            0 <= j < pre_self.tree.nodes@.len() && (
                            #[trigger] pre_self.tree.nodes@[j]).coord.dist2(old(self).goal) + i
                                <= d0;
                        assert(q_near.dist2(q_rand) <= pre_self.tree.nodes@[jw].coord.dist2(
                            q_rand,
                        ));
                        assert(m + i <= d0);
                        if m <= sq(self.step_size as int) {
                            assert(q_new == self.goal);
                            assert(sq(0int) == 0) by (nonlinear_arith);
                            assert(q_new.dist2(self.goal) == 0);
                            assert(false);
                        }
                        lemma_steer_advance_progress(
                            q_near.x as int,
                            q_near.y as int,
                            q_near.z as int,
                            self.goal.x as int,
                            self.goal.y as int,
                            self.goal.z as int,
                            self.step_size as int,
                        );
                        assert(0 <= new_idx < self.tree.nodes@.len() && (
                        #[trigger] self.tree.nodes@[new_idx as int]).coord.dist2(old(self).goal) + (
                        i + 1) <= d0);
                    }
                }
            } else {
                proof {
                    if live {
                        assert(false);
                    }
                }
            }
            i = i + 1;
        }
        proof {
            if live {
                let jw = choose|j: int|
                    0 <= j < self.tree.nodes@.len() && (
                    #[trigger] self.tree.nodes@[j]).coord.dist2(old(self).goal) + i <= d0;
                let wx: int = self.tree.nodes@[jw].coord.x - old(self).goal.x;
                let wy: int = self.tree.nodes@[jw].coord.y - old(self).goal.y;
                let wz: int = self.tree.nodes@[jw].coord.z - old(self).goal.z;
                assert(0 <= sq(wx) && 0 <= sq(wy) && 0 <= sq(wz)) by (nonlinear_arith);
                assert(false);
            }
        }
        None
    }

    /// The path found so far, if any.
    pub fn path(&self) -> (r: Option<&Vec<Point3>>)
        ensures
            r is Some <==> self.path_found is Some,
            r matches Some(p) ==> (self.path_found matches Some(q) && p@ == q@),
    {
        self.path_found.as_ref()
    }

    /// One export row per tree node, in insertion order: coordinates, then
    /// the parent index with `-1` for the root.
    pub fn node_records(&self) -> (r: Vec<(i64, i64, i64, i64)>)
        requires
            self.tree.wf(),
            self.tree.nodes@.len() <= 0x7fff_ffff_ffff_ffff,
        ensures
            r@.len() == self.tree.nodes@.len(),
            forall|i: int| 0 <= i < r@.len() ==> r@[i] == node_record3(self.tree.nodes@[i]),
    {
        let mut r: Vec<(i64, i64, i64, i64)> = Vec::new();
        let mut i: usize = 0;
        while i < self.tree.nodes.len()
            invariant
                self.tree.nodes@.len() <= 0x7fff_ffff_ffff_ffff,
                i <= self.tree.nodes@.len(),
                r@.len() == i,
                forall|j: int| 0 <= j < i ==> r@[j] == node_record3(self.tree.nodes@[j]),
            decreases self.tree.nodes@.len() - i,
        {
            let n = &self.tree.nodes[i];
            let parent: i64 = match n.parent_idx {
                Some(p) => p as i64,
                None => -1,
            };
            r.push((n.coord.x, n.coord.y, n.coord.z, parent));
            i = i + 1;
        }
        r
    }

    /// One export row per path point, in start-to-goal order, coordinates
    /// only; nothing when no path has been found.
    pub fn path_records(&self) -> (r: Option<Vec<(i64, i64, i64)>>)
        ensures
            r is Some <==> self.path_found is Some,
            r matches Some(v) ==> (self.path_found matches Some(p) && v@.len() == p@.len()
                && forall|i: int| 0 <= i < v@.len() ==> v@[i] == ((p@[i].x, p@[i].y, p@[i].z))),
    {
        match &self.path_found {
            None => None,
            Some(p) => {
                let mut v: Vec<(i64, i64, i64)> = Vec::new();
                let mut i: usize = 0;
                while i < p.len()
                    invariant
                        self.path_found matches Some(q) && q@ == p@,
                        i <= p@.len(),
                        v@.len() == i,
                        forall|j: int| 0 <= j < i ==> v@[j] == ((p@[j].x, p@[j].y, p@[j].z)),
                    decreases p@.len() - i,
                {
                    v.push((p[i].x, p[i].y, p[i].z));
                    i = i + 1;
                }
                Some(v)
            },
        }
    }
}

/// Appending one safely inserted node preserves the edge invariant: the
/// old edges are untouched, and the new node's edge was checked before the
/// call.
proof fn lemma_edges_ok_push3(pre: RRTPlanner3D, post: RRTPlanner3D, parent: usize)
    requires
        pre.edges_ok(),
        post.map == pre.map,
        post.step_size == pre.step_size,
        post.collision_steps == pre.collision_steps,
        post.tree.nodes@.len() == pre.tree.nodes@.len() + 1,
        forall|j: int| 0 <= j < pre.tree.nodes@.len() ==> post.tree.nodes@[j] == pre.tree.nodes@[j],
        ({
            let n = post.tree.nodes@[post.tree.nodes@.len() - 1];
            n.parent_idx == Some(parent) && (parent as int) < pre.tree.nodes@.len()
                && post.tree.nodes@[parent as int].coord.dist2(n.coord) <= sq(
                post.step_size as int,
            ) && !post.map.seg_colliding(
                post.tree.nodes@[parent as int].coord,
                n.coord,
                clamp_steps(post.collision_steps as int),
            )
        }),
    ensures
        post.edges_ok(),
{
    assert forall|i: int| 1 <= i < post.tree.nodes@.len() implies ({
        let n = #[trigger] post.tree.nodes@[i];
        n.parent_idx is Some && n.parent_idx->0 < i && post.tree.nodes@[n.parent_idx->0
            as int].coord.dist2(n.coord) <= sq(post.step_size as int)
            && !post.map.seg_colliding(
            post.tree.nodes@[n.parent_idx->0 as int].coord,
            n.coord,
            clamp_steps(post.collision_steps as int),
        )
    }) by {
        if i < pre.tree.nodes@.len() {
            assert(pre.tree.nodes@[i] == post.tree.nodes@[i]);
            let n = pre.tree.nodes@[i];
            assert(pre.tree.nodes@[n.parent_idx->0 as int] == post.tree.nodes@[n.parent_idx->0
                as int]);
        }
    }
}

/// An element-for-element copy of a point vector.
fn clone_points3(v: &Vec<Point3>) -> (r: Vec<Point3>)
    ensures
        r@ == v@,
{
    let mut r: Vec<Point3> = Vec::new();
    let mut i: usize = 0;
    while i < v.len()
        invariant
            i <= v@.len(),
            r@ == v@.subrange(0, i as int),
        decreases v@.len() - i,
    {
        r.push(v[i]);
        proof {
            assert(r@ =~= v@.subrange(0, i + 1));
        }
        i = i + 1;
    }
    proof {
        assert(r@ =~= v@);
    }
    r
}

} // verus!
