//! The 2D planning space: points, tree nodes, and the append-only search
//! tree with nearest-neighbour query and path reconstruction.

use vstd::prelude::*;

use crate::num::{abs_diff, in_range, lemma_sq_abs, sq};

verus! {

/// A position in the 2D planning space, in fixed-point coordinate units.
#[derive(Clone, Copy, Debug, PartialEq, Eq, Structural)]
pub struct Point {
    pub x: i64,
    pub y: i64,
}

impl Point {
    /// Both components are within the planning bounds.
    pub open spec fn wf(self) -> bool {
        in_range(self.x as int) && in_range(self.y as int)
    }

    /// Squared Euclidean distance between two points.
    pub open spec fn dist2(self, other: Point) -> int {
        sq(self.x - other.x) + sq(self.y - other.y)
    }

    /// Squared Euclidean distance, computed exactly. Distances are always
    /// compared squared, so no square root is needed.
    pub fn dist_sq(&self, other: &Point) -> (r: u64)
        requires
            self.wf(),
            other.wf(),
        ensures
            r == self.dist2(*other),
    {
        let dx: u64 = abs_diff(self.x, other.x);
        let dy: u64 = abs_diff(self.y, other.y);
        assert(dx * dx <= 4_000_000_000_000 && dy * dy <= 4_000_000_000_000) by (nonlinear_arith)
            requires
                dx <= 2_000_000u64,
                dy <= 2_000_000u64,
        ;
        proof {
            lemma_sq_abs(self.x - other.x);
            lemma_sq_abs(self.y - other.y);
        }
        dx * dx + dy * dy
    }
}

/// A tree node: a position plus the index of its parent in the tree's node
/// vector. Only the root (index 0) has no parent.
#[derive(Clone, Copy, Debug)]
pub struct RRTNode {
    pub coord: Point,
    pub parent_idx: Option<usize>,
}

/// The append-only search tree. Nodes are never removed or reordered, and
/// every non-root node's parent was inserted strictly earlier, so parent
/// references always walk back to the root.
pub struct RRTTree {
    pub nodes: Vec<RRTNode>,
}

impl RRTTree {
    /// Structural invariant: non-empty; the root has no parent; every other
    /// node points to a strictly earlier node; all positions are in bounds.
    pub open spec fn wf(self) -> bool {
        &&& 1 <= self.nodes@.len()
        &&& self.nodes@[0].parent_idx is None
        &&& forall|i: int|
            1 <= i < self.nodes@.len() ==> (#[trigger] self.nodes@[i]).parent_idx is Some
                && self.nodes@[i].parent_idx->0 < i
        &&& forall|i: int| 0 <= i < self.nodes@.len() ==> (#[trigger] self.nodes@[i]).coord.wf()
    }

    /// The coordinates on the unique walk from the root down to `idx`,
    /// in root-first order.
    pub open spec fn path_from(self, idx: int) -> Seq<Point>
        decreases idx,
    {
        if 0 < idx && self.nodes@[idx].parent_idx is Some && self.nodes@[idx].parent_idx->0 < idx {
            self.path_from(self.nodes@[idx].parent_idx->0 as int).push(self.nodes@[idx].coord)
        } else {
            seq![self.nodes@[idx].coord]
        }
    }

    /// Number of edges on the walk from the root down to `idx`.
    pub open spec fn depth_of(self, idx: int) -> nat
        decreases idx,
    {
        if 0 < idx && self.nodes@[idx].parent_idx is Some && self.nodes@[idx].parent_idx->0 < idx {
            self.depth_of(self.nodes@[idx].parent_idx->0 as int) + 1
        } else {
            0
        }
    }

    /// In a well-formed tree, the walk from the root to any node starts at
    /// the root (the one node with no parent), ends at that node, and has
    /// one more point than the node's depth.
    pub proof fn lemma_path_from_props(self, idx: int)
        requires
            self.wf(),
            0 <= idx < self.nodes@.len(),
        ensures
            self.path_from(idx).len() == self.depth_of(idx) + 1,
            self.path_from(idx)[0] == self.nodes@[0].coord,
            self.path_from(idx).last() == self.nodes@[idx].coord,
            self.nodes@[0].parent_idx is None,
        decreases idx,
    {
        if 0 < idx {
            let p: int = self.nodes@[idx].parent_idx->0 as int;
            self.lemma_path_from_props(p);
        }
    }

    /// A tree with exactly one node, the root, carrying the start position.
    pub fn new(start_point: Point) -> (r: RRTTree)
        requires
            start_point.wf(),
        ensures
            r.wf(),
            r.nodes@.len() == 1,
            r.nodes@[0].coord == start_point,
            r.nodes@[0].parent_idx is None,
    {
        let mut nodes: Vec<RRTNode> = Vec::new();
        nodes.push(RRTNode { coord: start_point, parent_idx: None });
        RRTTree { nodes }
    }

    /// Append a node with the given parent; the returned index is the prior
    /// node count. No existing node changes, so the tree only ever grows.
    pub fn add_node(&mut self, point: Point, parent_idx: usize) -> (new_idx: usize)
        requires
            old(self).wf(),
            point.wf(),
            parent_idx < old(self).nodes@.len(),
        ensures
            final(self).wf(),
            new_idx == old(self).nodes@.len(),
            final(self).nodes@ == old(self).nodes@.push(
                (RRTNode { coord: point, parent_idx: Some(parent_idx) }),
            ),
    {
        let new_node = RRTNode { coord: point, parent_idx: Some(parent_idx) };
        self.nodes.push(new_node);
        self.nodes.len() - 1
    }

    /// Look a node up by index.
    pub fn get_node(&self, idx: usize) -> (r: Option<&RRTNode>)
        ensures
            idx < self.nodes@.len() ==> (r matches Some(n) && *n == self.nodes@[idx as int]),
            idx >= self.nodes@.len() ==> r is None,
    {
        if idx < self.nodes.len() {
            Some(&self.nodes[idx])
        } else {
            None
        }
    }

    /// Read-only view of all nodes, in insertion order.
    pub fn nodes(&self) -> (r: &Vec<RRTNode>)
        ensures
            r@ == self.nodes@,
    {
        &self.nodes
    }

    /// Index of a node at minimal squared distance from `point`, scanning
    /// left to right; on ties the earliest such node wins, so every node
    /// before the result is strictly farther away.
    pub fn nearest_node_idx(&self, point: &Point) -> (r: usize)
        requires
            self.wf(),
            point.wf(),
        ensures
            r < self.nodes@.len(),
            forall|j: int|
                0 <= j < self.nodes@.len() ==> self.nodes@[r as int].coord.dist2(*point) <= (
                #[trigger] self.nodes@[j]).coord.dist2(*point),
            forall|j: int|
                0 <= j < r ==> self.nodes@[r as int].coord.dist2(*point) < (
                #[trigger] self.nodes@[j]).coord.dist2(*point),
    {
        let mut nearest_idx: usize = 0;
        let mut min_dist: u64 = self.nodes[0].coord.dist_sq(point);
        let mut i: usize = 1;
        while i < self.nodes.len()
            invariant
                self.wf(),
                point.wf(),
                1 <= i <= self.nodes@.len(),
                nearest_idx < i,
                min_dist == self.nodes@[nearest_idx as int].coord.dist2(*point),
                forall|j: int|
                    0 <= j < i ==> min_dist <= (#[trigger] self.nodes@[j]).coord.dist2(*point),
                forall|j: int|
                    0 <= j < nearest_idx ==> min_dist < (#[trigger] self.nodes@[j]).coord.dist2(
                        *point,
                    ),
            decreases self.nodes@.len() - i,
        {
            let dist = self.nodes[i].coord.dist_sq(point);
            if dist < min_dist {
                min_dist = dist;
                nearest_idx = i;
            }
            i = i + 1;
        }
        nearest_idx
    }

    /// Walk parent references from `end_node_idx` up to the root, then
    /// return the collected coordinates reversed, so the result reads
    /// root first.
    pub fn reconstruct_path(&self, end_node_idx: usize) -> (path: Vec<Point>)
        requires
            self.wf(),
            end_node_idx < self.nodes@.len(),
        ensures
            path@ == self.path_from(end_node_idx as int),
            path@.len() >= 1,
            path@[0] == self.nodes@[0].coord,
            path@.last() == self.nodes@[end_node_idx as int].coord,
    {
        let ghost full: Seq<Point> = self.path_from(end_node_idx as int);
        let mut rev: Vec<Point> = Vec::new();
        let mut cur: usize = end_node_idx;
        loop
            invariant_except_break
                self.wf(),
                cur < self.nodes@.len(),
                end_node_idx < self.nodes@.len(),
                full == self.path_from(end_node_idx as int),
                full.len() == self.path_from(cur as int).len() + rev@.len(),
                forall|j: int|
                    0 <= j < self.path_from(cur as int).len() ==> full[j] == self.path_from(
                        cur as int,
                    )[j],
                forall|j: int| 0 <= j < rev@.len() ==> full[full.len() - 1 - j] == rev@[j],
            ensures
                rev@.len() == full.len(),
                forall|j: int| 0 <= j < rev@.len() ==> full[full.len() - 1 - j] == rev@[j],
            decreases cur,
        {
            let ghost before: Seq<Point> = self.path_from(cur as int);
            rev.push(self.nodes[cur].coord);
            match self.nodes[cur].parent_idx {
                Some(p) => {
                    proof {
                        assert(cur > 0);
                        assert(before == self.path_from(p as int).push(
                            self.nodes@[cur as int].coord,
                        ));
                        assert(full[before.len() - 1] == before[before.len() - 1]);
                    }
                    cur = p;
                },
                None => {
                    proof {
                        assert(cur == 0);
                        assert(before.len() == 1);
                        assert(full[0] == before[0]);
                    }
                    break ;
                },
            }
        }
        let mut path: Vec<Point> = Vec::new();
        let mut i: usize = rev.len();
        while i > 0
            invariant
                i <= rev@.len(),
                rev@.len() == full.len(),
                path@.len() == rev@.len() - i,
                forall|j: int| 0 <= j < rev@.len() ==> full[full.len() - 1 - j] == rev@[j],
                forall|k: int| 0 <= k < path@.len() ==> path@[k] == rev@[rev@.len() - 1 - k],
            decreases i,
        {
            i = i - 1;
            path.push(rev[i]);
        }
        proof {
            assert forall|k: int| 0 <= k < path@.len() implies path@[k] == full[k] by {
                assert(path@[k] == rev@[rev@.len() - 1 - k]);
                assert(full[full.len() - 1 - (rev@.len() - 1 - k)] == rev@[rev@.len() - 1 - k]);
            }
            assert(path@ =~= full);
            self.lemma_path_from_props(end_node_idx as int);
        }
        path
    }
}

} // verus!
