//! The 3D planning space: points, tree nodes, and the append-only search
//! tree, mirroring the 2D variant with one more coordinate axis.

use vstd::prelude::*;

use crate::num::{abs_diff, in_range, lemma_sq_abs, sq};

verus! {

/// A position in the 3D planning space, in fixed-point coordinate units.
#[derive(Clone, Copy, Debug, PartialEq, Eq, Structural)]
pub struct Point3 {
    pub x: i64,
    pub y: i64,
    pub z: i64,
}

impl Point3 {
    /// All three components are within the planning bounds.
    pub open spec fn wf(self) -> bool {
        in_range(self.x as int) && in_range(self.y as int) && in_range(self.z as int)
    }

    /// Squared Euclidean distance between two points.
    pub open spec fn dist2(self, other: Point3) -> int {
        sq(self.x - other.x) + sq(self.y - other.y) + sq(self.z - other.z)
    }

    /// Squared Euclidean distance, computed exactly. Distances are always
    /// compared squared, so no square root is needed.
    pub fn dist_sq(&self, other: &Point3) -> (r: u64)
        requires
            self.wf(),
            other.wf(),
        ensures
            r == self.dist2(*other),
    {
        let dx: u64 = abs_diff(self.x, other.x);
        let dy: u64 = abs_diff(self.y, other.y);
        let dz: u64 = abs_diff(self.z, other.z);
        assert(dx * dx <= 4_000_000_000_000 && dy * dy <= 4_000_000_000_000 && dz * dz
            <= 4_000_000_000_000) by (nonlinear_arith)
            requires
                dx <= 2_000_000u64,
                dy <= 2_000_000u64,
                dz <= 2_000_000u64,
        ;
        proof {
            lemma_sq_abs(self.x - other.x);
            lemma_sq_abs(self.y - other.y);
            lemma_sq_abs(self.z - other.z);
        }
        dx * dx + dy * dy + dz * dz
    }
}

/// A tree node: a position plus the index of its parent in the tree's node
/// vector. Only the root (index 0) has no parent.
#[derive(Clone, Copy, Debug)]
pub struct RRTNode3D {
    pub coord: Point3,
    pub parent_idx: Option<usize>,
}

/// The append-only 3D search tree. Nodes are never removed or reordered,
/// and every non-root node's parent was inserted strictly earlier.
#[derive(Clone, Debug)]
pub struct RRTTree3D {
    pub nodes: Vec<RRTNode3D>,
}

impl RRTTree3D {
    /// Structural invariant: non-empty; the root has no parent; every other
    /// node points to a strictly earlier node; all positions are in bounds.
    pub open spec fn wf(self) -> bool {
        &&& 1 <= self.nodes@.len()
        &&& self.nodes@[0].parent_idx is None
        &&& forall|i: int|
            1 <= i < self.nodes@.len() ==> (#[trigger] self.nodes@[i]).parent_idx is Some
                && self.nodes@[i].parent_idx->0 < i
        &&& forall|i: int| 0 <= i < self.nodes@.len() ==> (#[trigger] self.nodes@[i]).coord.wf()
    }

    /// The coordinates on the unique walk from the root down to `idx`,
    /// in root-first order.
    pub open spec fn path_from(self, idx: int) -> Seq<Point3>
        decreases idx,
    {
        if 0 < idx && self.nodes@[idx].parent_idx is Some && self.nodes@[idx].parent_idx->0 < idx {
            self.path_from(self.nodes@[idx].parent_idx->0 as int).push(self.nodes@[idx].coord)
        } else {
            seq![self.nodes@[idx].coord]
        }
    }

    /// Number of edges on the walk from the root down to `idx`.
    pub open spec fn depth_of(self, idx: int) -> nat
        decreases idx,
    {
        if 0 < idx && self.nodes@[idx].parent_idx is Some && self.nodes@[idx].parent_idx->0 < idx {
            self.depth_of(self.nodes@[idx].parent_idx->0 as int) + 1
        } else {
            0
        }
    }

    /// In a well-formed tree, the walk from the root to any node starts at
    /// the root (the one node with no parent), ends at that node, and has
    /// one more point than the node's depth.
    pub proof fn lemma_path_from_props(self, idx: int)
        requires
            self.wf(),
            0 <= idx < self.nodes@.len(),
        ensures
            self.path_from(idx).len() == self.depth_of(idx) + 1,
            self.path_from(idx)[0] == self.nodes@[0].coord,
            self.path_from(idx).last() == self.nodes@[idx].coord,
            self.nodes@[0].parent_idx is None,
        decreases idx,
    {
        if 0 < idx {
            let p: int = self.nodes@[idx].parent_idx->0 as int;
            self.lemma_path_from_props(p);
        }
    }

    /// A tree with exactly one node, the root, carrying the start position.
    pub fn new(start: Point3) -> (r: RRTTree3D)
        requires
            start.wf(),
        ensures
            r.wf(),
            r.nodes@.len() == 1,
            r.nodes@[0].coord == start,
            r.nodes@[0].parent_idx is None,
    {
        let mut nodes: Vec<RRTNode3D> = Vec::new();
        nodes.push(RRTNode3D { coord: start, parent_idx: None });
        RRTTree3D { nodes }
    }

    /// Append a node with the given parent; the returned index is the prior
    /// node count. No existing node changes, so the tree only ever grows.
    pub fn add_node(&mut self, coord: Point3, parent_idx: usize) -> (new_idx: usize)
        requires
            old(self).wf(),
            coord.wf(),
            parent_idx < old(self).nodes@.len(),
        ensures
            final(self).wf(),
            new_idx == old(self).nodes@.len(),
            final(self).nodes@ == old(self).nodes@.push(
                (RRTNode3D { coord, parent_idx: Some(parent_idx) }),
            ),
    {
        self.nodes.push(RRTNode3D { coord, parent_idx: Some(parent_idx) });
        self.nodes.len() - 1
    }

    /// Index of a node at minimal squared distance from `p`, scanning left
    /// to right; on ties the earliest such node wins, so every node before
    /// the result is strictly farther away.
    pub fn nearest(&self, p: &Point3) -> (r: usize)
        requires
            self.wf(),
            p.wf(),
        ensures
            r < self.nodes@.len(),
            forall|j: int|
                0 <= j < self.nodes@.len() ==> self.nodes@[r as int].coord.dist2(*p) <= (
                #[trigger] self.nodes@[j]).coord.dist2(*p),
            forall|j: int|
                0 <= j < r ==> self.nodes@[r as int].coord.dist2(*p) < (
                #[trigger] self.nodes@[j]).coord.dist2(*p),
    {
        let mut best: usize = 0;
        let mut best_d: u64 = self.nodes[0].coord.dist_sq(p);
        let mut i: usize = 1;
        while i < self.nodes.len()
            invariant
                self.wf(),
                p.wf(),
                1 <= i <= self.nodes@.len(),
                best < i,
                best_d == self.nodes@[best as int].coord.dist2(*p),
                forall|j: int|
                    0 <= j < i ==> best_d <= (#[trigger] self.nodes@[j]).coord.dist2(*p),
                forall|j: int|
                    0 <= j < best ==> best_d < (#[trigger] self.nodes@[j]).coord.dist2(*p),
            decreases self.nodes@.len() - i,
        {
            let d = self.nodes[i].coord.dist_sq(p);
            if d < best_d {
                best_d = d;
                best = i;
            }
            i = i + 1;
        }
        best
    }

    /// Walk parent references from `end_node_idx` up to the root, then
    /// return the collected coordinates reversed, so the result reads
    /// root first.
    pub fn reconstruct_path(&self, end_node_idx: usize) -> (path: Vec<Point3>)
        requires
            self.wf(),
            end_node_idx < self.nodes@.len(),
        ensures
            path@ == self.path_from(end_node_idx as int),
            path@.len() >= 1,
            path@[0] == self.nodes@[0].coord,
            path@.last() == self.nodes@[end_node_idx as int].coord,
    {
        let ghost full: Seq<Point3> = self.path_from(end_node_idx as int);
        let mut rev: Vec<Point3> = Vec::new();
        let mut cur: usize = end_node_idx;
        loop
            invariant_except_break
                self.wf(),
                cur < self.nodes@.len(),
                end_node_idx < self.nodes@.len(),
                full == self.path_from(end_node_idx as int),
                full.len() == self.path_from(cur as int).len() + rev@.len(),
                forall|j: int|
                    0 <= j < self.path_from(cur as int).len() ==> full[j] == self.path_from(
                        cur as int,
                    )[j],
                forall|j: int| 0 <= j < rev@.len() ==> full[full.len() - 1 - j] == rev@[j],
            ensures
                rev@.len() == full.len(),
                forall|j: int| 0 <= j < rev@.len() ==> full[full.len() - 1 - j] == rev@[j],
            decreases cur,
        {
            let ghost before: Seq<Point3> = self.path_from(cur as int);
            rev.push(self.nodes[cur].coord);
            match self.nodes[cur].parent_idx {
                Some(p) => {
                    proof {
                        assert(cur > 0);
                        assert(before == self.path_from(p as int).push(
                            self.nodes@[cur as int].coord,
                        ));
                        assert(full[before.len() - 1] == before[before.len() - 1]);
                    }
                    cur = p;
                },
                None => {
                    proof {
                        assert(cur == 0);
                        assert(before.len() == 1);
                        assert(full[0] == before[0]);
                    }
                    break ;
                },
            }
        }
        let mut path: Vec<Point3> = Vec::new();
        let mut i: usize = rev.len();
        while i > 0
            invariant
                i <= rev@.len(),
                rev@.len() == full.len(),
                path@.len() == rev@.len() - i,
                forall|j: int| 0 <= j < rev@.len() ==> full[full.len() - 1 - j] == rev@[j],
                forall|k: int| 0 <= k < path@.len() ==> path@[k] == rev@[rev@.len() - 1 - k],
            decreases i,
        {
            i = i - 1;
            path.push(rev[i]);
        }
        proof {
            assert forall|k: int| 0 <= k < path@.len() implies path@[k] == full[k] by {
                assert(path@[k] == rev@[rev@.len() - 1 - k]);
                assert(full[full.len() - 1 - (rev@.len() - 1 - k)] == rev@[rev@.len() - 1 - k]);
            }
            assert(path@ =~= full);
            self.lemma_path_from_props(end_node_idx as int);
        }
        path
    }
}

} // verus!
