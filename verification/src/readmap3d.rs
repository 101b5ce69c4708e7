//! The 3D occupancy map: one 2D free/occupied grid replicated uniformly
//! across a number of discrete depth layers of fixed thickness. The depth
//! coordinate selects a layer by rounding; every layer carries the same
//! classification.

use vstd::prelude::*;

use crate::num::{clamp_steps, in_range, interp_comp, interp_spec, lemma_interp_degenerate,
    lemma_interp_ends, COORD_LIMIT};
use crate::readmap::{cell_index, round_index, MapError};
use crate::structs3d::Point3;

verus! {

/// A finite 3D occupancy volume: a 2D cell grid (row-major, `true` =
/// obstacle) replicated across `depth` layers, each `dz` coordinate units
/// thick; `cell_size` coordinate units make up one cell in x and y.
#[derive(Debug)]
pub struct OccupancyMap3D {
    pub width: usize,
    pub height: usize,
    pub cell_size: i64,
    pub depth: usize,
    pub dz: i64,
    pub cells: Vec<bool>,
}

impl OccupancyMap3D {
    /// Structural invariant: positive dimensions, cell size and layer
    /// thickness; the extent on every axis within the planning bounds; one
    /// cell entry per grid cell.
    pub open spec fn wf(self) -> bool {
        &&& 1 <= self.width
        &&& 1 <= self.height
        &&& 1 <= self.depth
        &&& 1 <= self.cell_size
        &&& 1 <= self.dz
        &&& self.width * self.cell_size <= COORD_LIMIT
        &&& self.height * self.cell_size <= COORD_LIMIT
        &&& self.depth * self.dz <= COORD_LIMIT
        &&& self.cells@.len() == self.width * self.height
    }

    /// Whether the point `(x, y, z)` is occupied: `x` and `y` round to a
    /// cell, `z / dz` rounds to a layer; any index outside the volume makes
    /// the point occupied (the fail-safe default), and inside it the shared
    /// 2D classification decides, identically on every layer.
    pub open spec fn occupied_at(self, x: int, y: int, z: int) -> bool {
        let ix = cell_index(x, self.cell_size as int);
        let iy = cell_index(y, self.cell_size as int);
        let iz = cell_index(z, self.dz as int);
        if ix < 0 || iy < 0 || iz < 0 || ix >= self.width || iy >= self.height || iz
            >= self.depth {
            true
        } else {
            self.cells@[iy * self.width + ix]
        }
    }

    /// Whether any of the `steps + 1` equally spaced samples on the segment
    /// from `a` to `b` (both endpoints included) is occupied.
    pub open spec fn seg_colliding(self, a: Point3, b: Point3, steps: int) -> bool {
        exists|k: int|
            0 <= k <= steps && #[trigger] self.occupied_at(
                interp_spec(a.x as int, b.x as int, k, steps),
                interp_spec(a.y as int, b.y as int, k, steps),
                interp_spec(a.z as int, b.z as int, k, steps),
            )
    }

    /// A point whose coordinates round to indices outside the volume, in
    /// any dimension, is always occupied: the map fails safe at its borders.
    pub proof fn lemma_outside_is_occupied(self, x: int, y: int, z: int)
        requires
            cell_index(x, self.cell_size as int) < 0 || cell_index(y, self.cell_size as int) < 0
                || cell_index(z, self.dz as int) < 0 || cell_index(x, self.cell_size as int)
                >= self.width || cell_index(y, self.cell_size as int) >= self.height || cell_index(
                z,
                self.dz as int,
            ) >= self.depth,
        ensures
            self.occupied_at(x, y, z),
    {
    }

    /// Both endpoints are always among a segment's samples, so a segment
    /// with an occupied endpoint always collides.
    pub proof fn lemma_endpoints_checked(self, a: Point3, b: Point3, steps: int)
        requires
            1 <= steps,
        ensures
            self.occupied_at(a.x as int, a.y as int, a.z as int) ==> self.seg_colliding(
                a,
                b,
                steps,
            ),
            self.occupied_at(b.x as int, b.y as int, b.z as int) ==> self.seg_colliding(
                a,
                b,
                steps,
            ),
    {
        lemma_interp_ends(a.x as int, b.x as int, steps);
        lemma_interp_ends(a.y as int, b.y as int, steps);
        lemma_interp_ends(a.z as int, b.z as int, steps);
        if self.occupied_at(a.x as int, a.y as int, a.z as int) {
            assert(0 <= 0 <= steps && self.occupied_at(
                interp_spec(a.x as int, b.x as int, 0, steps),
                interp_spec(a.y as int, b.y as int, 0, steps),
                interp_spec(a.z as int, b.z as int, 0, steps),
            ));
        }
        if self.occupied_at(b.x as int, b.y as int, b.z as int) {
            assert(0 <= steps <= steps && self.occupied_at(
                interp_spec(a.x as int, b.x as int, steps, steps),
                interp_spec(a.y as int, b.y as int, steps, steps),
                interp_spec(a.z as int, b.z as int, steps, steps),
            ));
        }
    }

    /// A degenerate segment collides exactly when its single point is
    /// occupied, whatever the step count: every sample of it is that point.
    pub proof fn lemma_degenerate_segment(self, a: Point3, steps: int)
        requires
            1 <= steps,
        ensures
            self.seg_colliding(a, a, steps) == self.occupied_at(
                a.x as int,
                a.y as int,
                a.z as int,
            ),
    {
        lemma_interp_degenerate(a.x as int, 0, steps);
        lemma_interp_degenerate(a.y as int, 0, steps);
        lemma_interp_degenerate(a.z as int, 0, steps);
        if self.occupied_at(a.x as int, a.y as int, a.z as int) {
            assert(0 <= 0 <= steps && self.occupied_at(
                interp_spec(a.x as int, a.x as int, 0, steps),
                interp_spec(a.y as int, a.y as int, 0, steps),
                interp_spec(a.z as int, a.z as int, 0, steps),
            ));
        }
        if self.seg_colliding(a, a, steps) {
            let k = choose|k: int|
                0 <= k <= steps && #[trigger] self.occupied_at(
                    interp_spec(a.x as int, a.x as int, k, steps),
                    interp_spec(a.y as int, a.y as int, k, steps),
                    interp_spec(a.z as int, a.z as int, k, steps),
                );
            lemma_interp_degenerate(a.x as int, k, steps);
            lemma_interp_degenerate(a.y as int, k, steps);
            lemma_interp_degenerate(a.z as int, k, steps);
            assert(self.occupied_at(a.x as int, a.y as int, a.z as int));
        }
    }

    /// Build a volume by replicating one classified 2D grid (row-major,
    /// `true` = obstacle) across `depth` layers of thickness `dz`. Fails,
    /// rather than aborting, on dimensions the planner cannot work with.
    pub fn replicate_from(
        width: usize,
        height: usize,
        cell_size: i64,
        cells: Vec<bool>,
        depth: usize,
        dz: i64,
    ) -> (r: Result<OccupancyMap3D, MapError>)
        ensures
            r is Ok <==> (1 <= width && 1 <= height && 1 <= depth && 1 <= cell_size && 1 <= dz
                && width * cell_size <= COORD_LIMIT && height * cell_size <= COORD_LIMIT && depth
                * dz <= COORD_LIMIT && cells@.len() == width * height),
            r matches Ok(m) ==> m == (OccupancyMap3D { width, height, cell_size, depth, dz, cells })
                && m.wf(),
            r == Err::<OccupancyMap3D, MapError>(MapError::EmptyGrid) <==> (width == 0 || height
                == 0 || depth == 0),
            r == Err::<OccupancyMap3D, MapError>(MapError::BadCellSize) <==> (1 <= width && 1
                <= height && 1 <= depth && (cell_size < 1 || dz < 1)),
            r == Err::<OccupancyMap3D, MapError>(MapError::TooLarge) <==> (1 <= width && 1 <= height
                && 1 <= depth && 1 <= cell_size && 1 <= dz && (width * cell_size > COORD_LIMIT
                || height * cell_size > COORD_LIMIT || depth * dz > COORD_LIMIT)),
            r == Err::<OccupancyMap3D, MapError>(MapError::WrongCellCount) <==> (1 <= width && 1
                <= height && 1 <= depth && 1 <= cell_size && 1 <= dz && width * cell_size
                <= COORD_LIMIT && height * cell_size <= COORD_LIMIT && depth * dz <= COORD_LIMIT
                && cells@.len() != width * height),
    {
        if width == 0 || height == 0 || depth == 0 {
            return Err(MapError::EmptyGrid);
        }
        if cell_size < 1 || dz < 1 {
            return Err(MapError::BadCellSize);
        }
        if cell_size > 1_000_000 || dz > 1_000_000 || width > 1_000_000 || height > 1_000_000
            || depth > 1_000_000 {
            proof {
                assert(width * cell_size >= 1 * cell_size && width * cell_size >= width * 1
                    && height * cell_size >= height * 1 && depth * dz >= 1 * dz && depth * dz
                    >= depth * 1) by (nonlinear_arith)
                    requires
                        cell_size >= 1,
                        dz >= 1,
                        width >= 1,
                        height >= 1,
                        depth >= 1,
                ;
            }
            return Err(MapError::TooLarge);
        }
        proof {
            assert(width * cell_size <= 1_000_000_000_000 && height * cell_size
                <= 1_000_000_000_000 && depth * dz <= 1_000_000_000_000 && width * height
                <= 1_000_000_000_000) by (nonlinear_arith)
                requires
                    1 <= width <= 1_000_000,
                    1 <= height <= 1_000_000,
                    1 <= depth <= 1_000_000,
                    1 <= cell_size <= 1_000_000,
                    1 <= dz <= 1_000_000,
            ;
        }
        let wc: u64 = (width as u64) * (cell_size as u64);
        let hc: u64 = (height as u64) * (cell_size as u64);
        let dd: u64 = (depth as u64) * (dz as u64);
        if wc > 1_000_000 || hc > 1_000_000 || dd > 1_000_000 {
            return Err(MapError::TooLarge);
        }
        let count: u64 = (width as u64) * (height as u64);
        if cells.len() as u64 != count {
            return Err(MapError::WrongCellCount);
        }
        Ok(OccupancyMap3D { width, height, cell_size, depth, dz, cells })
    }

    /// Round `(x, y)` to cell indices, or `None` when either index falls
    /// outside the grid.
    fn clamp_xy(&self, x: i64, y: i64) -> (r: Option<(usize, usize)>)
        requires
            self.wf(),
            in_range(x as int),
            in_range(y as int),
        ensures
            r matches Some(p) ==> p.0 == cell_index(x as int, self.cell_size as int) && p.1
                == cell_index(y as int, self.cell_size as int) && p.0 < self.width && p.1
                < self.height,
            r is None ==> (cell_index(x as int, self.cell_size as int) < 0 || cell_index(
                y as int,
                self.cell_size as int,
            ) < 0 || cell_index(x as int, self.cell_size as int) >= self.width || cell_index(
                y as int,
                self.cell_size as int,
            ) >= self.height),
    {
        proof {
            assert(self.cell_size <= self.width * self.cell_size) by (nonlinear_arith)
                requires
                    1 <= self.width,
                    1 <= self.cell_size,
            ;
        }
        let ox = round_index(x, self.cell_size);
        let oy = round_index(y, self.cell_size);
        match (ox, oy) {
            (Some(ix), Some(iy)) => {
                if ix < self.width as u64 && iy < self.height as u64 {
                    Some(((ix as usize), (iy as usize)))
                } else {
                    None
                }
            },
            _ => None,
        }
    }

    /// Round a depth coordinate to its layer, or `None` when the layer
    /// falls outside the volume.
    fn clamp_z(&self, z: i64) -> (r: Option<usize>)
        requires
            self.wf(),
            in_range(z as int),
        ensures
            r matches Some(l) ==> l == cell_index(z as int, self.dz as int) && l < self.depth,
            r is None ==> (cell_index(z as int, self.dz as int) < 0 || cell_index(
                z as int,
                self.dz as int,
            ) >= self.depth),
    {
        proof {
            assert(self.dz <= self.depth * self.dz) by (nonlinear_arith)
                requires
                    1 <= self.depth,
                    1 <= self.dz,
            ;
        }
        match round_index(z, self.dz) {
            Some(iz) => {
                if iz < self.depth as u64 {
                    Some(iz as usize)
                } else {
                    None
                }
            },
            None => None,
        }
    }

    /// Point-occupancy query: `(x, y)` rounds to a cell and `z` to a layer;
    /// outside the volume counts as occupied.
    pub fn is_obstructed_xyz(&self, x: i64, y: i64, z: i64) -> (r: bool)
        requires
            self.wf(),
            in_range(x as int),
            in_range(y as int),
            in_range(z as int),
        ensures
            r == self.occupied_at(x as int, y as int, z as int),
    {
        match (self.clamp_xy(x, y), self.clamp_z(z)) {
            (Some(xy), Some(_layer)) => {
                let (ix, iy) = xy;
                let n: usize = self.cells.len();
                proof {
                    assert((iy as int) * self.width + ix < self.width * self.height)
                        by (nonlinear_arith)
                        requires
                            0 <= ix < self.width,
                            0 <= iy < self.height,
                    ;
                }
                let pos: usize = iy * self.width + ix;
                self.cells[pos]
            },
            _ => true,
        }
    }

    /// Segment-collision query: samples `steps + 1` equally spaced points
    /// from `a` to `b` inclusive (the step count clamped to at least 1) and
    /// reports whether any sample is occupied.
    pub fn is_colliding(&self, a: &Point3, b: &Point3, num_steps: i32) -> (r: bool)
        requires
            self.wf(),
            a.wf(),
            b.wf(),
        ensures
            r == self.seg_colliding(*a, *b, clamp_steps(num_steps as int)),
    {
        let steps: u64 = if num_steps < 1 {
            1
        } else {
            num_steps as u64
        };
        let mut k: u64 = 0;
        while k <= steps
            invariant
                self.wf(),
                a.wf(),
                b.wf(),
                steps == clamp_steps(num_steps as int),
                1 <= steps <= 0x8000_0000,
                k <= steps + 1,
                forall|k2: int|
                    0 <= k2 < k ==> !#[trigger] self.occupied_at(
                        interp_spec(a.x as int, b.x as int, k2, steps as int),
                        interp_spec(a.y as int, b.y as int, k2, steps as int),
                        interp_spec(a.z as int, b.z as int, k2, steps as int),
                    ),
            decreases steps + 1 - k,
        {
            let px = interp_comp(a.x, b.x, k, steps);
            let py = interp_comp(a.y, b.y, k, steps);
            let pz = interp_comp(a.z, b.z, k, steps);
            if self.is_obstructed_xyz(px, py, pz) {
                return true;
            }
            k = k + 1;
        }
        false
    }
}

} // verus!
