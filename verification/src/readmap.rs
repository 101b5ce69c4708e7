//! The 2D occupancy map: a finite grid of free/occupied cells queried at
//! continuous (fixed-point) coordinates, with point and segment collision
//! checks. Cells come from an external raster source; a pixel counts as an
//! obstacle when all its colour channels are at or near zero.

use vstd::prelude::*;

use crate::num::{clamp_steps, in_range, interp_comp, interp_spec, lemma_interp_degenerate,
    lemma_interp_ends, COORD_LIMIT};
use crate::structs::Point;

verus! {

/// Channel level at or below which a pixel counts as black (an obstacle).
pub const BLACK_THRESHOLD: u8 = 10;

/// A pixel is an obstacle when every colour channel is at or near zero.
pub open spec fn black_pixel(r: u8, g: u8, b: u8) -> bool {
    r <= BLACK_THRESHOLD && g <= BLACK_THRESHOLD && b <= BLACK_THRESHOLD
}

/// Classify one pixel by its colour channels: black means obstacle.
pub fn is_black(r: u8, g: u8, b: u8) -> (res: bool)
    ensures
        res == black_pixel(r, g, b),
{
    r <= BLACK_THRESHOLD && g <= BLACK_THRESHOLD && b <= BLACK_THRESHOLD
}

/// Why an occupancy map could not be built.
#[derive(Clone, Copy, Debug, PartialEq, Eq, Structural)]
pub enum MapError {
    /// A grid dimension is zero.
    EmptyGrid,
    /// The cell size is not positive.
    BadCellSize,
    /// The grid extent exceeds the coordinate bounds the planner works in.
    TooLarge,
    /// The cell vector does not hold exactly width times height entries.
    WrongCellCount,
}

/// The index of the grid cell nearest to coordinate `c`, for cells of size
/// `s`: `c / s` rounded to the nearest integer (ties upward).
pub open spec fn cell_index(c: int, s: int) -> int {
    (2 * c + s) / (2 * s)
}

/// A finite 2D grid of free/occupied cells, row-major, queried at
/// fixed-point coordinates; `cell_size` coordinate units make up one cell.
#[derive(Debug)]
pub struct OccupancyMap {
    pub width: usize,
    pub height: usize,
    pub cell_size: i64,
    pub cells: Vec<bool>,
}

impl OccupancyMap {
    /// Structural invariant: positive dimensions and cell size, the grid
    /// extent within the planning bounds, and one cell entry per grid cell.
    pub open spec fn wf(self) -> bool {
        &&& 1 <= self.width
        &&& 1 <= self.height
        &&& 1 <= self.cell_size
        &&& self.width * self.cell_size <= COORD_LIMIT
        &&& self.height * self.cell_size <= COORD_LIMIT
        &&& self.cells@.len() == self.width * self.height
    }

    /// Whether the point `(x, y)` is occupied: it rounds to an obstacle
    /// cell, or rounds to any index outside the grid (the fail-safe
    /// default).
    pub open spec fn occupied_at(self, x: int, y: int) -> bool {
        let ix = cell_index(x, self.cell_size as int);
        let iy = cell_index(y, self.cell_size as int);
        if ix < 0 || iy < 0 || ix >= self.width || iy >= self.height {
            true
        } else {
            self.cells@[iy * self.width + ix]
        }
    }

    /// Whether any of the `steps + 1` equally spaced samples on the segment
    /// from `a` to `b` (both endpoints included) is occupied.
    pub open spec fn seg_colliding(self, a: Point, b: Point, steps: int) -> bool {
        exists|k: int|
            0 <= k <= steps && #[trigger] self.occupied_at(
                interp_spec(a.x as int, b.x as int, k, steps),
                interp_spec(a.y as int, b.y as int, k, steps),
            )
    }

    /// A point whose coordinates round to indices outside the grid, in any
    /// dimension, is always occupied: the map fails safe at its borders.
    pub proof fn lemma_outside_is_occupied(self, x: int, y: int)
        requires
            cell_index(x, self.cell_size as int) < 0 || cell_index(y, self.cell_size as int) < 0
                || cell_index(x, self.cell_size as int) >= self.width || cell_index(
                y,
                self.cell_size as int,
            ) >= self.height,
        ensures
            self.occupied_at(x, y),
    {
    }

    /// Both endpoints are always among a segment's samples, so a segment
    /// with an occupied endpoint always collides.
    pub proof fn lemma_endpoints_checked(self, a: Point, b: Point, steps: int)
        requires
            1 <= steps,
        ensures
            self.occupied_at(a.x as int, a.y as int) ==> self.seg_colliding(a, b, steps),
            self.occupied_at(b.x as int, b.y as int) ==> self.seg_colliding(a, b, steps),
    {
        lemma_interp_ends(a.x as int, b.x as int, steps);
        lemma_interp_ends(a.y as int, b.y as int, steps);
        if self.occupied_at(a.x as int, a.y as int) {
            assert(0 <= 0 <= steps && self.occupied_at(
                interp_spec(a.x as int, b.x as int, 0, steps),
                interp_spec(a.y as int, b.y as int, 0, steps),
            ));
        }
        if self.occupied_at(b.x as int, b.y as int) {
            assert(0 <= steps <= steps && self.occupied_at(
                interp_spec(a.x as int, b.x as int, steps, steps),
                interp_spec(a.y as int, b.y as int, steps, steps),
            ));
        }
    }

    /// A degenerate segment collides exactly when its single point is
    /// occupied, whatever the step count: every sample of it is that point.
    pub proof fn lemma_degenerate_segment(self, a: Point, steps: int)
        requires
            1 <= steps,
        ensures
            self.seg_colliding(a, a, steps) == self.occupied_at(a.x as int, a.y as int),
    {
        lemma_interp_degenerate(a.x as int, 0, steps);
        lemma_interp_degenerate(a.y as int, 0, steps);
        if self.occupied_at(a.x as int, a.y as int) {
            assert(0 <= 0 <= steps && self.occupied_at(
                interp_spec(a.x as int, a.x as int, 0, steps),
                interp_spec(a.y as int, a.y as int, 0, steps),
            ));
        }
        if self.seg_colliding(a, a, steps) {
            let k = choose|k: int|
                0 <= k <= steps && #[trigger] self.occupied_at(
                    interp_spec(a.x as int, a.x as int, k, steps),
                    interp_spec(a.y as int, a.y as int, k, steps),
                );
            lemma_interp_degenerate(a.x as int, k, steps);
            lemma_interp_degenerate(a.y as int, k, steps);
            assert(self.occupied_at(a.x as int, a.y as int));
        }
    }

    /// Build a map from classified cells (row-major, `true` = obstacle).
    /// Fails, rather than aborting, on dimensions the planner cannot work
    /// with; each error names the first check that failed.
    pub fn from_cells(width: usize, height: usize, cell_size: i64, cells: Vec<bool>) -> (r: Result<
        OccupancyMap,
        MapError,
    >)
        ensures
            r is Ok <==> (1 <= width && 1 <= height && 1 <= cell_size && width * cell_size
                <= COORD_LIMIT && height * cell_size <= COORD_LIMIT && cells@.len() == width
                * height),
            r matches Ok(m) ==> m == (OccupancyMap { width, height, cell_size, cells }) && m.wf(),
            r == Err::<OccupancyMap, MapError>(MapError::EmptyGrid) <==> (width == 0 || height == 0),
            r == Err::<OccupancyMap, MapError>(MapError::BadCellSize) <==> (1 <= width && 1 <= height && cell_size < 1),
            r == Err::<OccupancyMap, MapError>(MapError::TooLarge) <==> (1 <= width && 1 <= height && 1 <= cell_size && (width
                * cell_size > COORD_LIMIT || height * cell_size > COORD_LIMIT)),
            r == Err::<OccupancyMap, MapError>(MapError::WrongCellCount) <==> (1 <= width && 1 <= height && 1 <= cell_size
                && width * cell_size <= COORD_LIMIT && height * cell_size <= COORD_LIMIT
                && cells@.len() != width * height),
    {
        if width == 0 || height == 0 {
            return Err(MapError::EmptyGrid);
        }
        if cell_size < 1 {
            return Err(MapError::BadCellSize);
        }
        if cell_size > 1_000_000 {
            proof {
                assert(width * cell_size >= 1 * cell_size) by (nonlinear_arith)
                    requires
                        cell_size >= 1,
                        width >= 1,
                ;
            }
            return Err(MapError::TooLarge);
        }
        if width > 1_000_000 || height > 1_000_000 {
            proof {
                assert(width * cell_size >= width * 1 && height * cell_size >= height * 1)
                    by (nonlinear_arith)
                    requires
                        cell_size >= 1,
                        width >= 1,
                        height >= 1,
                ;
            }
            return Err(MapError::TooLarge);
        }
        proof {
            assert(width * cell_size <= 1_000_000_000_000 && height * cell_size
                <= 1_000_000_000_000 && width * height <= 1_000_000_000_000) by (nonlinear_arith)
                requires
                    1 <= width <= 1_000_000,
                    1 <= height <= 1_000_000,
                    1 <= cell_size <= 1_000_000,
            ;
        }
        let wc: u64 = (width as u64) * (cell_size as u64);
        let hc: u64 = (height as u64) * (cell_size as u64);
        if wc > 1_000_000 || hc > 1_000_000 {
            return Err(MapError::TooLarge);
        }
        let count: u64 = (width as u64) * (height as u64);
        if cells.len() as u64 != count {
            return Err(MapError::WrongCellCount);
        }
        Ok(OccupancyMap { width, height, cell_size, cells })
    }

    /// Point-occupancy query at fixed-point coordinates: each component is
    /// rounded to its nearest cell index; any index outside the grid makes
    /// the point occupied.
    pub fn is_obstructed(&self, x: i64, y: i64) -> (r: bool)
        requires
            self.wf(),
            in_range(x as int),
            in_range(y as int),
        ensures
            r == self.occupied_at(x as int, y as int),
    {
        proof {
            assert(self.cell_size <= self.width * self.cell_size) by (nonlinear_arith)
                requires
                    1 <= self.width,
                    1 <= self.cell_size,
            ;
        }
        let ox = round_index(x, self.cell_size);
        let oy = round_index(y, self.cell_size);
        match (ox, oy) {
            (Some(ix), Some(iy)) => {
                if ix < self.width as u64 && iy < self.height as u64 {
                    let n: usize = self.cells.len();
                    proof {
                        assert((iy as int) * self.width + ix < self.width * self.height)
                            by (nonlinear_arith)
                            requires
                                0 <= ix < self.width,
                                0 <= iy < self.height,
                        ;
                    }
                    let pos: usize = (iy as usize) * self.width + (ix as usize);
                    self.cells[pos]
                } else {
                    true
                }
            },
            _ => true,
        }
    }

    /// Segment-collision query: samples `steps + 1` equally spaced points
    /// from `a` to `b` inclusive (the step count clamped to at least 1) and
    /// reports whether any sample is occupied.
    pub fn is_path_colliding(&self, a: &Point, b: &Point, num_steps: i32) -> (r: bool)
        requires
            self.wf(),
            a.wf(),
            b.wf(),
        ensures
            r == self.seg_colliding(*a, *b, clamp_steps(num_steps as int)),
    {
        let steps: u64 = if num_steps < 1 {
            1
        } else {
            num_steps as u64
        };
        let mut k: u64 = 0;
        while k <= steps
            invariant
                self.wf(),
                a.wf(),
                b.wf(),
                steps == clamp_steps(num_steps as int),
                1 <= steps <= 0x8000_0000,
                k <= steps + 1,
                forall|k2: int|
                    0 <= k2 < k ==> !#[trigger] self.occupied_at(
                        interp_spec(a.x as int, b.x as int, k2, steps as int),
                        interp_spec(a.y as int, b.y as int, k2, steps as int),
                    ),
            decreases steps + 1 - k,
        {
            let px = interp_comp(a.x, b.x, k, steps);
            let py = interp_comp(a.y, b.y, k, steps);
            if self.is_obstructed(px, py) {
                return true;
            }
            k = k + 1;
        }
        false
    }
}

/// The nearest cell index for coordinate `c` and cell size `s`, or `None`
/// when the coordinate rounds below index zero.
pub(crate) fn round_index(c: i64, s: i64) -> (r: Option<u64>)
    requires
        in_range(c as int),
        1 <= s <= COORD_LIMIT,
    ensures
        r matches Some(i) ==> i == cell_index(c as int, s as int),
        r is None ==> cell_index(c as int, s as int) < 0,
{
    let t: i64 = 2 * c + s;
    if t < 0 {
        proof {
            assert((t as int) / (2 * (s as int)) < 0) by (nonlinear_arith)
                requires
                    t < 0,
                    s >= 1,
            ;
        }
        None
    } else {
        Some((t as u64) / ((2 * s) as u64))
    }
}

} // verus!
