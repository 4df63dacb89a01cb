//! A chunk: a fixed-size, row-major tile of cells together with the pair of
//! dirty rectangles that limits the next tick's work to the active region.

use vstd::prelude::*;

use crate::cell::{Cell, PhysicsType};
use crate::geometry_helpers::{BoundRect, Point};

verus! {

/// Upper bound on a chunk's width and height.
pub const MAX_CHUNK_DIM: i32 = 4096;

/// Row-major index of `(x, y)` in a grid `width` cells wide.
pub fn get_index(x: i32, y: i32, width: i32) -> (r: usize)
    requires
        0 <= x < width,
        0 <= y,
        y * width + x <= i32::MAX,
    ensures
        r == y * width + x,
{
    (y * width + x) as usize
}

/// `(x, y)` indexes strictly inside a `width` by `height` grid.
pub open spec fn in_grid(x: int, y: int, width: int, height: int) -> bool {
    0 <= x < width && 0 <= y < height
}

pub(crate) proof fn lemma_row_major_bounds(x: int, y: int, width: int, height: int)
    by (nonlinear_arith)
    requires
        in_grid(x, y, width, height),
    ensures
        0 <= y * width,
        0 <= y * width + x < width * height,
{
}

pub(crate) proof fn lemma_grid_size_bound(width: int, height: int)
    by (nonlinear_arith)
    requires
        0 < width <= MAX_CHUNK_DIM,
        0 < height <= MAX_CHUNK_DIM,
    ensures
        width * height <= 0x1000000,
{
}

pub struct PixelChunk {
    /// Covers every local position written since the last tick's results were
    /// folded in; a conservative superset, never a subset.
    pub current_dirty_rect: BoundRect,
    /// The region that was active last tick; scanned once more so a region
    /// that just went quiet gets one settling pass.
    pub previous_dirty_rect: BoundRect,
    /// While positive, the chunk reports itself as needing an update so an
    /// externally placed cell is guaranteed to be drawn; counts down to zero.
    pub render_override: u8,
    /// Chunk coordinate in the world's grid (not a world cell coordinate).
    pub position: Point,
    pub width: i32,
    pub height: i32,
    /// Row-major, `width * height` cells.
    pub cells: Vec<Cell>,
}

impl PixelChunk {
    /// The rectangle is empty on both axes or lies wholly inside the chunk.
    pub open spec fn rect_in_bounds(self, rect: BoundRect) -> bool {
        (rect.min.x > rect.max.x && rect.min.y > rect.max.y) || (0 <= rect.min.x && rect.max.x
            < self.width && 0 <= rect.min.y && rect.max.y < self.height)
    }

    pub open spec fn wf(self) -> bool {
        &&& 0 < self.width <= MAX_CHUNK_DIM
        &&& 0 < self.height <= MAX_CHUNK_DIM
        &&& self.cells@.len() == self.width * self.height
        &&& self.rect_in_bounds(self.current_dirty_rect)
        &&& self.rect_in_bounds(self.previous_dirty_rect)
    }

    /// Row-major index of the local position `(x, y)`.
    pub open spec fn spec_index(self, x: int, y: int) -> int {
        y * self.width + x
    }

    pub open spec fn spec_cell(self, x: int, y: int) -> Cell {
        self.cells@[self.spec_index(x, y)]
    }

    /// A fresh chunk: all cells empty, the current dirty rectangle covering
    /// the full extent so the very first tick scans everything.
    pub fn new(width: i32, height: i32, position: Point) -> (r: PixelChunk)
        requires
            0 < width <= MAX_CHUNK_DIM,
            0 < height <= MAX_CHUNK_DIM,
        ensures
            r.wf(),
            r.width == width,
            r.height == height,
            r.position == position,
            r.render_override == 0,
            forall|i: int| 0 <= i < r.cells@.len() ==> r.cells@[i] == Cell::spec_empty(),
            r.current_dirty_rect.min.x == 0 && r.current_dirty_rect.min.y == 0,
            r.current_dirty_rect.max.x == width - 1 && r.current_dirty_rect.max.y == height - 1,
            r.previous_dirty_rect == BoundRect::spec_empty(),
            r.previous_dirty_rect.spec_is_empty(),
    {
        proof {
            lemma_row_major_bounds(width - 1, height - 1, width as int, height as int);
            lemma_grid_size_bound(width as int, height as int);
        }
        let total: usize = (width as usize) * (height as usize);
        let mut cells: Vec<Cell> = Vec::new();
        let mut i: usize = 0;
        while i < total
            invariant
                i <= total,
                cells@.len() == i,
                forall|j: int| 0 <= j < i ==> cells@[j] == Cell::spec_empty(),
            decreases total - i,
        {
            cells.push(Cell::empty());
            i = i + 1;
        }
        PixelChunk {
            current_dirty_rect: BoundRect {
                min: Point { x: 0, y: 0 },
                max: Point { x: width - 1, y: height - 1 },
            },
            previous_dirty_rect: BoundRect::empty(),
            render_override: 0,
            position,
            width,
            height,
            cells,
        }
    }

    /// The chunk takes part in the next tick: something may still move in its
    /// current dirty region, the region that was active last tick still owes
    /// its settling pass, or a forced redraw is pending.
    pub open spec fn spec_should_update(self) -> bool {
        !self.current_dirty_rect.spec_is_empty() || !self.previous_dirty_rect.spec_is_empty()
            || self.render_override > 0
    }

    pub fn should_update(&self) -> (r: bool)
        ensures
            r == self.spec_should_update(),
    {
        !self.current_dirty_rect.is_empty() || !self.previous_dirty_rect.is_empty()
            || self.render_override > 0
    }

    /// Row-major index of the local position `(x, y)`.
    pub fn get_index(&self, x: i32, y: i32) -> (r: usize)
        requires
            self.wf(),
            in_grid(x as int, y as int, self.width as int, self.height as int),
        ensures
            r == self.spec_index(x as int, y as int),
            r < self.cells@.len(),
    {
        proof {
            lemma_row_major_bounds(x as int, y as int, self.width as int, self.height as int);
            lemma_grid_size_bound(self.width as int, self.height as int);
        }
        (y * self.width + x) as usize
    }

    pub fn get_cell(&self, position: Point) -> (r: Cell)
        requires
            self.wf(),
            in_grid(position.x as int, position.y as int, self.width as int, self.height as int),
        ensures
            r == self.spec_cell(position.x as int, position.y as int),
    {
        let idx = self.get_index(position.x, position.y);
        self.cells[idx]
    }

    /// Writes the cell at the raw index if it is in range; out-of-range writes
    /// are ignored.
    pub fn set_cell_1d(&mut self, idx: usize, cell: Cell)
        ensures
            idx < old(self).cells@.len() ==> final(self).cells@ == old(self).cells@.update(
                idx as int,
                cell,
            ),
            idx >= old(self).cells@.len() ==> final(self).cells@ == old(self).cells@,
            final(self).current_dirty_rect == old(self).current_dirty_rect,
            final(self).previous_dirty_rect == old(self).previous_dirty_rect,
            final(self).render_override == old(self).render_override,
            final(self).position == old(self).position,
            final(self).width == old(self).width,
            final(self).height == old(self).height,
    {
        if idx < self.cells.len() {
            self.cells[idx] = cell;
        }
    }

    /// Writes the cell at `(x, y)` and extends the current dirty rectangle to
    /// cover that position.
    pub fn set_cell(&mut self, x: i32, y: i32, cell: Cell)
        requires
            old(self).wf(),
            in_grid(x as int, y as int, old(self).width as int, old(self).height as int),
        ensures
            final(self).wf(),
            final(self).cells@ == old(self).cells@.update(
                old(self).spec_index(x as int, y as int),
                cell,
            ),
            final(self).current_dirty_rect == old(self).current_dirty_rect.spec_union_point(
                Point { x, y },
            ),
            final(self).current_dirty_rect.spec_contains(x as int, y as int),
            forall|px: int, py: int|
                old(self).current_dirty_rect.spec_contains(px, py)
                    ==> final(self).current_dirty_rect.spec_contains(px, py),
            final(self).previous_dirty_rect == old(self).previous_dirty_rect,
            final(self).render_override == old(self).render_override,
            final(self).position == old(self).position,
            final(self).width == old(self).width,
            final(self).height == old(self).height,
    {
        let idx = self.get_index(x, y);
        self.set_cell_1d(idx, cell);
        self.current_dirty_rect = self.current_dirty_rect.union_point(&Point { x, y });
    }

    /// Replaces the current dirty rectangle with the bounding box of the given
    /// point list — replaced, not accumulated — as the merge step does after a
    /// tick; when the region has gone quiet a pending forced redraw counts
    /// down. The new rectangle is pinned to be exactly the bounding box: it
    /// contains every point, each of its corner coordinates is attained by
    /// some point, and an empty list gives the canonical empty rectangle.
    pub fn construct_dirty_rect(&mut self, points: &Vec<Point>)
        requires
            old(self).wf(),
            forall|i: int|
                0 <= i < points@.len() ==> in_grid(
                    points@[i].x as int,
                    points@[i].y as int,
                    old(self).width as int,
                    old(self).height as int,
                ),
        ensures
            final(self).wf(),
            forall|i: int|
                0 <= i < points@.len() ==> final(self).current_dirty_rect.spec_contains(
                    points@[i].x as int,
                    points@[i].y as int,
                ),
            final(self).current_dirty_rect.spec_is_empty() <==> points@.len() == 0,
            points@.len() == 0 ==> final(self).current_dirty_rect == BoundRect::spec_empty(),
            points@.len() > 0 ==> ((exists|i: int|
                0 <= i < points@.len() && points@[i].x == final(self).current_dirty_rect.min.x) && (
            exists|i: int|
                0 <= i < points@.len() && points@[i].y == final(self).current_dirty_rect.min.y) && (
            exists|i: int|
                0 <= i < points@.len() && points@[i].x == final(self).current_dirty_rect.max.x) && (
            exists|i: int|
                0 <= i < points@.len() && points@[i].y == final(self).current_dirty_rect.max.y)),
            final(self).render_override == (if points@.len() == 0 && old(self).render_override > 0 {
                (old(self).render_override - 1) as u8
            } else {
                old(self).render_override
            }),
            final(self).cells@ == old(self).cells@,
            final(self).previous_dirty_rect == old(self).previous_dirty_rect,
            final(self).position == old(self).position,
            final(self).width == old(self).width,
            final(self).height == old(self).height,
    {
        let new_rect = BoundRect::from_points(points);
        self.current_dirty_rect = new_rect;
        if self.current_dirty_rect.is_empty() && self.render_override > 0 {
            self.render_override = self.render_override - 1;
        }
    }

    /// Moves the current dirty rectangle into the previous slot and clears
    /// the current one. The previous rectangle widens the next scan, so a
    /// region that went quiet this tick gets exactly one settling pass next
    /// tick and is then allowed to sleep; the rectangle it replaces was
    /// itself scanned during the pass that just ended.
    pub fn swap_rects(&mut self)
        requires
            old(self).wf(),
        ensures
            final(self).wf(),
            final(self).previous_dirty_rect == old(self).current_dirty_rect,
            final(self).current_dirty_rect == BoundRect::spec_empty(),
            final(self).current_dirty_rect.spec_is_empty(),
            final(self).cells@ == old(self).cells@,
            final(self).render_override == old(self).render_override,
            final(self).position == old(self).position,
            final(self).width == old(self).width,
            final(self).height == old(self).height,
    {
        self.previous_dirty_rect = self.current_dirty_rect;
        self.current_dirty_rect = BoundRect::empty();
    }

    /// Clears every cell's per-tick `updated` mark, leaving the content.
    pub fn commit_cells_unupdated(&mut self)
        ensures
            final(self).cells@.len() == old(self).cells@.len(),
            forall|i: int|
                0 <= i < old(self).cells@.len() ==> final(self).cells@[i] == (Cell {
                    updated: false,
                    ..old(self).cells@[i]
                }),
            final(self).current_dirty_rect == old(self).current_dirty_rect,
            final(self).previous_dirty_rect == old(self).previous_dirty_rect,
            final(self).render_override == old(self).render_override,
            final(self).position == old(self).position,
            final(self).width == old(self).width,
            final(self).height == old(self).height,
    {
        let mut i: usize = 0;
        while i < self.cells.len()
            invariant
                i <= self.cells@.len(),
                self.cells@.len() == old(self).cells@.len(),
                forall|j: int|
                    0 <= j < i ==> self.cells@[j] == (Cell {
                        updated: false,
                        ..old(self).cells@[j]
                    }),
                forall|j: int| i <= j < self.cells@.len() ==> self.cells@[j] == old(self).cells@[j],
                self.current_dirty_rect == old(self).current_dirty_rect,
                self.previous_dirty_rect == old(self).previous_dirty_rect,
                self.render_override == old(self).render_override,
                self.position == old(self).position,
                self.width == old(self).width,
                self.height == old(self).height,
            decreases self.cells@.len() - i,
        {
            let mut c = self.cells[i];
            c.updated = false;
            self.cells[i] = c;
            i = i + 1;
        }
    }

    /// Occupancy of each cell in row-major order: 1 for any non-empty physics,
    /// 0 for empty. Feeds external collision-geometry extraction.
    pub fn cells_as_occupancy(&self) -> (r: Vec<u8>)
        ensures
            r@.len() == self.cells@.len(),
            forall|i: int|
                0 <= i < self.cells@.len() ==> r@[i] == (if self.cells@[i].physics is Empty {
                    0u8
                } else {
                    1u8
                }),
    {
        let mut out: Vec<u8> = Vec::new();
        let mut i: usize = 0;
        while i < self.cells.len()
            invariant
                i <= self.cells@.len(),
                out@.len() == i,
                forall|j: int|
                    0 <= j < i ==> out@[j] == (if self.cells@[j].physics is Empty {
                        0u8
                    } else {
                        1u8
                    }),
            decreases self.cells@.len() - i,
        {
            let occupied: u8 = if matches!(self.cells[i].physics, PhysicsType::Empty) {
                0
            } else {
                1
            };
            out.push(occupied);
            i = i + 1;
        }
        out
    }

    /// The chunk's colours flattened to 4 bytes per cell, row-major, for
    /// upload as an RGBA image.
    pub fn render_chunk(&self) -> (r: Vec<u8>)
        ensures
            r@.len() == 4 * self.cells@.len(),
            forall|i: int|
                0 <= i < self.cells@.len() ==> (r@[4 * i] == self.cells@[i].color.r && r@[4 * i + 1]
                    == self.cells@[i].color.g && r@[4 * i + 2] == self.cells@[i].color.b && r@[4 * i
                    + 3] == self.cells@[i].color.a),
    {
        let mut out: Vec<u8> = Vec::new();
        let mut i: usize = 0;
        while i < self.cells.len()
            invariant
                i <= self.cells@.len(),
                out@.len() == 4 * i,
                forall|j: int|
                    0 <= j < i ==> (out@[4 * j] == self.cells@[j].color.r && out@[4 * j + 1]
                        == self.cells@[j].color.g && out@[4 * j + 2] == self.cells@[j].color.b
                        && out@[4 * j + 3] == self.cells@[j].color.a),
            decreases self.cells@.len() - i,
        {
            let color = self.cells[i].color;
            out.push(color.r);
            out.push(color.g);
            out.push(color.b);
            out.push(color.a);
            i = i + 1;
        }
        out
    }
}

} // verus!
