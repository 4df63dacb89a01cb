//! The per-neighbourhood simulation context: a transient view over a 3x3
//! block of chunks (the centre chunk plus its eight neighbours) that lets the
//! per-cell update rules read and write across chunk boundaries.
//!
//! The context owns the nine chunk slots for the duration of one simulation
//! pass; the world moves the chunks out of its grid, runs [`SimulationChunkContext::simulate`],
//! and moves them back. Every position written during the pass is recorded in
//! a per-slot dirty list, which becomes the next tick's dirty rectangle for
//! that chunk: the contracts here guarantee that any cell that differs after
//! the pass has its local position recorded ([`SimulationChunkContext::covers`]).

use vstd::prelude::*;
use vstd::arithmetic::div_mod::lemma_fundamental_div_mod;

use crate::cell::{Cell, PhysicsType};
use crate::chunk::{get_index, in_grid, lemma_grid_size_bound, lemma_row_major_bounds, PixelChunk,
    MAX_CHUNK_DIM};
use crate::geometry_helpers::{BoundRect, Point};
use crate::rng::random_below;

verus! {

/// Chance, in hundredths, that a move jumps two cells instead of one when the
/// cell two steps out is also free.
pub const DOUBLE_STEP_CHANCE: u32 = 50;

/// Chance, in hundredths, that a soft solid takes a diagonal even though the
/// cell straight below is free.
pub const SOFT_DIAGONAL_CHANCE: u32 = 10;

/// Chance, in hundredths, that a liquid or gas keeps falling (or rising)
/// straight rather than spreading sideways when both are possible.
pub const FLUID_STRAIGHT_CHANCE: u32 = 95;

/// Which third of the extended coordinate axis a coordinate falls in:
/// -1 below the chunk, 0 inside, 1 above.
pub open spec fn rel_of(coord: int, size: int) -> int {
    if coord < 0 {
        -1
    } else if coord >= size {
        1
    } else {
        0
    }
}

/// The coordinate local to the chunk it falls in.
pub open spec fn local_of(coord: int, size: int) -> int {
    coord - rel_of(coord, size) * size
}

/// Horizontal offset of neighbourhood slot `k` from the centre chunk.
pub open spec fn slot_dx(k: int) -> int {
    k % 3 - 1
}

/// Vertical offset of neighbourhood slot `k` from the centre chunk.
pub open spec fn slot_dy(k: int) -> int {
    k / 3 - 1
}

/// The row-major index is injective on a grid.
pub(crate) proof fn lemma_row_major_injective(
    x1: int,
    y1: int,
    x2: int,
    y2: int,
    width: int,
    height: int,
)
    by (nonlinear_arith)
    requires
        in_grid(x1, y1, width, height),
        in_grid(x2, y2, width, height),
        !(x1 == x2 && y1 == y2),
    ensures
        y1 * width + x1 != y2 * width + x2,
{
}

/// The destinations a single movement rule may choose for a cell at `(x, y)`:
/// soft solids fall straight or diagonally (one or two cells), liquids fall or
/// spread sideways, gases mirror liquids upward; nothing else moves.
pub open spec fn move_dest(physics: PhysicsType, x: int, y: int, dx: int, dy: int) -> bool {
    match physics {
        PhysicsType::SoftSolid(_) => (dx == x && (dy == y - 1 || dy == y - 2)) || ((dx == x - 1
            || dx == x + 1) && dy == y - 1) || ((dx == x - 2 || dx == x + 2) && dy == y - 2),
        PhysicsType::Liquid(_) => (dx == x && (dy == y - 1 || dy == y - 2)) || ((dx == x - 1 || dx
            == x + 1 || dx == x - 2 || dx == x + 2) && dy == y),
        PhysicsType::Gas(_) => (dx == x && (dy == y + 1 || dy == y + 2)) || ((dx == x - 1 || dx == x
            + 1 || dx == x - 2 || dx == x + 2) && dy == y),
        _ => false,
    }
}

/// A transient 3x3 neighbourhood of chunks being simulated as one unit.
///
/// Slot `(rel_x + 1) + (rel_y + 1) * 3` holds the chunk `(rel_x, rel_y)` away
/// from the centre, so slot 4 is the centre chunk; slots off the edge of the
/// world hold `None`. Positions handed to the methods are local to the centre
/// chunk and may fall outside it, meaning "in that neighbour".
pub struct SimulationChunkContext {
    /// Chunk coordinate of the centre chunk in the world's grid.
    pub center_position: Point,
    /// The nine chunk slots; absent where the world has no chunk.
    pub data: Vec<Option<PixelChunk>>,
    /// Per-slot list of local positions written during this pass.
    pub dirty_updates: Vec<Vec<Point>>,
    pub chunk_width: i32,
    pub chunk_height: i32,
}

impl SimulationChunkContext {
    pub open spec fn wf(self) -> bool {
        &&& self.data@.len() == 9
        &&& self.dirty_updates@.len() == 9
        &&& 0 < self.chunk_width <= MAX_CHUNK_DIM
        &&& 0 < self.chunk_height <= MAX_CHUNK_DIM
        &&& self.data@[4] is Some
        &&& forall|k: int|
            0 <= k < 9 ==> (#[trigger] self.data@[k] matches Some(c) ==> c.wf() && c.width
                == self.chunk_width && c.height == self.chunk_height)
        &&& forall|k: int, i: int|
            0 <= k < 9 && 0 <= i < self.dirty_updates@[k].len() ==> in_grid(
                (#[trigger] self.dirty_updates@[k][i]).x as int,
                self.dirty_updates@[k][i].y as int,
                self.chunk_width as int,
                self.chunk_height as int,
            )
    }

    /// The position lies in the 3x3 block of chunks.
    pub open spec fn in_extended(self, x: int, y: int) -> bool {
        &&& -self.chunk_width <= x < 2 * self.chunk_width
        &&& -self.chunk_height <= y < 2 * self.chunk_height
    }

    /// The position lies in the centre chunk.
    pub open spec fn in_center(self, x: int, y: int) -> bool {
        in_grid(x, y, self.chunk_width as int, self.chunk_height as int)
    }

    /// The slot of the chunk the position falls in.
    pub open spec fn slot_of(self, x: int, y: int) -> int {
        (rel_of(x, self.chunk_width as int) + 1) + (rel_of(y, self.chunk_height as int) + 1) * 3
    }

    pub open spec fn chunk_in_slot(self, k: int) -> PixelChunk {
        match self.data@[k] {
            Some(c) => c,
            None => arbitrary(),
        }
    }

    /// The cell at local position `(x, y)` of slot `k`.
    pub open spec fn cell_in_slot(self, k: int, x: int, y: int) -> Cell {
        self.chunk_in_slot(k).cells@[y * self.chunk_width + x]
    }

    /// The chunk the position falls in is present.
    pub open spec fn slot_present(self, x: int, y: int) -> bool {
        self.in_extended(x, y) && self.data@[self.slot_of(x, y)] is Some
    }

    /// The cell at a centre-local position that may reach into a neighbour.
    pub open spec fn spec_cell_at(self, x: int, y: int) -> Cell {
        self.cell_in_slot(
            self.slot_of(x, y),
            local_of(x, self.chunk_width as int),
            local_of(y, self.chunk_height as int),
        )
    }

    /// The position can be moved into: its chunk exists, the cell there is
    /// empty, and nothing has claimed it yet this pass. A position off the
    /// edge of the world counts as blocked.
    pub open spec fn spec_cell_is_empty(self, x: int, y: int) -> bool {
        &&& self.slot_present(x, y)
        &&& self.spec_cell_at(x, y).physics is Empty
        &&& !self.spec_cell_at(x, y).updated
    }

    /// `self` and `base` hold the same chunks in the same slots, with the same
    /// dimensions, positions, dirty rectangles and override counters; only
    /// cell contents and dirty lists may differ.
    pub open spec fn same_shape(self, base: Self) -> bool {
        &&& self.center_position == base.center_position
        &&& self.chunk_width == base.chunk_width
        &&& self.chunk_height == base.chunk_height
        &&& self.data@.len() == base.data@.len() == 9
        &&& self.dirty_updates@.len() == base.dirty_updates@.len() == 9
        &&& forall|k: int|
            0 <= k < 9 ==> ((#[trigger] self.data@[k] is Some) == (base.data@[k] is Some))
        &&& forall|k: int|
            0 <= k < 9 && self.data@[k] is Some ==> ((#[trigger] self.chunk_in_slot(k)).width
                == base.chunk_in_slot(k).width && self.chunk_in_slot(k).height
                == base.chunk_in_slot(k).height && self.chunk_in_slot(k).position
                == base.chunk_in_slot(k).position && self.chunk_in_slot(k).current_dirty_rect
                == base.chunk_in_slot(k).current_dirty_rect && self.chunk_in_slot(
                k,
            ).previous_dirty_rect == base.chunk_in_slot(k).previous_dirty_rect
                && self.chunk_in_slot(k).render_override == base.chunk_in_slot(k).render_override
                && self.chunk_in_slot(k).cells@.len() == base.chunk_in_slot(k).cells@.len())
    }

    /// The local position `(x, y)` is recorded in slot `k`'s dirty list.
    pub open spec fn recorded(self, k: int, x: int, y: int) -> bool {
        exists|i: int|
            0 <= i < self.dirty_updates@[k].len() && (#[trigger] self.dirty_updates@[k][i]).x == x
                && self.dirty_updates@[k][i].y == y
    }

    /// Every dirty list of `base` is a prefix of the corresponding list of
    /// `self`: records are only ever appended.
    pub open spec fn dirty_extends(self, base: Self) -> bool {
        forall|k: int|
            0 <= k < 9 ==> {
                &&& base.dirty_updates@[k].len() <= (#[trigger] self.dirty_updates@[k]).len()
                &&& forall|i: int|
                    0 <= i < base.dirty_updates@[k].len() ==> (#[trigger] self.dirty_updates@[k][i])
                        == base.dirty_updates@[k][i]
            }
    }

    /// Dirty-list soundness: every cell that differs from `base` has its local
    /// position recorded in its slot's dirty list.
    pub open spec fn covers(self, base: Self) -> bool {
        forall|k: int, x: int, y: int|
            0 <= k < 9 && in_grid(x, y, base.chunk_width as int, base.chunk_height as int) && (
            #[trigger] self.cell_in_slot(k, x, y)) != base.cell_in_slot(k, x, y) ==> self.recorded(
                k,
                x,
                y,
            )
    }

    /// A coordinate inside the 3x3 block resolves to a chunk-local coordinate
    /// inside the chunk.
    proof fn lemma_local_in_grid(coord: int, size: int)
        requires
            0 < size,
            -size <= coord < 2 * size,
        ensures
            0 <= local_of(coord, size) < size,
    {
    }

    /// Distinct positions in the 3x3 block resolve to distinct
    /// (slot, local x, local y) triples.
    proof fn lemma_distinct_positions(self, x1: int, y1: int, x2: int, y2: int)
        requires
            0 < self.chunk_width,
            0 < self.chunk_height,
            self.in_extended(x1, y1),
            self.in_extended(x2, y2),
            !(x1 == x2 && y1 == y2),
        ensures
            !(self.slot_of(x1, y1) == self.slot_of(x2, y2) && local_of(
                x1,
                self.chunk_width as int,
            ) == local_of(x2, self.chunk_width as int) && local_of(y1, self.chunk_height as int)
                == local_of(y2, self.chunk_height as int)),
    {
        let w = self.chunk_width as int;
        let h = self.chunk_height as int;
        if self.slot_of(x1, y1) == self.slot_of(x2, y2) {
            assert(rel_of(x1, w) == rel_of(x2, w) && rel_of(y1, h) == rel_of(y2, h));
            if x1 != x2 {
                assert(local_of(x1, w) != local_of(x2, w));
            } else {
                assert(local_of(y1, h) != local_of(y2, h));
            }
        }
    }

    /// A record stays a record as the dirty lists grow.
    proof fn lemma_recorded_monotone(a: Self, b: Self, k: int, x: int, y: int)
        requires
            b.dirty_extends(a),
            a.recorded(k, x, y),
            0 <= k < 9,
        ensures
            b.recorded(k, x, y),
    {
        let i = choose|i: int|
            0 <= i < a.dirty_updates@[k].len() && (#[trigger] a.dirty_updates@[k][i]).x == x
                && a.dirty_updates@[k][i].y == y;
        assert(b.dirty_updates@[k][i] == a.dirty_updates@[k][i]);
    }

    /// Coverage composes across successive writes.
    proof fn lemma_covers_trans(a: Self, b: Self, c: Self)
        requires
            b.covers(a),
            c.covers(b),
            c.dirty_extends(b),
            b.chunk_width == a.chunk_width,
            b.chunk_height == a.chunk_height,
        ensures
            c.covers(a),
    {
        assert forall|k: int, x: int, y: int|
            0 <= k < 9 && in_grid(x, y, a.chunk_width as int, a.chunk_height as int) && (
            #[trigger] c.cell_in_slot(k, x, y)) != a.cell_in_slot(k, x, y) implies c.recorded(
            k,
            x,
            y,
        ) by {
            if c.cell_in_slot(k, x, y) != b.cell_in_slot(k, x, y) {
            } else {
                assert(b.cell_in_slot(k, x, y) != a.cell_in_slot(k, x, y));
                Self::lemma_recorded_monotone(b, c, k, x, y);
            }
        }
    }

    /// Prefix extension composes.
    proof fn lemma_extends_trans(a: Self, b: Self, c: Self)
        requires
            b.dirty_extends(a),
            c.dirty_extends(b),
        ensures
            c.dirty_extends(a),
    {
    }

    /// Builds the context over nine chunk slots, with empty dirty lists.
    pub fn new(
        center_position: Point,
        data: Vec<Option<PixelChunk>>,
        chunk_width: i32,
        chunk_height: i32,
    ) -> (r: SimulationChunkContext)
        requires
            data@.len() == 9,
            data@[4] is Some,
            0 < chunk_width <= MAX_CHUNK_DIM,
            0 < chunk_height <= MAX_CHUNK_DIM,
            forall|k: int|
                0 <= k < 9 ==> (#[trigger] data@[k] matches Some(c) ==> c.wf() && c.width
                    == chunk_width && c.height == chunk_height),
        ensures
            r.wf(),
            r.data@ == data@,
            r.center_position == center_position,
            r.chunk_width == chunk_width,
            r.chunk_height == chunk_height,
            forall|k: int| 0 <= k < 9 ==> (#[trigger] r.dirty_updates@[k]).len() == 0,
    {
        let mut dirty_updates: Vec<Vec<Point>> = Vec::new();
        let mut i: usize = 0;
        while i < 9
            invariant
                i <= 9,
                dirty_updates@.len() == i,
                forall|k: int| 0 <= k < i ==> (#[trigger] dirty_updates@[k]).len() == 0,
            decreases 9 - i,
        {
            dirty_updates.push(Vec::new());
            i = i + 1;
        }
        SimulationChunkContext { center_position, data, dirty_updates, chunk_width, chunk_height }
    }

    /// Which third of the axis a coordinate falls in.
    fn rel_coord(coord: i32, size: i32) -> (r: i32)
        requires
            0 < size,
        ensures
            r == rel_of(coord as int, size as int),
    {
        if coord < 0 {
            -1
        } else if coord >= size {
            1
        } else {
            0
        }
    }

    /// Resolves a centre-local position to its slot and chunk-local
    /// coordinates.
    fn resolve(&self, pos: Point) -> (r: (usize, i32, i32))
        requires
            self.wf(),
            self.in_extended(pos.x as int, pos.y as int),
        ensures
            r.0 == self.slot_of(pos.x as int, pos.y as int),
            r.1 == local_of(pos.x as int, self.chunk_width as int),
            r.2 == local_of(pos.y as int, self.chunk_height as int),
            r.0 < 9,
            in_grid(r.1 as int, r.2 as int, self.chunk_width as int, self.chunk_height as int),
    {
        let rel_x = Self::rel_coord(pos.x, self.chunk_width);
        let rel_y = Self::rel_coord(pos.y, self.chunk_height);
        let local_x = if pos.x < 0 {
            pos.x + self.chunk_width
        } else if pos.x >= self.chunk_width {
            pos.x - self.chunk_width
        } else {
            pos.x
        };
        let local_y = if pos.y < 0 {
            pos.y + self.chunk_height
        } else if pos.y >= self.chunk_height {
            pos.y - self.chunk_height
        } else {
            pos.y
        };
        (((rel_x + 1) + (rel_y + 1) * 3) as usize, local_x, local_y)
    }

    /// The region the centre chunk must scan this pass: its current dirty
    /// rectangle widened by the previous one.
    fn get_rect(&self) -> (r: BoundRect)
        requires
            self.wf(),
        ensures
            !r.spec_is_empty() ==> (0 <= r.min.x && r.max.x < self.chunk_width && 0 <= r.min.y
                && r.max.y < self.chunk_height),
            r.spec_is_empty() ==> r.min.y > r.max.y,
            forall|x: int, y: int|
                self.chunk_in_slot(4).current_dirty_rect.spec_contains(x, y) || self.chunk_in_slot(
                    4,
                ).previous_dirty_rect.spec_contains(x, y) ==> #[trigger] r.spec_contains(x, y),
    {
        match &self.data[4] {
            Some(c) => c.current_dirty_rect.union(&c.previous_dirty_rect),
            None => unreached(),
        }
    }

    fn get_cell(&self, pos: Point) -> (r: Cell)
        requires
            self.wf(),
            self.slot_present(pos.x as int, pos.y as int),
        ensures
            r == self.spec_cell_at(pos.x as int, pos.y as int),
    {
        let (slot, local_x, local_y) = self.resolve(pos);
        proof {
            lemma_row_major_bounds(
                local_x as int,
                local_y as int,
                self.chunk_width as int,
                self.chunk_height as int,
            );
            lemma_grid_size_bound(self.chunk_width as int, self.chunk_height as int);
        }
        let idx = get_index(local_x, local_y, self.chunk_width);
        match &self.data[slot] {
            Some(c) => c.cells[idx],
            None => unreached(),
        }
    }

    /// True iff the position can be moved into this pass; positions off the
    /// world's edge are blocked.
    fn cell_is_empty(&self, pos: Point) -> (r: bool)
        requires
            self.wf(),
        ensures
            r == self.spec_cell_is_empty(pos.x as int, pos.y as int),
    {
        if pos.x < -self.chunk_width || pos.x >= 2 * self.chunk_width || pos.y
            < -self.chunk_height || pos.y >= 2 * self.chunk_height {
            return false;
        }
        let (slot, local_x, local_y) = self.resolve(pos);
        proof {
            lemma_row_major_bounds(
                local_x as int,
                local_y as int,
                self.chunk_width as int,
                self.chunk_height as int,
            );
            lemma_grid_size_bound(self.chunk_width as int, self.chunk_height as int);
        }
        let idx = get_index(local_x, local_y, self.chunk_width);
        match &self.data[slot] {
            Some(c) => {
                let cell = c.cells[idx];
                cell.is_empty() && !cell.updated
            },
            None => false,
        }
    }

    /// Appends the position, made local to its chunk, to that chunk's dirty
    /// list.
    fn update_dirty_idx(&mut self, pos: Point)
        requires
            old(self).wf(),
            old(self).in_extended(pos.x as int, pos.y as int),
        ensures
            final(self).wf(),
            final(self).data@ == old(self).data@,
            final(self).center_position == old(self).center_position,
            final(self).chunk_width == old(self).chunk_width,
            final(self).chunk_height == old(self).chunk_height,
            final(self).dirty_extends(*old(self)),
            final(self).recorded(
                old(self).slot_of(pos.x as int, pos.y as int),
                local_of(pos.x as int, old(self).chunk_width as int),
                local_of(pos.y as int, old(self).chunk_height as int),
            ),
    {
        let (slot, local_x, local_y) = self.resolve(pos);
        let ghost pre = *self;
        self.dirty_updates[slot].push(Point { x: local_x, y: local_y });
        proof {
            let k = pre.slot_of(pos.x as int, pos.y as int);
            let n = pre.dirty_updates@[k].len();
            assert(self.dirty_updates@[k][n as int].x == local_x);
        }
    }

    /// Records a write at `pos` for the chunk it falls in, and, when the
    /// position lies on a boundary row or column of the centre chunk, for the
    /// adjacent chunk as well, so a neighbour does not miss activity at its
    /// border.
    fn record_write(&mut self, pos: Point)
        requires
            old(self).wf(),
            old(self).in_extended(pos.x as int, pos.y as int),
        ensures
            final(self).wf(),
            final(self).data@ == old(self).data@,
            final(self).center_position == old(self).center_position,
            final(self).chunk_width == old(self).chunk_width,
            final(self).chunk_height == old(self).chunk_height,
            final(self).dirty_extends(*old(self)),
            final(self).recorded(
                old(self).slot_of(pos.x as int, pos.y as int),
                local_of(pos.x as int, old(self).chunk_width as int),
                local_of(pos.y as int, old(self).chunk_height as int),
            ),
            pos.x == 0 ==> final(self).recorded(
                old(self).slot_of(pos.x as int - 1, pos.y as int),
                local_of(pos.x as int - 1, old(self).chunk_width as int),
                local_of(pos.y as int, old(self).chunk_height as int),
            ),
            pos.x != 0 && pos.x == old(self).chunk_width - 1 ==> final(self).recorded(
                old(self).slot_of(pos.x as int + 1, pos.y as int),
                local_of(pos.x as int + 1, old(self).chunk_width as int),
                local_of(pos.y as int, old(self).chunk_height as int),
            ),
            pos.y == 0 ==> final(self).recorded(
                old(self).slot_of(pos.x as int, pos.y as int - 1),
                local_of(pos.x as int, old(self).chunk_width as int),
                local_of(pos.y as int - 1, old(self).chunk_height as int),
            ),
            pos.y != 0 && pos.y == old(self).chunk_height - 1 ==> final(self).recorded(
                old(self).slot_of(pos.x as int, pos.y as int + 1),
                local_of(pos.x as int, old(self).chunk_width as int),
                local_of(pos.y as int + 1, old(self).chunk_height as int),
            ),
    {
        let ghost orig = *old(self);
        self.update_dirty_idx(pos);
        let ghost first = *self;
        if pos.x == 0 {
            let ghost pre = *self;
            self.update_dirty_idx(Point { x: -1, y: pos.y });
            proof {
                Self::lemma_extends_trans(first, pre, *self);
            }
        } else if pos.x == self.chunk_width - 1 {
            let ghost pre = *self;
            self.update_dirty_idx(Point { x: self.chunk_width, y: pos.y });
            proof {
                Self::lemma_extends_trans(first, pre, *self);
            }
        }
        let ghost after_x = *self;
        if pos.y == 0 {
            let ghost pre = *self;
            self.update_dirty_idx(Point { x: pos.x, y: -1 });
            proof {
                Self::lemma_extends_trans(first, pre, *self);
            }
        } else if pos.y == self.chunk_height - 1 {
            let ghost pre = *self;
            self.update_dirty_idx(Point { x: pos.x, y: self.chunk_height });
            proof {
                Self::lemma_extends_trans(first, pre, *self);
            }
        }
        proof {
            Self::lemma_extends_trans(orig, first, *self);
            Self::lemma_recorded_monotone(
                first,
                *self,
                orig.slot_of(pos.x as int, pos.y as int),
                local_of(pos.x as int, orig.chunk_width as int),
                local_of(pos.y as int, orig.chunk_height as int),
            );
            if pos.x == 0 {
                Self::lemma_recorded_monotone(
                    after_x,
                    *self,
                    orig.slot_of(pos.x as int - 1, pos.y as int),
                    local_of(pos.x as int - 1, orig.chunk_width as int),
                    local_of(pos.y as int, orig.chunk_height as int),
                );
            }
            if pos.x != 0 && pos.x == orig.chunk_width - 1 {
                Self::lemma_recorded_monotone(
                    after_x,
                    *self,
                    orig.slot_of(pos.x as int + 1, pos.y as int),
                    local_of(pos.x as int + 1, orig.chunk_width as int),
                    local_of(pos.y as int, orig.chunk_height as int),
                );
            }
        }
    }

    /// Writes the cell at the position and records the write for dirty
    /// tracking: always for the chunk the position falls in, and, when the
    /// position lies on a boundary row or column of the centre chunk, for the
    /// adjacent chunk as well, so a neighbour never misses a border update.
    fn set_cell(&mut self, pos: Point, cell: Cell)
        requires
            old(self).wf(),
            old(self).slot_present(pos.x as int, pos.y as int),
        ensures
            final(self).wf(),
            final(self).same_shape(*old(self)),
            final(self).dirty_extends(*old(self)),
            final(self).covers(*old(self)),
            final(self).recorded(
                old(self).slot_of(pos.x as int, pos.y as int),
                local_of(pos.x as int, old(self).chunk_width as int),
                local_of(pos.y as int, old(self).chunk_height as int),
            ),
            pos.x == 0 ==> final(self).recorded(
                old(self).slot_of(pos.x as int - 1, pos.y as int),
                local_of(pos.x as int - 1, old(self).chunk_width as int),
                local_of(pos.y as int, old(self).chunk_height as int),
            ),
            pos.x != 0 && pos.x == old(self).chunk_width - 1 ==> final(self).recorded(
                old(self).slot_of(pos.x as int + 1, pos.y as int),
                local_of(pos.x as int + 1, old(self).chunk_width as int),
                local_of(pos.y as int, old(self).chunk_height as int),
            ),
            pos.y == 0 ==> final(self).recorded(
                old(self).slot_of(pos.x as int, pos.y as int - 1),
                local_of(pos.x as int, old(self).chunk_width as int),
                local_of(pos.y as int - 1, old(self).chunk_height as int),
            ),
            pos.y != 0 && pos.y == old(self).chunk_height - 1 ==> final(self).recorded(
                old(self).slot_of(pos.x as int, pos.y as int + 1),
                local_of(pos.x as int, old(self).chunk_width as int),
                local_of(pos.y as int + 1, old(self).chunk_height as int),
            ),
            final(self).spec_cell_at(pos.x as int, pos.y as int) == cell,
            forall|k: int, x: int, y: int|
                0 <= k < 9 && in_grid(x, y, old(self).chunk_width as int, old(self).chunk_height as int)
                    && !(k == old(self).slot_of(pos.x as int, pos.y as int) && x == local_of(
                    pos.x as int,
                    old(self).chunk_width as int,
                ) && y == local_of(pos.y as int, old(self).chunk_height as int)) ==> (
                #[trigger] final(self).cell_in_slot(k, x, y)) == old(self).cell_in_slot(k, x, y),
            forall|x2: int, y2: int|
                old(self).in_extended(x2, y2) && !(x2 == pos.x as int && y2 == pos.y as int) ==> (
                #[trigger] final(self).spec_cell_at(x2, y2)) == old(self).spec_cell_at(x2, y2),
    {
        let ghost orig = *old(self);
        let (slot, local_x, local_y) = self.resolve(pos);
        proof {
            lemma_row_major_bounds(
                local_x as int,
                local_y as int,
                self.chunk_width as int,
                self.chunk_height as int,
            );
            lemma_grid_size_bound(self.chunk_width as int, self.chunk_height as int);
        }
        let idx = get_index(local_x, local_y, self.chunk_width);
        let taken = self.data[slot].take();
        let mut chunk = match taken {
            Some(c) => c,
            None => unreached(),
        };
        chunk.set_cell_1d(idx, cell);
        self.data[slot] = Some(chunk);
        let ghost written = *self;
        self.record_write(pos);
        proof {
            let k = orig.slot_of(pos.x as int, pos.y as int);
            let lx = local_of(pos.x as int, orig.chunk_width as int);
            let ly = local_of(pos.y as int, orig.chunk_height as int);
            assert forall|k2: int, x: int, y: int|
                0 <= k2 < 9 && in_grid(x, y, orig.chunk_width as int, orig.chunk_height as int)
                    && !(k2 == k && x == lx && y == ly) implies (#[trigger] self.cell_in_slot(
                k2,
                x,
                y,
            )) == orig.cell_in_slot(k2, x, y) by {
                if k2 == k {
                    lemma_row_major_injective(
                        x,
                        y,
                        lx,
                        ly,
                        orig.chunk_width as int,
                        orig.chunk_height as int,
                    );
                    lemma_row_major_bounds(x, y, orig.chunk_width as int, orig.chunk_height as int);
                }
            }
            assert forall|k2: int, x: int, y: int|
                0 <= k2 < 9 && in_grid(x, y, orig.chunk_width as int, orig.chunk_height as int) && (
                #[trigger] self.cell_in_slot(k2, x, y)) != orig.cell_in_slot(
                k2,
                x,
                y,
            ) implies self.recorded(k2, x, y) by {
                assert(k2 == k && x == lx && y == ly);
            }
            assert forall|x2: int, y2: int|
                orig.in_extended(x2, y2) && !(x2 == pos.x as int && y2
                    == pos.y as int) implies (#[trigger] self.spec_cell_at(x2, y2))
                == orig.spec_cell_at(x2, y2) by {
                orig.lemma_distinct_positions(x2, y2, pos.x as int, pos.y as int);
                Self::lemma_local_in_grid(x2, orig.chunk_width as int);
                Self::lemma_local_in_grid(y2, orig.chunk_height as int);
            }
        }
    }

    /// Marks the cell at the position as updated without changing its
    /// content, and records the write (for the adjacent chunk too when the
    /// position lies on a centre boundary); used for the intermediate cell of
    /// a two-step move so nothing else claims it this tick.
    fn set_updated_cell(&mut self, pos: Point)
        requires
            old(self).wf(),
            old(self).slot_present(pos.x as int, pos.y as int),
        ensures
            final(self).wf(),
            final(self).same_shape(*old(self)),
            final(self).dirty_extends(*old(self)),
            final(self).covers(*old(self)),
            final(self).recorded(
                old(self).slot_of(pos.x as int, pos.y as int),
                local_of(pos.x as int, old(self).chunk_width as int),
                local_of(pos.y as int, old(self).chunk_height as int),
            ),
            pos.x == 0 ==> final(self).recorded(
                old(self).slot_of(pos.x as int - 1, pos.y as int),
                local_of(pos.x as int - 1, old(self).chunk_width as int),
                local_of(pos.y as int, old(self).chunk_height as int),
            ),
            pos.x != 0 && pos.x == old(self).chunk_width - 1 ==> final(self).recorded(
                old(self).slot_of(pos.x as int + 1, pos.y as int),
                local_of(pos.x as int + 1, old(self).chunk_width as int),
                local_of(pos.y as int, old(self).chunk_height as int),
            ),
            pos.y == 0 ==> final(self).recorded(
                old(self).slot_of(pos.x as int, pos.y as int - 1),
                local_of(pos.x as int, old(self).chunk_width as int),
                local_of(pos.y as int - 1, old(self).chunk_height as int),
            ),
            pos.y != 0 && pos.y == old(self).chunk_height - 1 ==> final(self).recorded(
                old(self).slot_of(pos.x as int, pos.y as int + 1),
                local_of(pos.x as int, old(self).chunk_width as int),
                local_of(pos.y as int + 1, old(self).chunk_height as int),
            ),
            final(self).spec_cell_at(pos.x as int, pos.y as int) == (Cell {
                updated: true,
                ..old(self).spec_cell_at(pos.x as int, pos.y as int)
            }),
            forall|k: int, x: int, y: int|
                0 <= k < 9 && in_grid(x, y, old(self).chunk_width as int, old(self).chunk_height as int)
                    && !(k == old(self).slot_of(pos.x as int, pos.y as int) && x == local_of(
                    pos.x as int,
                    old(self).chunk_width as int,
                ) && y == local_of(pos.y as int, old(self).chunk_height as int)) ==> (
                #[trigger] final(self).cell_in_slot(k, x, y)) == old(self).cell_in_slot(k, x, y),
            forall|x2: int, y2: int|
                old(self).in_extended(x2, y2) && !(x2 == pos.x as int && y2 == pos.y as int) ==> (
                #[trigger] final(self).spec_cell_at(x2, y2)) == old(self).spec_cell_at(x2, y2),
    {
        let mut cell = self.get_cell(pos);
        cell.updated = true;
        self.set_cell(pos, cell);
    }

    /// Every cell of the centre chunk is empty.
    pub open spec fn center_all_empty(self) -> bool {
        forall|x: int, y: int|
            in_grid(x, y, self.chunk_width as int, self.chunk_height as int) ==> (
            #[trigger] self.cell_in_slot(4, x, y)).physics is Empty
    }

    /// Every cell of the centre chunk is idle this pass: empty, or already
    /// claimed so the rules skip it.
    pub open spec fn center_all_idle(self) -> bool {
        forall|x: int, y: int|
            in_grid(x, y, self.chunk_width as int, self.chunk_height as int) ==> ((
            #[trigger] self.cell_in_slot(4, x, y)).physics is Empty || self.cell_in_slot(
                4,
                x,
                y,
            ).updated)
    }

    /// Every present cell of the whole neighbourhood is idle this pass.
    pub open spec fn all_idle(self) -> bool {
        forall|k: int, x: int, y: int|
            0 <= k < 9 && in_grid(x, y, self.chunk_width as int, self.chunk_height as int)
                && self.data@[k] is Some ==> ((#[trigger] self.cell_in_slot(k, x, y)).physics
                is Empty || self.cell_in_slot(k, x, y).updated)
    }

    /// The neighbourhood holds exactly one non-empty cell: an unclaimed soft
    /// solid at the centre-local position `(x, y)`, with the cell below it
    /// inside the world; every other present cell is empty and unclaimed.
    pub open spec fn lone_mover_at(self, x: int, y: int) -> bool {
        &&& self.in_center(x, y)
        &&& self.spec_cell_at(x, y).physics is SoftSolid
        &&& !self.spec_cell_at(x, y).updated
        &&& self.slot_present(x, y - 1)
        &&& forall|k: int, cx: int, cy: int|
            0 <= k < 9 && in_grid(cx, cy, self.chunk_width as int, self.chunk_height as int)
                && self.data@[k] is Some && !(k == 4 && cx == x && cy == y) ==> ((
            #[trigger] self.cell_in_slot(k, cx, cy)).physics is Empty && !self.cell_in_slot(
                k,
                cx,
                cy,
            ).updated)
    }

    /// Hard solids and rigid-body cells take no part in the cell physics:
    /// every cell of `base` in one of those categories is untouched in
    /// `self`.
    pub open spec fn preserves_solids(self, base: Self) -> bool {
        forall|k: int, x: int, y: int|
            0 <= k < 9 && in_grid(x, y, base.chunk_width as int, base.chunk_height as int) && ((
            #[trigger] base.cell_in_slot(k, x, y)).physics is HardSolid || base.cell_in_slot(
                k,
                x,
                y,
            ).physics is RigidBody) ==> self.cell_in_slot(k, x, y) == base.cell_in_slot(k, x, y)
    }

    /// One movement's exact effect between two context states: the moved
    /// cell stands at the destination `(dx, dy)`, which was free and
    /// unclaimed before; on a two-step move the cell passed through at
    /// `(mx, my)` was also free and is now marked claimed with its content
    /// kept; every other position of the block is untouched. A one-step move
    /// sets `(mx, my)` to the destination itself.
    pub open spec fn move_effect(
        pre: Self,
        post: Self,
        moved: Cell,
        dx: int,
        dy: int,
        mx: int,
        my: int,
    ) -> bool {
        &&& pre.spec_cell_is_empty(dx, dy)
        &&& post.spec_cell_at(dx, dy) == moved
        &&& ((mx == dx && my == dy) || (pre.spec_cell_is_empty(mx, my) && post.spec_cell_at(
            mx,
            my,
        ) == (Cell { updated: true, ..pre.spec_cell_at(mx, my) })))
        &&& forall|qx: int, qy: int|
            pre.in_extended(qx, qy) && !(qx == dx && qy == dy) && !(qx == mx && qy == my) ==> (
            #[trigger] post.spec_cell_at(qx, qy)) == pre.spec_cell_at(qx, qy)
    }

    /// One simulated cell's exact effect: the cell that stood at `(x, y)`
    /// moved to the free, unclaimed destination `(dx, dy)` (two-step moves
    /// claim the cell passed through at `(mx, my)`), the origin now holds the
    /// canonical empty cell, and nothing else changed.
    pub open spec fn step_effect(
        pre: Self,
        post: Self,
        x: int,
        y: int,
        dx: int,
        dy: int,
        mx: int,
        my: int,
    ) -> bool {
        &&& move_dest(pre.spec_cell_at(x, y).physics, x, y, dx, dy)
        &&& pre.spec_cell_is_empty(dx, dy)
        &&& post.spec_cell_at(x, y) == Cell::spec_empty()
        &&& post.spec_cell_at(dx, dy) == (Cell { updated: true, ..pre.spec_cell_at(x, y) })
        &&& ((mx == dx && my == dy) || (pre.spec_cell_is_empty(mx, my) && post.spec_cell_at(
            mx,
            my,
        ) == (Cell { updated: true, ..pre.spec_cell_at(mx, my) })))
        &&& forall|qx: int, qy: int|
            pre.in_extended(qx, qy) && !(qx == x && qy == y) && !(qx == dx && qy == dy) && !(qx
                == mx && qy == my) ==> (#[trigger] post.spec_cell_at(qx, qy)) == pre.spec_cell_at(
                qx,
                qy,
            )
    }

    /// Every slot-local cell is reachable as a centre-local extended
    /// coordinate of its slot.
    proof fn lemma_slot_coord_roundtrip(self, k: int, lx: int, ly: int)
        requires
            0 < self.chunk_width <= MAX_CHUNK_DIM,
            0 < self.chunk_height <= MAX_CHUNK_DIM,
            0 <= k < 9,
            in_grid(lx, ly, self.chunk_width as int, self.chunk_height as int),
        ensures
            ({
                let ex = slot_dx(k) * self.chunk_width + lx;
                let ey = slot_dy(k) * self.chunk_height + ly;
                &&& self.in_extended(ex, ey)
                &&& self.slot_of(ex, ey) == k
                &&& local_of(ex, self.chunk_width as int) == lx
                &&& local_of(ey, self.chunk_height as int) == ly
            }),
    {
        lemma_fundamental_div_mod(k, 3);
        let w = self.chunk_width as int;
        let h = self.chunk_height as int;
        let dxk = slot_dx(k);
        let dyk = slot_dy(k);
        assert(-1 <= dxk <= 1 && -1 <= dyk <= 1);
        if dxk == -1 {
            assert(dxk * w == -w) by (nonlinear_arith)
                requires
                    dxk == -1,
            ;
        } else if dxk == 0 {
            assert(dxk * w == 0) by (nonlinear_arith)
                requires
                    dxk == 0,
            ;
        } else {
            assert(dxk * w == w) by (nonlinear_arith)
                requires
                    dxk == 1,
            ;
        }
        if dyk == -1 {
            assert(dyk * h == -h) by (nonlinear_arith)
                requires
                    dyk == -1,
            ;
        } else if dyk == 0 {
            assert(dyk * h == 0) by (nonlinear_arith)
                requires
                    dyk == 0,
            ;
        } else {
            assert(dyk * h == h) by (nonlinear_arith)
                requires
                    dyk == 1,
            ;
        }
        assert(rel_of(dxk * w + lx, w) == dxk);
        assert(rel_of(dyk * h + ly, h) == dyk);
    }

    /// Moves the cell one step straight down, or, with [`DOUBLE_STEP_CHANCE`]
    /// when the cell two below is also free, two steps down marking the cell
    /// passed through as claimed. The destination was free and unclaimed
    /// before the write.
    fn move_down(&mut self, current: Cell, position: Point) -> (r: Option<Cell>)
        requires
            old(self).wf(),
            old(self).in_center(position.x as int, position.y as int),
            old(self).spec_cell_is_empty(position.x as int, position.y as int - 1),
        ensures
            final(self).wf(),
            final(self).same_shape(*old(self)),
            final(self).dirty_extends(*old(self)),
            final(self).covers(*old(self)),
            r == Some(Cell::spec_empty()),
            exists|dy: int|
                (dy == position.y - 1 || dy == position.y - 2) && old(self).spec_cell_is_empty(
                    position.x as int,
                    dy,
                ) && (#[trigger] final(self).spec_cell_at(position.x as int, dy)) == current,
            exists|dx: int, dy: int, mx: int, my: int|
                dx == position.x && (dy == position.y - 1 || dy == position.y - 2) && ((dy
                    == position.y - 1 && mx == dx && my == dy) || (dy == position.y - 2 && mx
                    == position.x && my == position.y - 1))
                    && #[trigger] Self::move_effect(*old(self), *final(self), current, dx, dy, mx, my),
    {
        let ghost orig = *old(self);
        let two_down = Point { x: position.x, y: position.y - 2 };
        if random_below(100) < DOUBLE_STEP_CHANCE && self.cell_is_empty(two_down) {
            self.set_cell(two_down, current);
            let ghost mid = *self;
            self.set_updated_cell(Point { x: position.x, y: position.y - 1 });
            proof {
                Self::lemma_covers_trans(orig, mid, *self);
                Self::lemma_extends_trans(orig, mid, *self);
                assert(self.spec_cell_at(position.x as int, position.y as int - 2) == current);
                assert(mid.spec_cell_at(position.x as int, position.y as int - 1)
                    == orig.spec_cell_at(position.x as int, position.y as int - 1));
                assert(Self::move_effect(
                    orig,
                    *self,
                    current,
                    position.x as int,
                    position.y as int - 2,
                    position.x as int,
                    position.y as int - 1,
                ));
            }
            Some(Cell::empty())
        } else {
            self.set_cell(Point { x: position.x, y: position.y - 1 }, current);
            proof {
                assert(self.spec_cell_at(position.x as int, position.y as int - 1) == current);
                assert(Self::move_effect(
                    orig,
                    *self,
                    current,
                    position.x as int,
                    position.y as int - 1,
                    position.x as int,
                    position.y as int - 1,
                ));
            }
            Some(Cell::empty())
        }
    }

    /// Mirror of [`Self::move_down`] for buoyant cells: one or two steps up.
    fn move_up(&mut self, current: Cell, position: Point) -> (r: Option<Cell>)
        requires
            old(self).wf(),
            old(self).in_center(position.x as int, position.y as int),
            old(self).spec_cell_is_empty(position.x as int, position.y as int + 1),
        ensures
            final(self).wf(),
            final(self).same_shape(*old(self)),
            final(self).dirty_extends(*old(self)),
            final(self).covers(*old(self)),
            r == Some(Cell::spec_empty()),
            exists|dy: int|
                (dy == position.y + 1 || dy == position.y + 2) && old(self).spec_cell_is_empty(
                    position.x as int,
                    dy,
                ) && (#[trigger] final(self).spec_cell_at(position.x as int, dy)) == current,
            exists|dx: int, dy: int, mx: int, my: int|
                dx == position.x && (dy == position.y + 1 || dy == position.y + 2) && ((dy
                    == position.y + 1 && mx == dx && my == dy) || (dy == position.y + 2 && mx
                    == position.x && my == position.y + 1))
                    && #[trigger] Self::move_effect(*old(self), *final(self), current, dx, dy, mx, my),
    {
        let ghost orig = *old(self);
        let two_up = Point { x: position.x, y: position.y + 2 };
        if random_below(100) < DOUBLE_STEP_CHANCE && self.cell_is_empty(two_up) {
            self.set_cell(two_up, current);
            let ghost mid = *self;
            self.set_updated_cell(Point { x: position.x, y: position.y + 1 });
            proof {
                Self::lemma_covers_trans(orig, mid, *self);
                Self::lemma_extends_trans(orig, mid, *self);
                assert(self.spec_cell_at(position.x as int, position.y as int + 2) == current);
                assert(mid.spec_cell_at(position.x as int, position.y as int + 1)
                    == orig.spec_cell_at(position.x as int, position.y as int + 1));
                assert(Self::move_effect(
                    orig,
                    *self,
                    current,
                    position.x as int,
                    position.y as int + 2,
                    position.x as int,
                    position.y as int + 1,
                ));
            }
            Some(Cell::empty())
        } else {
            self.set_cell(Point { x: position.x, y: position.y + 1 }, current);
            proof {
                assert(self.spec_cell_at(position.x as int, position.y as int + 1) == current);
                assert(Self::move_effect(
                    orig,
                    *self,
                    current,
                    position.x as int,
                    position.y as int + 1,
                    position.x as int,
                    position.y as int + 1,
                ));
            }
            Some(Cell::empty())
        }
    }

    /// Moves the cell sideways into a free flank: random tie-break when both
    /// sides are free, two-step jump with [`DOUBLE_STEP_CHANCE`] otherwise.
    /// Returns `None`, changing nothing, when neither side is free.
    fn move_left_right(
        &mut self,
        current: Cell,
        position: Point,
        move_left: bool,
        move_right: bool,
    ) -> (r: Option<Cell>)
        requires
            old(self).wf(),
            old(self).in_center(position.x as int, position.y as int),
            move_left ==> old(self).spec_cell_is_empty(
                position.x as int - 1,
                position.y as int,
            ),
            move_right ==> old(self).spec_cell_is_empty(
                position.x as int + 1,
                position.y as int,
            ),
        ensures
            final(self).wf(),
            final(self).same_shape(*old(self)),
            final(self).dirty_extends(*old(self)),
            final(self).covers(*old(self)),
            r is Some <==> (move_left || move_right),
            !(move_left || move_right) ==> *final(self) == *old(self),
            r is Some ==> r == Some(Cell::spec_empty()),
            r is Some ==> exists|dx: int|
                (dx == position.x - 1 || dx == position.x + 1 || dx == position.x - 2 || dx
                    == position.x + 2) && old(self).spec_cell_is_empty(dx, position.y as int) && (
                #[trigger] final(self).spec_cell_at(dx, position.y as int)) == current,
            r is Some ==> exists|dx: int, dy: int, mx: int, my: int|
                dy == position.y && my == position.y && ((mx == dx && (dx == position.x - 1 || dx
                    == position.x + 1)) || (dx == position.x - 2 && mx == position.x - 1) || (dx
                    == position.x + 2 && mx == position.x + 1))
                    && #[trigger] Self::move_effect(*old(self), *final(self), current, dx, dy, mx, my),
    {
        let ghost orig = *old(self);
        if move_left && move_right {
            let dest_x: i32 = if random_below(2) == 0 {
                position.x + 1
            } else {
                position.x - 1
            };
            self.set_cell(Point { x: dest_x, y: position.y }, current);
            proof {
                assert(self.spec_cell_at(dest_x as int, position.y as int) == current);
                assert(Self::move_effect(
                    orig,
                    *self,
                    current,
                    dest_x as int,
                    position.y as int,
                    dest_x as int,
                    position.y as int,
                ));
            }
            Some(Cell::empty())
        } else if move_left {
            let two_left = Point { x: position.x - 2, y: position.y };
            if random_below(100) < DOUBLE_STEP_CHANCE && self.cell_is_empty(two_left) {
                self.set_cell(two_left, current);
                let ghost mid = *self;
                self.set_updated_cell(Point { x: position.x - 1, y: position.y });
                proof {
                    Self::lemma_covers_trans(orig, mid, *self);
                    Self::lemma_extends_trans(orig, mid, *self);
                    assert(self.spec_cell_at(position.x as int - 2, position.y as int) == current);
                    assert(mid.spec_cell_at(position.x as int - 1, position.y as int)
                        == orig.spec_cell_at(position.x as int - 1, position.y as int));
                    assert(Self::move_effect(
                        orig,
                        *self,
                        current,
                        position.x as int - 2,
                        position.y as int,
                        position.x as int - 1,
                        position.y as int,
                    ));
                }
            } else {
                self.set_cell(Point { x: position.x - 1, y: position.y }, current);
                proof {
                    assert(self.spec_cell_at(position.x as int - 1, position.y as int) == current);
                    assert(Self::move_effect(
                        orig,
                        *self,
                        current,
                        position.x as int - 1,
                        position.y as int,
                        position.x as int - 1,
                        position.y as int,
                    ));
                }
            }
            Some(Cell::empty())
        } else if move_right {
            let two_right = Point { x: position.x + 2, y: position.y };
            if random_below(100) < DOUBLE_STEP_CHANCE && self.cell_is_empty(two_right) {
                self.set_cell(two_right, current);
                let ghost mid = *self;
                self.set_updated_cell(Point { x: position.x + 1, y: position.y });
                proof {
                    Self::lemma_covers_trans(orig, mid, *self);
                    Self::lemma_extends_trans(orig, mid, *self);
                    assert(self.spec_cell_at(position.x as int + 2, position.y as int) == current);
                    assert(mid.spec_cell_at(position.x as int + 1, position.y as int)
                        == orig.spec_cell_at(position.x as int + 1, position.y as int));
                    assert(Self::move_effect(
                        orig,
                        *self,
                        current,
                        position.x as int + 2,
                        position.y as int,
                        position.x as int + 1,
                        position.y as int,
                    ));
                }
            } else {
                self.set_cell(Point { x: position.x + 1, y: position.y }, current);
                proof {
                    assert(self.spec_cell_at(position.x as int + 1, position.y as int) == current);
                    assert(Self::move_effect(
                        orig,
                        *self,
                        current,
                        position.x as int + 1,
                        position.y as int,
                        position.x as int + 1,
                        position.y as int,
                    ));
                }
            }
            Some(Cell::empty())
        } else {
            None
        }
    }

    /// Moves the cell into a free diagonal below: random tie-break when both
    /// diagonals are free, two-step jump with [`DOUBLE_STEP_CHANCE`]
    /// otherwise. Returns `None`, changing nothing, when neither diagonal is
    /// free.
    fn move_down_left_right(
        &mut self,
        current: Cell,
        position: Point,
        move_left: bool,
        move_right: bool,
    ) -> (r: Option<Cell>)
        requires
            old(self).wf(),
            old(self).in_center(position.x as int, position.y as int),
            move_left ==> old(self).spec_cell_is_empty(
                position.x as int - 1,
                position.y as int - 1,
            ),
            move_right ==> old(self).spec_cell_is_empty(
                position.x as int + 1,
                position.y as int - 1,
            ),
        ensures
            final(self).wf(),
            final(self).same_shape(*old(self)),
            final(self).dirty_extends(*old(self)),
            final(self).covers(*old(self)),
            r is Some <==> (move_left || move_right),
            !(move_left || move_right) ==> *final(self) == *old(self),
            r is Some ==> r == Some(Cell::spec_empty()),
            r is Some ==> exists|dx: int, dy: int|
                (((dx == position.x - 1 || dx == position.x + 1) && dy == position.y - 1) || ((dx
                    == position.x - 2 || dx == position.x + 2) && dy == position.y - 2)) && old(
                    self,
                ).spec_cell_is_empty(dx, dy) && (#[trigger] final(self).spec_cell_at(dx, dy))
                    == current,
            r is Some ==> exists|dx: int, dy: int, mx: int, my: int|
                (((dx == position.x - 1 || dx == position.x + 1) && dy == position.y - 1 && mx
                    == dx && my == dy) || (dx == position.x - 2 && dy == position.y - 2 && mx
                    == position.x - 1 && my == position.y - 1) || (dx == position.x + 2 && dy
                    == position.y - 2 && mx == position.x + 1 && my == position.y - 1))
                    && #[trigger] Self::move_effect(*old(self), *final(self), current, dx, dy, mx, my),
    {
        let ghost orig = *old(self);
        if move_left && move_right {
            let dest_x: i32 = if random_below(2) == 0 {
                position.x + 1
            } else {
                position.x - 1
            };
            self.set_cell(Point { x: dest_x, y: position.y - 1 }, current);
            proof {
                assert(self.spec_cell_at(dest_x as int, position.y as int - 1) == current);
                assert(Self::move_effect(
                    orig,
                    *self,
                    current,
                    dest_x as int,
                    position.y as int - 1,
                    dest_x as int,
                    position.y as int - 1,
                ));
            }
            Some(Cell::empty())
        } else if move_left {
            let two_diag = Point { x: position.x - 2, y: position.y - 2 };
            if random_below(100) < DOUBLE_STEP_CHANCE && self.cell_is_empty(two_diag) {
                self.set_cell(two_diag, current);
                let ghost mid = *self;
                self.set_updated_cell(Point { x: position.x - 1, y: position.y - 1 });
                proof {
                    Self::lemma_covers_trans(orig, mid, *self);
                    Self::lemma_extends_trans(orig, mid, *self);
                    assert(self.spec_cell_at(position.x as int - 2, position.y as int - 2)
                        == current);
                    assert(mid.spec_cell_at(position.x as int - 1, position.y as int - 1)
                        == orig.spec_cell_at(position.x as int - 1, position.y as int - 1));
                    assert(Self::move_effect(
                        orig,
                        *self,
                        current,
                        position.x as int - 2,
                        position.y as int - 2,
                        position.x as int - 1,
                        position.y as int - 1,
                    ));
                }
            } else {
                self.set_cell(Point { x: position.x - 1, y: position.y - 1 }, current);
                proof {
                    assert(self.spec_cell_at(position.x as int - 1, position.y as int - 1)
                        == current);
                    assert(Self::move_effect(
                        orig,
                        *self,
                        current,
                        position.x as int - 1,
                        position.y as int - 1,
                        position.x as int - 1,
                        position.y as int - 1,
                    ));
                }
            }
            Some(Cell::empty())
        } else if move_right {
            let two_diag = Point { x: position.x + 2, y: position.y - 2 };
            if random_below(100) < DOUBLE_STEP_CHANCE && self.cell_is_empty(two_diag) {
                self.set_cell(two_diag, current);
                let ghost mid = *self;
                self.set_updated_cell(Point { x: position.x + 1, y: position.y - 1 });
                proof {
                    Self::lemma_covers_trans(orig, mid, *self);
                    Self::lemma_extends_trans(orig, mid, *self);
                    assert(self.spec_cell_at(position.x as int + 2, position.y as int - 2)
                        == current);
                    assert(mid.spec_cell_at(position.x as int + 1, position.y as int - 1)
                        == orig.spec_cell_at(position.x as int + 1, position.y as int - 1));
                    assert(Self::move_effect(
                        orig,
                        *self,
                        current,
                        position.x as int + 2,
                        position.y as int - 2,
                        position.x as int + 1,
                        position.y as int - 1,
                    ));
                }
            } else {
                self.set_cell(Point { x: position.x + 1, y: position.y - 1 }, current);
                proof {
                    assert(self.spec_cell_at(position.x as int + 1, position.y as int - 1)
                        == current);
                    assert(Self::move_effect(
                        orig,
                        *self,
                        current,
                        position.x as int + 1,
                        position.y as int - 1,
                        position.x as int + 1,
                        position.y as int - 1,
                    ));
                }
            }
            Some(Cell::empty())
        } else {
            None
        }
    }

    /// Simulates the single cell at a centre position: dispatches on its
    /// physics category and, if a movement rule fires, returns the empty cell
    /// to be written back at the origin. A cell already claimed this pass, or
    /// one that cannot move, yields `None` and changes nothing.
    ///
    /// The contract carries the two per-cell laws: any cell a rule moves went
    /// to a destination that was free and unclaimed immediately before the
    /// write, and a soft solid or liquid with a free cell below (or a gas with
    /// a free cell above) always moves.
    pub fn process_cell(&mut self, position: Point) -> (r: Option<Cell>)
        requires
            old(self).wf(),
            old(self).in_center(position.x as int, position.y as int),
        ensures
            final(self).wf(),
            final(self).same_shape(*old(self)),
            final(self).dirty_extends(*old(self)),
            final(self).covers(*old(self)),
            r is None ==> *final(self) == *old(self),
            ({
                let c = old(self).spec_cell_at(position.x as int, position.y as int);
                &&& (c.updated || c.physics is Empty || c.physics is HardSolid
                    || c.physics is RigidBody) ==> r is None
                &&& r is Some ==> (c.physics is SoftSolid || c.physics is Liquid
                    || c.physics is Gas)
                &&& r is Some ==> r == Some(Cell::spec_empty())
                &&& r is Some ==> exists|dx: int, dy: int|
                    move_dest(c.physics, position.x as int, position.y as int, dx, dy) && old(
                        self,
                    ).spec_cell_is_empty(dx, dy) && (#[trigger] final(self).spec_cell_at(dx, dy))
                        == (Cell { updated: true, ..c })
                &&& r is Some ==> exists|dx: int, dy: int, mx: int, my: int|
                    move_dest(c.physics, position.x as int, position.y as int, dx, dy) && ((mx
                        == dx && my == dy) || (mx + mx == position.x + dx && my + my == position.y
                        + dy)) && #[trigger] Self::move_effect(
                        *old(self),
                        *final(self),
                        (Cell { updated: true, ..c }),
                        dx,
                        dy,
                        mx,
                        my,
                    )
                &&& (!c.updated && c.physics is SoftSolid && old(self).spec_cell_is_empty(
                    position.x as int,
                    position.y as int - 1,
                )) ==> r is Some
                &&& (!c.updated && c.physics is Liquid && old(self).spec_cell_is_empty(
                    position.x as int,
                    position.y as int - 1,
                )) ==> r is Some
                &&& (!c.updated && c.physics is Gas && old(self).spec_cell_is_empty(
                    position.x as int,
                    position.y as int + 1,
                )) ==> r is Some
            }),
    {
        let mut current = self.get_cell(position);
        if current.updated {
            return None;
        }
        current.updated = true;
        match current.physics {
            PhysicsType::SoftSolid(_) => {
                let down_empty = self.cell_is_empty(Point { x: position.x, y: position.y - 1 });
                let down_left_empty = self.cell_is_empty(
                    Point { x: position.x - 1, y: position.y - 1 },
                );
                let down_right_empty = self.cell_is_empty(
                    Point { x: position.x + 1, y: position.y - 1 },
                );
                if down_empty && (!(down_left_empty || down_right_empty) || random_below(100)
                    >= SOFT_DIAGONAL_CHANCE) {
                    self.move_down(current, position)
                } else {
                    self.move_down_left_right(
                        current,
                        position,
                        down_left_empty,
                        down_right_empty,
                    )
                }
            },
            PhysicsType::Liquid(_) => {
                let down_empty = self.cell_is_empty(Point { x: position.x, y: position.y - 1 });
                let left_empty = self.cell_is_empty(Point { x: position.x - 1, y: position.y });
                let right_empty = self.cell_is_empty(Point { x: position.x + 1, y: position.y });
                if down_empty && (!(left_empty || right_empty) || random_below(100)
                    < FLUID_STRAIGHT_CHANCE) {
                    self.move_down(current, position)
                } else {
                    self.move_left_right(current, position, left_empty, right_empty)
                }
            },
            PhysicsType::Gas(_) => {
                let up_empty = self.cell_is_empty(Point { x: position.x, y: position.y + 1 });
                let left_empty = self.cell_is_empty(Point { x: position.x - 1, y: position.y });
                let right_empty = self.cell_is_empty(Point { x: position.x + 1, y: position.y });
                if up_empty && (!(left_empty || right_empty) || random_below(100)
                    < FLUID_STRAIGHT_CHANCE) {
                    self.move_up(current, position)
                } else {
                    self.move_left_right(current, position, left_empty, right_empty)
                }
            },
            _ => None,
        }
    }

    /// Simulates one centre position and commits the vacated cell if the
    /// movement rule fired.
    fn step_cell(&mut self, position: Point)
        requires
            old(self).wf(),
            old(self).in_center(position.x as int, position.y as int),
        ensures
            final(self).wf(),
            final(self).same_shape(*old(self)),
            final(self).dirty_extends(*old(self)),
            final(self).covers(*old(self)),
            ({
                let c = old(self).spec_cell_at(position.x as int, position.y as int);
                (c.physics is Empty || c.updated || c.physics is HardSolid
                    || c.physics is RigidBody) ==> *final(self) == *old(self)
            }),
            ({
                let c = old(self).spec_cell_at(position.x as int, position.y as int);
                (!c.updated && (c.physics is SoftSolid || c.physics is Liquid)
                    && old(self).spec_cell_is_empty(position.x as int, position.y as int - 1))
                    ==> (final(self).spec_cell_at(position.x as int, position.y as int).physics
                    is Empty
                    && !final(self).spec_cell_at(position.x as int, position.y as int).updated)
            }),
            ({
                let c = old(self).spec_cell_at(position.x as int, position.y as int);
                (!c.updated && c.physics is Gas && old(self).spec_cell_is_empty(
                    position.x as int,
                    position.y as int + 1,
                )) ==> (final(self).spec_cell_at(position.x as int, position.y as int).physics
                    is Empty
                    && !final(self).spec_cell_at(position.x as int, position.y as int).updated)
            }),
            *final(self) == *old(self) || exists|dx: int, dy: int, mx: int, my: int|
                ((mx == dx && my == dy) || (mx + mx == position.x + dx && my + my == position.y
                    + dy)) && #[trigger] Self::step_effect(
                    *old(self),
                    *final(self),
                    position.x as int,
                    position.y as int,
                    dx,
                    dy,
                    mx,
                    my,
                ),
    {
        let ghost orig = *old(self);
        if let Some(cell) = self.process_cell(position) {
            let ghost mid = *self;
            let mut vacated = cell;
            vacated.updated = false;
            self.set_cell(position, vacated);
            proof {
                Self::lemma_covers_trans(orig, mid, *self);
                Self::lemma_extends_trans(orig, mid, *self);
                let c = orig.spec_cell_at(position.x as int, position.y as int);
                let (dx, dy, mx, my) = choose|dx: int, dy: int, mx: int, my: int|
                    move_dest(c.physics, position.x as int, position.y as int, dx, dy) && ((mx
                        == dx && my == dy) || (mx + mx == position.x + dx && my + my == position.y
                        + dy)) && #[trigger] Self::move_effect(
                        orig,
                        mid,
                        (Cell { updated: true, ..c }),
                        dx,
                        dy,
                        mx,
                        my,
                    );
                assert(!(dx == position.x && dy == position.y) && !(mx == position.x && my
                    == position.y));
                assert(self.spec_cell_at(position.x as int, position.y as int)
                    == Cell::spec_empty());
                assert(self.spec_cell_at(dx, dy) == mid.spec_cell_at(dx, dy));
                assert(Self::step_effect(
                    orig,
                    *self,
                    position.x as int,
                    position.y as int,
                    dx,
                    dy,
                    mx,
                    my,
                ));
            }
        }
    }

    /// A single simulated cell only vacates a movable cell and fills or
    /// claims free cells, so hard solids and rigid-body cells survive one
    /// step untouched.
    proof fn lemma_step_preserves_solids(pre: Self, post: Self, base: Self, x: int, y: int)
        requires
            base.wf(),
            pre.wf(),
            pre.same_shape(base),
            post.same_shape(pre),
            pre.in_center(x, y),
            pre.preserves_solids(base),
            post == pre || exists|dx: int, dy: int, mx: int, my: int|
                ((mx == dx && my == dy) || (mx + mx == x + dx && my + my == y + dy))
                    && #[trigger] Self::step_effect(pre, post, x, y, dx, dy, mx, my),
        ensures
            post.preserves_solids(base),
    {
        if post == pre {
        } else {
            let (dx, dy, mx, my) = choose|dx: int, dy: int, mx: int, my: int|
                ((mx == dx && my == dy) || (mx + mx == x + dx && my + my == y + dy))
                    && #[trigger] Self::step_effect(pre, post, x, y, dx, dy, mx, my);
            assert forall|k: int, lx: int, ly: int|
                0 <= k < 9 && in_grid(lx, ly, base.chunk_width as int, base.chunk_height as int)
                    && ((#[trigger] base.cell_in_slot(k, lx, ly)).physics is HardSolid
                    || base.cell_in_slot(k, lx, ly).physics is RigidBody) implies post.cell_in_slot(
                k,
                lx,
                ly,
            ) == base.cell_in_slot(k, lx, ly) by {
                pre.lemma_slot_coord_roundtrip(k, lx, ly);
                let ex = slot_dx(k) * pre.chunk_width + lx;
                let ey = slot_dy(k) * pre.chunk_height + ly;
                assert(pre.spec_cell_at(ex, ey) == pre.cell_in_slot(k, lx, ly));
                assert(pre.cell_in_slot(k, lx, ly) == base.cell_in_slot(k, lx, ly));
                if ex == x && ey == y {
                    assert(move_dest(pre.spec_cell_at(x, y).physics, x, y, dx, dy));
                    assert(false);
                } else if ex == dx && ey == dy {
                    assert(pre.spec_cell_is_empty(dx, dy));
                    assert(false);
                } else if ex == mx && ey == my {
                    assert(pre.spec_cell_is_empty(mx, my));
                    assert(false);
                } else {
                    assert(post.spec_cell_at(ex, ey) == pre.spec_cell_at(ex, ey));
                }
            }
        }
    }

    /// Simulates one row of the centre chunk's scan region, in the given
    /// horizontal direction.
    /// The whole row is idle in `self`: every centre cell of row `y` is
    /// empty or already claimed, so a pass over the row cannot change
    /// anything.
    pub open spec fn row_idle(self, y: int) -> bool {
        forall|x2: int|
            0 <= x2 < self.chunk_width ==> ((#[trigger] self.cell_in_slot(4, x2, y)).physics
                is Empty || self.cell_in_slot(4, x2, y).updated)
    }

    fn simulate_row(&mut self, y: i32, min_x: i32, max_x: i32, forward: bool)
        requires
            old(self).wf(),
            0 <= y < old(self).chunk_height,
            0 <= min_x,
            max_x < old(self).chunk_width,
        ensures
            final(self).wf(),
            final(self).same_shape(*old(self)),
            final(self).dirty_extends(*old(self)),
            final(self).covers(*old(self)),
            final(self).preserves_solids(*old(self)),
            old(self).row_idle(y as int) ==> *final(self) == *old(self),
            old(self).center_all_empty() ==> *final(self) == *old(self),
            forall|px: int|
                old(self).lone_mover_at(px, y as int) && min_x <= px <= max_x ==> ((
                #[trigger] final(self).spec_cell_at(px, y as int)).physics is Empty
                    && final(self).all_idle()),
    {
        let ghost orig = *old(self);
        let ghost has_lone = exists|px: int|
            orig.lone_mover_at(px, y as int) && min_x <= px <= max_x;
        let ghost lone_x: int = if has_lone {
            choose|px: int| orig.lone_mover_at(px, y as int) && min_x <= px <= max_x
        } else {
            0
        };
        proof {
            if orig.center_all_empty() {
                assert forall|x2: int| 0 <= x2 < orig.chunk_width implies ((
                #[trigger] orig.cell_in_slot(4, x2, y as int)).physics is Empty
                    || orig.cell_in_slot(4, x2, y as int).updated) by {}
                assert(orig.row_idle(y as int));
            }
        }
        if forward {
            let mut x: i32 = min_x;
            while x <= max_x
                invariant
                    self.wf(),
                    orig.wf(),
                    0 <= min_x <= x,
                    max_x < self.chunk_width,
                    0 <= y < self.chunk_height,
                    self.same_shape(orig),
                    self.dirty_extends(orig),
                    self.covers(orig),
                    self.preserves_solids(orig),
                    orig.row_idle(y as int) ==> *self == orig,
                    has_lone ==> orig.lone_mover_at(lone_x, y as int) && min_x <= lone_x <= max_x,
                    has_lone && x <= lone_x ==> *self == orig,
                    has_lone && x > lone_x ==> ((self.spec_cell_at(lone_x, y as int)).physics
                        is Empty && self.all_idle()),
                decreases max_x - x + 1,
            {
                let ghost pre = *self;
                self.step_cell(Point { x, y });
                proof {
                    self.lemma_row_step(orig, pre, has_lone, lone_x, x as int, y as int);
                }
                x = x + 1;
                proof {
                    if has_lone && x <= lone_x {
                        assert(*self == orig);
                    }
                }
            }
        } else {
            let mut x: i32 = max_x;
            while x >= min_x
                invariant
                    self.wf(),
                    orig.wf(),
                    x <= max_x,
                    0 <= min_x,
                    max_x < self.chunk_width,
                    0 <= y < self.chunk_height,
                    self.same_shape(orig),
                    self.dirty_extends(orig),
                    self.covers(orig),
                    self.preserves_solids(orig),
                    orig.row_idle(y as int) ==> *self == orig,
                    has_lone ==> orig.lone_mover_at(lone_x, y as int) && min_x <= lone_x <= max_x,
                    has_lone && x >= lone_x ==> *self == orig,
                    has_lone && x < lone_x ==> ((self.spec_cell_at(lone_x, y as int)).physics
                        is Empty && self.all_idle()),
                decreases x - min_x + 1,
            {
                let ghost pre = *self;
                self.step_cell(Point { x, y });
                proof {
                    self.lemma_row_step(orig, pre, has_lone, lone_x, x as int, y as int);
                }
                x = x - 1;
            }
        }
        proof {
            assert forall|px: int|
                orig.lone_mover_at(px, y as int) && min_x <= px <= max_x implies ((
            #[trigger] self.spec_cell_at(px, y as int)).physics is Empty && self.all_idle()) by {
                if px != lone_x {
                    assert(orig.cell_in_slot(4, px, y as int) == orig.spec_cell_at(
                        px,
                        y as int,
                    ));
                    assert(false);
                }
            }
        }
    }

    /// One iteration of a row pass, relative to the row's starting state
    /// `orig`: coverage, record-prefixing and solid-preservation compose, an
    /// idle row stays untouched, and the lone-mover analysis advances past
    /// the processed column.
    proof fn lemma_row_step(
        self,
        orig: Self,
        pre: Self,
        has_lone: bool,
        lone_x: int,
        x: int,
        y: int,
    )
        requires
            orig.wf(),
            pre.wf(),
            self.wf(),
            pre.same_shape(orig),
            self.same_shape(pre),
            pre.dirty_extends(orig),
            pre.covers(orig),
            pre.preserves_solids(orig),
            self.dirty_extends(pre),
            self.covers(pre),
            in_grid(x, y, orig.chunk_width as int, orig.chunk_height as int),
            // what the step guarantees, quoted from step_cell's contract
            ({
                let c = pre.spec_cell_at(x, y);
                (c.physics is Empty || c.updated || c.physics is HardSolid
                    || c.physics is RigidBody) ==> self == pre
            }),
            ({
                let c = pre.spec_cell_at(x, y);
                (!c.updated && (c.physics is SoftSolid || c.physics is Liquid)
                    && pre.spec_cell_is_empty(x, y - 1)) ==> (self.spec_cell_at(x, y).physics
                    is Empty && !self.spec_cell_at(x, y).updated)
            }),
            self == pre || exists|dx: int, dy: int, mx: int, my: int|
                ((mx == dx && my == dy) || (mx + mx == x + dx && my + my == y + dy))
                    && #[trigger] Self::step_effect(pre, self, x, y, dx, dy, mx, my),
            has_lone ==> orig.lone_mover_at(lone_x, y),
            orig.row_idle(y) ==> pre == orig,
            has_lone ==> (pre == orig || (pre.spec_cell_at(lone_x, y).physics is Empty
                && pre.all_idle())),
        ensures
            self.dirty_extends(orig),
            self.covers(orig),
            self.preserves_solids(orig),
            orig.row_idle(y) ==> self == orig,
            has_lone && pre == orig && x != lone_x ==> self == orig,
            has_lone && pre == orig && x == lone_x ==> (self.spec_cell_at(lone_x, y).physics
                is Empty && self.all_idle()),
            has_lone && pre.spec_cell_at(lone_x, y).physics is Empty && pre.all_idle() ==> (
            self.spec_cell_at(lone_x, y).physics is Empty && self.all_idle()),
    {
        Self::lemma_covers_trans(orig, pre, self);
        Self::lemma_extends_trans(orig, pre, self);
        Self::lemma_step_preserves_solids(pre, self, orig, x, y);
        let w = orig.chunk_width as int;
        let h = orig.chunk_height as int;
        assert(pre.spec_cell_at(x, y) == pre.cell_in_slot(4, x, y));
        if orig.row_idle(y) {
            assert(orig.cell_in_slot(4, x, y) == orig.spec_cell_at(x, y));
            assert(self == pre);
        }
        if has_lone {
            let c = orig.spec_cell_at(lone_x, y);
            if pre.spec_cell_at(lone_x, y).physics is Empty && pre.all_idle() {
                // past the lone mover: everything is idle, the step no-ops
                assert(pre.cell_in_slot(4, x, y) == pre.spec_cell_at(x, y));
                assert(self == pre);
            }
            if pre == orig && x != lone_x {
                // an empty, unclaimed cell: the step is a no-op
                assert(orig.cell_in_slot(4, x, y) == orig.spec_cell_at(x, y));
                assert(self == pre);
            } else if pre == orig && x == lone_x {
                // the lone soft solid moves: the cell below it is free
                assert(pre == orig);
                assert(orig.slot_present(lone_x, y - 1));
                Self::lemma_local_in_grid(lone_x, w);
                Self::lemma_local_in_grid(y - 1, h);
                assert(orig.spec_cell_at(lone_x, y - 1) == orig.cell_in_slot(
                    orig.slot_of(lone_x, y - 1),
                    local_of(lone_x, w),
                    local_of(y - 1, h),
                ));
                assert(!(orig.slot_of(lone_x, y - 1) == 4 && local_of(lone_x, w) == lone_x
                    && local_of(y - 1, h) == y));
                assert(orig.spec_cell_is_empty(lone_x, y - 1));
                assert(self.spec_cell_at(lone_x, y).physics is Empty);
                // after the move everything is empty or claimed
                assert(!(self == pre));
                let (dx, dy, mx, my) = choose|dx: int, dy: int, mx: int, my: int|
                    ((mx == dx && my == dy) || (mx + mx == x + dx && my + my == y + dy))
                        && #[trigger] Self::step_effect(pre, self, x, y, dx, dy, mx, my);
                assert forall|k: int, cx: int, cy: int|
                    0 <= k < 9 && in_grid(cx, cy, w, h) && self.data@[k] is Some implies ((
                #[trigger] self.cell_in_slot(k, cx, cy)).physics is Empty || self.cell_in_slot(
                    k,
                    cx,
                    cy,
                ).updated) by {
                    pre.lemma_slot_coord_roundtrip(k, cx, cy);
                    let ex = slot_dx(k) * pre.chunk_width + cx;
                    let ey = slot_dy(k) * pre.chunk_height + cy;
                    assert(self.spec_cell_at(ex, ey) == self.cell_in_slot(k, cx, cy));
                    if ex == x && ey == y {
                    } else if ex == dx && ey == dy {
                    } else if ex == mx && ey == my {
                    } else {
                        assert(self.spec_cell_at(ex, ey) == pre.spec_cell_at(ex, ey));
                        assert(!(k == 4 && cx == lone_x && cy == y));
                    }
                }
                assert(self.all_idle());
            }
        }
    }

    /// Runs one simulation pass over the centre chunk's scan region (its
    /// current dirty rectangle widened by the previous one), bottom row to top
    /// row, choosing the horizontal direction of each row at random to avoid
    /// a sideways bias in how material piles up.
    ///
    /// The pass only moves cells through the per-cell rules; afterwards every
    /// cell that differs from its pre-pass value has its position recorded in
    /// its chunk's dirty list ([`Self::covers`]), hard solids and rigid-body
    /// cells are untouched, an idle centre chunk (all cells empty or already
    /// claimed) is left untouched with nothing recorded, and a neighbourhood
    /// whose only occupant is an unclaimed soft solid inside the scan region
    /// with the world below it provably vacates that cell.
    pub fn simulate(&mut self)
        requires
            old(self).wf(),
        ensures
            final(self).wf(),
            final(self).same_shape(*old(self)),
            final(self).dirty_extends(*old(self)),
            final(self).covers(*old(self)),
            final(self).preserves_solids(*old(self)),
            old(self).center_all_idle() ==> *final(self) == *old(self),
            old(self).center_all_empty() ==> *final(self) == *old(self),
            forall|px: int, py: int|
                old(self).lone_mover_at(px, py) && (old(self).chunk_in_slot(
                    4,
                ).current_dirty_rect.spec_contains(px, py) || old(self).chunk_in_slot(
                    4,
                ).previous_dirty_rect.spec_contains(px, py))
                    ==> (#[trigger] final(self).spec_cell_at(px, py)).physics is Empty,
    {
        let ghost orig = *old(self);
        let rect = self.get_rect();
        let ghost has_lone = exists|px: int, py: int|
            orig.lone_mover_at(px, py) && rect.spec_contains(px, py);
        let ghost lone_pos: (int, int) = if has_lone {
            choose|px: int, py: int| orig.lone_mover_at(px, py) && rect.spec_contains(px, py)
        } else {
            (0, 0)
        };
        proof {
            if orig.center_all_empty() {
                assert forall|x2: int, y2: int|
                    in_grid(
                        x2,
                        y2,
                        orig.chunk_width as int,
                        orig.chunk_height as int,
                    ) implies ((#[trigger] orig.cell_in_slot(4, x2, y2)).physics is Empty
                    || orig.cell_in_slot(4, x2, y2).updated) by {}
                assert(orig.center_all_idle());
            }
        }
        let mut y: i32 = rect.min.y;
        while y <= rect.max.y
            invariant
                self.wf(),
                orig.wf(),
                self.same_shape(orig),
                self.dirty_extends(orig),
                self.covers(orig),
                self.preserves_solids(orig),
                orig.center_all_idle() ==> *self == orig,
                !rect.spec_is_empty() ==> (0 <= rect.min.x && rect.max.x < self.chunk_width && 0
                    <= rect.min.y && rect.max.y < self.chunk_height),
                rect.spec_is_empty() ==> rect.min.y > rect.max.y,
                rect.min.y <= y,
                has_lone ==> orig.lone_mover_at(lone_pos.0, lone_pos.1) && rect.spec_contains(
                    lone_pos.0,
                    lone_pos.1,
                ),
                has_lone && y <= lone_pos.1 ==> *self == orig,
                has_lone && y > lone_pos.1 ==> ((self.spec_cell_at(
                    lone_pos.0,
                    lone_pos.1,
                )).physics is Empty && self.all_idle()),
            decreases rect.max.y - y + 1,
        {
            let ghost pre = *self;
            let forward = random_below(2) == 0;
            proof {
                if orig.center_all_idle() {
                    assert forall|x2: int|
                        0 <= x2 < pre.chunk_width implies ((#[trigger] pre.cell_in_slot(
                        4,
                        x2,
                        y as int,
                    )).physics is Empty || pre.cell_in_slot(4, x2, y as int).updated) by {}
                    assert(pre.row_idle(y as int));
                }
                if has_lone {
                    if y < lone_pos.1 {
                        assert forall|x2: int|
                            0 <= x2 < pre.chunk_width implies ((#[trigger] pre.cell_in_slot(
                            4,
                            x2,
                            y as int,
                        )).physics is Empty || pre.cell_in_slot(4, x2, y as int).updated) by {
                            assert(orig.cell_in_slot(4, x2, y as int) == pre.cell_in_slot(
                                4,
                                x2,
                                y as int,
                            ));
                        }
                        assert(pre.row_idle(y as int));
                    }
                    if y > lone_pos.1 {
                        assert forall|x2: int|
                            0 <= x2 < pre.chunk_width implies ((#[trigger] pre.cell_in_slot(
                            4,
                            x2,
                            y as int,
                        )).physics is Empty || pre.cell_in_slot(4, x2, y as int).updated) by {}
                        assert(pre.row_idle(y as int));
                    }
                }
            }
            self.simulate_row(y, rect.min.x, rect.max.x, forward);
            proof {
                Self::lemma_covers_trans(orig, pre, *self);
                Self::lemma_extends_trans(orig, pre, *self);
                if has_lone && y == lone_pos.1 {
                    assert(pre.lone_mover_at(lone_pos.0, y as int));
                    assert((self.spec_cell_at(lone_pos.0, lone_pos.1)).physics is Empty
                        && self.all_idle());
                }
            }
            y = y + 1;
        }
        proof {
            assert forall|px: int, py: int|
                orig.lone_mover_at(px, py) && (orig.chunk_in_slot(
                    4,
                ).current_dirty_rect.spec_contains(px, py) || orig.chunk_in_slot(
                    4,
                ).previous_dirty_rect.spec_contains(px, py)) implies (#[trigger] self.spec_cell_at(
                px,
                py,
            )).physics is Empty by {
                assert(rect.spec_contains(px, py));
                if !(px == lone_pos.0 && py == lone_pos.1) {
                    assert(orig.cell_in_slot(4, px, py) == orig.spec_cell_at(px, py));
                    assert(false);
                }
            }
        }
    }
}

} // verus!
