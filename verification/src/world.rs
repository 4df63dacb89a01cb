//! The world: a fixed grid of chunks, cell access by world coordinate, and
//! the tick driver that simulates awake chunks in four checkerboard phases.

use vstd::prelude::*;
use vstd::arithmetic::div_mod::{lemma_fundamental_div_mod, lemma_fundamental_div_mod_converse};

use crate::cell::{same_content, Cell};
use crate::chunk::{in_grid, lemma_grid_size_bound, lemma_row_major_bounds, PixelChunk,
    MAX_CHUNK_DIM};
use crate::chunk_handler::{lemma_row_major_injective, slot_dx, slot_dy, SimulationChunkContext};
use crate::geometry_helpers::{BoundRect, Point};
use crate::rng::random_below;

verus! {

/// Upper bound on the number of chunks along each axis.
pub const MAX_CHUNK_AMOUNT: i32 = 256;

/// A chunk is selected by the phase `(phase_x, phase_y)` of the 2x2
/// checkerboard schedule.
pub open spec fn spec_phase_selects(phase_x: int, phase_y: int, cx: int, cy: int) -> bool {
    (cx + phase_x) % 2 == 0 && (cy + phase_y) % 2 == 0
}

pub fn phase_selects(phase_x: i32, phase_y: i32, cx: i32, cy: i32) -> (r: bool)
    requires
        0 <= phase_x <= 1,
        0 <= phase_y <= 1,
        0 <= cx <= MAX_CHUNK_AMOUNT,
        0 <= cy <= MAX_CHUNK_AMOUNT,
    ensures
        r == spec_phase_selects(phase_x as int, phase_y as int, cx as int, cy as int),
{
    (cx + phase_x) % 2 == 0 && (cy + phase_y) % 2 == 0
}

/// Checkerboard non-adjacency: two distinct chunk coordinates selected by the
/// same phase differ by at least 2 along every axis on which they differ at
/// all, so their Chebyshev distance is at least 2 and their 3x3
/// neighbourhoods never share a centre or collide at a border.
pub proof fn lemma_phase_non_adjacent(
    phase_x: int,
    phase_y: int,
    x1: int,
    y1: int,
    x2: int,
    y2: int,
)
    requires
        spec_phase_selects(phase_x, phase_y, x1, y1),
        spec_phase_selects(phase_x, phase_y, x2, y2),
        !(x1 == x2 && y1 == y2),
    ensures
        x1 == x2 || x1 - x2 >= 2 || x2 - x1 >= 2,
        y1 == y2 || y1 - y2 >= 2 || y2 - y1 >= 2,
{
    lemma_same_parity(x1 + phase_x, x2 + phase_x);
    lemma_same_parity(y1 + phase_y, y2 + phase_y);
}

proof fn lemma_same_parity(a: int, b: int)
    requires
        a % 2 == 0,
        b % 2 == 0,
    ensures
        a == b || a - b >= 2 || b - a >= 2,
{
    lemma_fundamental_div_mod(a, 2);
    lemma_fundamental_div_mod(b, 2);
}

/// Euclidean (floor) quotient and remainder for a positive divisor, total
/// over all of `i32`, so that negative world coordinates resolve to the chunk
/// they really fall in instead of being truncated toward zero.
fn div_mod_floor(a: i32, b: i32) -> (r: (i32, i32))
    requires
        0 < b,
    ensures
        r.0 == a as int / b as int,
        r.1 == a as int % b as int,
        0 <= r.1 < b,
{
    if a >= 0 {
        let q = (a as u32) / (b as u32);
        let m = (a as u32) % (b as u32);
        (q as i32, m as i32)
    } else {
        let na: u64 = (-(a as i64)) as u64;
        let nb: u64 = b as u64;
        let q0: u64 = na / nb;
        let r0: u64 = na % nb;
        proof {
            lemma_fundamental_div_mod(na as int, nb as int);
            lemma_div_floor_neg(a as int, b as int, q0 as int, r0 as int);
        }
        if r0 == 0 {
            let q: i64 = -(q0 as i64);
            (q as i32, 0)
        } else {
            let q: i64 = -(q0 as i64) - 1;
            let m: i64 = (nb - r0) as i64;
            (q as i32, m as i32)
        }
    }
}

proof fn lemma_div_floor_neg(a: int, b: int, q0: int, r0: int)
    requires
        a < 0,
        0 < b,
        -a == b * q0 + r0,
        0 <= r0 < b,
    ensures
        r0 == 0 ==> a / b == -q0 && a % b == 0,
        r0 > 0 ==> a / b == -q0 - 1 && a % b == b - r0,
        a / b >= a,
        a / b <= 0,
        q0 <= -a,
{
    assert(q0 >= 0 && q0 <= -a && b * q0 <= -a) by (nonlinear_arith)
        requires
            -a == b * q0 + r0,
            0 <= r0 < b,
            0 < b,
            a < 0,
    ;
    if r0 == 0 {
        assert(a == (-q0) * b + 0) by (nonlinear_arith)
            requires
                -a == b * q0 + r0,
                r0 == 0,
        ;
        lemma_fundamental_div_mod_converse(a, b, -q0, 0);
        assert(-q0 >= a) by (nonlinear_arith)
            requires
                -a == b * q0,
                0 < b,
                0 <= q0,
        ;
    } else {
        assert(a == (-q0 - 1) * b + (b - r0)) by (nonlinear_arith)
            requires
                -a == b * q0 + r0,
        ;
        lemma_fundamental_div_mod_converse(a, b, -q0 - 1, b - r0);
        assert(-q0 - 1 >= a) by (nonlinear_arith)
            requires
                -a == b * q0 + r0,
                0 < b,
                0 <= q0,
                0 < r0 < b,
        ;
    }
}

/// A nonnegative value below `w * n` has quotient below `n`.
proof fn lemma_div_in_range(x: int, w: int, n: int)
    requires
        0 <= x < w * n,
        0 < w,
        0 < n,
    ensures
        0 <= x / w < n,
{
    lemma_fundamental_div_mod(x, w);
    assert(x / w < n) by (nonlinear_arith)
        requires
            x == w * (x / w) + x % w,
            0 <= x % w < w,
            x < w * n,
            0 < w,
            0 < n,
    ;
}

pub(crate) proof fn lemma_total_size_bound(dim: int, amount: int)
    by (nonlinear_arith)
    requires
        0 < dim <= MAX_CHUNK_DIM,
        0 < amount <= MAX_CHUNK_AMOUNT,
    ensures
        dim * amount <= 0x100000,
{
}

/// The local position `(x, y)` occurs in the point list.
pub open spec fn rec_in(pts: Seq<Point>, x: int, y: int) -> bool {
    exists|i: int| 0 <= i < pts.len() && (#[trigger] pts[i]).x == x && pts[i].y == y
}

/// The two cell sequences agree cell by cell on physics and colour; only the
/// per-tick `updated` marks may differ.
pub open spec fn cells_content_eq(a: Seq<Cell>, b: Seq<Cell>) -> bool {
    a.len() == b.len() && forall|i: int| 0 <= i < a.len() ==> same_content(#[trigger] a[i], b[i])
}

/// The two chunks agree on everything but their cell contents.
pub open spec fn chunk_same_shape(a: PixelChunk, b: PixelChunk) -> bool {
    &&& a.width == b.width
    &&& a.height == b.height
    &&& a.position == b.position
    &&& a.current_dirty_rect == b.current_dirty_rect
    &&& a.previous_dirty_rect == b.previous_dirty_rect
    &&& a.render_override == b.render_override
    &&& a.cells@.len() == b.cells@.len()
}

/// A value listed in a sequence is still listed after two entries swap.
proof fn lemma_swap_keeps_value(s1: Seq<(i32, i32)>, s2: Seq<(i32, i32)>, i: int, j: int, v: (
    i32,
    i32,
))
    requires
        0 <= i < s1.len(),
        0 <= j < s1.len(),
        s2 == s1.update(i, s1[j]).update(j, s1[i]),
        exists|w: int| 0 <= w < s1.len() && s1[w] == v,
    ensures
        exists|w: int| 0 <= w < s2.len() && s2[w] == v,
{
    let w = choose|w: int| 0 <= w < s1.len() && s1[w] == v;
    if w == j {
        assert(s2[j] == s1[i]);
        if i == j {
            assert(s2[j] == v);
        } else {
            assert(s2[i] == s1[j]);
            assert(s2[i] == v);
        }
    } else if w == i {
        assert(s2[j] == v);
    } else {
        assert(s2[w] == v);
    }
}

/// Every chunk coordinate is selected by the phase made of its own parities.
proof fn lemma_own_parity_selects(cx: int, cy: int)
    requires
        0 <= cx,
        0 <= cy,
    ensures
        spec_phase_selects(cx % 2, cy % 2, cx, cy),
        0 <= cx % 2 <= 1,
        0 <= cy % 2 <= 1,
{
    lemma_fundamental_div_mod(cx, 2);
    lemma_fundamental_div_mod(cy, 2);
    lemma_fundamental_div_mod_converse(cx + cx % 2, 2, cx / 2 + cx % 2, 0);
    lemma_fundamental_div_mod_converse(cy + cy % 2, 2, cy / 2 + cy % 2, 0);
}

/// The four phases of the checkerboard schedule, in a freshly shuffled order,
/// so that cross-chunk migration favours no direction over many ticks.
fn shuffle_phases() -> (r: Vec<(i32, i32)>)
    ensures
        r@.len() == 4,
        forall|i: int| 0 <= i < 4 ==> 0 <= (#[trigger] r@[i]).0 <= 1 && 0 <= r@[i].1 <= 1,
        exists|i: int| 0 <= i < 4 && (#[trigger] r@[i]) == (0i32, 0i32),
        exists|i: int| 0 <= i < 4 && (#[trigger] r@[i]) == (1i32, 0i32),
        exists|i: int| 0 <= i < 4 && (#[trigger] r@[i]) == (0i32, 1i32),
        exists|i: int| 0 <= i < 4 && (#[trigger] r@[i]) == (1i32, 1i32),
{
    let mut phases: Vec<(i32, i32)> = Vec::new();
    phases.push((0, 0));
    phases.push((1, 0));
    phases.push((0, 1));
    phases.push((1, 1));
    proof {
        assert(phases@[0] == (0i32, 0i32));
        assert(phases@[1] == (1i32, 0i32));
        assert(phases@[2] == (0i32, 1i32));
        assert(phases@[3] == (1i32, 1i32));
    }
    let mut i: usize = 0;
    while i < 3
        invariant
            i <= 3,
            phases@.len() == 4,
            forall|i2: int|
                0 <= i2 < 4 ==> 0 <= (#[trigger] phases@[i2]).0 <= 1 && 0 <= phases@[i2].1 <= 1,
            exists|i2: int| 0 <= i2 < 4 && (#[trigger] phases@[i2]) == (0i32, 0i32),
            exists|i2: int| 0 <= i2 < 4 && (#[trigger] phases@[i2]) == (1i32, 0i32),
            exists|i2: int| 0 <= i2 < 4 && (#[trigger] phases@[i2]) == (0i32, 1i32),
            exists|i2: int| 0 <= i2 < 4 && (#[trigger] phases@[i2]) == (1i32, 1i32),
        decreases 3 - i,
    {
        let ghost before = phases@;
        let offset = random_below((4 - i) as u32) as usize;
        let j = i + offset;
        let a = phases[i];
        let b = phases[j];
        phases[i] = b;
        phases[j] = a;
        proof {
            lemma_swap_keeps_value(before, phases@, i as int, j as int, (0i32, 0i32));
            lemma_swap_keeps_value(before, phases@, i as int, j as int, (1i32, 0i32));
            lemma_swap_keeps_value(before, phases@, i as int, j as int, (0i32, 1i32));
            lemma_swap_keeps_value(before, phases@, i as int, j as int, (1i32, 1i32));
        }
        i = i + 1;
    }
    phases
}

/// Distinct neighbourhood slots name distinct offsets.
proof fn lemma_slot_offsets_distinct(k1: int, k2: int)
    requires
        0 <= k1 < 9,
        0 <= k2 < 9,
        k1 != k2,
    ensures
        slot_dx(k1) != slot_dx(k2) || slot_dy(k1) != slot_dy(k2),
{
    lemma_fundamental_div_mod(k1, 3);
    lemma_fundamental_div_mod(k2, 3);
}

/// The pixel world: a `chunks_x` by `chunks_y` grid of chunks of
/// `chunk_width` by `chunk_height` cells, stored row-major by chunk
/// coordinate. Chunks are created once at construction and only their cells
/// and dirty state ever change; between ticks every slot holds its chunk.
pub struct PixelWorld {
    pub chunk_width: i32,
    pub chunk_height: i32,
    pub chunks_x: i32,
    pub chunks_y: i32,
    /// Row-major chunk storage; `None` only transiently inside a tick while a
    /// neighbourhood borrows its chunks.
    pub chunks: Vec<Option<PixelChunk>>,
    /// Cosmetic tick counter; carries no correctness weight.
    pub iteration: u32,
}

impl PixelWorld {
    pub open spec fn grid_wf(self) -> bool {
        &&& 0 < self.chunk_width <= MAX_CHUNK_DIM
        &&& 0 < self.chunk_height <= MAX_CHUNK_DIM
        &&& 0 < self.chunks_x <= MAX_CHUNK_AMOUNT
        &&& 0 < self.chunks_y <= MAX_CHUNK_AMOUNT
        &&& self.chunks@.len() == self.chunks_x * self.chunks_y
    }

    /// Row-major index of the chunk coordinate `(cx, cy)`.
    pub open spec fn chunk_index_of(self, cx: int, cy: int) -> int {
        cy * self.chunks_x + cx
    }

    /// The chunk stored at linear index `j`.
    pub open spec fn chunk_linear(self, j: int) -> PixelChunk {
        match self.chunks@[j] {
            Some(c) => c,
            None => arbitrary(),
        }
    }

    pub open spec fn chunk_at(self, cx: int, cy: int) -> PixelChunk {
        self.chunk_linear(self.chunk_index_of(cx, cy))
    }

    /// The slot for `(cx, cy)` holds a well-formed chunk of the world's chunk
    /// size, at its own position.
    pub open spec fn chunk_ok(self, cx: int, cy: int) -> bool {
        &&& self.chunks@[self.chunk_index_of(cx, cy)] is Some
        &&& self.chunk_at(cx, cy).wf()
        &&& self.chunk_at(cx, cy).width == self.chunk_width
        &&& self.chunk_at(cx, cy).height == self.chunk_height
        &&& self.chunk_at(cx, cy).position.x == cx
        &&& self.chunk_at(cx, cy).position.y == cy
    }

    pub open spec fn wf(self) -> bool {
        &&& self.grid_wf()
        &&& forall|cx: int, cy: int|
            in_grid(cx, cy, self.chunks_x as int, self.chunks_y as int) ==> #[trigger] self.chunk_ok(
                cx,
                cy,
            )
    }

    pub open spec fn spec_total_width(self) -> int {
        self.chunk_width * self.chunks_x
    }

    pub open spec fn spec_total_height(self) -> int {
        self.chunk_height * self.chunks_y
    }

    /// The world cell coordinate lies inside the grid.
    pub open spec fn in_world(self, x: int, y: int) -> bool {
        0 <= x < self.spec_total_width() && 0 <= y < self.spec_total_height()
    }

    /// The cell at a world coordinate: the chunk it falls in, at the
    /// remainder position.
    pub open spec fn spec_cell(self, x: int, y: int) -> Cell {
        self.chunk_at(x / self.chunk_width as int, y / self.chunk_height as int).cells@[(y
            % self.chunk_height as int) * self.chunk_width + (x % self.chunk_width as int)]
    }

    /// Creates a world of `total_width` by `total_height` cells subdivided
    /// into `chunks_x` by `chunks_y` chunks; the total size must divide
    /// evenly. All cells start empty and every chunk's dirty rectangle covers
    /// its full extent, so the first tick scans everything.
    pub fn new(total_width: i32, total_height: i32, chunks_x: i32, chunks_y: i32) -> (r: PixelWorld)
        requires
            0 < chunks_x <= MAX_CHUNK_AMOUNT,
            0 < chunks_y <= MAX_CHUNK_AMOUNT,
            0 < total_width,
            0 < total_height,
            total_width % chunks_x == 0,
            total_height % chunks_y == 0,
            0 < total_width / chunks_x <= MAX_CHUNK_DIM,
            0 < total_height / chunks_y <= MAX_CHUNK_DIM,
        ensures
            r.wf(),
            r.chunks_x == chunks_x,
            r.chunks_y == chunks_y,
            r.chunk_width == total_width / chunks_x,
            r.chunk_height == total_height / chunks_y,
            r.iteration == 0,
            forall|cx: int, cy: int, i: int|
                in_grid(cx, cy, chunks_x as int, chunks_y as int) && 0 <= i
                    < r.chunk_at(cx, cy).cells@.len() ==> #[trigger] r.chunk_at(cx, cy).cells@[i]
                    == Cell::spec_empty(),
            forall|cx: int, cy: int|
                in_grid(cx, cy, chunks_x as int, chunks_y as int) ==> {
                    let chunk = #[trigger] r.chunk_at(cx, cy);
                    &&& chunk.current_dirty_rect.min.x == 0
                    &&& chunk.current_dirty_rect.min.y == 0
                    &&& chunk.current_dirty_rect.max.x == chunk.width - 1
                    &&& chunk.current_dirty_rect.max.y == chunk.height - 1
                    &&& chunk.previous_dirty_rect == BoundRect::spec_empty()
                    &&& chunk.render_override == 0
                },
    {
        let chunk_width = ((total_width as u32) / (chunks_x as u32)) as i32;
        let chunk_height = ((total_height as u32) / (chunks_y as u32)) as i32;
        proof {
            lemma_grid_size_bound(chunks_x as int, chunks_y as int);
        }
        let total: usize = (chunks_x as usize) * (chunks_y as usize);
        let mut chunks: Vec<Option<PixelChunk>> = Vec::new();
        let mut i: usize = 0;
        while i < total
            invariant
                i <= total,
                total == chunks_x * chunks_y,
                0 < chunks_x <= MAX_CHUNK_AMOUNT,
                0 < chunks_y <= MAX_CHUNK_AMOUNT,
                0 < chunk_width <= MAX_CHUNK_DIM,
                0 < chunk_height <= MAX_CHUNK_DIM,
                chunks@.len() == i,
                forall|j: int|
                    0 <= j < i ==> {
                        &&& #[trigger] chunks@[j] is Some
                        &&& chunks@[j]->0.wf()
                        &&& chunks@[j]->0.width == chunk_width
                        &&& chunks@[j]->0.height == chunk_height
                        &&& chunks@[j]->0.position.x == j % (chunks_x as int)
                        &&& chunks@[j]->0.position.y == j / (chunks_x as int)
                        &&& chunks@[j]->0.current_dirty_rect.min.x == 0
                        &&& chunks@[j]->0.current_dirty_rect.min.y == 0
                        &&& chunks@[j]->0.current_dirty_rect.max.x == chunk_width - 1
                        &&& chunks@[j]->0.current_dirty_rect.max.y == chunk_height - 1
                        &&& chunks@[j]->0.previous_dirty_rect == BoundRect::spec_empty()
                        &&& chunks@[j]->0.render_override == 0
                        &&& forall|ci: int|
                            0 <= ci < chunks@[j]->0.cells@.len() ==> #[trigger] chunks@[j]->0.cells@[ci]
                                == Cell::spec_empty()
                    },
            decreases total - i,
        {
            proof {
                lemma_div_in_range(i as int, chunks_x as int, chunks_y as int);
            }
            let cx = (i % (chunks_x as usize)) as i32;
            let cy = (i / (chunks_x as usize)) as i32;
            let chunk = PixelChunk::new(chunk_width, chunk_height, Point { x: cx, y: cy });
            chunks.push(Some(chunk));
            i = i + 1;
        }
        let world = PixelWorld {
            chunk_width,
            chunk_height,
            chunks_x,
            chunks_y,
            chunks,
            iteration: 0,
        };
        proof {
            assert forall|cx: int, cy: int|
                in_grid(cx, cy, chunks_x as int, chunks_y as int) implies #[trigger] world.chunk_ok(
                cx,
                cy,
            ) by {
                lemma_row_major_bounds(cx, cy, chunks_x as int, chunks_y as int);
                lemma_fundamental_div_mod_converse(
                    cy * (chunks_x as int) + cx,
                    chunks_x as int,
                    cy,
                    cx,
                );
            }
            assert forall|cx: int, cy: int, i: int|
                in_grid(cx, cy, chunks_x as int, chunks_y as int) && 0 <= i < world.chunk_at(
                    cx,
                    cy,
                ).cells@.len() implies #[trigger] world.chunk_at(cx, cy).cells@[i]
                == Cell::spec_empty() by {
                lemma_row_major_bounds(cx, cy, chunks_x as int, chunks_y as int);
                lemma_fundamental_div_mod_converse(
                    cy * (chunks_x as int) + cx,
                    chunks_x as int,
                    cy,
                    cx,
                );
                let j = cy * (chunks_x as int) + cx;
                assert(world.chunk_at(cx, cy) == world.chunks@[j]->0);
            }
            assert forall|cx: int, cy: int|
                in_grid(cx, cy, chunks_x as int, chunks_y as int) implies {
                let chunk = #[trigger] world.chunk_at(cx, cy);
                &&& chunk.current_dirty_rect.min.x == 0
                &&& chunk.current_dirty_rect.min.y == 0
                &&& chunk.current_dirty_rect.max.x == chunk.width - 1
                &&& chunk.current_dirty_rect.max.y == chunk.height - 1
                &&& chunk.previous_dirty_rect == BoundRect::spec_empty()
                &&& chunk.render_override == 0
            } by {
                lemma_row_major_bounds(cx, cy, chunks_x as int, chunks_y as int);
                lemma_fundamental_div_mod_converse(
                    cy * (chunks_x as int) + cx,
                    chunks_x as int,
                    cy,
                    cx,
                );
                let j = cy * (chunks_x as int) + cx;
                assert(world.chunk_at(cx, cy) == world.chunks@[j]->0);
            }
        }
        world
    }

    pub fn get_chunk_width(&self) -> (r: i32)
        ensures
            r == self.chunk_width,
    {
        self.chunk_width
    }

    pub fn get_chunk_height(&self) -> (r: i32)
        ensures
            r == self.chunk_height,
    {
        self.chunk_height
    }

    pub fn get_total_width(&self) -> (r: i32)
        requires
            self.grid_wf(),
        ensures
            r == self.spec_total_width(),
    {
        proof {
            lemma_total_size_bound(self.chunk_width as int, self.chunks_x as int);
        }
        self.chunk_width * self.chunks_x
    }

    pub fn get_total_height(&self) -> (r: i32)
        requires
            self.grid_wf(),
        ensures
            r == self.spec_total_height(),
    {
        proof {
            lemma_total_size_bound(self.chunk_height as int, self.chunks_y as int);
        }
        self.chunk_height * self.chunks_y
    }

    /// The chunk storage, row-major by chunk coordinate.
    pub fn get_chunks(&self) -> (r: &Vec<Option<PixelChunk>>)
        ensures
            r@ == self.chunks@,
    {
        &self.chunks
    }

    /// The world cell coordinate lies inside the world.
    pub fn in_bounds(&self, x: i32, y: i32) -> (r: bool)
        requires
            self.grid_wf(),
        ensures
            r == self.in_world(x as int, y as int),
    {
        x >= 0 && y >= 0 && x < self.get_total_width() && y < self.get_total_height()
    }

    /// The world cell coordinate of a position inside a chunk.
    pub fn chunk_to_world_coords(&self, chunk_pos: Point, cell_pos: Point) -> (r: Point)
        requires
            self.grid_wf(),
            in_grid(chunk_pos.x as int, chunk_pos.y as int, self.chunks_x as int, self.chunks_y as int),
            in_grid(cell_pos.x as int, cell_pos.y as int, self.chunk_width as int, self.chunk_height as int),
        ensures
            r.x == chunk_pos.x * self.chunk_width + cell_pos.x,
            r.y == chunk_pos.y * self.chunk_height + cell_pos.y,
            self.in_world(r.x as int, r.y as int),
    {
        proof {
            lemma_total_size_bound(self.chunk_width as int, self.chunks_x as int);
            lemma_total_size_bound(self.chunk_height as int, self.chunks_y as int);
            assert(chunk_pos.x * self.chunk_width + cell_pos.x < self.chunk_width * self.chunks_x
                && chunk_pos.x * self.chunk_width >= 0 && chunk_pos.y * self.chunk_height >= 0
                && chunk_pos.y * self.chunk_height + cell_pos.y < self.chunk_height
                * self.chunks_y) by (nonlinear_arith)
                requires
                    0 <= chunk_pos.x < self.chunks_x,
                    0 <= chunk_pos.y < self.chunks_y,
                    0 <= cell_pos.x < self.chunk_width,
                    0 <= cell_pos.y < self.chunk_height,
            ;
        }
        Point {
            x: chunk_pos.x * self.chunk_width + cell_pos.x,
            y: chunk_pos.y * self.chunk_height + cell_pos.y,
        }
    }

    /// The chunk coordinate a world cell coordinate falls in, by floor
    /// division, so negative coordinates resolve to negative chunk
    /// coordinates rather than wrapping into chunk 0.
    pub fn cell_to_chunk_position(chunk_width: i32, chunk_height: i32, position: Point) -> (r:
        Point)
        requires
            0 < chunk_width,
            0 < chunk_height,
        ensures
            r.x == position.x as int / chunk_width as int,
            r.y == position.y as int / chunk_height as int,
    {
        let (qx, _) = div_mod_floor(position.x, chunk_width);
        let (qy, _) = div_mod_floor(position.y, chunk_height);
        Point { x: qx, y: qy }
    }

    /// The position of a world cell coordinate inside its chunk.
    pub fn cell_to_position_in_chunk(chunk_width: i32, chunk_height: i32, position: Point) -> (r:
        Point)
        requires
            0 < chunk_width,
            0 < chunk_height,
        ensures
            r.x == position.x as int % chunk_width as int,
            r.y == position.y as int % chunk_height as int,
            0 <= r.x < chunk_width,
            0 <= r.y < chunk_height,
    {
        let (_, mx) = div_mod_floor(position.x, chunk_width);
        let (_, my) = div_mod_floor(position.y, chunk_height);
        Point { x: mx, y: my }
    }

    /// Reads the cell at a world coordinate; a coordinate outside the world
    /// is a normal, recoverable absence, never a fault.
    pub fn get_cell(&self, position: Point) -> (r: Option<Cell>)
        requires
            self.wf(),
        ensures
            self.in_world(position.x as int, position.y as int) ==> r == Some(
                self.spec_cell(position.x as int, position.y as int),
            ),
            !self.in_world(position.x as int, position.y as int) ==> r is None,
    {
        if position.x < 0 || position.y < 0 {
            return None;
        }
        if position.x >= self.get_total_width() || position.y >= self.get_total_height() {
            return None;
        }
        proof {
            lemma_div_in_range(position.x as int, self.chunk_width as int, self.chunks_x as int);
            lemma_div_in_range(position.y as int, self.chunk_height as int, self.chunks_y as int);
            lemma_grid_size_bound(self.chunks_x as int, self.chunks_y as int);
            lemma_row_major_bounds(
                position.x as int / self.chunk_width as int,
                position.y as int / self.chunk_height as int,
                self.chunks_x as int,
                self.chunks_y as int,
            );
            assert(self.chunk_ok(
                position.x as int / self.chunk_width as int,
                position.y as int / self.chunk_height as int,
            ));
        }
        let chunk_pos = Self::cell_to_chunk_position(self.chunk_width, self.chunk_height, position);
        let local = Self::cell_to_position_in_chunk(self.chunk_width, self.chunk_height, position);
        let idx = crate::chunk::get_index(chunk_pos.x, chunk_pos.y, self.chunks_x);
        match &self.chunks[idx] {
            Some(c) => Some(c.get_cell(local)),
            None => unreached(),
        }
    }

    /// True iff the world coordinate lies inside the current dirty rectangle
    /// of the chunk it falls in; false outside the world.
    pub fn cell_inside_dirty(&self, position: Point) -> (r: bool)
        requires
            self.wf(),
        ensures
            r == (self.in_world(position.x as int, position.y as int)
                && self.chunk_at(
                position.x as int / self.chunk_width as int,
                position.y as int / self.chunk_height as int,
            ).current_dirty_rect.spec_contains(
                position.x as int % self.chunk_width as int,
                position.y as int % self.chunk_height as int,
            )),
    {
        if position.x < 0 || position.y < 0 {
            return false;
        }
        if position.x >= self.get_total_width() || position.y >= self.get_total_height() {
            return false;
        }
        proof {
            lemma_div_in_range(position.x as int, self.chunk_width as int, self.chunks_x as int);
            lemma_div_in_range(position.y as int, self.chunk_height as int, self.chunks_y as int);
            lemma_grid_size_bound(self.chunks_x as int, self.chunks_y as int);
            lemma_row_major_bounds(
                position.x as int / self.chunk_width as int,
                position.y as int / self.chunk_height as int,
                self.chunks_x as int,
                self.chunks_y as int,
            );
            assert(self.chunk_ok(
                position.x as int / self.chunk_width as int,
                position.y as int / self.chunk_height as int,
            ));
        }
        let chunk_pos = Self::cell_to_chunk_position(self.chunk_width, self.chunk_height, position);
        let local = Self::cell_to_position_in_chunk(self.chunk_width, self.chunk_height, position);
        let idx = crate::chunk::get_index(chunk_pos.x, chunk_pos.y, self.chunks_x);
        match &self.chunks[idx] {
            Some(c) => c.current_dirty_rect.contains(&local),
            None => unreached(),
        }
    }

    /// Places a cell at a world coordinate from outside the simulation: the
    /// chunk's dirty rectangle grows to cover the position and a short forced
    /// redraw is scheduled so the cell is drawn even if nothing moves.
    /// Outside the world this is a silent no-op.
    #[verifier::rlimit(50)]
    pub fn set_cell_external(&mut self, position: Point, cell: Cell)
        requires
            old(self).wf(),
        ensures
            final(self).wf(),
            final(self).chunk_width == old(self).chunk_width,
            final(self).chunk_height == old(self).chunk_height,
            final(self).chunks_x == old(self).chunks_x,
            final(self).chunks_y == old(self).chunks_y,
            final(self).iteration == old(self).iteration,
            !old(self).in_world(position.x as int, position.y as int) ==> *final(self) == *old(self),
            old(self).in_world(position.x as int, position.y as int) ==> {
                let cx = position.x as int / old(self).chunk_width as int;
                let cy = position.y as int / old(self).chunk_height as int;
                let lx = position.x as int % old(self).chunk_width as int;
                let ly = position.y as int % old(self).chunk_height as int;
                &&& final(self).spec_cell(position.x as int, position.y as int) == cell
                &&& final(self).chunk_at(cx, cy).current_dirty_rect.spec_contains(lx, ly)
                &&& final(self).chunk_at(cx, cy).render_override == 3
                &&& forall|i: int|
                    0 <= i < old(self).chunks@.len() && i != old(self).chunk_index_of(cx, cy)
                        ==> #[trigger] final(self).chunks@[i] == old(self).chunks@[i]
                &&& forall|i: int|
                    0 <= i < old(self).chunk_at(cx, cy).cells@.len() && i != ly * old(self).chunk_width + lx ==> #[trigger] final(self).chunk_at(cx, cy).cells@[i] == old(self).chunk_at(cx, cy).cells@[i]
            },
            forall|x2: int, y2: int|
                old(self).in_world(x2, y2) && !(x2 == position.x as int && y2
                    == position.y as int) ==> #[trigger] final(self).spec_cell(x2, y2) == old(self).spec_cell(x2, y2),
    {
        if position.x < 0 || position.y < 0 {
            return ;
        }
        if position.x >= self.get_total_width() || position.y >= self.get_total_height() {
            return ;
        }
        proof {
            lemma_div_in_range(position.x as int, self.chunk_width as int, self.chunks_x as int);
            lemma_div_in_range(position.y as int, self.chunk_height as int, self.chunks_y as int);
            lemma_grid_size_bound(self.chunks_x as int, self.chunks_y as int);
            lemma_row_major_bounds(
                position.x as int / self.chunk_width as int,
                position.y as int / self.chunk_height as int,
                self.chunks_x as int,
                self.chunks_y as int,
            );
            assert(self.chunk_ok(
                position.x as int / self.chunk_width as int,
                position.y as int / self.chunk_height as int,
            ));
        }
        let chunk_pos = Self::cell_to_chunk_position(self.chunk_width, self.chunk_height, position);
        let local = Self::cell_to_position_in_chunk(self.chunk_width, self.chunk_height, position);
        let idx = crate::chunk::get_index(chunk_pos.x, chunk_pos.y, self.chunks_x);
        let taken = self.chunks[idx].take();
        let mut chunk = match taken {
            Some(c) => c,
            None => unreached(),
        };
        chunk.set_cell(local.x, local.y, cell);
        chunk.render_override = 3;
        self.chunks[idx] = Some(chunk);
        proof {
            let cx = position.x as int / old(self).chunk_width as int;
            let cy = position.y as int / old(self).chunk_height as int;
            let lx = position.x as int % old(self).chunk_width as int;
            let ly = position.y as int % old(self).chunk_height as int;
            let w = old(self).chunk_width as int;
            let h = old(self).chunk_height as int;
            lemma_row_major_bounds(
                lx,
                ly,
                old(self).chunk_width as int,
                old(self).chunk_height as int,
            );
            assert(self.spec_cell(position.x as int, position.y as int) == cell);
            assert forall|x2: int, y2: int|
                old(self).in_world(x2, y2) && !(x2 == position.x as int && y2
                    == position.y as int) implies #[trigger] self.spec_cell(x2, y2) == old(self).spec_cell(x2, y2) by {
                lemma_fundamental_div_mod(position.x as int, w);
                lemma_fundamental_div_mod(position.y as int, h);
                lemma_fundamental_div_mod(x2, w);
                lemma_fundamental_div_mod(y2, h);
                lemma_div_in_range(x2, w, old(self).chunks_x as int);
                lemma_div_in_range(y2, h, old(self).chunks_y as int);
                let cx2 = x2 / w;
                let cy2 = y2 / h;
                let lx2 = x2 % w;
                let ly2 = y2 % h;
                lemma_row_major_bounds(lx2, ly2, w, h);
                lemma_row_major_bounds(
                    cx2,
                    cy2,
                    old(self).chunks_x as int,
                    old(self).chunks_y as int,
                );
                if cx2 == cx && cy2 == cy {
                    assert(!(lx2 == lx && ly2 == ly));
                    lemma_row_major_injective(lx2, ly2, lx, ly, w, h);
                } else {
                    lemma_row_major_injective(
                        cx2,
                        cy2,
                        cx,
                        cy,
                        old(self).chunks_x as int,
                        old(self).chunks_y as int,
                    );
                }
            }
            assert forall|cx2: int, cy2: int|
                in_grid(cx2, cy2, self.chunks_x as int, self.chunks_y as int) implies
                #[trigger] self.chunk_ok(cx2, cy2) by {
                lemma_row_major_bounds(cx2, cy2, self.chunks_x as int, self.chunks_y as int);
                if !(cx2 == cx && cy2 == cy) {
                    crate::chunk_handler::lemma_row_major_injective(
                        cx2,
                        cy2,
                        cx,
                        cy,
                        self.chunks_x as int,
                        self.chunks_y as int,
                    );
                    assert(old(self).chunk_ok(cx2, cy2));
                }
            }
        }
    }

    /// The offset `(dx, dy)` lies inside the brush of the given size: a
    /// squared-radius circle test over a square bounding box, with the
    /// radius a quarter of the brush amount.
    pub open spec fn in_brush(dx: int, dy: int, amount: int) -> bool {
        &&& -(amount / 2) <= dx <= amount / 2
        &&& -(amount / 2) <= dy < amount / 2
        &&& dx * dx + dy * dy <= (amount / 4) * (amount / 4)
    }

    /// Paints a filled disc of freshly made cells of the given material
    /// around `position`, as the interactive brush does; positions outside
    /// the world are skipped. Cells outside the disc are untouched.
    #[verifier::rlimit(50)]
    pub fn place_cells(&mut self, position: Point, amount: i32, cell_type: crate::cell::CellType)
        requires
            old(self).wf(),
            0 <= amount <= MAX_CHUNK_DIM,
            -0x40000000 <= position.x <= 0x40000000,
            -0x40000000 <= position.y <= 0x40000000,
        ensures
            final(self).wf(),
            final(self).chunk_width == old(self).chunk_width,
            final(self).chunk_height == old(self).chunk_height,
            final(self).chunks_x == old(self).chunks_x,
            final(self).chunks_y == old(self).chunks_y,
            final(self).iteration == old(self).iteration,
            forall|x: int, y: int|
                old(self).in_world(x, y) && Self::in_brush(
                    x - position.x,
                    y - position.y,
                    amount as int,
                ) ==> ((#[trigger] final(self).spec_cell(x, y)).physics
                    == crate::cell::PhysicsType::spec_of_cell_type(cell_type)
                    && !final(self).spec_cell(x, y).updated),
            forall|x: int, y: int|
                old(self).in_world(x, y) && !Self::in_brush(
                    x - position.x,
                    y - position.y,
                    amount as int,
                ) ==> #[trigger] final(self).spec_cell(x, y) == old(self).spec_cell(x, y),
    {
        let ghost orig = *old(self);
        let half: i32 = amount / 2;
        let quarter: i32 = amount / 4;
        let mut dx: i32 = -half;
        while dx <= half
            invariant
                orig.wf(),
                0 <= amount <= MAX_CHUNK_DIM,
                half == amount / 2,
                quarter == amount / 4,
                -half <= dx <= half + 1,
                -0x40000000 <= position.x <= 0x40000000,
                -0x40000000 <= position.y <= 0x40000000,
                self.wf(),
                self.chunk_width == orig.chunk_width,
                self.chunk_height == orig.chunk_height,
                self.chunks_x == orig.chunks_x,
                self.chunks_y == orig.chunks_y,
                self.iteration == orig.iteration,
                forall|x: int, y: int|
                    orig.in_world(x, y) && Self::in_brush(
                        x - position.x,
                        y - position.y,
                        amount as int,
                    ) && x - position.x < dx ==> ((#[trigger] self.spec_cell(x, y)).physics
                        == crate::cell::PhysicsType::spec_of_cell_type(cell_type)
                        && !self.spec_cell(x, y).updated),
                forall|x: int, y: int|
                    orig.in_world(x, y) && !(Self::in_brush(
                        x - position.x,
                        y - position.y,
                        amount as int,
                    ) && x - position.x < dx) ==> #[trigger] self.spec_cell(x, y) == orig.spec_cell(
                        x,
                        y,
                    ),
            decreases half + 1 - dx,
        {
            let mut dy: i32 = -half;
            while dy < half
                invariant
                    orig.wf(),
                    0 <= amount <= MAX_CHUNK_DIM,
                    half == amount / 2,
                    quarter == amount / 4,
                    -half <= dx <= half,
                    -half <= dy <= half,
                    -0x40000000 <= position.x <= 0x40000000,
                    -0x40000000 <= position.y <= 0x40000000,
                    self.wf(),
                    self.chunk_width == orig.chunk_width,
                    self.chunk_height == orig.chunk_height,
                    self.chunks_x == orig.chunks_x,
                    self.chunks_y == orig.chunks_y,
                    self.iteration == orig.iteration,
                    forall|x: int, y: int|
                        orig.in_world(x, y) && Self::in_brush(
                            x - position.x,
                            y - position.y,
                            amount as int,
                        ) && (x - position.x < dx || (x - position.x == dx && y - position.y
                            < dy)) ==> ((#[trigger] self.spec_cell(x, y)).physics
                            == crate::cell::PhysicsType::spec_of_cell_type(cell_type)
                            && !self.spec_cell(x, y).updated),
                    forall|x: int, y: int|
                        orig.in_world(x, y) && !(Self::in_brush(
                            x - position.x,
                            y - position.y,
                            amount as int,
                        ) && (x - position.x < dx || (x - position.x == dx && y - position.y
                            < dy))) ==> #[trigger] self.spec_cell(x, y) == orig.spec_cell(x, y),
                decreases half - dy,
            {
                proof {
                    assert(0 <= dx * dx <= 0x400000 && 0 <= dy * dy <= 0x400000 && 0 <= quarter
                        * quarter <= 0x100000) by (nonlinear_arith)
                        requires
                            -2048 <= dx <= 2048,
                            -2048 <= dy <= 2048,
                            0 <= quarter <= 1024,
                    ;
                }
                if dx * dx + dy * dy <= quarter * quarter {
                    self.set_cell_external(
                        Point { x: position.x + dx, y: position.y + dy },
                        Cell::new(cell_type),
                    );
                }
                dy = dy + 1;
            }
            dx = dx + 1;
        }
    }

    /// Returns the chunk's flattened RGBA bytes if that chunk needs a redraw
    /// this tick (its dirty rectangle is non-empty or a forced redraw is
    /// pending), `None` otherwise. `position` is a chunk coordinate.
    pub fn should_render_data(&self, position: Point) -> (r: Option<Vec<u8>>)
        requires
            self.wf(),
        ensures
            (in_grid(position.x as int, position.y as int, self.chunks_x as int, self.chunks_y as int)
                && self.chunk_at(position.x as int, position.y as int).spec_should_update()) <==> r
                is Some,
            r matches Some(bytes) ==> {
                let chunk = self.chunk_at(position.x as int, position.y as int);
                &&& bytes@.len() == 4 * chunk.cells@.len()
                &&& forall|i: int|
                    0 <= i < chunk.cells@.len() ==> (bytes@[4 * i] == (
                    #[trigger] chunk.cells@[i]).color.r && bytes@[4 * i + 1] == chunk.cells@[i].color.g
                        && bytes@[4 * i + 2] == chunk.cells@[i].color.b && bytes@[4 * i + 3]
                        == chunk.cells@[i].color.a)
            },
    {
        if position.x < 0 || position.y < 0 || position.x >= self.chunks_x || position.y
            >= self.chunks_y {
            return None;
        }
        proof {
            lemma_grid_size_bound(self.chunks_x as int, self.chunks_y as int);
            lemma_row_major_bounds(
                position.x as int,
                position.y as int,
                self.chunks_x as int,
                self.chunks_y as int,
            );
            assert(self.chunk_ok(position.x as int, position.y as int));
        }
        let idx = crate::chunk::get_index(position.x, position.y, self.chunks_x);
        match &self.chunks[idx] {
            Some(c) => {
                if c.should_update() {
                    Some(c.render_chunk())
                } else {
                    None
                }
            },
            None => unreached(),
        }
    }

    /// The chunk coordinates of every chunk that takes part in the next
    /// tick: exactly those whose dirty state or pending redraw is live.
    pub fn get_awake_chunk_locs(&self) -> (r: Vec<Point>)
        requires
            self.wf(),
        ensures
            forall|i: int|
                0 <= i < r@.len() ==> in_grid(
                    (#[trigger] r@[i]).x as int,
                    r@[i].y as int,
                    self.chunks_x as int,
                    self.chunks_y as int,
                ) && self.chunk_at(r@[i].x as int, r@[i].y as int).spec_should_update(),
            forall|cx: int, cy: int|
                in_grid(cx, cy, self.chunks_x as int, self.chunks_y as int) && (
                #[trigger] self.chunk_at(cx, cy)).spec_should_update() ==> exists|i: int|
                    0 <= i < r@.len() && r@[i] == (Point { x: cx as i32, y: cy as i32 }),
    {
        let mut out: Vec<Point> = Vec::new();
        let mut j: usize = 0;
        while j < self.chunks.len()
            invariant
                self.wf(),
                j <= self.chunks@.len(),
                forall|i: int|
                    0 <= i < out@.len() ==> in_grid(
                        (#[trigger] out@[i]).x as int,
                        out@[i].y as int,
                        self.chunks_x as int,
                        self.chunks_y as int,
                    ) && self.chunk_at(out@[i].x as int, out@[i].y as int).spec_should_update(),
                forall|cx: int, cy: int|
                    in_grid(cx, cy, self.chunks_x as int, self.chunks_y as int)
                        && self.chunk_index_of(cx, cy) < j && (#[trigger] self.chunk_at(
                        cx,
                        cy,
                    )).spec_should_update() ==> exists|i: int|
                        0 <= i < out@.len() && out@[i] == (Point { x: cx as i32, y: cy as i32 }),
            decreases self.chunks@.len() - j,
        {
            proof {
                let cx = j as int % (self.chunks_x as int);
                let cy = j as int / (self.chunks_x as int);
                lemma_fundamental_div_mod(j as int, self.chunks_x as int);
                lemma_div_in_range(j as int, self.chunks_x as int, self.chunks_y as int);
                assert(cy * (self.chunks_x as int) == (self.chunks_x as int) * cy);
                assert(self.chunk_index_of(cx, cy) == j);
                assert(self.chunk_ok(cx, cy));
            }
            let ghost out_pre = out@;
            match &self.chunks[j] {
                Some(c) => {
                    if c.should_update() {
                        out.push(c.position);
                    }
                },
                None => unreached(),
            }
            proof {
                assert forall|cx: int, cy: int|
                    in_grid(cx, cy, self.chunks_x as int, self.chunks_y as int)
                        && self.chunk_index_of(cx, cy) < j + 1 && (#[trigger] self.chunk_at(
                        cx,
                        cy,
                    )).spec_should_update() implies exists|i: int|
                    0 <= i < out@.len() && out@[i] == (Point { x: cx as i32, y: cy as i32 }) by {
                    lemma_row_major_bounds(cx, cy, self.chunks_x as int, self.chunks_y as int);
                    if self.chunk_index_of(cx, cy) < j {
                        let i = choose|i: int|
                            0 <= i < out_pre.len() && out_pre[i] == (Point {
                                x: cx as i32,
                                y: cy as i32,
                            });
                        assert(out@[i] == (Point { x: cx as i32, y: cy as i32 }));
                    }
                    if self.chunk_index_of(cx, cy) == j {
                        lemma_fundamental_div_mod_converse(
                            cy * (self.chunks_x as int) + cx,
                            self.chunks_x as int,
                            cy,
                            cx,
                        );
                        assert(self.chunk_ok(cx, cy));
                        assert(self.chunk_at(cx, cy).position.x as int == cx);
                        assert(self.chunk_at(cx, cy).position == (Point {
                            x: cx as i32,
                            y: cy as i32,
                        }));
                        assert(out@.len() > 0);
                        assert(out@[out@.len() - 1] == (Point { x: cx as i32, y: cy as i32 }));
                    }
                }
            }
            j = j + 1;
        }
        proof {
            assert forall|cx: int, cy: int|
                in_grid(cx, cy, self.chunks_x as int, self.chunks_y as int) && (
                #[trigger] self.chunk_at(cx, cy)).spec_should_update() implies exists|i: int|
                0 <= i < out@.len() && out@[i] == (Point { x: cx as i32, y: cy as i32 }) by {
                lemma_row_major_bounds(cx, cy, self.chunks_x as int, self.chunks_y as int);
            }
        }
        out
    }

    /// The position and current dirty rectangle of every chunk, row-major.
    pub fn get_chunk_dirty_rects(&self) -> (r: Vec<(Point, BoundRect)>)
        requires
            self.wf(),
        ensures
            r@.len() == self.chunks@.len(),
            forall|j: int|
                0 <= j < self.chunks@.len() ==> ((#[trigger] r@[j]).0 == self.chunk_linear(
                    j,
                ).position && r@[j].1 == self.chunk_linear(j).current_dirty_rect),
    {
        let mut out: Vec<(Point, BoundRect)> = Vec::new();
        let mut i: usize = 0;
        while i < self.chunks.len()
            invariant
                self.wf(),
                i <= self.chunks@.len(),
                out@.len() == i,
                forall|j: int|
                    0 <= j < i ==> ((#[trigger] out@[j]).0 == self.chunk_linear(j).position
                        && out@[j].1 == self.chunk_linear(j).current_dirty_rect),
            decreases self.chunks@.len() - i,
        {
            proof {
                let cx = i as int % self.chunks_x as int;
                let cy = i as int / self.chunks_x as int;
                lemma_fundamental_div_mod(i as int, self.chunks_x as int);
                lemma_div_in_range(i as int, self.chunks_x as int, self.chunks_y as int);
                assert(self.chunk_index_of(cx, cy) == i);
                assert(self.chunk_ok(cx, cy));
            }
            let entry = match &self.chunks[i] {
                Some(c) => (c.position, c.current_dirty_rect),
                None => unreached(),
            };
            out.push(entry);
            i = i + 1;
        }
        out
    }

    /// Neighbourhood slot `k` of centre `(cx, cy)` lies inside the chunk
    /// grid.
    pub open spec fn nb_in(self, cx: int, cy: int, k: int) -> bool {
        in_grid(cx + slot_dx(k), cy + slot_dy(k), self.chunks_x as int, self.chunks_y as int)
    }

    /// Linear index of neighbourhood slot `k` of centre `(cx, cy)`.
    pub open spec fn nb_index(self, cx: int, cy: int, k: int) -> int {
        self.chunk_index_of(cx + slot_dx(k), cy + slot_dy(k))
    }

    /// Every cell of the chunk at `(cx, cy)` is empty.
    pub open spec fn center_cells_empty(self, cx: int, cy: int) -> bool {
        forall|x: int, y: int|
            in_grid(x, y, self.chunk_width as int, self.chunk_height as int) ==> (
            #[trigger] self.chunk_at(cx, cy).cells@[y * self.chunk_width + x]).physics is Empty
    }

    /// Distinct in-grid neighbourhood slots occupy distinct storage indices.
    proof fn lemma_nb_index_injective(self, cx: int, cy: int, k1: int, k2: int)
        requires
            self.grid_wf(),
            0 <= k1 < 9,
            0 <= k2 < 9,
            k1 != k2,
            self.nb_in(cx, cy, k1),
            self.nb_in(cx, cy, k2),
        ensures
            self.nb_index(cx, cy, k1) != self.nb_index(cx, cy, k2),
    {
        lemma_slot_offsets_distinct(k1, k2);
        lemma_row_major_injective(
            cx + slot_dx(k1),
            cy + slot_dy(k1),
            cx + slot_dx(k2),
            cy + slot_dy(k2),
            self.chunks_x as int,
            self.chunks_y as int,
        );
    }

    /// Every cell of every chunk is empty.
    pub open spec fn all_cells_empty(self) -> bool {
        forall|cx: int, cy: int, x: int, y: int|
            in_grid(cx, cy, self.chunks_x as int, self.chunks_y as int) && in_grid(
                x,
                y,
                self.chunk_width as int,
                self.chunk_height as int,
            ) ==> (#[trigger] self.chunk_at(cx, cy).cells@[y * self.chunk_width + x]).physics
                is Empty
    }

    /// No chunk has a forced redraw pending.
    pub open spec fn all_overrides_zero(self) -> bool {
        forall|j: int|
            0 <= j < self.chunks@.len() ==> (#[trigger] self.chunk_linear(j)).render_override == 0
    }

    /// Mid-tick bookkeeping relation between the working world, the state
    /// `base` it started the tick's phases from, and the accumulated
    /// per-chunk write lists `merged` with their `touched` marks: the grid is
    /// intact with every chunk present and its dirty metadata untouched, all
    /// recorded positions are chunk-local, any cell that differs from `base`
    /// is recorded in its chunk's list, and an untouched chunk has nothing
    /// recorded.
    /// The structural half of [`Self::tick_state_ok`]: grid intact, dirty
    /// metadata untouched, recorded positions chunk-local, untouched chunks
    /// with empty lists.
    pub open spec fn tick_shape_ok(
        self,
        base: PixelWorld,
        merged: Seq<Vec<Point>>,
        touched: Seq<bool>,
    ) -> bool {
        &&& self.wf()
        &&& self.chunk_width == base.chunk_width
        &&& self.chunk_height == base.chunk_height
        &&& self.chunks_x == base.chunks_x
        &&& self.chunks_y == base.chunks_y
        &&& self.chunks@.len() == base.chunks@.len()
        &&& merged.len() == base.chunks@.len()
        &&& touched.len() == base.chunks@.len()
        &&& forall|j: int|
            0 <= j < self.chunks@.len() ==> (#[trigger] self.chunks@[j]) is Some
                && chunk_same_shape(self.chunk_linear(j), base.chunk_linear(j))
        &&& forall|j: int, i: int|
            0 <= j < merged.len() && 0 <= i < merged[j]@.len() ==> in_grid(
                (#[trigger] merged[j]@[i]).x as int,
                merged[j]@[i].y as int,
                self.chunk_width as int,
                self.chunk_height as int,
            )
        &&& forall|j: int|
            0 <= j < touched.len() && !touched[j] ==> (#[trigger] merged[j])@.len() == 0
    }

    /// Every cell that differs from `base` is recorded in its chunk's list.
    pub open spec fn tick_covered(self, base: PixelWorld, merged: Seq<Vec<Point>>) -> bool {
        forall|j: int, x: int, y: int|
            0 <= j < self.chunks@.len() && in_grid(
                x,
                y,
                base.chunk_width as int,
                base.chunk_height as int,
            ) && (#[trigger] self.chunk_linear(j).cells@[y * base.chunk_width + x])
                != base.chunk_linear(j).cells@[y * base.chunk_width + x] ==> rec_in(
                merged[j]@,
                x,
                y,
            )
    }

    pub open spec fn tick_state_ok(
        self,
        base: PixelWorld,
        merged: Seq<Vec<Point>>,
        touched: Seq<bool>,
    ) -> bool {
        self.tick_shape_ok(base, merged, touched) && self.tick_covered(base, merged)
    }

    /// Mid-merge weakening of [`Self::tick_covered`]: a difference from
    /// `base` may instead still be pending in one of the first `k` slot
    /// lists of the neighbourhood being folded in.
    pub open spec fn covered_or_pending(
        self,
        base: PixelWorld,
        merged: Seq<Vec<Point>>,
        upd: Seq<Vec<Point>>,
        cx: int,
        cy: int,
        k: int,
    ) -> bool {
        forall|j: int, x: int, y: int|
            0 <= j < self.chunks@.len() && in_grid(
                x,
                y,
                base.chunk_width as int,
                base.chunk_height as int,
            ) && (#[trigger] self.chunk_linear(j).cells@[y * base.chunk_width + x])
                != base.chunk_linear(j).cells@[y * base.chunk_width + x] ==> rec_in(
                merged[j]@,
                x,
                y,
            ) || (exists|k2: int|
                0 <= k2 < k && base.nb_in(cx, cy, k2) && base.nb_index(cx, cy, k2) == j && rec_in(
                    upd[k2]@,
                    x,
                    y,
                ))
    }

    /// Hard solids and rigid-body cells take no part in the cell physics:
    /// every such cell of `base` is untouched in `self`.
    pub open spec fn solids_kept(self, base: PixelWorld) -> bool {
        forall|j: int, i: int|
            0 <= j < base.chunks@.len() && 0 <= i < base.chunk_linear(j).cells@.len() && ((
            #[trigger] base.chunk_linear(j).cells@[i]).physics is HardSolid || base.chunk_linear(
                j,
            ).cells@[i].physics is RigidBody) ==> self.chunk_linear(j).cells@[i]
                == base.chunk_linear(j).cells@[i]
    }

    /// The idle thread of the tick: starting from a wholly empty world, no
    /// cell moves and nothing is recorded.
    pub open spec fn tick_idle(self, base: PixelWorld, merged: Seq<Vec<Point>>) -> bool {
        base.all_cells_empty() ==> ((forall|j: int|
            0 <= j < base.chunks@.len() ==> (#[trigger] self.chunks@[j]) == base.chunks@[j])
            && (forall|j: int| 0 <= j < merged.len() ==> (#[trigger] merged[j])@.len() == 0))
    }

    /// Simulates the 3x3 neighbourhood centred on chunk `(cx, cy)`: its nine
    /// chunks are moved out of the grid into a context, one pass runs, and
    /// the chunks are moved back. Returns the per-slot lists of written local
    /// positions.
    ///
    /// The contract carries dirty-list soundness up to the world: any cell of
    /// a neighbourhood chunk that differs after the pass is recorded in the
    /// returned list for its slot, chunks outside the neighbourhood are
    /// untouched, no chunk's dirty rectangles or override change, and a
    /// wholly empty centre chunk leaves the world unchanged with nothing
    /// recorded.
    #[verifier::rlimit(50)]
    fn simulate_neighborhood(&mut self, cx: i32, cy: i32) -> (updates: Vec<Vec<Point>>)
        requires
            old(self).wf(),
            0 <= cx < old(self).chunks_x,
            0 <= cy < old(self).chunks_y,
        ensures
            final(self).wf(),
            final(self).chunk_width == old(self).chunk_width,
            final(self).chunk_height == old(self).chunk_height,
            final(self).chunks_x == old(self).chunks_x,
            final(self).chunks_y == old(self).chunks_y,
            final(self).iteration == old(self).iteration,
            final(self).chunks@.len() == old(self).chunks@.len(),
            updates@.len() == 9,
            forall|k: int, i: int|
                0 <= k < 9 && 0 <= i < updates@[k]@.len() ==> in_grid(
                    (#[trigger] updates@[k]@[i]).x as int,
                    updates@[k]@[i].y as int,
                    old(self).chunk_width as int,
                    old(self).chunk_height as int,
                ),
            forall|j: int|
                0 <= j < old(self).chunks@.len() && (forall|k: int|
                    0 <= k < 9 ==> !(old(self).nb_in(cx as int, cy as int, k) && old(self).nb_index(
                        cx as int,
                        cy as int,
                        k,
                    ) == j)) ==> #[trigger] final(self).chunks@[j] == old(self).chunks@[j],
            forall|k: int|
                0 <= k < 9 && old(self).nb_in(cx as int, cy as int, k) ==> chunk_same_shape(
                    #[trigger] final(self).chunk_linear(
                        old(self).nb_index(cx as int, cy as int, k),
                    ),
                    old(self).chunk_linear(old(self).nb_index(cx as int, cy as int, k)),
                ),
            forall|k: int, x: int, y: int|
                0 <= k < 9 && old(self).nb_in(cx as int, cy as int, k) && in_grid(
                    x,
                    y,
                    old(self).chunk_width as int,
                    old(self).chunk_height as int,
                ) && (#[trigger] final(self).chunk_linear(
                    old(self).nb_index(cx as int, cy as int, k),
                ).cells@[y * old(self).chunk_width + x]) != old(self).chunk_linear(
                    old(self).nb_index(cx as int, cy as int, k),
                ).cells@[y * old(self).chunk_width + x] ==> rec_in(updates@[k]@, x, y),
            forall|k: int, x: int, y: int|
                0 <= k < 9 && old(self).nb_in(cx as int, cy as int, k) && in_grid(
                    x,
                    y,
                    old(self).chunk_width as int,
                    old(self).chunk_height as int,
                ) && ((#[trigger] old(self).chunk_linear(
                    old(self).nb_index(cx as int, cy as int, k),
                ).cells@[y * old(self).chunk_width + x]).physics is HardSolid || old(self).chunk_linear(old(self).nb_index(cx as int, cy as int, k)).cells@[y * old(self).chunk_width + x].physics is RigidBody) ==> final(self).chunk_linear(
                    old(self).nb_index(cx as int, cy as int, k),
                ).cells@[y * old(self).chunk_width + x] == old(self).chunk_linear(
                    old(self).nb_index(cx as int, cy as int, k),
                ).cells@[y * old(self).chunk_width + x],
            old(self).center_cells_empty(cx as int, cy as int) ==> ((forall|j: int|
                0 <= j < old(self).chunks@.len() ==> #[trigger] final(self).chunks@[j] == old(self).chunks@[j]) && (forall|k: int| 0 <= k < 9 ==> (#[trigger] updates@[k])@.len()
                == 0)),
    {
        let ghost orig = *old(self);
        proof {
            lemma_grid_size_bound(self.chunks_x as int, self.chunks_y as int);
        }
        // Gather: move the nine chunks (where present) out of the grid.
        let mut data: Vec<Option<PixelChunk>> = Vec::new();
        let mut k: usize = 0;
        while k < 9
            invariant
                orig.wf(),
                0 <= cx < orig.chunks_x,
                0 <= cy < orig.chunks_y,
                self.chunk_width == orig.chunk_width,
                self.chunk_height == orig.chunk_height,
                self.chunks_x == orig.chunks_x,
                self.chunks_y == orig.chunks_y,
                self.iteration == orig.iteration,
                self.chunks@.len() == orig.chunks@.len(),
                k <= 9,
                data@.len() == k,
                forall|k2: int|
                    0 <= k2 < k && orig.nb_in(cx as int, cy as int, k2) ==> #[trigger] data@[k2]
                        == orig.chunks@[orig.nb_index(cx as int, cy as int, k2)],
                forall|k2: int|
                    0 <= k2 < k && !orig.nb_in(cx as int, cy as int, k2) ==> (
                    #[trigger] data@[k2]) is None,
                forall|k2: int|
                    0 <= k2 < k && orig.nb_in(cx as int, cy as int, k2)
                        ==> (#[trigger] self.chunks@[orig.nb_index(cx as int, cy as int, k2)])
                        is None,
                forall|j: int|
                    0 <= j < orig.chunks@.len() && (forall|k2: int|
                        0 <= k2 < k ==> !(orig.nb_in(cx as int, cy as int, k2) && orig.nb_index(
                            cx as int,
                            cy as int,
                            k2,
                        ) == j)) ==> #[trigger] self.chunks@[j] == orig.chunks@[j],
            decreases 9 - k,
        {
            let dx = (k % 3) as i32 - 1;
            let dy = (k / 3) as i32 - 1;
            let nx = cx + dx;
            let ny = cy + dy;
            proof {
                lemma_grid_size_bound(self.chunks_x as int, self.chunks_y as int);
                if orig.nb_in(cx as int, cy as int, k as int) {
                    assert forall|k2: int|
                        0 <= k2 < 9 && k2 != k implies !(orig.nb_in(cx as int, cy as int, k2)
                        && #[trigger] orig.nb_index(cx as int, cy as int, k2) == orig.nb_index(
                        cx as int,
                        cy as int,
                        k as int,
                    )) by {
                        if orig.nb_in(cx as int, cy as int, k2) {
                            orig.lemma_nb_index_injective(cx as int, cy as int, k2, k as int);
                        }
                    }
                }
            }
            if nx >= 0 && nx < self.chunks_x && ny >= 0 && ny < self.chunks_y {
                proof {
                    lemma_row_major_bounds(
                        nx as int,
                        ny as int,
                        self.chunks_x as int,
                        self.chunks_y as int,
                    );
                    assert(self.chunks@[orig.nb_index(cx as int, cy as int, k as int)]
                        == orig.chunks@[orig.nb_index(cx as int, cy as int, k as int)]);
                }
                let idx = crate::chunk::get_index(nx, ny, self.chunks_x);
                let taken = self.chunks[idx].take();
                data.push(taken);
            } else {
                data.push(None);
            }
            proof {
                assert forall|k2: int|
                    0 <= k2 < k + 1 && orig.nb_in(cx as int, cy as int, k2) implies (
                #[trigger] self.chunks@[orig.nb_index(cx as int, cy as int, k2)]) is None by {
                    lemma_row_major_bounds(
                        cx + slot_dx(k2),
                        cy + slot_dy(k2),
                        orig.chunks_x as int,
                        orig.chunks_y as int,
                    );
                    if k2 < k && orig.nb_in(cx as int, cy as int, k as int) {
                        orig.lemma_nb_index_injective(cx as int, cy as int, k2, k as int);
                    }
                }
            }
            k = k + 1;
        }
        proof {
            assert(orig.nb_in(cx as int, cy as int, 4));
            assert(orig.chunk_ok(cx as int, cy as int));
            assert forall|k2: int| 0 <= k2 < 9 && data@[k2] is Some implies (
            #[trigger] data@[k2])->0.wf() && data@[k2]->0.width == orig.chunk_width
                && data@[k2]->0.height == orig.chunk_height by {
                if orig.nb_in(cx as int, cy as int, k2) {
                    assert(orig.chunk_ok(cx as int + slot_dx(k2), cy as int + slot_dy(k2)));
                }
            }
        }
        // Simulate the neighbourhood as one unit.
        let mut context = SimulationChunkContext::new(
            Point { x: cx, y: cy },
            data,
            self.chunk_width,
            self.chunk_height,
        );
        let ghost before = context;
        context.simulate();
        let ghost after = context;
        let SimulationChunkContext { data: mut sim_data, dirty_updates: updates, .. } = context;
        // Scatter: move the chunks back into the grid.
        let mut k: usize = 0;
        while k < 9
            invariant
                orig.wf(),
                0 <= cx < orig.chunks_x,
                0 <= cy < orig.chunks_y,
                self.chunk_width == orig.chunk_width,
                self.chunk_height == orig.chunk_height,
                self.chunks_x == orig.chunks_x,
                self.chunks_y == orig.chunks_y,
                self.iteration == orig.iteration,
                self.chunks@.len() == orig.chunks@.len(),
                k <= 9,
                sim_data@.len() == 9,
                after.data@.len() == 9,
                forall|k2: int| k <= k2 < 9 ==> #[trigger] sim_data@[k2] == after.data@[k2],
                forall|k2: int|
                    0 <= k2 < 9 && !orig.nb_in(cx as int, cy as int, k2) ==> (
                    #[trigger] after.data@[k2]) is None,
                forall|k2: int|
                    0 <= k2 < k && orig.nb_in(cx as int, cy as int, k2)
                        ==> #[trigger] self.chunks@[orig.nb_index(cx as int, cy as int, k2)]
                        == after.data@[k2],
                forall|k2: int|
                    k <= k2 < 9 && orig.nb_in(cx as int, cy as int, k2)
                        ==> (#[trigger] self.chunks@[orig.nb_index(cx as int, cy as int, k2)])
                        is None,
                forall|j: int|
                    0 <= j < orig.chunks@.len() && (forall|k2: int|
                        0 <= k2 < 9 ==> !(orig.nb_in(cx as int, cy as int, k2) && orig.nb_index(
                            cx as int,
                            cy as int,
                            k2,
                        ) == j)) ==> #[trigger] self.chunks@[j] == orig.chunks@[j],
            decreases 9 - k,
        {
            let dx = (k % 3) as i32 - 1;
            let dy = (k / 3) as i32 - 1;
            let nx = cx + dx;
            let ny = cy + dy;
            proof {
                lemma_grid_size_bound(self.chunks_x as int, self.chunks_y as int);
                if orig.nb_in(cx as int, cy as int, k as int) {
                    assert forall|k2: int|
                        0 <= k2 < 9 && k2 != k implies !(orig.nb_in(cx as int, cy as int, k2)
                        && #[trigger] orig.nb_index(cx as int, cy as int, k2) == orig.nb_index(
                        cx as int,
                        cy as int,
                        k as int,
                    )) by {
                        if orig.nb_in(cx as int, cy as int, k2) {
                            orig.lemma_nb_index_injective(cx as int, cy as int, k2, k as int);
                        }
                    }
                }
            }
            if nx >= 0 && nx < self.chunks_x && ny >= 0 && ny < self.chunks_y {
                proof {
                    lemma_row_major_bounds(
                        nx as int,
                        ny as int,
                        self.chunks_x as int,
                        self.chunks_y as int,
                    );
                }
                let idx = crate::chunk::get_index(nx, ny, self.chunks_x);
                let slot = sim_data[k].take();
                self.chunks[idx] = slot;
            }
            proof {
                assert forall|k2: int|
                    0 <= k2 < k + 1 && orig.nb_in(cx as int, cy as int, k2) implies
                #[trigger] self.chunks@[orig.nb_index(cx as int, cy as int, k2)] == after.data@[k2]
                by {
                    lemma_row_major_bounds(
                        cx + slot_dx(k2),
                        cy + slot_dy(k2),
                        orig.chunks_x as int,
                        orig.chunks_y as int,
                    );
                    if k2 < k && orig.nb_in(cx as int, cy as int, k as int) {
                        orig.lemma_nb_index_injective(cx as int, cy as int, k2, k as int);
                    }
                }
                assert forall|k2: int|
                    k + 1 <= k2 < 9 && orig.nb_in(cx as int, cy as int, k2) implies (
                #[trigger] self.chunks@[orig.nb_index(cx as int, cy as int, k2)]) is None by {
                    lemma_row_major_bounds(
                        cx + slot_dx(k2),
                        cy + slot_dy(k2),
                        orig.chunks_x as int,
                        orig.chunks_y as int,
                    );
                    if orig.nb_in(cx as int, cy as int, k as int) {
                        orig.lemma_nb_index_injective(cx as int, cy as int, k2, k as int);
                    }
                }
            }
            k = k + 1;
        }
        proof {
            let gx = orig.chunks_x as int;
            let gy = orig.chunks_y as int;
            // A slot index equal to a chunk index pins the coordinates.
            assert forall|cx2: int, cy2: int, k2: int|
                in_grid(cx2, cy2, gx, gy) && 0 <= k2 < 9 && orig.nb_in(cx as int, cy as int, k2)
                    && orig.nb_index(cx as int, cy as int, k2) == orig.chunk_index_of(
                    cx2,
                    cy2,
                ) implies cx2 == cx + slot_dx(k2) && cy2 == cy + slot_dy(k2) by {
                if !(cx2 == cx + slot_dx(k2) && cy2 == cy + slot_dy(k2)) {
                    lemma_row_major_injective(
                        cx2,
                        cy2,
                        cx + slot_dx(k2),
                        cy + slot_dy(k2),
                        gx,
                        gy,
                    );
                }
            }
            // Each present slot held, and holds, the chunk of its grid cell.
            assert forall|k: int|
                0 <= k < 9 && orig.nb_in(cx as int, cy as int, k) implies {
                &&& (#[trigger] before.data@[k]) == orig.chunks@[orig.nb_index(
                    cx as int,
                    cy as int,
                    k,
                )]
                &&& before.data@[k] is Some
                &&& orig.chunk_ok(cx + slot_dx(k), cy + slot_dy(k))
            } by {
                lemma_row_major_bounds(cx + slot_dx(k), cy + slot_dy(k), gx, gy);
                assert(orig.chunk_ok(cx + slot_dx(k), cy + slot_dy(k)));
            }
            assert forall|cx2: int, cy2: int|
                in_grid(cx2, cy2, gx, gy) implies #[trigger] self.chunk_ok(cx2, cy2) by {
                lemma_row_major_bounds(cx2, cy2, gx, gy);
                assert(orig.chunk_ok(cx2, cy2));
                let dx = cx2 - cx;
                let dy = cy2 - cy;
                if -1 <= dx <= 1 && -1 <= dy <= 1 {
                    let k = (dx + 1) + (dy + 1) * 3;
                    lemma_fundamental_div_mod_converse(k, 3, dy + 1, dx + 1);
                    assert(slot_dx(k) == dx && slot_dy(k) == dy);
                    assert(orig.nb_in(cx as int, cy as int, k));
                    assert(self.chunks@[orig.nb_index(cx as int, cy as int, k)]
                        == after.data@[k]);
                    assert(after.chunk_in_slot(k).wf());
                } else {
                    assert(self.chunks@[orig.chunk_index_of(cx2, cy2)] == orig.chunks@[orig.chunk_index_of(
                        cx2,
                        cy2,
                    )]);
                }
            }
            // Hard solids and rigid-body cells of the neighbourhood are
            // untouched by the pass.
            assert forall|k: int, x: int, y: int|
                0 <= k < 9 && orig.nb_in(cx as int, cy as int, k) && in_grid(
                    x,
                    y,
                    orig.chunk_width as int,
                    orig.chunk_height as int,
                ) && ((#[trigger] orig.chunk_linear(
                    orig.nb_index(cx as int, cy as int, k),
                ).cells@[y * orig.chunk_width + x]).physics is HardSolid || orig.chunk_linear(
                    orig.nb_index(cx as int, cy as int, k),
                ).cells@[y * orig.chunk_width + x].physics is RigidBody) implies self.chunk_linear(
                orig.nb_index(cx as int, cy as int, k),
            ).cells@[y * orig.chunk_width + x] == orig.chunk_linear(
                orig.nb_index(cx as int, cy as int, k),
            ).cells@[y * orig.chunk_width + x] by {
                lemma_row_major_bounds(cx + slot_dx(k), cy + slot_dy(k), gx, gy);
                assert(before.data@[k] == orig.chunks@[orig.nb_index(cx as int, cy as int, k)]);
                assert(self.chunks@[orig.nb_index(cx as int, cy as int, k)] == after.data@[k]);
                assert(before.cell_in_slot(k, x, y) == orig.chunk_linear(
                    orig.nb_index(cx as int, cy as int, k),
                ).cells@[y * orig.chunk_width + x]);
                assert(after.cell_in_slot(k, x, y) == before.cell_in_slot(k, x, y));
            }
            // Dirty rectangles, overrides and positions of neighbourhood
            // chunks are untouched by the pass.
            assert forall|k: int|
                0 <= k < 9 && orig.nb_in(cx as int, cy as int, k) implies chunk_same_shape(
                #[trigger] self.chunk_linear(orig.nb_index(cx as int, cy as int, k)),
                orig.chunk_linear(orig.nb_index(cx as int, cy as int, k)),
            ) by {
                lemma_row_major_bounds(cx + slot_dx(k), cy + slot_dy(k), gx, gy);
                assert(self.chunks@[orig.nb_index(cx as int, cy as int, k)] == after.data@[k]);
                assert(after.chunk_in_slot(k).wf());
            }
            // Any cell that changed is recorded in its slot's dirty list.
            assert forall|k: int, x: int, y: int|
                0 <= k < 9 && orig.nb_in(cx as int, cy as int, k) && in_grid(
                    x,
                    y,
                    orig.chunk_width as int,
                    orig.chunk_height as int,
                ) && (#[trigger] self.chunk_linear(
                    orig.nb_index(cx as int, cy as int, k),
                ).cells@[y * orig.chunk_width + x]) != orig.chunk_linear(
                    orig.nb_index(cx as int, cy as int, k),
                ).cells@[y * orig.chunk_width + x] implies rec_in(updates@[k]@, x, y) by {
                lemma_row_major_bounds(cx + slot_dx(k), cy + slot_dy(k), gx, gy);
                assert(self.chunks@[orig.nb_index(cx as int, cy as int, k)] == after.data@[k]);
                assert(after.cell_in_slot(k, x, y) != before.cell_in_slot(k, x, y));
                assert(after.recorded(k, x, y));
                let i = choose|i: int|
                    0 <= i < after.dirty_updates@[k].len() && (
                    #[trigger] after.dirty_updates@[k][i]).x == x && after.dirty_updates@[k][i].y
                        == y;
                assert(updates@[k]@[i].x == x && updates@[k]@[i].y == y);
            }
            // A wholly empty centre chunk leaves everything untouched
            // (the idle thread of a tick over an empty region).
            if orig.center_cells_empty(cx as int, cy as int) {
                assert forall|x: int, y: int|
                    in_grid(
                        x,
                        y,
                        before.chunk_width as int,
                        before.chunk_height as int,
                    ) implies (#[trigger] before.cell_in_slot(4, x, y)).physics is Empty by {
                    assert(before.data@[4] == orig.chunks@[orig.nb_index(cx as int, cy as int, 4)]);
                    assert(orig.nb_index(cx as int, cy as int, 4) == orig.chunk_index_of(
                        cx as int,
                        cy as int,
                    ));
                    assert(orig.chunk_at(cx as int, cy as int).cells@[y * orig.chunk_width + x].physics
                        is Empty);
                }
                assert(before.center_all_empty());
                assert(after == before);
                assert forall|j: int|
                    0 <= j < orig.chunks@.len() implies #[trigger] self.chunks@[j]
                    == orig.chunks@[j] by {
                    let cx2 = j % gx;
                    let cy2 = j / gx;
                    lemma_fundamental_div_mod(j, gx);
                    lemma_div_in_range(j, gx, gy);
                    let dx = cx2 - cx;
                    let dy = cy2 - cy;
                    if -1 <= dx <= 1 && -1 <= dy <= 1 {
                        let k = (dx + 1) + (dy + 1) * 3;
                        lemma_fundamental_div_mod_converse(k, 3, dy + 1, dx + 1);
                        assert(orig.nb_in(cx as int, cy as int, k));
                        assert(orig.nb_index(cx as int, cy as int, k) == j);
                        assert(self.chunks@[j] == after.data@[k]);
                        assert(after.data@[k] == before.data@[k]);
                    }
                }
            }
        }
        updates
    }

    /// Runs one checkerboard phase: every chunk that was awake at the start
    /// of the tick and is selected by `(phase_x, phase_y)` gets its
    /// neighbourhood simulated, and the written positions are folded into
    /// `merged` with the receiving chunks marked in `touched`.
    fn run_phase(
        &mut self,
        phase_x: i32,
        phase_y: i32,
        awake: &Vec<bool>,
        merged: &mut Vec<Vec<Point>>,
        touched: &mut Vec<bool>,
        base: Ghost<PixelWorld>,
    )
        requires
            base@.wf(),
            old(self).tick_state_ok(base@, old(merged)@, old(touched)@),
            old(self).tick_idle(base@, old(merged)@),
            awake@.len() == base@.chunks@.len(),
            0 <= phase_x <= 1,
            0 <= phase_y <= 1,
        ensures
            final(self).tick_state_ok(base@, final(merged)@, final(touched)@),
            final(self).tick_idle(base@, final(merged)@),
            final(self).iteration == old(self).iteration,
            old(self).solids_kept(base@) ==> final(self).solids_kept(base@),
            (forall|j: int| 0 <= j < awake@.len() ==> !(#[trigger] awake@[j])) ==> (*final(self)
                == *old(self) && final(merged)@ == old(merged)@ && final(touched)@ == old(
                touched,
            )@),
            final(merged)@.len() == old(merged)@.len(),
            final(touched)@.len() == old(touched)@.len(),
            forall|j: int|
                0 <= j < old(touched)@.len() && old(touched)@[j] ==> #[trigger] final(touched)@[j],
            forall|j: int|
                0 <= j < old(self).chunks@.len() && !(#[trigger] final(touched)@[j])
                    ==> final(self).chunks@[j] == old(self).chunks@[j],
            forall|j: int|
                0 <= j < old(touched)@.len() && (#[trigger] final(touched)@[j])
                    && !old(touched)@[j] ==> exists|ax: int, ay: int|
                    in_grid(ax, ay, base@.chunks_x as int, base@.chunks_y as int)
                        && awake@[#[trigger] base@.chunk_index_of(ax, ay)] && (exists|k: int|
                        0 <= k < 9 && base@.nb_in(ax, ay, k) && #[trigger] base@.nb_index(
                            ax,
                            ay,
                            k,
                        ) == j),
            forall|cx: int, cy: int|
                in_grid(cx, cy, base@.chunks_x as int, base@.chunks_y as int)
                    && awake@[base@.chunk_index_of(cx, cy)] && spec_phase_selects(
                    phase_x as int,
                    phase_y as int,
                    cx,
                    cy,
                ) ==> #[trigger] final(touched)@[base@.chunk_index_of(cx, cy)],
    {
        let ghost basew = base@;
        let ghost t0 = old(touched)@;
        let ghost m0 = old(merged)@;
        let ghost w0 = *old(self);
        let mut cy: i32 = 0;
        while cy < self.chunks_y
            invariant
                basew == base@,
                basew.wf(),
                self.iteration == old(self).iteration,
                w0.solids_kept(basew) ==> self.solids_kept(basew),
                (forall|j: int| 0 <= j < awake@.len() ==> !(#[trigger] awake@[j])) ==> (*self == w0
                    && merged@ == m0 && touched@ == t0),
                forall|j2: int|
                    0 <= j2 < basew.chunks@.len() && !(#[trigger] touched@[j2]) ==> self.chunks@[j2]
                        == w0.chunks@[j2],
                forall|j2: int|
                    0 <= j2 < t0.len() && (#[trigger] touched@[j2]) && !t0[j2] ==> exists|
                        ax: int,
                        ay: int,
                    |
                        in_grid(ax, ay, basew.chunks_x as int, basew.chunks_y as int)
                            && awake@[#[trigger] basew.chunk_index_of(ax, ay)] && (exists|k: int|
                            0 <= k < 9 && basew.nb_in(ax, ay, k) && #[trigger] basew.nb_index(
                                ax,
                                ay,
                                k,
                            ) == j2),
                self.tick_state_ok(basew, merged@, touched@),
                self.tick_idle(basew, merged@),
                awake@.len() == basew.chunks@.len(),
                0 <= phase_x <= 1,
                0 <= phase_y <= 1,
                0 <= cy <= self.chunks_y,
                merged@.len() == t0.len(),
                touched@.len() == t0.len(),
                forall|j: int| 0 <= j < t0.len() && t0[j] ==> #[trigger] touched@[j],
                forall|cx2: int, cy2: int|
                    in_grid(cx2, cy2, basew.chunks_x as int, basew.chunks_y as int) && cy2 < cy
                        && awake@[basew.chunk_index_of(cx2, cy2)] && spec_phase_selects(
                        phase_x as int,
                        phase_y as int,
                        cx2,
                        cy2,
                    ) ==> #[trigger] touched@[basew.chunk_index_of(cx2, cy2)],
            decreases self.chunks_y - cy,
        {
            let mut cx: i32 = 0;
            while cx < self.chunks_x
                invariant
                    basew == base@,
                    basew.wf(),
                    self.iteration == old(self).iteration,
                    w0.solids_kept(basew) ==> self.solids_kept(basew),
                    (forall|j: int| 0 <= j < awake@.len() ==> !(#[trigger] awake@[j])) ==> (*self
                        == w0 && merged@ == m0 && touched@ == t0),
                    forall|j2: int|
                        0 <= j2 < basew.chunks@.len() && !(#[trigger] touched@[j2])
                            ==> self.chunks@[j2] == w0.chunks@[j2],
                    forall|j2: int|
                        0 <= j2 < t0.len() && (#[trigger] touched@[j2]) && !t0[j2] ==> exists|
                            ax: int,
                            ay: int,
                        |
                            in_grid(ax, ay, basew.chunks_x as int, basew.chunks_y as int)
                                && awake@[#[trigger] basew.chunk_index_of(ax, ay)] && (exists|
                                k: int,
                            |
                                0 <= k < 9 && basew.nb_in(ax, ay, k) && #[trigger] basew.nb_index(
                                    ax,
                                    ay,
                                    k,
                                ) == j2),
                    self.tick_state_ok(basew, merged@, touched@),
                    self.tick_idle(basew, merged@),
                    awake@.len() == basew.chunks@.len(),
                    0 <= phase_x <= 1,
                    0 <= phase_y <= 1,
                    0 <= cy < self.chunks_y,
                    0 <= cx <= self.chunks_x,
                    merged@.len() == t0.len(),
                    touched@.len() == t0.len(),
                    forall|j: int| 0 <= j < t0.len() && t0[j] ==> #[trigger] touched@[j],
                    forall|cx2: int, cy2: int|
                        in_grid(cx2, cy2, basew.chunks_x as int, basew.chunks_y as int) && (cy2
                            < cy || (cy2 == cy && cx2 < cx)) && awake@[basew.chunk_index_of(
                            cx2,
                            cy2,
                        )] && spec_phase_selects(phase_x as int, phase_y as int, cx2, cy2)
                            ==> #[trigger] touched@[basew.chunk_index_of(cx2, cy2)],
                decreases self.chunks_x - cx,
            {
                proof {
                    lemma_grid_size_bound(self.chunks_x as int, self.chunks_y as int);
                    lemma_row_major_bounds(
                        cx as int,
                        cy as int,
                        self.chunks_x as int,
                        self.chunks_y as int,
                    );
                }
                let j = crate::chunk::get_index(cx, cy, self.chunks_x);
                if awake[j] && phase_selects(phase_x, phase_y, cx, cy) {
                    let ghost t_call = touched@;
                    self.simulate_and_merge(cx, cy, merged, touched, base);
                    proof {
                        assert forall|j2: int|
                            0 <= j2 < t0.len() && (#[trigger] touched@[j2]) && !t0[j2] implies
                        exists|ax: int, ay: int|
                            in_grid(ax, ay, basew.chunks_x as int, basew.chunks_y as int)
                                && awake@[#[trigger] basew.chunk_index_of(ax, ay)] && (exists|
                                k: int,
                            |
                                0 <= k < 9 && basew.nb_in(ax, ay, k) && #[trigger] basew.nb_index(
                                    ax,
                                    ay,
                                    k,
                                ) == j2) by {
                            if !t_call[j2] {
                                let k = choose|k: int|
                                    0 <= k < 9 && basew.nb_in(cx as int, cy as int, k)
                                        && #[trigger] basew.nb_index(cx as int, cy as int, k)
                                        == j2;
                                assert(in_grid(
                                    cx as int,
                                    cy as int,
                                    basew.chunks_x as int,
                                    basew.chunks_y as int,
                                ) && awake@[basew.chunk_index_of(cx as int, cy as int)] && (exists|
                                    k2: int,
                                |
                                    0 <= k2 < 9 && basew.nb_in(cx as int, cy as int, k2)
                                        && #[trigger] basew.nb_index(cx as int, cy as int, k2)
                                        == j2));
                            }
                        }
                    }
                }
                proof {
                    assert forall|cx2: int, cy2: int|
                        in_grid(cx2, cy2, basew.chunks_x as int, basew.chunks_y as int) && (cy2
                            < cy || (cy2 == cy && cx2 < cx + 1)) && awake@[basew.chunk_index_of(
                            cx2,
                            cy2,
                        )] && spec_phase_selects(phase_x as int, phase_y as int, cx2, cy2) implies
                    #[trigger] touched@[basew.chunk_index_of(cx2, cy2)] by {
                        lemma_row_major_bounds(
                            cx2,
                            cy2,
                            basew.chunks_x as int,
                            basew.chunks_y as int,
                        );
                    }
                }
                cx = cx + 1;
            }
            cy = cy + 1;
        }
    }

    /// Simulates one neighbourhood and folds its written positions into the
    /// accumulated per-chunk lists, marking each receiving chunk.
    #[verifier::rlimit(100)]
    #[verifier::spinoff_prover]
    fn simulate_and_merge(
        &mut self,
        cx: i32,
        cy: i32,
        merged: &mut Vec<Vec<Point>>,
        touched: &mut Vec<bool>,
        base: Ghost<PixelWorld>,
    )
        requires
            base@.wf(),
            old(self).tick_state_ok(base@, old(merged)@, old(touched)@),
            old(self).tick_idle(base@, old(merged)@),
            0 <= cx < base@.chunks_x,
            0 <= cy < base@.chunks_y,
        ensures
            final(self).tick_state_ok(base@, final(merged)@, final(touched)@),
            final(self).tick_idle(base@, final(merged)@),
            final(self).iteration == old(self).iteration,
            old(self).solids_kept(base@) ==> final(self).solids_kept(base@),
            final(merged)@.len() == old(merged)@.len(),
            final(touched)@.len() == old(touched)@.len(),
            forall|j: int|
                0 <= j < old(touched)@.len() && old(touched)@[j] ==> #[trigger] final(touched)@[j],
            forall|j: int|
                0 <= j < old(touched)@.len() && (#[trigger] final(touched)@[j])
                    && !old(touched)@[j] ==> exists|k: int|
                    0 <= k < 9 && base@.nb_in(cx as int, cy as int, k) && #[trigger] base@.nb_index(
                        cx as int,
                        cy as int,
                        k,
                    ) == j,
            forall|j: int|
                0 <= j < old(self).chunks@.len() && !(#[trigger] final(touched)@[j])
                    ==> final(self).chunks@[j] == old(self).chunks@[j],
            final(touched)@[base@.chunk_index_of(cx as int, cy as int)],
    {
        let ghost basew = base@;
        let ghost pre = *old(self);
        proof {
            lemma_grid_size_bound(basew.chunks_x as int, basew.chunks_y as int);
            lemma_row_major_bounds(
                cx as int,
                cy as int,
                basew.chunks_x as int,
                basew.chunks_y as int,
            );
        }
        let mut updates = self.simulate_neighborhood(cx, cy);
        let ghost upd0 = updates@;
        let ghost m0 = merged@;
        let ghost t1 = old(touched)@;
        proof {
            // After the pass, a cell that differs from `base` is either
            // recorded already (it changed in an earlier neighbourhood) or
            // recorded in this neighbourhood's slot list.
            assert forall|j2: int, x: int, y: int|
                0 <= j2 < basew.chunks@.len() && in_grid(
                    x,
                    y,
                    basew.chunk_width as int,
                    basew.chunk_height as int,
                ) && (#[trigger] self.chunk_linear(j2).cells@[y * basew.chunk_width + x])
                    != basew.chunk_linear(j2).cells@[y * basew.chunk_width + x] implies rec_in(
                merged@[j2]@,
                x,
                y,
            ) || (exists|k2: int|
                0 <= k2 < 9 && basew.nb_in(cx as int, cy as int, k2) && basew.nb_index(
                    cx as int,
                    cy as int,
                    k2,
                ) == j2 && rec_in(upd0[k2]@, x, y)) by {
                if self.chunk_linear(j2).cells@[y * basew.chunk_width + x] == pre.chunk_linear(
                    j2,
                ).cells@[y * basew.chunk_width + x] {
                    assert(rec_in(merged@[j2]@, x, y));
                } else {
                    let cx2 = j2 % (basew.chunks_x as int);
                    let cy2 = j2 / (basew.chunks_x as int);
                    lemma_fundamental_div_mod(j2, basew.chunks_x as int);
                    lemma_div_in_range(j2, basew.chunks_x as int, basew.chunks_y as int);
                    let dx = cx2 - cx;
                    let dy = cy2 - cy;
                    if -1 <= dx <= 1 && -1 <= dy <= 1 {
                        let k = (dx + 1) + (dy + 1) * 3;
                        lemma_fundamental_div_mod_converse(k, 3, dy + 1, dx + 1);
                        assert(slot_dx(k) == dx && slot_dy(k) == dy);
                        assert(in_grid(cx2, cy2, basew.chunks_x as int, basew.chunks_y as int));
                        assert(pre.chunks_x == basew.chunks_x && pre.chunks_y == basew.chunks_y);
                        assert(pre.nb_in(cx as int, cy as int, k));
                        assert(j2 == cy2 * (basew.chunks_x as int) + cx2);
                        assert(pre.nb_index(cx as int, cy as int, k) == j2);
                        assert(self.chunk_linear(pre.nb_index(cx as int, cy as int, k)).cells@[y
                            * pre.chunk_width + x] != pre.chunk_linear(
                            pre.nb_index(cx as int, cy as int, k),
                        ).cells@[y * pre.chunk_width + x]);
                        assert(rec_in(upd0[k]@, x, y));
                        assert(basew.nb_in(cx as int, cy as int, k) && basew.nb_index(
                            cx as int,
                            cy as int,
                            k,
                        ) == j2);
                    } else {
                        assert forall|k2: int| 0 <= k2 < 9 implies !(pre.nb_in(
                            cx as int,
                            cy as int,
                            k2,
                        ) && #[trigger] pre.nb_index(cx as int, cy as int, k2) == j2) by {
                            if pre.nb_in(cx as int, cy as int, k2) && pre.nb_index(
                                cx as int,
                                cy as int,
                                k2,
                            ) == j2 {
                                lemma_row_major_bounds(
                                    cx + slot_dx(k2),
                                    cy + slot_dy(k2),
                                    basew.chunks_x as int,
                                    basew.chunks_y as int,
                                );
                                lemma_row_major_injective(
                                    cx2,
                                    cy2,
                                    cx + slot_dx(k2),
                                    cy + slot_dy(k2),
                                    basew.chunks_x as int,
                                    basew.chunks_y as int,
                                );
                            }
                        }
                        assert(self.chunks@[j2] == pre.chunks@[j2]);
                        assert(false);
                    }
                }
            }
            assert(self.covered_or_pending(basew, merged@, upd0, cx as int, cy as int, 9));
            // The pass kept every chunk's dirty metadata; compose its
            // per-slot shape facts with the state at the start of the tick.
            assert forall|j2: int|
                0 <= j2 < basew.chunks@.len() implies (#[trigger] self.chunks@[j2]) is Some
                && chunk_same_shape(self.chunk_linear(j2), basew.chunk_linear(j2)) by {
                let cx2 = j2 % (basew.chunks_x as int);
                let cy2 = j2 / (basew.chunks_x as int);
                lemma_fundamental_div_mod(j2, basew.chunks_x as int);
                lemma_div_in_range(j2, basew.chunks_x as int, basew.chunks_y as int);
                assert(self.chunk_ok(cx2, cy2));
                let dx = cx2 - cx;
                let dy = cy2 - cy;
                if -1 <= dx <= 1 && -1 <= dy <= 1 {
                    let k = (dx + 1) + (dy + 1) * 3;
                    lemma_fundamental_div_mod_converse(k, 3, dy + 1, dx + 1);
                    assert(slot_dx(k) == dx && slot_dy(k) == dy);
                    assert(pre.chunks_x == basew.chunks_x && pre.chunks_y == basew.chunks_y);
                    assert(in_grid(cx2, cy2, basew.chunks_x as int, basew.chunks_y as int));
                    assert(pre.nb_in(cx as int, cy as int, k));
                    assert(cy2 * (basew.chunks_x as int) == (basew.chunks_x as int) * cy2);
                    assert(j2 == cy2 * (basew.chunks_x as int) + cx2);
                    assert(pre.nb_index(cx as int, cy as int, k) == j2);
                    assert(chunk_same_shape(
                        self.chunk_linear(pre.nb_index(cx as int, cy as int, k)),
                        pre.chunk_linear(pre.nb_index(cx as int, cy as int, k)),
                    ));
                    assert(chunk_same_shape(self.chunk_linear(j2), pre.chunk_linear(j2)));
                } else {
                    assert forall|k2: int| 0 <= k2 < 9 implies !(pre.nb_in(
                        cx as int,
                        cy as int,
                        k2,
                    ) && #[trigger] pre.nb_index(cx as int, cy as int, k2) == j2) by {
                        if pre.nb_in(cx as int, cy as int, k2) && pre.nb_index(
                            cx as int,
                            cy as int,
                            k2,
                        ) == j2 {
                            lemma_row_major_bounds(
                                cx + slot_dx(k2),
                                cy + slot_dy(k2),
                                basew.chunks_x as int,
                                basew.chunks_y as int,
                            );
                            lemma_row_major_injective(
                                cx2,
                                cy2,
                                cx + slot_dx(k2),
                                cy + slot_dy(k2),
                                basew.chunks_x as int,
                                basew.chunks_y as int,
                            );
                        }
                    }
                    assert(self.chunks@[j2] == pre.chunks@[j2]);
                }
            }
            // Hard solids and rigid bodies survive the pass untouched.
            if pre.solids_kept(basew) {
                let gx = basew.chunks_x as int;
                let gy = basew.chunks_y as int;
                assert forall|j2: int, i: int|
                    0 <= j2 < basew.chunks@.len() && 0 <= i < basew.chunk_linear(j2).cells@.len()
                        && ((#[trigger] basew.chunk_linear(j2).cells@[i]).physics is HardSolid
                        || basew.chunk_linear(j2).cells@[i].physics is RigidBody) implies
                self.chunk_linear(j2).cells@[i] == basew.chunk_linear(j2).cells@[i] by {
                    let cx2 = j2 % gx;
                    let cy2 = j2 / gx;
                    lemma_fundamental_div_mod(j2, gx);
                    lemma_div_in_range(j2, gx, gy);
                    assert(cy2 * gx == gx * cy2);
                    assert(basew.chunk_ok(cx2, cy2));
                    let w = basew.chunk_width as int;
                    let h = basew.chunk_height as int;
                    let lx2 = i % w;
                    let ly2 = i / w;
                    lemma_fundamental_div_mod(i, w);
                    lemma_div_in_range(i, w, h);
                    assert(ly2 * w == w * ly2);
                    assert(pre.chunk_linear(j2).cells@[i] == basew.chunk_linear(j2).cells@[i]);
                    let dx = cx2 - cx;
                    let dy = cy2 - cy;
                    if -1 <= dx <= 1 && -1 <= dy <= 1 {
                        let k = (dx + 1) + (dy + 1) * 3;
                        lemma_fundamental_div_mod_converse(k, 3, dy + 1, dx + 1);
                        assert(slot_dx(k) == dx && slot_dy(k) == dy);
                        assert(pre.nb_in(cx as int, cy as int, k));
                        assert(j2 == cy2 * gx + cx2);
                        assert(pre.nb_index(cx as int, cy as int, k) == j2);
                        assert(self.chunk_linear(j2).cells@[ly2 * w + lx2] == pre.chunk_linear(
                            j2,
                        ).cells@[ly2 * w + lx2]);
                    } else {
                        assert forall|k2: int| 0 <= k2 < 9 implies !(pre.nb_in(
                            cx as int,
                            cy as int,
                            k2,
                        ) && #[trigger] pre.nb_index(cx as int, cy as int, k2) == j2) by {
                            if pre.nb_in(cx as int, cy as int, k2) && pre.nb_index(
                                cx as int,
                                cy as int,
                                k2,
                            ) == j2 {
                                lemma_row_major_bounds(
                                    cx + slot_dx(k2),
                                    cy + slot_dy(k2),
                                    gx,
                                    gy,
                                );
                                lemma_row_major_injective(
                                    cx2,
                                    cy2,
                                    cx + slot_dx(k2),
                                    cy + slot_dy(k2),
                                    gx,
                                    gy,
                                );
                            }
                        }
                        assert(self.chunks@[j2] == pre.chunks@[j2]);
                    }
                }
            }
            // The idle thread: an empty world stays exactly as it was.
            if basew.all_cells_empty() {
                assert forall|x: int, y: int|
                    in_grid(
                        x,
                        y,
                        pre.chunk_width as int,
                        pre.chunk_height as int,
                    ) implies (#[trigger] pre.chunk_at(cx as int, cy as int).cells@[y
                    * pre.chunk_width + x]).physics is Empty by {
                    assert(pre.chunks@[basew.chunk_index_of(cx as int, cy as int)]
                        == basew.chunks@[basew.chunk_index_of(cx as int, cy as int)]);
                    assert((basew.chunk_at(cx as int, cy as int).cells@[y * basew.chunk_width
                        + x]).physics is Empty);
                }
                assert(pre.center_cells_empty(cx as int, cy as int));
                assert forall|j2: int|
                    0 <= j2 < basew.chunks@.len() implies (#[trigger] self.chunks@[j2])
                    == basew.chunks@[j2] by {
                    assert(self.chunks@[j2] == pre.chunks@[j2]);
                }
                assert(forall|k2: int| 0 <= k2 < 9 ==> (#[trigger] upd0[k2])@.len() == 0);
            }
        }
        // Fold the nine slot lists into the per-chunk accumulators.
        let mut k: usize = 9;
        while k > 0
            invariant
                basew.wf(),
                self.iteration == old(self).iteration,
                0 <= cx < basew.chunks_x,
                0 <= cy < basew.chunks_y,
                k <= 9,
                updates@.len() == k,
                forall|k2: int| 0 <= k2 < k ==> #[trigger] updates@[k2] == upd0[k2],
                upd0.len() == 9,
                forall|k2: int, i: int|
                    0 <= k2 < 9 && 0 <= i < upd0[k2]@.len() ==> in_grid(
                        (#[trigger] upd0[k2]@[i]).x as int,
                        upd0[k2]@[i].y as int,
                        basew.chunk_width as int,
                        basew.chunk_height as int,
                    ),
                self.tick_shape_ok(basew, merged@, touched@),
                self.covered_or_pending(basew, merged@, upd0, cx as int, cy as int, k as int),
                self.tick_idle(basew, merged@),
                basew.all_cells_empty() ==> forall|k2: int|
                    0 <= k2 < 9 ==> (#[trigger] upd0[k2])@.len() == 0,
                merged@.len() == basew.chunks@.len(),
                touched@.len() == basew.chunks@.len(),
                t1.len() == basew.chunks@.len(),
                forall|j2: int| 0 <= j2 < t1.len() && t1[j2] ==> #[trigger] touched@[j2],
                forall|j2: int|
                    0 <= j2 < t1.len() && (#[trigger] touched@[j2]) && !t1[j2] ==> exists|k2: int|
                        0 <= k2 < 9 && basew.nb_in(cx as int, cy as int, k2)
                            && #[trigger] basew.nb_index(cx as int, cy as int, k2) == j2,
                forall|k2: int|
                    k <= k2 < 9 && basew.nb_in(cx as int, cy as int, k2)
                        ==> #[trigger] touched@[basew.nb_index(cx as int, cy as int, k2)],
                k <= 4 ==> touched@[basew.chunk_index_of(cx as int, cy as int)],
            decreases k,
        {
            k = k - 1;
            let dx = (k % 3) as i32 - 1;
            let dy = (k / 3) as i32 - 1;
            let nx = cx + dx;
            let ny = cy + dy;
            let taken = updates.pop();
            let mut lst = match taken {
                Some(l) => l,
                None => unreached(),
            };
            let ghost m1 = merged@;
            if nx >= 0 && nx < self.chunks_x && ny >= 0 && ny < self.chunks_y {
                proof {
                    lemma_grid_size_bound(basew.chunks_x as int, basew.chunks_y as int);
                    lemma_row_major_bounds(
                        nx as int,
                        ny as int,
                        basew.chunks_x as int,
                        basew.chunks_y as int,
                    );
                }
                let idx = crate::chunk::get_index(nx, ny, self.chunks_x);
                touched[idx] = true;
                merged[idx].append(&mut lst);
                proof {
                    assert(merged@[idx as int]@ == m1[idx as int]@ + upd0[k as int]@);
                    assert forall|j2: int, x: int, y: int|
                        0 <= j2 < basew.chunks@.len() && 0 <= x && 0 <= y && rec_in(
                            m1[j2]@,
                            x,
                            y,
                        ) implies rec_in(merged@[j2]@, x, y) by {
                        let i = choose|i: int|
                            0 <= i < m1[j2]@.len() && (#[trigger] m1[j2]@[i]).x == x && m1[j2]@[i].y
                                == y;
                        assert(merged@[j2]@[i].x == x && merged@[j2]@[i].y == y);
                    }
                    assert forall|x: int, y: int| rec_in(upd0[k as int]@, x, y) implies rec_in(
                        merged@[idx as int]@,
                        x,
                        y,
                    ) by {
                        let i = choose|i: int|
                            0 <= i < upd0[k as int]@.len() && (#[trigger] upd0[k as int]@[i]).x == x
                                && upd0[k as int]@[i].y == y;
                        assert(merged@[idx as int]@[m1[idx as int]@.len() + i].x == x);
                        assert(merged@[idx as int]@[m1[idx as int]@.len() + i].y == y);
                    }
                }
            }
            proof {
                assert forall|j2: int, x: int, y: int|
                    0 <= j2 < self.chunks@.len() && in_grid(
                        x,
                        y,
                        basew.chunk_width as int,
                        basew.chunk_height as int,
                    ) && (#[trigger] self.chunk_linear(j2).cells@[y * basew.chunk_width + x])
                    != basew.chunk_linear(j2).cells@[y * basew.chunk_width + x] implies rec_in(
                    merged@[j2]@,
                    x,
                    y,
                ) || (exists|k2: int|
                    0 <= k2 < k && basew.nb_in(cx as int, cy as int, k2) && basew.nb_index(
                        cx as int,
                        cy as int,
                        k2,
                    ) == j2 && rec_in(upd0[k2]@, x, y)) by {
                    if rec_in(m1[j2]@, x, y) {
                        let i = choose|i: int|
                            0 <= i < m1[j2]@.len() && (#[trigger] m1[j2]@[i]).x == x && m1[j2]@[i].y
                                == y;
                        assert(merged@[j2]@[i].x == x && merged@[j2]@[i].y == y);
                    } else {
                        let k2 = choose|k2: int|
                            0 <= k2 < k + 1 && basew.nb_in(cx as int, cy as int, k2)
                                && #[trigger] basew.nb_index(cx as int, cy as int, k2) == j2
                                && rec_in(upd0[k2]@, x, y);
                        if k2 == k {
                            assert(basew.nb_in(cx as int, cy as int, k as int));
                            assert(rec_in(merged@[j2]@, x, y));
                        }
                    }
                }
                lemma_row_major_bounds(
                    cx as int,
                    cy as int,
                    basew.chunks_x as int,
                    basew.chunks_y as int,
                );
                assert forall|k2: int|
                    k <= k2 < 9 && basew.nb_in(cx as int, cy as int, k2) implies
                #[trigger] touched@[basew.nb_index(cx as int, cy as int, k2)] by {
                    lemma_row_major_bounds(
                        cx + slot_dx(k2),
                        cy + slot_dy(k2),
                        basew.chunks_x as int,
                        basew.chunks_y as int,
                    );
                }
                assert forall|j2: int|
                    0 <= j2 < t1.len() && (#[trigger] touched@[j2]) && !t1[j2] implies exists|
                    k2: int,
                |
                    0 <= k2 < 9 && basew.nb_in(cx as int, cy as int, k2)
                        && #[trigger] basew.nb_index(cx as int, cy as int, k2) == j2 by {
                    if basew.nb_in(cx as int, cy as int, k as int) {
                        lemma_row_major_bounds(
                            cx + slot_dx(k as int),
                            cy + slot_dy(k as int),
                            basew.chunks_x as int,
                            basew.chunks_y as int,
                        );
                        if j2 == basew.nb_index(cx as int, cy as int, k as int) {
                            assert(0 <= k < 9 && basew.nb_in(cx as int, cy as int, k as int)
                                && basew.nb_index(cx as int, cy as int, k as int) == j2);
                        }
                    }
                }
                if k == 4 {
                    assert(slot_dx(4) == 0 && slot_dy(4) == 0);
                    assert(touched@[basew.chunk_index_of(cx as int, cy as int)]);
                }
            }
        }
        proof {
            assert(self.tick_covered(basew, merged@));
            assert forall|j2: int|
                0 <= j2 < basew.chunks@.len() && !(#[trigger] touched@[j2]) implies
            self.chunks@[j2] == pre.chunks@[j2] by {
                assert forall|k2: int| 0 <= k2 < 9 implies !(pre.nb_in(cx as int, cy as int, k2)
                    && #[trigger] pre.nb_index(cx as int, cy as int, k2) == j2) by {
                    if pre.nb_in(cx as int, cy as int, k2) && pre.nb_index(
                        cx as int,
                        cy as int,
                        k2,
                    ) == j2 {
                        lemma_row_major_bounds(
                            cx + slot_dx(k2),
                            cy + slot_dy(k2),
                            basew.chunks_x as int,
                            basew.chunks_y as int,
                        );
                        assert(touched@[basew.nb_index(cx as int, cy as int, k2)]);
                    }
                }
            }
        }
    }

    /// Runs one tick: per-tick `updated` marks are cleared on every awake
    /// chunk, the four checkerboard phases simulate every awake chunk's
    /// neighbourhood in a freshly shuffled order, and the recorded writes are
    /// folded into each receiving chunk's dirty rectangles (the old current
    /// rectangle moving to the previous one for a settling pass).
    ///
    /// The contract carries the tick's laws: dirty-rectangle soundness (any
    /// cell whose content differs after the tick lies inside its chunk's new
    /// current dirty rectangle), the fold itself (every awake chunk's
    /// just-scanned current rectangle becomes its previous one, granting the
    /// settling pass), redraw counters only ever count down by one, hard
    /// solids and rigid bodies keep their content, a fully asleep world is
    /// left untouched but for the tick counter, and idle stability: a wholly
    /// empty world with no pending redraws ends the tick with every current
    /// dirty rectangle empty and falls asleep one settling pass later.
    #[verifier::rlimit(100)]
    pub fn update(&mut self)
        requires
            old(self).wf(),
        ensures
            final(self).wf(),
            final(self).chunk_width == old(self).chunk_width,
            final(self).chunk_height == old(self).chunk_height,
            final(self).chunks_x == old(self).chunks_x,
            final(self).chunks_y == old(self).chunks_y,
            final(self).chunks@.len() == old(self).chunks@.len(),
            forall|cx: int, cy: int, x: int, y: int|
                in_grid(cx, cy, old(self).chunks_x as int, old(self).chunks_y as int) && in_grid(
                    x,
                    y,
                    old(self).chunk_width as int,
                    old(self).chunk_height as int,
                ) && !same_content(
                    #[trigger] final(self).chunk_at(cx, cy).cells@[y * old(self).chunk_width + x],
                    old(self).chunk_at(cx, cy).cells@[y * old(self).chunk_width + x],
                ) ==> final(self).chunk_at(cx, cy).current_dirty_rect.spec_contains(x, y),
            (old(self).all_cells_empty() && old(self).all_overrides_zero()) ==> forall|j: int|
                0 <= j < final(self).chunks@.len() ==> (#[trigger] final(self).chunk_linear(
                    j,
                )).current_dirty_rect.spec_is_empty(),
            final(self).iteration == (if old(self).iteration < u32::MAX {
                (old(self).iteration + 1) as u32
            } else {
                0u32
            }),
            forall|j: int|
                0 <= j < old(self).chunks@.len() && (#[trigger] old(self).chunk_linear(
                    j,
                )).spec_should_update() ==> final(self).chunk_linear(j).previous_dirty_rect == old(self).chunk_linear(j).current_dirty_rect,
            forall|j: int|
                0 <= j < old(self).chunks@.len() ==> ((#[trigger] final(self).chunk_linear(
                    j,
                )).previous_dirty_rect == old(self).chunk_linear(j).current_dirty_rect || final(self).chunk_linear(j).previous_dirty_rect == old(self).chunk_linear(
                    j,
                ).previous_dirty_rect),
            forall|j: int|
                0 <= j < old(self).chunks@.len() ==> ((#[trigger] final(self).chunk_linear(
                    j,
                )).render_override == old(self).chunk_linear(j).render_override || (old(self).chunk_linear(j).render_override > 0 && final(self).chunk_linear(
                    j,
                ).render_override == old(self).chunk_linear(j).render_override - 1)),
            forall|j: int, i: int|
                0 <= j < old(self).chunks@.len() && 0 <= i < old(self).chunk_linear(
                    j,
                ).cells@.len() && ((#[trigger] old(self).chunk_linear(j).cells@[i]).physics
                    is HardSolid || old(self).chunk_linear(j).cells@[i].physics is RigidBody)
                    ==> same_content(
                    final(self).chunk_linear(j).cells@[i],
                    old(self).chunk_linear(j).cells@[i],
                ),
            (forall|j: int|
                0 <= j < old(self).chunks@.len() ==> !(#[trigger] old(self).chunk_linear(
                    j,
                )).spec_should_update()) ==> forall|j: int|
                0 <= j < old(self).chunks@.len() ==> #[trigger] final(self).chunks@[j] == old(self).chunks@[j],
            forall|cx: int, cy: int|
                in_grid(cx, cy, old(self).chunks_x as int, old(self).chunks_y as int) && (forall|
                    dx: int,
                    dy: int,
                |
                    -1 <= dx <= 1 && -1 <= dy <= 1 && in_grid(
                        cx + dx,
                        cy + dy,
                        old(self).chunks_x as int,
                        old(self).chunks_y as int,
                    ) ==> !(#[trigger] old(self).chunk_linear(
                        old(self).chunk_index_of(cx + dx, cy + dy),
                    )).spec_should_update()) ==> #[trigger] final(self).chunks@[old(self).chunk_index_of(cx, cy)] == old(self).chunks@[old(self).chunk_index_of(cx, cy)],
    {
        let ghost orig = *old(self);
        let n = self.chunks.len();
        // Clear per-tick marks on every awake chunk and note who was awake.
        let mut awake: Vec<bool> = Vec::new();
        let mut j: usize = 0;
        while j < n
            invariant
                orig.wf(),
                n == orig.chunks@.len(),
                self.wf(),
                self.chunk_width == orig.chunk_width,
                self.chunk_height == orig.chunk_height,
                self.chunks_x == orig.chunks_x,
                self.chunks_y == orig.chunks_y,
                self.iteration == orig.iteration,
                self.chunks@.len() == n,
                j <= n,
                awake@.len() == j,
                forall|j2: int|
                    0 <= j2 < j ==> #[trigger] awake@[j2] == orig.chunk_linear(
                        j2,
                    ).spec_should_update(),
                forall|j2: int| j <= j2 < n ==> #[trigger] self.chunks@[j2] == orig.chunks@[j2],
                forall|j2: int|
                    0 <= j2 < j ==> (#[trigger] self.chunks@[j2]) is Some && chunk_same_shape(
                        self.chunk_linear(j2),
                        orig.chunk_linear(j2),
                    ) && cells_content_eq(
                        self.chunk_linear(j2).cells@,
                        orig.chunk_linear(j2).cells@,
                    ),
                forall|j2: int|
                    0 <= j2 < j && !awake@[j2] ==> #[trigger] self.chunks@[j2] == orig.chunks@[j2],
            decreases n - j,
        {
            proof {
                let cxj = j as int % (orig.chunks_x as int);
                let cyj = j as int / (orig.chunks_x as int);
                lemma_fundamental_div_mod(j as int, orig.chunks_x as int);
                lemma_div_in_range(j as int, orig.chunks_x as int, orig.chunks_y as int);
                assert(cyj * (orig.chunks_x as int) == (orig.chunks_x as int) * cyj);
                assert(self.chunk_ok(cxj, cyj));
            }
            let taken = self.chunks[j].take();
            let mut chunk = match taken {
                Some(c) => c,
                None => unreached(),
            };
            let is_awake = chunk.should_update();
            if is_awake {
                chunk.commit_cells_unupdated();
            }
            self.chunks[j] = Some(chunk);
            awake.push(is_awake);
            proof {
                let cxj = j as int % (orig.chunks_x as int);
                let cyj = j as int / (orig.chunks_x as int);
                assert forall|cx2: int, cy2: int|
                    in_grid(cx2, cy2, orig.chunks_x as int, orig.chunks_y as int) implies
                #[trigger] self.chunk_ok(cx2, cy2) by {
                    lemma_row_major_bounds(cx2, cy2, orig.chunks_x as int, orig.chunks_y as int);
                    if !(cx2 == cxj && cy2 == cyj) {
                        lemma_row_major_injective(
                            cx2,
                            cy2,
                            cxj,
                            cyj,
                            orig.chunks_x as int,
                            orig.chunks_y as int,
                        );
                        assert(orig.chunk_ok(cx2, cy2));
                    }
                }
            }
            j = j + 1;
        }
        let ghost base = *self;
        // Accumulators for the positions written this tick, per chunk.
        let mut merged: Vec<Vec<Point>> = Vec::new();
        let mut i: usize = 0;
        while i < n
            invariant
                i <= n,
                merged@.len() == i,
                forall|j2: int| 0 <= j2 < i ==> (#[trigger] merged@[j2])@.len() == 0,
            decreases n - i,
        {
            merged.push(Vec::new());
            i = i + 1;
        }
        let mut touched: Vec<bool> = Vec::new();
        let mut i: usize = 0;
        while i < n
            invariant
                i <= n,
                touched@.len() == i,
                forall|j2: int| 0 <= j2 < i ==> !(#[trigger] touched@[j2]),
            decreases n - i,
        {
            touched.push(false);
            i = i + 1;
        }
        let phases = shuffle_phases();
        proof {
            assert(self.tick_state_ok(base, merged@, touched@));
            assert(self.tick_idle(base, merged@));
            if orig.all_cells_empty() {
                assert forall|cx: int, cy: int, x: int, y: int|
                    in_grid(cx, cy, base.chunks_x as int, base.chunks_y as int) && in_grid(
                        x,
                        y,
                        base.chunk_width as int,
                        base.chunk_height as int,
                    ) implies (#[trigger] base.chunk_at(cx, cy).cells@[y * base.chunk_width
                    + x]).physics is Empty by {
                    lemma_row_major_bounds(cx, cy, base.chunks_x as int, base.chunks_y as int);
                    lemma_row_major_bounds(x, y, base.chunk_width as int, base.chunk_height as int);
                    assert(orig.chunk_ok(cx, cy));
                    assert(base.chunks@[orig.chunk_index_of(cx, cy)] is Some);
                    assert(cells_content_eq(
                        base.chunk_linear(orig.chunk_index_of(cx, cy)).cells@,
                        orig.chunk_linear(orig.chunk_index_of(cx, cy)).cells@,
                    ));
                    assert(same_content(
                        base.chunk_at(cx, cy).cells@[y * base.chunk_width + x],
                        orig.chunk_at(cx, cy).cells@[y * base.chunk_width + x],
                    ));
                }
                assert(base.all_cells_empty());
            }
        }
        // The four phases, strictly in sequence.
        let mut pi: usize = 0;
        while pi < 4
            invariant
                orig.wf(),
                base.wf(),
                n == orig.chunks@.len(),
                n == base.chunks@.len(),
                base.chunk_width == orig.chunk_width,
                base.chunk_height == orig.chunk_height,
                base.chunks_x == orig.chunks_x,
                base.chunks_y == orig.chunks_y,
                self.tick_state_ok(base, merged@, touched@),
                self.tick_idle(base, merged@),
                self.solids_kept(base),
                (forall|j2: int| 0 <= j2 < n ==> !(#[trigger] awake@[j2])) ==> (*self == base && (
                forall|j2: int| 0 <= j2 < n ==> (#[trigger] merged@[j2])@.len() == 0) && (forall|
                    j2: int,
                |
                    0 <= j2 < n ==> !(#[trigger] touched@[j2]))),
                forall|j2: int|
                    0 <= j2 < n && !awake@[j2] ==> #[trigger] base.chunks@[j2] == orig.chunks@[j2],
                forall|j2: int|
                    0 <= j2 < n && !(#[trigger] touched@[j2]) ==> self.chunks@[j2]
                        == base.chunks@[j2],
                forall|j2: int|
                    0 <= j2 < n && (#[trigger] touched@[j2]) ==> exists|ax: int, ay: int|
                        in_grid(ax, ay, base.chunks_x as int, base.chunks_y as int) && awake@[
                        #[trigger] base.chunk_index_of(ax, ay)] && (exists|k: int|
                            0 <= k < 9 && base.nb_in(ax, ay, k) && #[trigger] base.nb_index(
                                ax,
                                ay,
                                k,
                            ) == j2),
                self.iteration == orig.iteration,
                awake@.len() == n,
                pi <= 4,
                phases@.len() == 4,
                forall|p: int| 0 <= p < 4 ==> 0 <= (#[trigger] phases@[p]).0 <= 1 && 0 <= phases@[p].1 <= 1,
                exists|p: int| 0 <= p < 4 && (#[trigger] phases@[p]) == (0i32, 0i32),
                exists|p: int| 0 <= p < 4 && (#[trigger] phases@[p]) == (1i32, 0i32),
                exists|p: int| 0 <= p < 4 && (#[trigger] phases@[p]) == (0i32, 1i32),
                exists|p: int| 0 <= p < 4 && (#[trigger] phases@[p]) == (1i32, 1i32),
                forall|j2: int|
                    0 <= j2 < n ==> #[trigger] awake@[j2] == orig.chunk_linear(
                        j2,
                    ).spec_should_update(),
                forall|j2: int|
                    0 <= j2 < n ==> base.chunks@[j2] is Some && chunk_same_shape(
                        #[trigger] base.chunk_linear(j2),
                        orig.chunk_linear(j2),
                    ) && cells_content_eq(
                        base.chunk_linear(j2).cells@,
                        orig.chunk_linear(j2).cells@,
                    ),
                orig.all_cells_empty() ==> base.all_cells_empty(),
                forall|cx: int, cy: int, p: int|
                    #![trigger phases@[p], touched@[base.chunk_index_of(cx, cy)]]
                    in_grid(cx, cy, base.chunks_x as int, base.chunks_y as int) && 0 <= p < pi
                        && awake@[base.chunk_index_of(cx, cy)] && spec_phase_selects(
                        phases@[p].0 as int,
                        phases@[p].1 as int,
                        cx,
                        cy,
                    ) ==> touched@[base.chunk_index_of(cx, cy)],
            decreases 4 - pi,
        {
            let pair = phases[pi];
            let ghost t_pre = touched@;
            self.run_phase(pair.0, pair.1, &awake, &mut merged, &mut touched, Ghost(base));
            proof {
                assert forall|cx: int, cy: int, p: int|
                    #![trigger phases@[p], touched@[base.chunk_index_of(cx, cy)]]
                    in_grid(cx, cy, base.chunks_x as int, base.chunks_y as int) && 0 <= p < pi + 1
                        && awake@[base.chunk_index_of(cx, cy)] && spec_phase_selects(
                        phases@[p].0 as int,
                        phases@[p].1 as int,
                        cx,
                        cy,
                    ) implies touched@[base.chunk_index_of(cx, cy)] by {
                    lemma_row_major_bounds(cx, cy, base.chunks_x as int, base.chunks_y as int);
                }
            }
            pi = pi + 1;
        }
        // Fold each touched chunk's written positions into its rectangles.
        let ghost phased = *self;
        proof {
            // Every awake chunk was simulated in exactly the phase matching
            // its coordinate parities, so it is marked for the fold.
            assert forall|j2: int| 0 <= j2 < n && awake@[j2] implies #[trigger] touched@[j2] by {
                let cxj = j2 % (orig.chunks_x as int);
                let cyj = j2 / (orig.chunks_x as int);
                lemma_fundamental_div_mod(j2, orig.chunks_x as int);
                lemma_div_in_range(j2, orig.chunks_x as int, orig.chunks_y as int);
                assert(cyj * (orig.chunks_x as int) == (orig.chunks_x as int) * cyj);
                lemma_own_parity_selects(cxj, cyj);
                let want = ((cxj % 2) as i32, (cyj % 2) as i32);
                let p = choose|p: int| 0 <= p < 4 && (#[trigger] phases@[p]) == want;
                assert(spec_phase_selects(phases@[p].0 as int, phases@[p].1 as int, cxj, cyj));
                assert(touched@[base.chunk_index_of(cxj, cyj)]);
            }
            if (forall|j2: int| 0 <= j2 < n ==> !(#[trigger] awake@[j2])) {
                assert(*self == base);
                assert forall|j2: int|
                    0 <= j2 < n implies #[trigger] phased.chunks@[j2] == orig.chunks@[j2] by {
                    assert(!awake@[j2]);
                }
            }
            if orig.all_cells_empty() && orig.all_overrides_zero() {
                assert forall|j2: int|
                    0 <= j2 < n && !touched@[j2] implies (#[trigger] phased.chunk_linear(
                    j2,
                )).current_dirty_rect.spec_is_empty() by {
                    assert(!awake@[j2]);
                    assert(!orig.chunk_linear(j2).spec_should_update());
                }
            }
        }
        let mut j: usize = 0;
        while j < n
            invariant
                orig.wf(),
                base.wf(),
                n == orig.chunks@.len() == base.chunks@.len(),
                j <= n,
                self.wf(),
                self.chunk_width == base.chunk_width == orig.chunk_width,
                self.chunk_height == base.chunk_height == orig.chunk_height,
                self.chunks_x == base.chunks_x == orig.chunks_x,
                self.chunks_y == base.chunks_y == orig.chunks_y,
                self.chunks@.len() == n,
                self.iteration == orig.iteration,
                merged@.len() == n,
                touched@.len() == n,
                phased.tick_state_ok(base, merged@, touched@),
                phased.solids_kept(base),
                forall|j2: int|
                    0 <= j2 < n ==> #[trigger] awake@[j2] == orig.chunk_linear(
                        j2,
                    ).spec_should_update(),
                forall|j2: int| 0 <= j2 < n && awake@[j2] ==> #[trigger] touched@[j2],
                forall|j2: int|
                    0 <= j2 < n && !awake@[j2] ==> #[trigger] base.chunks@[j2] == orig.chunks@[j2],
                forall|j2: int|
                    0 <= j2 < n && !(#[trigger] touched@[j2]) ==> phased.chunks@[j2]
                        == base.chunks@[j2],
                forall|j2: int|
                    0 <= j2 < n && (#[trigger] touched@[j2]) ==> exists|ax: int, ay: int|
                        in_grid(ax, ay, base.chunks_x as int, base.chunks_y as int) && awake@[
                        #[trigger] base.chunk_index_of(ax, ay)] && (exists|k: int|
                            0 <= k < 9 && base.nb_in(ax, ay, k) && #[trigger] base.nb_index(
                                ax,
                                ay,
                                k,
                            ) == j2),
                (forall|j2: int| 0 <= j2 < n ==> !(#[trigger] awake@[j2])) ==> (forall|j2: int|
                    0 <= j2 < n ==> #[trigger] phased.chunks@[j2] == orig.chunks@[j2]),
                forall|j2: int|
                    0 <= j2 < n ==> base.chunks@[j2] is Some && chunk_same_shape(
                        #[trigger] base.chunk_linear(j2),
                        orig.chunk_linear(j2),
                    ) && cells_content_eq(
                        base.chunk_linear(j2).cells@,
                        orig.chunk_linear(j2).cells@,
                    ),
                (orig.all_cells_empty() && orig.all_overrides_zero()) ==> forall|j2: int|
                    0 <= j2 < n ==> ((#[trigger] merged@[j2])@.len() == 0 && (!touched@[j2]
                        ==> phased.chunk_linear(j2).current_dirty_rect.spec_is_empty())),
                forall|j2: int| j <= j2 < n ==> #[trigger] self.chunks@[j2] == phased.chunks@[j2],
                forall|j2: int|
                    0 <= j2 < j ==> {
                        &&& (#[trigger] self.chunks@[j2]) is Some
                        &&& self.chunk_linear(j2).cells@ == phased.chunk_linear(j2).cells@
                        &&& touched@[j2] ==> ((forall|x: int, y: int|
                            rec_in(merged@[j2]@, x, y) ==> self.chunk_linear(
                                j2,
                            ).current_dirty_rect.spec_contains(x, y)) && (self.chunk_linear(
                            j2,
                        ).current_dirty_rect.spec_is_empty() <==> merged@[j2]@.len() == 0))
                        &&& touched@[j2] ==> self.chunk_linear(j2).previous_dirty_rect
                            == phased.chunk_linear(j2).current_dirty_rect
                        &&& touched@[j2] ==> (self.chunk_linear(j2).render_override
                            == phased.chunk_linear(j2).render_override || (phased.chunk_linear(
                            j2,
                        ).render_override > 0 && self.chunk_linear(j2).render_override
                            == phased.chunk_linear(j2).render_override - 1))
                        &&& !touched@[j2] ==> self.chunks@[j2] == phased.chunks@[j2]
                    },
            decreases n - j,
        {
            proof {
                let cxj = j as int % (base.chunks_x as int);
                let cyj = j as int / (base.chunks_x as int);
                lemma_fundamental_div_mod(j as int, base.chunks_x as int);
                lemma_div_in_range(j as int, base.chunks_x as int, base.chunks_y as int);
                assert(cyj * (base.chunks_x as int) == (base.chunks_x as int) * cyj);
                assert(self.chunk_ok(cxj, cyj));
            }
            if touched[j] {
                let ghost before_apply = *self;
                proof {
                    let cxj = j as int % (base.chunks_x as int);
                    let cyj = j as int / (base.chunks_x as int);
                    assert(base.chunk_ok(cxj, cyj));
                }
                let taken = self.chunks[j].take();
                let mut chunk = match taken {
                    Some(c) => c,
                    None => unreached(),
                };
                chunk.swap_rects();
                chunk.construct_dirty_rect(&merged[j]);
                self.chunks[j] = Some(chunk);
                proof {
                    let cxj = j as int % (base.chunks_x as int);
                    let cyj = j as int / (base.chunks_x as int);
                    assert forall|cx2: int, cy2: int|
                        in_grid(cx2, cy2, base.chunks_x as int, base.chunks_y as int) implies
                    #[trigger] self.chunk_ok(cx2, cy2) by {
                        lemma_row_major_bounds(
                            cx2,
                            cy2,
                            base.chunks_x as int,
                            base.chunks_y as int,
                        );
                        if !(cx2 == cxj && cy2 == cyj) {
                            lemma_row_major_injective(
                                cx2,
                                cy2,
                                cxj,
                                cyj,
                                base.chunks_x as int,
                                base.chunks_y as int,
                            );
                            assert(before_apply.chunk_ok(cx2, cy2));
                        } else {
                            assert(base.chunk_ok(cxj, cyj));
                        }
                    }
                    assert forall|x: int, y: int|
                        rec_in(merged@[j as int]@, x, y) implies self.chunk_linear(
                        j as int,
                    ).current_dirty_rect.spec_contains(x, y) by {
                        let i2 = choose|i2: int|
                            0 <= i2 < merged@[j as int]@.len() && (#[trigger] merged@[j as int]@[i2]).x
                                == x && merged@[j as int]@[i2].y == y;
                        assert(self.chunk_linear(j as int).current_dirty_rect.spec_contains(
                            merged@[j as int]@[i2].x as int,
                            merged@[j as int]@[i2].y as int,
                        ));
                    }
                }
            }
            proof {
                if orig.all_cells_empty() && orig.all_overrides_zero() {
                    assert forall|j2: int|
                        0 <= j2 < n implies ((#[trigger] merged@[j2])@.len() == 0 && (!touched@[j2]
                        ==> phased.chunk_linear(j2).current_dirty_rect.spec_is_empty())) by {
                        assert(merged@[j2]@.len() == 0);
                    }
                }
            }
            j = j + 1;
        }
        let ghost before_iter = *self;
        self.iteration = if self.iteration < u32::MAX {
            self.iteration + 1
        } else {
            0
        };
        proof {
            assert forall|cx2: int, cy2: int|
                in_grid(cx2, cy2, orig.chunks_x as int, orig.chunks_y as int) implies
            #[trigger] self.chunk_ok(cx2, cy2) by {
                assert(before_iter.chunk_ok(cx2, cy2));
            }
            // Dirty-rectangle soundness at world level: content that changed
            // this tick lies inside its chunk's new current dirty rectangle.
            assert forall|cx: int, cy: int, x: int, y: int|
                in_grid(cx, cy, orig.chunks_x as int, orig.chunks_y as int) && in_grid(
                    x,
                    y,
                    orig.chunk_width as int,
                    orig.chunk_height as int,
                ) && !same_content(
                    #[trigger] self.chunk_at(cx, cy).cells@[y * orig.chunk_width + x],
                    orig.chunk_at(cx, cy).cells@[y * orig.chunk_width + x],
                ) implies self.chunk_at(cx, cy).current_dirty_rect.spec_contains(x, y) by {
                lemma_row_major_bounds(cx, cy, orig.chunks_x as int, orig.chunks_y as int);
                lemma_row_major_bounds(x, y, orig.chunk_width as int, orig.chunk_height as int);
                let j2 = orig.chunk_index_of(cx, cy);
                assert(orig.chunk_ok(cx, cy));
                assert(base.chunks@[j2] is Some);
                assert(cells_content_eq(
                    base.chunk_linear(j2).cells@,
                    orig.chunk_linear(j2).cells@,
                ));
                assert(same_content(
                    base.chunk_linear(j2).cells@[y * orig.chunk_width + x],
                    orig.chunk_linear(j2).cells@[y * orig.chunk_width + x],
                ));
                assert(self.chunk_linear(j2).cells@[y * orig.chunk_width + x]
                    == phased.chunk_linear(j2).cells@[y * orig.chunk_width + x]);
                assert(phased.chunk_linear(j2).cells@[y * orig.chunk_width + x]
                    != base.chunk_linear(j2).cells@[y * orig.chunk_width + x]);
                assert(rec_in(merged@[j2]@, x, y));
                assert(merged@[j2]@.len() > 0);
                assert(touched@[j2]);
            }
            // The fold: every chunk's previous rectangle is either last
            // tick's current one (chunks the merge processed) or untouched.
            assert forall|j2: int|
                0 <= j2 < n implies ((#[trigger] self.chunk_linear(j2)).previous_dirty_rect
                == orig.chunk_linear(j2).current_dirty_rect || self.chunk_linear(
                j2,
            ).previous_dirty_rect == orig.chunk_linear(j2).previous_dirty_rect) by {
                assert(chunk_same_shape(phased.chunk_linear(j2), base.chunk_linear(j2)));
                assert(chunk_same_shape(base.chunk_linear(j2), orig.chunk_linear(j2)));
            }
            assert forall|j2: int|
                0 <= j2 < n && orig.chunk_linear(j2).spec_should_update() implies (
            #[trigger] self.chunk_linear(j2)).previous_dirty_rect == orig.chunk_linear(
                j2,
            ).current_dirty_rect by {
                assert(awake@[j2]);
                assert(touched@[j2]);
                assert(chunk_same_shape(phased.chunk_linear(j2), base.chunk_linear(j2)));
                assert(chunk_same_shape(base.chunk_linear(j2), orig.chunk_linear(j2)));
            }
            // Overrides only count down, by at most one.
            assert forall|j2: int|
                0 <= j2 < n implies ((#[trigger] self.chunk_linear(j2)).render_override
                == orig.chunk_linear(j2).render_override || (orig.chunk_linear(
                j2,
            ).render_override > 0 && self.chunk_linear(j2).render_override == orig.chunk_linear(
                j2,
            ).render_override - 1)) by {
                assert(chunk_same_shape(phased.chunk_linear(j2), base.chunk_linear(j2)));
                assert(chunk_same_shape(base.chunk_linear(j2), orig.chunk_linear(j2)));
            }
            // Hard solids and rigid bodies kept their content.
            assert forall|j2: int, i: int|
                0 <= j2 < n && 0 <= i < orig.chunk_linear(j2).cells@.len() && ((
            #[trigger] orig.chunk_linear(j2).cells@[i]).physics is HardSolid || orig.chunk_linear(
                j2,
            ).cells@[i].physics is RigidBody) implies same_content(
                self.chunk_linear(j2).cells@[i],
                orig.chunk_linear(j2).cells@[i],
            ) by {
                assert(cells_content_eq(
                    base.chunk_linear(j2).cells@,
                    orig.chunk_linear(j2).cells@,
                ));
                assert(same_content(
                    base.chunk_linear(j2).cells@[i],
                    orig.chunk_linear(j2).cells@[i],
                ));
                assert(phased.chunk_linear(j2).cells@[i] == base.chunk_linear(j2).cells@[i]);
                assert(self.chunk_linear(j2).cells@[i] == phased.chunk_linear(j2).cells@[i]);
            }
            // A fully asleep world is untouched but for the tick counter.
            if (forall|j2: int|
                0 <= j2 < n ==> !(#[trigger] orig.chunk_linear(j2)).spec_should_update()) {
                assert forall|j2: int|
                    0 <= j2 < n implies #[trigger] self.chunks@[j2] == orig.chunks@[j2] by {
                    assert(!awake@[j2]);
                    assert(!touched@[j2]);
                    assert(self.chunks@[j2] == phased.chunks@[j2]);
                    assert(phased.chunks@[j2] == orig.chunks@[j2]);
                }
            }
            // A chunk with no awake chunk anywhere in its 3x3 neighbourhood
            // is untouched by the whole tick.
            let gx = orig.chunks_x as int;
            let gy = orig.chunks_y as int;
            assert forall|cx2: int, cy2: int|
                in_grid(cx2, cy2, gx, gy) && (forall|dx: int, dy: int|
                    -1 <= dx <= 1 && -1 <= dy <= 1 && in_grid(cx2 + dx, cy2 + dy, gx, gy) ==> !(
                    #[trigger] orig.chunk_linear(
                        orig.chunk_index_of(cx2 + dx, cy2 + dy),
                    )).spec_should_update()) implies #[trigger] self.chunks@[orig.chunk_index_of(
                cx2,
                cy2,
            )] == orig.chunks@[orig.chunk_index_of(cx2, cy2)] by {
                lemma_row_major_bounds(cx2, cy2, gx, gy);
                let j2 = orig.chunk_index_of(cx2, cy2);
                assert(orig.chunk_index_of(cx2 + 0, cy2 + 0) == j2);
                assert(!orig.chunk_linear(j2).spec_should_update());
                assert(!awake@[j2]);
                if touched@[j2] {
                    let (ax, ay) = choose|ax: int, ay: int|
                        in_grid(ax, ay, base.chunks_x as int, base.chunks_y as int) && awake@[
                        #[trigger] base.chunk_index_of(ax, ay)] && (exists|k: int|
                            0 <= k < 9 && base.nb_in(ax, ay, k) && #[trigger] base.nb_index(
                                ax,
                                ay,
                                k,
                            ) == j2);
                    let k = choose|k: int|
                        0 <= k < 9 && base.nb_in(ax, ay, k) && #[trigger] base.nb_index(
                            ax,
                            ay,
                            k,
                        ) == j2;
                    lemma_row_major_bounds(ax + slot_dx(k), ay + slot_dy(k), gx, gy);
                    if !(ax + slot_dx(k) == cx2 && ay + slot_dy(k) == cy2) {
                        lemma_row_major_injective(
                            ax + slot_dx(k),
                            ay + slot_dy(k),
                            cx2,
                            cy2,
                            gx,
                            gy,
                        );
                        assert(false);
                    }
                    assert(-1 <= cx2 - ax <= 1 && -1 <= cy2 - ay <= 1);
                    lemma_row_major_bounds(ax, ay, gx, gy);
                    assert(orig.chunk_index_of(cx2 + (ax - cx2), cy2 + (ay - cy2))
                        == orig.chunk_index_of(ax, ay));
                    assert(!orig.chunk_linear(
                        orig.chunk_index_of(ax, ay),
                    ).spec_should_update());
                    assert(!awake@[base.chunk_index_of(ax, ay)]);
                    assert(false);
                }
                assert(phased.chunks@[j2] == base.chunks@[j2]);
                assert(base.chunks@[j2] == orig.chunks@[j2]);
                assert(self.chunks@[j2] == phased.chunks@[j2]);
            }
        }
    }
}

} // verus!
