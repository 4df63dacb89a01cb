use sand_engine::cell::{Cell, CellType, PhysicsType};
use sand_engine::geometry_helpers::Point;
use sand_engine::chunk::PixelChunk;
use sand_engine::world::{phase_selects, PixelWorld};

#[test]
fn test_chunk_new() {
    let chunk = PixelChunk::new(8, 8, Point::new(2, 3));
    assert_eq!(chunk.width, 8);
    assert_eq!(chunk.height, 8);
    assert_eq!(chunk.position, Point::new(2, 3));
    assert_eq!(chunk.cells.len(), 64);
    // The fresh dirty rectangle covers the whole chunk, so the first tick
    // scans everything.
    assert!(chunk.should_update());
    assert!(chunk.current_dirty_rect.contains(&Point::new(0, 0)));
    assert!(chunk.current_dirty_rect.contains(&Point::new(7, 7)));
    assert!(chunk.previous_dirty_rect.is_empty());
    for cell in &chunk.cells {
        assert!(cell.is_empty());
    }
}

#[test]
fn test_chunk_get_index() {
    let chunk = PixelChunk::new(8, 4, Point::new(0, 0));
    assert_eq!(chunk.get_index(0, 0), 0);
    assert_eq!(chunk.get_index(7, 0), 7);
    assert_eq!(chunk.get_index(0, 1), 8);
    assert_eq!(chunk.get_index(3, 2), 19);
    assert_eq!(sand_engine::chunk::get_index(3, 2, 8), 19);
}

#[test]
fn test_chunk_set_cell_round_trip() {
    let mut chunk = PixelChunk::new(8, 8, Point::new(0, 0));
    let sand = Cell::new(CellType::Sand);
    chunk.set_cell(5, 2, sand);
    assert_eq!(chunk.get_cell(Point::new(5, 2)), sand);
    assert!(chunk.current_dirty_rect.contains(&Point::new(5, 2)));
}

#[test]
fn test_dirty_rect_covers_every_written_position() {
    // Dirty-rectangle soundness over a whole write sequence: after any
    // sequence of set_cell calls the current rectangle contains every
    // written position.
    let mut chunk = PixelChunk::new(16, 16, Point::new(0, 0));
    chunk.swap_rects();
    assert!(chunk.current_dirty_rect.is_empty());
    let writes = [(3, 4), (0, 0), (15, 2), (7, 9), (12, 12), (1, 14), (8, 8)];
    for (i, (x, y)) in writes.iter().enumerate() {
        let cell = if i % 2 == 0 {
            Cell::new(CellType::Sand)
        } else {
            Cell::new(CellType::Water)
        };
        chunk.set_cell(*x, *y, cell);
        for (px, py) in writes.iter().take(i + 1) {
            assert!(chunk.current_dirty_rect.contains(&Point::new(*px, *py)));
        }
    }
}

#[test]
fn test_swap_rects() {
    let mut chunk = PixelChunk::new(8, 8, Point::new(0, 0));
    chunk.swap_rects();
    // The full-extent rectangle moved into the previous slot: the region
    // that was active still owes one settling pass, so the chunk stays
    // awake for exactly one more tick.
    assert!(chunk.current_dirty_rect.is_empty());
    assert!(chunk.previous_dirty_rect.contains(&Point::new(0, 0)));
    assert!(chunk.previous_dirty_rect.contains(&Point::new(7, 7)));
    assert!(chunk.should_update());
    // After the settling pass found nothing, both rectangles are empty and
    // the chunk sleeps.
    chunk.swap_rects();
    assert!(chunk.current_dirty_rect.is_empty());
    assert!(chunk.previous_dirty_rect.is_empty());
    assert!(!chunk.should_update());
}

#[test]
fn test_construct_dirty_rect() {
    let mut chunk = PixelChunk::new(8, 8, Point::new(0, 0));
    let points = vec![Point::new(1, 1), Point::new(4, 6)];
    chunk.construct_dirty_rect(&points);
    assert!(chunk.current_dirty_rect.contains(&Point::new(1, 1)));
    assert!(chunk.current_dirty_rect.contains(&Point::new(4, 6)));
    assert!(chunk.should_update());
    // An empty point list empties the rectangle and ticks a pending forced
    // redraw down.
    chunk.render_override = 2;
    chunk.construct_dirty_rect(&Vec::new());
    assert!(chunk.current_dirty_rect.is_empty());
    assert_eq!(chunk.render_override, 1);
    assert!(chunk.should_update());
    chunk.construct_dirty_rect(&Vec::new());
    assert_eq!(chunk.render_override, 0);
    assert!(!chunk.should_update());
}

#[test]
fn test_commit_cells_unupdated() {
    let mut chunk = PixelChunk::new(4, 4, Point::new(0, 0));
    let mut marked = Cell::new(CellType::Sand);
    marked.updated = true;
    chunk.set_cell(2, 2, marked);
    chunk.commit_cells_unupdated();
    let cell = chunk.get_cell(Point::new(2, 2));
    assert!(!cell.updated);
    assert_eq!(cell.physics, marked.physics);
    assert_eq!(cell.color, marked.color);
}

#[test]
fn test_cells_as_occupancy() {
    let mut chunk = PixelChunk::new(4, 4, Point::new(0, 0));
    chunk.set_cell(1, 0, Cell::new(CellType::Stone));
    chunk.set_cell(3, 3, Cell::new(CellType::Water));
    let occupancy = chunk.cells_as_occupancy();
    assert_eq!(occupancy.len(), 16);
    assert_eq!(occupancy[0], 0);
    assert_eq!(occupancy[1], 1);
    assert_eq!(occupancy[15], 1);
    assert_eq!(occupancy.iter().map(|&v| v as u32).sum::<u32>(), 2);
}

#[test]
fn test_render_chunk_bytes() {
    let mut chunk = PixelChunk::new(4, 4, Point::new(0, 0));
    let cell = Cell::new(CellType::Sand);
    chunk.set_cell(2, 1, cell);
    let bytes = chunk.render_chunk();
    assert_eq!(bytes.len(), 4 * 16);
    let idx = chunk.get_index(2, 1);
    assert_eq!(bytes[4 * idx], cell.color.r);
    assert_eq!(bytes[4 * idx + 1], cell.color.g);
    assert_eq!(bytes[4 * idx + 2], cell.color.b);
    assert_eq!(bytes[4 * idx + 3], cell.color.a);
    // An empty cell renders as four zero bytes.
    assert_eq!(&bytes[0..4], &[0, 0, 0, 0]);
}

#[test]
fn test_world_new() {
    let world = PixelWorld::new(64, 32, 4, 2);
    assert_eq!(world.get_chunk_width(), 16);
    assert_eq!(world.get_chunk_height(), 16);
    assert_eq!(world.get_total_width(), 64);
    assert_eq!(world.get_total_height(), 32);
    assert_eq!(world.get_chunks().len(), 8);
    assert_eq!(world.get_chunk_dirty_rects().len(), 8);
}

#[test]
fn test_cell_to_chunk_position_floor_semantics() {
    // Negative coordinates resolve by floor division, not truncation.
    assert_eq!(PixelWorld::cell_to_chunk_position(8, 8, Point::new(-1, -1)), Point::new(-1, -1));
    assert_eq!(PixelWorld::cell_to_chunk_position(8, 8, Point::new(7, 8)), Point::new(0, 1));
    assert_eq!(PixelWorld::cell_to_chunk_position(8, 8, Point::new(-8, -9)), Point::new(-1, -2));
    assert_eq!(PixelWorld::cell_to_position_in_chunk(8, 8, Point::new(-1, -9)), Point::new(7, 7));
    assert_eq!(PixelWorld::cell_to_position_in_chunk(8, 8, Point::new(10, 3)), Point::new(2, 3));
}

#[test]
fn test_round_trip_placement() {
    // Placing a cell from outside and reading it back gives the same cell,
    // before any tick runs.
    let mut world = PixelWorld::new(16, 16, 2, 2);
    let sand = Cell::new(CellType::Sand);
    world.set_cell_external(Point::new(9, 4), sand);
    assert_eq!(world.get_cell(Point::new(9, 4)), Some(sand));
    assert!(world.cell_inside_dirty(Point::new(9, 4)));
    // The receiving chunk gets a short forced redraw.
    let water = Cell::new(CellType::Water);
    world.set_cell_external(Point::new(0, 0), water);
    assert_eq!(world.get_cell(Point::new(0, 0)), Some(water));
}

#[test]
fn test_edge_of_world_reads_are_absent() {
    let mut world = PixelWorld::new(16, 16, 2, 2);
    assert_eq!(world.get_cell(Point::new(-1, 0)), None);
    assert_eq!(world.get_cell(Point::new(0, -1)), None);
    assert_eq!(world.get_cell(Point::new(16, 0)), None);
    assert_eq!(world.get_cell(Point::new(0, 16)), None);
    assert_eq!(world.get_cell(Point::new(i32::MIN, i32::MAX)), None);
    assert!(!world.cell_inside_dirty(Point::new(-3, 5)));
    // Writes outside the world are silent no-ops.
    world.set_cell_external(Point::new(-1, -1), Cell::new(CellType::Sand));
    world.set_cell_external(Point::new(100, 100), Cell::new(CellType::Sand));
    for x in 0..16 {
        for y in 0..16 {
            assert_eq!(world.get_cell(Point::new(x, y)), Some(Cell::empty()));
        }
    }
}

#[test]
fn test_should_render_data() {
    let world = PixelWorld::new(16, 16, 2, 2);
    // Fresh chunks need their first draw.
    let bytes = world.should_render_data(Point::new(0, 0));
    assert!(bytes.is_some());
    assert_eq!(bytes.unwrap().len(), 8 * 8 * 4);
    // Chunk coordinates outside the grid yield nothing.
    assert!(world.should_render_data(Point::new(2, 0)).is_none());
    assert!(world.should_render_data(Point::new(-1, 0)).is_none());
}

#[test]
fn test_empty_world_settles_within_two_ticks() {
    // A wholly empty world with no pending redraws produces empty current
    // dirty rectangles after a single tick; the previous rectangles keep
    // every chunk awake for exactly one settling pass, and after the second
    // tick everything sleeps and stays asleep.
    let mut world = PixelWorld::new(16, 16, 2, 2);
    world.update();
    for (_, rect) in world.get_chunk_dirty_rects() {
        assert!(rect.is_empty());
    }
    assert!(!world.get_awake_chunk_locs().is_empty());
    world.update();
    for (_, rect) in world.get_chunk_dirty_rects() {
        assert!(rect.is_empty());
    }
    assert!(world.get_awake_chunk_locs().is_empty());
    for cx in 0..2 {
        for cy in 0..2 {
            assert!(world.should_render_data(Point::new(cx, cy)).is_none());
        }
    }
    // And it stays asleep.
    world.update();
    assert!(world.get_awake_chunk_locs().is_empty());
}

#[test]
fn test_checkerboard_phases_never_adjacent() {
    // For each of the 4 phases, any two chunk coordinates selected by the
    // same phase are at Chebyshev distance of at least 2; exhaustive over a
    // small grid.
    for (px, py) in [(0, 0), (1, 0), (0, 1), (1, 1)] {
        for x1 in 0..4 {
            for y1 in 0..4 {
                for x2 in 0..4 {
                    for y2 in 0..4 {
                        if (x1, y1) == (x2, y2) {
                            continue;
                        }
                        if phase_selects(px, py, x1, y1) && phase_selects(px, py, x2, y2) {
                            let chebyshev = (x1 - x2).abs().max((y1 - y2).abs());
                            assert!(chebyshev >= 2);
                        }
                    }
                }
            }
        }
    }
}

fn find_sand_cells(world: &PixelWorld) -> Vec<(i32, i32)> {
    let mut found = Vec::new();
    for y in 0..world.get_total_height() {
        for x in 0..world.get_total_width() {
            if let Some(cell) = world.get_cell(Point::new(x, y)) {
                if !matches!(cell.physics, PhysicsType::Empty) {
                    assert!(matches!(cell.physics, PhysicsType::SoftSolid(CellType::Sand)));
                    found.push((x, y));
                }
            }
        }
    }
    found
}

#[test]
fn test_single_sand_grain_falls_to_the_bottom() {
    // A 2x2-chunk world of 8x8 chunks with one sand cell at the top middle:
    // the grain sinks to the bottom row within a bounded number of ticks,
    // never leaves the world, and never teleports sideways.
    let mut world = PixelWorld::new(16, 16, 2, 2);
    world.set_cell_external(Point::new(8, 15), Cell::new(CellType::Sand));
    let mut previous = (8, 15);
    for _ in 0..48 {
        world.update();
        let cells = find_sand_cells(&world);
        assert_eq!(cells.len(), 1);
        let (x, y) = cells[0];
        assert!(x >= 0 && x < 16);
        assert!(y >= 0);
        // Gravity only: the grain never rises, and one tick moves it at
        // most two cells in either axis.
        assert!(y <= previous.1);
        assert!(previous.1 - y <= 2);
        assert!((x - previous.0).abs() <= 2);
        previous = (x, y);
    }
    assert_eq!(previous.1, 0);
}

#[test]
fn test_sand_column_settles() {
    // Several grains dropped in one column settle into a pile that keeps
    // every grain: no cell is lost or duplicated by the passes.
    let mut world = PixelWorld::new(16, 16, 2, 2);
    for y in 10..14 {
        world.set_cell_external(Point::new(5, y), Cell::new(CellType::Sand));
    }
    for _ in 0..60 {
        world.update();
        assert_eq!(find_sand_cells(&world).len(), 4);
    }
    // Everything has come to rest at the floor rows.
    for (_, y) in find_sand_cells(&world) {
        assert!(y <= 2);
    }
}

fn find_cells_of(world: &PixelWorld, want: fn(&PhysicsType) -> bool) -> Vec<(i32, i32)> {
    let mut found = Vec::new();
    for y in 0..world.get_total_height() {
        for x in 0..world.get_total_width() {
            if let Some(cell) = world.get_cell(Point::new(x, y)) {
                if want(&cell.physics) {
                    found.push((x, y));
                }
            }
        }
    }
    found
}

#[test]
fn test_water_falls_and_stays_on_the_floor() {
    let mut world = PixelWorld::new(16, 16, 2, 2);
    world.set_cell_external(Point::new(8, 12), Cell::new(CellType::Water));
    for _ in 0..40 {
        world.update();
        let cells = find_cells_of(&world, |p| matches!(p, PhysicsType::Liquid(CellType::Water)));
        assert_eq!(cells.len(), 1);
        assert!(cells[0].0 >= 0 && cells[0].0 < 16);
        assert!(cells[0].1 >= 0);
    }
    // Liquids fall like solids; the floor is where it ends up (it may keep
    // sliding sideways there, but never below it or off the edge).
    let cells = find_cells_of(&world, |p| matches!(p, PhysicsType::Liquid(CellType::Water)));
    assert_eq!(cells[0].1, 0);
}

#[test]
fn test_smoke_rises_to_the_ceiling() {
    let mut world = PixelWorld::new(16, 16, 2, 2);
    world.set_cell_external(Point::new(8, 2), Cell::new(CellType::Smoke));
    for _ in 0..40 {
        world.update();
        let cells = find_cells_of(&world, |p| matches!(p, PhysicsType::Gas(CellType::Smoke)));
        assert_eq!(cells.len(), 1);
        assert!(cells[0].0 >= 0 && cells[0].0 < 16);
        assert!(cells[0].1 < 16);
    }
    // Gas is buoyant: it ends up on the top row and stays inside the world.
    let cells = find_cells_of(&world, |p| matches!(p, PhysicsType::Gas(CellType::Smoke)));
    assert_eq!(cells[0].1, 15);
}

#[test]
fn test_stone_never_moves() {
    let mut world = PixelWorld::new(16, 16, 2, 2);
    world.set_cell_external(Point::new(5, 9), Cell::new(CellType::Stone));
    for _ in 0..20 {
        world.update();
    }
    let cells = find_cells_of(&world, |p| matches!(p, PhysicsType::HardSolid(CellType::Stone)));
    assert_eq!(cells, vec![(5, 9)]);
}

#[test]
fn test_place_cells_paints_a_disc() {
    // The brush fills a squared-radius disc: with amount 8 the radius is 2,
    // giving the 13 offsets whose squared distance is at most 4.
    let mut world = PixelWorld::new(16, 16, 2, 2);
    world.place_cells(Point::new(8, 8), 8, CellType::Sand);
    let mut painted = Vec::new();
    for x in 0..16 {
        for y in 0..16 {
            let cell = world.get_cell(Point::new(x, y)).unwrap();
            if !cell.is_empty() {
                assert!(matches!(cell.physics, PhysicsType::SoftSolid(CellType::Sand)));
                painted.push((x, y));
            }
        }
    }
    assert_eq!(painted.len(), 13);
    for (x, y) in painted {
        let dx = x - 8;
        let dy = y - 8;
        assert!(dx * dx + dy * dy <= 4);
    }
    // Painting near a corner stays inside the world.
    let mut world = PixelWorld::new(16, 16, 2, 2);
    world.place_cells(Point::new(0, 0), 8, CellType::Water);
    assert!(world.get_cell(Point::new(0, 0)).unwrap().physics
        == PhysicsType::Liquid(CellType::Water));
}

#[test]
fn test_sand_at_bottom_stays_put() {
    // The world edge is treated as blocked: a grain on the floor has nowhere
    // to go and must not fall out of the world.
    let mut world = PixelWorld::new(16, 16, 2, 2);
    world.set_cell_external(Point::new(7, 0), Cell::new(CellType::Sand));
    for _ in 0..10 {
        world.update();
    }
    let cells = find_sand_cells(&world);
    assert_eq!(cells.len(), 1);
    assert_eq!(cells[0].1, 0);
}
