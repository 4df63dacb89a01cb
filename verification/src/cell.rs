//! Cells: the material table and the per-cell state.
//!
//! A cell is a value type: a physics tag over a material, a fixed RGBA colour
//! chosen (with a small random jitter) at creation, and the `updated` marker
//! that prevents a cell from being moved twice within one tick.

use vstd::prelude::*;

use crate::rng::random_below;

verus! {

/// The materials of the simulation.
#[derive(Clone, Copy, PartialEq, Eq, Structural, Debug)]
pub enum CellType {
    Empty,
    Sand,
    Dirt,
    Stone,
    Water,
    Smoke,
}

/// Density scale: the density of the heaviest material.
pub const MAX_DENSITY: u32 = 100;

impl CellType {
    /// How likely a cell is to sink through less dense cells, on a scale of
    /// 0 (vacuum) to [`MAX_DENSITY`] (stone).
    pub fn cell_density(&self) -> (r: u32)
        ensures
            r == self.spec_density(),
    {
        match self {
            CellType::Empty => 0,
            CellType::Sand => 60,
            CellType::Dirt => 60,
            CellType::Stone => 100,
            CellType::Water => 50,
            CellType::Smoke => 10,
        }
    }

    pub open spec fn spec_density(self) -> u32 {
        match self {
            CellType::Empty => 0,
            CellType::Sand => 60,
            CellType::Dirt => 60,
            CellType::Stone => 100,
            CellType::Water => 50,
            CellType::Smoke => 10,
        }
    }

    /// How likely a cell is to stay in place rather than look sideways for a
    /// new position, in hundredths.
    pub fn cell_inertia(&self) -> (r: u32)
        ensures
            r == self.spec_inertia(),
    {
        match self {
            CellType::Empty => 0,
            CellType::Sand => 50,
            CellType::Dirt => 65,
            CellType::Stone => 90,
            CellType::Water => 40,
            CellType::Smoke => 20,
        }
    }

    pub open spec fn spec_inertia(self) -> u32 {
        match self {
            CellType::Empty => 0,
            CellType::Sand => 50,
            CellType::Dirt => 65,
            CellType::Stone => 90,
            CellType::Water => 40,
            CellType::Smoke => 20,
        }
    }

    /// Mass of one cell, in tenths.
    pub fn cell_mass(&self) -> (r: u32)
        ensures
            r == self.spec_mass(),
    {
        match self {
            CellType::Empty => 0,
            CellType::Sand => 10,
            CellType::Dirt => 15,
            CellType::Stone => 30,
            CellType::Water => 10,
            CellType::Smoke => 1,
        }
    }

    pub open spec fn spec_mass(self) -> u32 {
        match self {
            CellType::Empty => 0,
            CellType::Sand => 10,
            CellType::Dirt => 15,
            CellType::Stone => 30,
            CellType::Water => 10,
            CellType::Smoke => 1,
        }
    }

    /// The colour band a material's cells are drawn from: each channel lies
    /// within its documented jitter band around the material's base colour,
    /// with the material's fixed alpha; emptiness is the exact transparent
    /// black.
    pub open spec fn spec_color_in_bands(self, c: Rgba) -> bool {
        match self {
            CellType::Empty => c == (Rgba { r: 0, g: 0, b: 0, a: 0 }),
            CellType::Sand => 210 <= c.r < 250 && 175 <= c.g < 215 && 72 <= c.b < 112 && c.a
                == 255,
            CellType::Dirt => 129 <= c.r < 149 && 59 <= c.g < 79 && 9 <= c.b < 29 && c.a == 255,
            CellType::Stone => 70 <= c.r < 90 && 70 <= c.g < 90 && 70 <= c.b < 90 && c.a == 255,
            CellType::Water => 0 <= c.r < 40 && 105 <= c.g < 145 && 185 <= c.b < 225 && c.a
                == 150,
            CellType::Smoke => 172 <= c.r < 212 && 172 <= c.g < 212 && 172 <= c.b < 212 && c.a
                == 150,
        }
    }

    /// The material's display colour: a fixed base with a small random jitter
    /// per instantiation, so two cells of one material differ slightly.
    pub fn cell_color(&self) -> (r: Rgba)
        ensures
            self.spec_color_in_bands(r),
            r.a == self.spec_alpha(),
            *self is Empty ==> r == (Rgba { r: 0, g: 0, b: 0, a: 0 }),
    {
        match self {
            CellType::Empty => Rgba { r: 0, g: 0, b: 0, a: 0 },
            CellType::Sand => Rgba {
                r: jitter(230, 20),
                g: jitter(195, 20),
                b: jitter(92, 20),
                a: 255,
            },
            CellType::Dirt => Rgba {
                r: jitter(139, 10),
                g: jitter(69, 10),
                b: jitter(19, 10),
                a: 255,
            },
            CellType::Stone => Rgba {
                r: jitter(80, 10),
                g: jitter(80, 10),
                b: jitter(80, 10),
                a: 255,
            },
            CellType::Water => Rgba {
                r: jitter(20, 20),
                g: jitter(125, 20),
                b: jitter(205, 20),
                a: 150,
            },
            CellType::Smoke => Rgba {
                r: jitter(192, 20),
                g: jitter(192, 20),
                b: jitter(192, 20),
                a: 150,
            },
        }
    }

    /// The alpha channel of the material's colour: opaque solids, translucent
    /// fluids, fully transparent emptiness.
    pub open spec fn spec_alpha(self) -> u8 {
        match self {
            CellType::Empty => 0,
            CellType::Sand => 255,
            CellType::Dirt => 255,
            CellType::Stone => 255,
            CellType::Water => 150,
            CellType::Smoke => 150,
        }
    }
}

/// A colour channel drawn uniformly from `[base - spread, base + spread)`.
fn jitter(base: u8, spread: u8) -> (r: u8)
    requires
        0 < spread <= base,
        base + spread <= 255,
    ensures
        base - spread <= r < base + spread,
{
    let offset = random_below(2 * (spread as u32));
    (base - spread) + (offset as u8)
}

/// A 4-byte RGBA colour.
#[derive(Clone, Copy, PartialEq, Eq, Structural, Debug)]
pub struct Rgba {
    pub r: u8,
    pub g: u8,
    pub b: u8,
    pub a: u8,
}

/// The physics category of a cell; every moving category carries the material
/// it is made of.
#[derive(Clone, Copy, PartialEq, Eq, Structural, Debug)]
pub enum PhysicsType {
    Empty,
    /// Soft solid, like sand, that falls and slides diagonally.
    SoftSolid(CellType),
    /// Hard solid, like stone, that never moves.
    HardSolid(CellType),
    /// Liquid, like water: falls and spreads sideways.
    Liquid(CellType),
    /// Gas, like smoke: rises and spreads sideways.
    Gas(CellType),
    /// A cell occupied by a rigid body; it holds a material but takes no part
    /// in the cell physics.
    RigidBody(CellType),
}

impl PhysicsType {
    /// The physics category a free cell of the given material starts in.
    pub open spec fn spec_of_cell_type(cell_type: CellType) -> PhysicsType {
        match cell_type {
            CellType::Empty => PhysicsType::Empty,
            CellType::Sand => PhysicsType::SoftSolid(cell_type),
            CellType::Dirt => PhysicsType::SoftSolid(cell_type),
            CellType::Stone => PhysicsType::HardSolid(cell_type),
            CellType::Water => PhysicsType::Liquid(cell_type),
            CellType::Smoke => PhysicsType::Gas(cell_type),
        }
    }

    pub fn of_cell_type(cell_type: CellType) -> (r: PhysicsType)
        ensures
            r == PhysicsType::spec_of_cell_type(cell_type),
    {
        match cell_type {
            CellType::Empty => PhysicsType::Empty,
            CellType::Sand => PhysicsType::SoftSolid(cell_type),
            CellType::Dirt => PhysicsType::SoftSolid(cell_type),
            CellType::Stone => PhysicsType::HardSolid(cell_type),
            CellType::Water => PhysicsType::Liquid(cell_type),
            CellType::Smoke => PhysicsType::Gas(cell_type),
        }
    }

    /// The material the cell is made of.
    pub fn cell_type(&self) -> (r: CellType)
        ensures
            r == self.spec_cell_type(),
    {
        match self {
            PhysicsType::Empty => CellType::Empty,
            PhysicsType::SoftSolid(cell_type) => *cell_type,
            PhysicsType::HardSolid(cell_type) => *cell_type,
            PhysicsType::Liquid(cell_type) => *cell_type,
            PhysicsType::Gas(cell_type) => *cell_type,
            PhysicsType::RigidBody(cell_type) => *cell_type,
        }
    }

    pub open spec fn spec_cell_type(self) -> CellType {
        match self {
            PhysicsType::Empty => CellType::Empty,
            PhysicsType::SoftSolid(cell_type) => cell_type,
            PhysicsType::HardSolid(cell_type) => cell_type,
            PhysicsType::Liquid(cell_type) => cell_type,
            PhysicsType::Gas(cell_type) => cell_type,
            PhysicsType::RigidBody(cell_type) => cell_type,
        }
    }
}

/// One cell of the grid.
#[derive(Clone, Copy, PartialEq, Eq, Structural, Debug)]
pub struct Cell {
    pub color: Rgba,
    pub physics: PhysicsType,
    /// True once this cell has been written during the current tick's pass.
    pub updated: bool,
}

impl Cell {
    /// A free cell of the given material, with a jittered material colour and
    /// no pending update mark.
    pub fn new(cell_type: CellType) -> (r: Cell)
        ensures
            r.physics == PhysicsType::spec_of_cell_type(cell_type),
            r.updated == false,
            cell_type.spec_color_in_bands(r.color),
            r.color.a == cell_type.spec_alpha(),
    {
        Cell { color: cell_type.cell_color(), physics: PhysicsType::of_cell_type(cell_type), updated: false }
    }

    /// The canonical empty cell.
    pub fn empty() -> (r: Cell)
        ensures
            r == Cell::spec_empty(),
    {
        Cell {
            color: Rgba { r: 0, g: 0, b: 0, a: 0 },
            physics: PhysicsType::Empty,
            updated: false,
        }
    }

    pub open spec fn spec_empty() -> Cell {
        Cell {
            color: Rgba { r: 0, g: 0, b: 0, a: 0 },
            physics: PhysicsType::Empty,
            updated: false,
        }
    }

    /// An opaque black rigid-body placeholder cell, already marked updated so
    /// the cell physics leaves it alone for the rest of the tick.
    pub fn object() -> (r: Cell)
        ensures
            r.physics == PhysicsType::RigidBody(CellType::Empty),
            r.updated == true,
            r.color == (Rgba { r: 0, g: 0, b: 0, a: 255 }),
    {
        Cell {
            color: Rgba { r: 0, g: 0, b: 0, a: 255 },
            physics: PhysicsType::RigidBody(CellType::Empty),
            updated: true,
        }
    }

    /// A rigid-body cell of the given material with an externally supplied
    /// colour.
    pub fn with_cell_and_color_rigidbody(cell_type: CellType, color: Rgba) -> (r: Cell)
        ensures
            r.physics == PhysicsType::RigidBody(cell_type),
            r.color == color,
            r.updated == false,
    {
        Cell { color, physics: PhysicsType::RigidBody(cell_type), updated: false }
    }

    pub fn is_empty(&self) -> (r: bool)
        ensures
            r == (self.physics is Empty),
    {
        matches!(self.physics, PhysicsType::Empty)
    }
}

impl Default for Cell {
    /// The canonical empty cell.
    fn default() -> (r: Cell)
        ensures
            r == Cell::spec_empty(),
    {
        Cell::empty()
    }
}

/// Two cells hold the same content: the same material in the same physics
/// category with the same colour, the per-tick `updated` mark aside.
pub open spec fn same_content(a: Cell, b: Cell) -> bool {
    a.physics == b.physics && a.color == b.color
}

/// Chance, in hundredths, that a cell of material `above` sinks through a
/// cell of material `below` on one pass: the density difference normalised by
/// [`MAX_DENSITY`]. Zero when `above` is not strictly denser.
pub open spec fn spec_displacement_chance(above: CellType, below: CellType) -> int {
    if above.spec_density() > below.spec_density() {
        (above.spec_density() - below.spec_density()) * 100 / (MAX_DENSITY as int)
    } else {
        0
    }
}

/// The per-material displacement rule: how likely a cell of material `above`
/// is to sink through a cell of material `below`, in hundredths.
pub fn displacement_chance(above: CellType, below: CellType) -> (r: u32)
    ensures
        r == spec_displacement_chance(above, below),
{
    let density_above = above.cell_density();
    let density_below = below.cell_density();
    if density_above > density_below {
        (density_above - density_below) * 100 / MAX_DENSITY
    } else {
        0
    }
}

/// Whether a draw of `roll` (uniform in `[0, 100)`) lets a cell of material
/// `above` displace a cell of material `below` this pass.
pub fn should_displace(above: CellType, below: CellType, roll: u32) -> (r: bool)
    ensures
        r == (roll < spec_displacement_chance(above, below)),
{
    roll < displacement_chance(above, below)
}

/// Density ordering: a strictly denser material above a strictly less dense
/// one always has a positive chance to displace it, so over repeated passes
/// the denser cell is eligible to sink through. Emptiness has density zero,
/// so in particular every real material can always displace it.
pub proof fn lemma_denser_displaces(above: CellType, below: CellType)
    requires
        above.spec_density() > below.spec_density(),
    ensures
        spec_displacement_chance(above, below) > 0,
{
}

} // verus!
