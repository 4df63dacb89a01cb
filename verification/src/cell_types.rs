//! State tags and movement directions.
//!
//! [`StateType`] is the state-first view of a cell: the physics category with
//! the material it is made of carried in every variant, emptiness included.
//! [`DirectionType`] names the eight neighbour directions used by movement
//! rules and by neighbourhood bookkeeping.

use vstd::prelude::*;

use crate::cell::CellType;

verus! {

/// The physics category of a cell with its material carried in every variant.
#[derive(Clone, Copy, PartialEq, Eq, Structural, Debug)]
pub enum StateType {
    Empty(CellType),
    /// Soft solid, like sand, that falls and slides diagonally.
    SoftSolid(CellType),
    /// Hard solid, like stone, that never moves.
    HardSolid(CellType),
    Liquid(CellType),
    Gas(CellType),
}

impl StateType {
    /// The state a free cell of the given material starts in.
    pub open spec fn spec_of_cell_type(cell_type: CellType) -> StateType {
        match cell_type {
            CellType::Empty => StateType::Empty(cell_type),
            CellType::Sand => StateType::SoftSolid(cell_type),
            CellType::Dirt => StateType::SoftSolid(cell_type),
            CellType::Stone => StateType::HardSolid(cell_type),
            CellType::Water => StateType::Liquid(cell_type),
            CellType::Smoke => StateType::Gas(cell_type),
        }
    }

    pub fn of_cell_type(cell_type: CellType) -> (r: StateType)
        ensures
            r == StateType::spec_of_cell_type(cell_type),
    {
        match cell_type {
            CellType::Empty => StateType::Empty(cell_type),
            CellType::Sand => StateType::SoftSolid(cell_type),
            CellType::Dirt => StateType::SoftSolid(cell_type),
            CellType::Stone => StateType::HardSolid(cell_type),
            CellType::Water => StateType::Liquid(cell_type),
            CellType::Smoke => StateType::Gas(cell_type),
        }
    }

    /// The material the cell is made of.
    pub fn cell_type(&self) -> (r: CellType)
        ensures
            r == self.spec_cell_type(),
    {
        match self {
            StateType::Empty(cell_type) => *cell_type,
            StateType::SoftSolid(cell_type) => *cell_type,
            StateType::HardSolid(cell_type) => *cell_type,
            StateType::Liquid(cell_type) => *cell_type,
            StateType::Gas(cell_type) => *cell_type,
        }
    }

    pub open spec fn spec_cell_type(self) -> CellType {
        match self {
            StateType::Empty(cell_type) => cell_type,
            StateType::SoftSolid(cell_type) => cell_type,
            StateType::HardSolid(cell_type) => cell_type,
            StateType::Liquid(cell_type) => cell_type,
            StateType::Gas(cell_type) => cell_type,
        }
    }
}

impl Default for StateType {
    /// The state of an empty cell.
    fn default() -> (r: StateType)
        ensures
            r == StateType::Empty(CellType::Empty),
    {
        StateType::Empty(CellType::Empty)
    }
}

/// One of the eight neighbour directions, or standing still.
///
/// The vertical axis points up: `Down` is toward smaller `y`, which is where
/// gravity pulls.
#[derive(Clone, Copy, PartialEq, Eq, Structural, Debug)]
pub enum DirectionType {
    Still,
    Down,
    DownLeft,
    DownRight,
    Left,
    Right,
    Up,
    UpLeft,
    UpRight,
}

impl DirectionType {
    /// The unit offset of the direction as an `(x, y)` pair.
    pub open spec fn spec_tuple_direction(self) -> (int, int) {
        match self {
            DirectionType::Still => (0, 0),
            DirectionType::Down => (0, -1),
            DirectionType::DownLeft => (-1, -1),
            DirectionType::DownRight => (1, -1),
            DirectionType::Left => (-1, 0),
            DirectionType::Right => (1, 0),
            DirectionType::Up => (0, 1),
            DirectionType::UpLeft => (-1, 1),
            DirectionType::UpRight => (1, 1),
        }
    }

    pub fn get_tuple_direction(self) -> (r: (i32, i32))
        ensures
            (r.0 as int, r.1 as int) == self.spec_tuple_direction(),
    {
        match self {
            DirectionType::Still => (0, 0),
            DirectionType::Down => (0, -1),
            DirectionType::DownLeft => (-1, -1),
            DirectionType::DownRight => (1, -1),
            DirectionType::Left => (-1, 0),
            DirectionType::Right => (1, 0),
            DirectionType::Up => (0, 1),
            DirectionType::UpLeft => (-1, 1),
            DirectionType::UpRight => (1, 1),
        }
    }
}

} // verus!
