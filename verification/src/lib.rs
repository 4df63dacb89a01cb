//! A chunked falling-sand cellular automaton.
//!
//! A world of cells (sand, dirt, stone, water, smoke) is partitioned into
//! fixed-size chunks. Each tick, chunks whose dirty rectangle is non-empty are
//! simulated over a 3x3 neighbourhood context, in four checkerboard phases so
//! that neighbourhoods never overlap; the positions written during the tick are
//! folded back into each chunk's dirty rectangle.
//!
//! The central guarantees are stated as contracts and proved:
//! - dirty rectangles are sound: every cell written — by a placement call or
//!   by the simulation pass itself — lies inside its chunk's current dirty
//!   rectangle afterwards ([`chunk::PixelChunk::set_cell`],
//!   [`chunk_handler::SimulationChunkContext::covers`],
//!   [`world::PixelWorld::update`]);
//! - no destination is claimed twice in one pass: every movement rule writes
//!   only to a cell that was empty and unclaimed immediately before;
//! - a soft solid or liquid with a free cell below it (and a gas with a free
//!   cell above) always moves, and a wholly empty region is left untouched,
//!   ends the tick with an empty dirty rectangle, and sleeps;
//! - chunks selected by one checkerboard phase are never adjacent
//!   ([`world::lemma_phase_non_adjacent`]), which is what lets the four phase
//!   groups be simulated independently;
//! - reads and writes outside the world are absent or silent no-ops, never
//!   faults, and coordinates resolve to chunks by floor division so negative
//!   positions behave.

pub mod cell;
pub mod cell_types;
pub mod chunk;
pub mod chunk_handler;
pub mod geometry_helpers;
mod rng;
pub mod world;
