//! Procedural generation of a bounded, grid-based dungeon layout.
//!
//! The terrain grid is split into rectangular regions. Each region is given
//! a kind at random: a room, a relay point for corridors, or solid rock.
//! Neighbouring regions are then linked along a random spanning tree, and a
//! corridor is carved for each link, so that every room can be walked to
//! from every other.
//!
//! - [`grid`]: coordinates with wraparound arithmetic, and directions.
//! - [`random`]: the source of draws, and a shift-register generator.
//! - [`field`]: the fixed-size grid of cells.
//! - [`field_gen`]: regions, their kinds, and the links between them.
//! - [`dungeon`]: the terrain painted from regions and links, and the dungeon.
//! - [`passage`]: the proof that all rooms of a dungeon are joined.

pub mod dungeon;
pub mod field;
pub mod field_gen;
pub mod grid;
pub mod passage;
pub mod random;
