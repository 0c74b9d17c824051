//! The tile-map logic of a small top-down exploration game: a grid of tiles
//! that an actor uncovers by casting rays, a goal tile, mouse editing of the
//! grid, the pixels of the tile sheet, and the bookkeeping around saved maps.
//!
//! Everything that works with pixels as floating-point numbers, draws, reads
//! input or touches the file system lives in the program around this library.

pub mod img_tile;
pub mod game;
pub mod map;
pub mod save_manager;

use vstd::prelude::*;

verus! {

/// The two kinds of tile of the first version of the grid; the flag says
/// whether the actor has seen the tile. The grid itself uses
/// `map::TileState`, which adds the goal.
#[derive(Clone, Copy, Debug, PartialEq, Eq, Structural)]
pub enum TileState {
    Empty(bool),
    Full(bool),
}

} // verus!
