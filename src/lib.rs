use vstd::prelude::*;

pub mod engine;
pub mod hilbert;
pub mod kernel;
pub mod tile;

pub use tile::{Terrian, Tile, TileConstants};

verus! {

} // verus!
