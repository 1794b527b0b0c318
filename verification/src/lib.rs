//! Procedurally generated 2-D tile maps: a Voronoi-region generator, a sparse
//! coordinate-keyed tile store, a textual persistence codec with optional
//! gzip compression, and a viewport with collision resolution.

use vstd::prelude::*;

pub mod tile;
pub mod store;
pub mod viewport;
pub mod mapgen;
pub mod num;
pub mod keytext;
pub mod codec;

pub use tile::Tile;
pub use tile::TileView;
pub use store::TileStore;
pub use store::TileMap;
pub use viewport::Player;
pub use viewport::Direction;
pub use viewport::MoveOutcome;

verus! {

/// The kinds of failure the library reports: invalid map dimensions,
/// a file that cannot be read or written, and a payload that does not
/// decompress or parse.
#[derive(Debug, PartialEq, Eq, Structural, Clone, Copy)]
pub enum MapError {
    Config,
    Io,
    Format,
}

} // verus!
