//! Renderer-independent foundations and Wave Function Collapse for two-dimensional tiling.
//!
//! The crate separates rectangular storage ([`Grid`]) from neighborhood relationships
//! ([`Topology`]). Algorithms use dense [`CellId`] values while concrete topologies retain
//! whatever coordinate system suits them. [`Wfc`] operates on topology cells and dense
//! pattern IDs without owning application payloads or rendering data.
//!
//! The tile editor's pieces build on these: [`raster`] holds the square and hex tile pictures
//! whose border strips are the sockets, [`seams`] groups matching edges and plans linked
//! edits, and [`editor`] keeps pins, tools and the catalog consistent and derives the wave.
use vstd::prelude::*;

pub mod editor;
pub mod grid;
pub mod raster;
pub mod seams;
pub mod spatial;
pub mod text;
pub mod tile;
pub mod topology;
pub mod transform;
pub mod wfc;

pub use grid::{Grid, GridError};
pub use spatial::{Coord2, Extent2, Rect};
pub use tile::{
    EdgeStrip, EqualityMatcher, OrientedTileId, SocketMap, SocketMatcher, Tile, TileId, TileSet,
};
pub use topology::{
    AxisBoundaries, Boundary, CellId, Direction, HexDirection, HexTopology, SquareDirection,
    SquareTopology, Topology, TopologyError,
};
pub use transform::{D4, D6, DirectionTransform, EdgeTransform, QuarterTurns, SixthTurns};
pub use wfc::{PatternId, Wfc, WfcError, WfcRules, WfcStatus, WfcStep};

verus! {

} // verus!
