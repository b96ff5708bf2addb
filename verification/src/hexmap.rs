//! Generation of a hexagonal tile map, stage by stage: a random shape, the
//! villages on its edge and the artifact slots in rings around its centre,
//! the shuffled terrain tiles, and the finished map that joins them.

use vstd::prelude::*;

pub mod props;
pub mod shape;
pub mod templates;
pub mod tilemap;

pub use self::props::TileMap_props;
pub use self::shape::{TileMap_rawShapeGen, TileMap_shape};
pub use self::templates::TileMap_templates;
pub use self::tilemap::{try_gen, TileMap};

use crate::hex::Hex;
use crate::tiles::TileTemplate;

verus! {

/// Number of tiles of a big map.
pub const BIG_MAP_SIZE: u8 = 104;

/// Number of tiles of a small map.
pub const SMALL_MAP_SIZE: u8 = 73;

/// Radius of the hexagon that holds a big map.
pub const HEXMAP_RADIUS_BIG: u32 = 6;

/// Radius of the hexagon that holds a small map.
pub const HEXMAP_RADIUS_SMALL: u32 = 5;

/// Taken neighbours a cell needs before the shape may grow into it (once
/// the first cells are placed).
pub const MIN_HEX_NEIGHBORS: u8 = 2;

/// Number of villages on the shape's edge.
pub const VILLAGE_COUNT: u8 = 10;

/// Distance between the rings on which artifact slots are sought, and
/// between slots on one ring.
pub const MIN_PROP_DISTANCE: u32 = 2;

/// Artifact slots of a big map, the centre included.
pub const ARTIFACT_COUNT_BIG: usize = 15;

/// Artifact slots of a small map, the centre included.
pub const ARTIFACT_COUNT_SMALL: usize = 10;

/// Copies of each artifact on a big map.
pub const ARTIFACT_COUNT_PER_ART_BIG: usize = 3;

/// Copies of each artifact on a small map.
pub const ARTIFACT_COUNT_PER_ART_SMALL: usize = 2;

/// The two sizes of map.
#[derive(PartialEq, Eq, Clone, Copy, Debug, Structural)]
pub enum MapSize {
    Small,
    Big,
}

impl MapSize {
    pub open spec fn spec_tile_count(self) -> u8 {
        match self {
            MapSize::Big => BIG_MAP_SIZE,
            MapSize::Small => SMALL_MAP_SIZE,
        }
    }

    pub open spec fn spec_radius(self) -> u32 {
        match self {
            MapSize::Big => HEXMAP_RADIUS_BIG,
            MapSize::Small => HEXMAP_RADIUS_SMALL,
        }
    }

    pub open spec fn spec_artifact_count(self) -> usize {
        match self {
            MapSize::Big => ARTIFACT_COUNT_BIG,
            MapSize::Small => ARTIFACT_COUNT_SMALL,
        }
    }

    pub open spec fn spec_artifact_count_per_art(self) -> usize {
        match self {
            MapSize::Big => ARTIFACT_COUNT_PER_ART_BIG,
            MapSize::Small => ARTIFACT_COUNT_PER_ART_SMALL,
        }
    }

    /// How many tiles a map of this size has.
    pub fn tile_count(self) -> (r: u8)
        ensures
            r == self.spec_tile_count(),
    {
        match self {
            MapSize::Big => BIG_MAP_SIZE,
            MapSize::Small => SMALL_MAP_SIZE,
        }
    }

    /// Radius of the hexagon that holds a map of this size.
    pub fn radius(self) -> (r: u32)
        ensures
            r == self.spec_radius(),
    {
        match self {
            MapSize::Big => HEXMAP_RADIUS_BIG,
            MapSize::Small => HEXMAP_RADIUS_SMALL,
        }
    }

    /// How many artifact slots a map of this size has.
    pub fn artifact_count(self) -> (r: usize)
        ensures
            r == self.spec_artifact_count(),
    {
        match self {
            MapSize::Big => ARTIFACT_COUNT_BIG,
            MapSize::Small => ARTIFACT_COUNT_SMALL,
        }
    }

    /// How many copies of each artifact a map of this size has.
    pub fn artifact_count_per_art(self) -> (r: usize)
        ensures
            r == self.spec_artifact_count_per_art(),
    {
        match self {
            MapSize::Big => ARTIFACT_COUNT_PER_ART_BIG,
            MapSize::Small => ARTIFACT_COUNT_PER_ART_SMALL,
        }
    }
}

/// State of a cell while the shape grows.
#[derive(PartialEq, Eq, Clone, Copy, Debug, Structural)]
pub enum RawTileState {
    FreeToTake,
    Taken,
    Unknown,
}

/// Why one attempt at generating a map failed.
#[derive(PartialEq, Eq, Clone, Copy, Debug, Structural)]
pub enum MapError {
    /// The shape could not grow further.
    OutOfTiles,
    /// The shape has an empty cell whose six neighbours all belong to it.
    ShapeHasHoles,
    /// Walking round the shape's edge did not come back to its start.
    EdgeNotClosed,
    /// The edge is too short for the villages; `step` counts villages from 0.
    OutOfEdge { step: u8, edge_len: usize },
    /// Two villages stand next to each other.
    VillagesTooClose,
    /// A village stands on the centre, which must stay an artifact slot.
    CenterHasProp,
    /// The rings searched for artifact slots left the map.
    RingOutOfBounds { hex: Hex, ring: u32 },
    /// No artifact-free tile of the template was left to swap with.
    TemplateNotFound(TileTemplate),
}

} // verus!
