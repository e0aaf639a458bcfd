//! The grid logic of a crowd simulation: the wall map, its chunked outline
//! mesh, a spatial index of cells, bot position trails, and the turning of
//! raw tile paths into waypoints.

pub mod coord;
pub mod meshchunks;
pub mod spatialgrid;
pub mod steer;
pub mod tilemap;
pub mod world;

pub use coord::Coord;
pub use meshchunks::{classify_corner, CornerKind, CornerPiece, MeshChunks};
pub use spatialgrid::SpatialGrid;
pub use steer::SteeringStrategy;
pub use tilemap::TileMap;
pub use world::bot::{massage_waypoints, Trail, Waypoint, TRAIL_LEN};
pub use world::{Terrain, CHUNK_SIZE};
