//! Procedural generator for hexagonal tile maps: the map shape, villages and
//! artifact slots, terrain tiles, and the small HTTP request reader used by
//! the map server.

pub mod tiles;
pub mod network_handler;
pub mod hex;
pub mod random;
pub mod hexmap;
pub mod storage;
pub mod seed;
