//! Tiles of the Web Mercator grid and their quadkeys.
//!
//! A zoom level `z` cuts the map into `2^z` columns and `2^z` rows. A tile is
//! one cell of that grid; its quadkey is a string of `z` base-4 digits, one
//! per zoom level, coarsest first, each digit packing one bit of the column
//! and one bit of the row.

pub mod binary;
pub mod quadkey;
pub mod round_trip;
pub mod tile;

pub use quadkey::{quadkey_to_tile, tile_to_quadkey, QuadkeyError};
pub use tile::{Tile, MAX_ZOOM};
