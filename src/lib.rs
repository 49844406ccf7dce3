//! Tile-grid world generation: typed grid coordinates, the tile map, a
//! bordered obstacle generator and a room generator.
pub mod geometry;
pub mod map;
mod random;
