//! Verified core of a toolkit for MBTiles archives: tile addressing, integer
//! clipping, the vector-tile geometry codec with its overzoom rescale, and the
//! pure decisions of the reader, writer and pipeline drivers.
pub mod geom;
pub mod tilebelt;
pub mod lineclip;
pub mod vector_tile_ops;
pub mod reader;
pub mod payload;
pub mod converter;
pub mod overzoom;
pub mod subdivide;
pub mod writer;
