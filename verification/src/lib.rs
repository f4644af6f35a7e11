//! A quadtree index of vector tiles over a fixed 64-bit key space.
//!
//! The library owns the integer core of a tile pipeline: the packed tile-key
//! codec, canonicalization of tile x-coordinates across world copies, the
//! build options and their validity rule, and the split controller that
//! decides, tile by tile, whether a node retains its source features, stops,
//! or descends into its four children. Geometry payloads are carried
//! opaquely; the index never reads them.

pub mod config;
pub mod counts;
pub mod index;
pub mod key;
