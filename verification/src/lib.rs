//! A pyramid of raster tiles over a region of the globe: built from a raw
//! raster, written to one flat file, and queried inside the bytes of that
//! file by tile address or by region.
//!
//! - [`dataset`] says what a data source supplies, [`bounds`] and [`scalar`]
//!   hold the rectangles and the fixed-width values that everything else is
//!   made of.
//! - [`raster`], [`tree`] and [`builder`] cut a raster into a tree of tiles
//!   and fill each parent from its children.
//! - [`format`] fixes the bytes of a file; [`serialize`] writes them and
//!   [`deserialize`] reads them, one node at a time, and answers queries.
//! - [`stitching`], [`roundtrip`], [`address`], [`levels`], [`listing`], [`pruning`],
//!   [`loading`], [`additivity`] and [`built`] prove what holds of cutting and stitching,
//!   of files, of queries and of built trees.

pub mod additivity;
pub mod address;
pub mod bounds;
pub mod builder;
pub mod built;
pub mod common;
pub mod dataset;
pub mod deserialize;
pub mod format;
pub mod levels;
pub mod listing;
pub mod loading;
pub mod pruning;
pub mod raster;
pub mod roundtrip;
pub mod scalar;
pub mod serialize;
pub mod stitching;
pub mod tree;

pub use bounds::{Bounds, Region};
pub use dataset::{Dataset, Tile};
pub use scalar::Scalar;
pub use tree::{GeoTree, TileNode, TileRef};
