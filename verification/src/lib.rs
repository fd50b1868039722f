//! Locating text glyphs in a binarized document image.
//!
//! The crate finds all 4-connected foreground regions of a pixel grid and
//! returns one bounding box per region (`blob::blob_find`), then partitions
//! those boxes into horizontal text-line candidates (`rows`).

pub mod blob;
pub mod connectivity;
pub mod geometry;
pub mod grid;
pub mod laws;
pub mod render;
pub mod rows;

pub use geometry::BoundBox;
pub use geometry::Point;
pub use grid::Image;
