//! Voronoi mosaics: sample reference points from an image and repaint every
//! pixel with the color of its nearest point.

pub mod detail;
pub mod mosaic;
pub mod node;
pub mod outline;
pub mod raster;

pub use crate::mosaic::Mosaic;
pub use crate::node::Node;
pub use crate::raster::{Color, Image, Mask};
