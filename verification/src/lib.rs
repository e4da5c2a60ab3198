//! The decisions and the arithmetic of CSS painting, proved against their contracts.

pub mod background;
pub mod border;
pub mod color;
pub mod color_matrix;
pub mod edges;
pub mod element;
pub mod flex;
pub mod geometry;
pub mod ieee;
pub mod image;
pub mod laws;
pub mod layers;
pub mod outline;
pub mod pieces;
pub mod ramp;
pub mod scene;
pub mod sizing;
pub mod svg_tile;
pub mod table;
pub mod tiling;
pub mod widget;
