//! What holds of the library as a whole.

pub mod background;
pub mod border;
pub mod chains;
pub mod color;
pub mod crossings;
pub mod culling;
pub mod dashes;
pub mod dimensions;
pub mod exact;
pub mod extents;
pub mod fidelity;
pub mod flex;
pub mod functions;
pub mod gradients;
pub mod offsets;
pub mod paths;
pub mod placement;
pub mod proportions;
pub mod ramp;
pub mod reals;
pub mod rounding;
pub mod rings;
pub mod rows;
pub mod segment;
pub mod shades;
pub mod sizing;
pub mod stability;
pub mod substitution;
pub mod symmetry;
pub mod tables;
pub mod tiling;
pub mod whole;
