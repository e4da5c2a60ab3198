//! IEEE 754 binary floating point on bit patterns.

mod arith;
pub mod doubles;
pub mod error;
pub mod facts;
pub mod model;
pub mod numbers;
pub mod ops;
pub mod rounding;
pub mod singles;

pub use numbers::{Binary32, Binary64};
