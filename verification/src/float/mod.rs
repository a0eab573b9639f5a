//! Binary floating-point numbers as bit patterns, with arithmetic that rounds
//! the way IEEE 754 hardware does (to nearest, ties to even).
pub mod double;
pub mod exactness;
pub mod format;
pub mod lemmas;
pub mod nearest;
pub mod rounding;
pub mod single;
pub mod whole;

pub use double::Float64;
pub use single::Float32;
