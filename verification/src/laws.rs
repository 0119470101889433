//! What holds of the library as a whole, each law a proof function.
pub mod answers;
pub mod breakdown;
pub mod elimination;
pub mod fill;
pub mod fractions;
pub mod paths;
pub mod reading;
pub mod rounding;
pub mod scaling;
pub mod signs;
pub mod solving;
pub mod structure;
