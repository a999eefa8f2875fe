//! Entropy coding with explicit probability tables.

pub mod ans;
pub mod probability;
pub mod sequence;
pub mod size;
pub mod stream;
