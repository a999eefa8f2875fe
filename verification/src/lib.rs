//! Byte-level compression driven by a predictor.
//!
//! A [`predictor::Predictor`] gives a probability distribution for the next
//! byte, an ANS entropy coder turns bytes and distributions into words, and a
//! 60-byte header frames the words together with a SHA-256 checksum.

pub mod text;
pub mod error;
pub mod wire;
pub mod format;
pub mod coder;
pub mod predictor;
pub mod engine;
pub mod cli;
