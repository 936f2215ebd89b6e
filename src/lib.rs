//! Minimal LZSS-style compression and decompression for embedded use.
//!
//! The compressed form is a raw bitstream of literal and back-reference
//! records; `window_sz2` and `lookahead_sz2` must agree on both sides, and
//! the caller keeps the plaintext length.
use vstd::prelude::*;

pub mod bits;
pub mod config;
pub mod decoder;
pub mod encoder;
pub mod format;
pub mod laws;
mod reader;
mod ring;
mod writer;

pub use config::{Config, ConfigError};
pub use decoder::{DecodeError, HeatshrinkDecoder};
pub use encoder::{encode, EncodeError};

verus! {

} // verus!
