//! A decompression implementation for the *implode* algorithm from
//! the PKWARE Data Compression Library.
//!
//! To decompress a block of bytes in memory, use `explode`. Where the
//! compressed bytes arrive one at a time, or the output is wanted in pieces,
//! use `Explode`.
//!
//! The modules, from the bottom up:
//! - `codes`, `lengths` and `codewords`: canonical Huffman tables, their
//!   construction from code lengths, their decoder, and what holds of them;
//! - `tables`: the three tables that the format fixes;
//! - `input`: the input bytes as a queue of bits;
//! - `window`: the most recent output, which back-references read from;
//! - `machine` and `passes`: the decompressor as a state machine, what a
//!   stream decompresses to, and why that does not depend on the pieces in
//!   which input arrives and output leaves;
//! - `engine` and `decoder`: the decompressor itself;
//! - `laws`: what holds of the decompression of every stream.

pub mod codes;
pub mod codewords;
pub mod decoder;
pub mod engine;
pub mod error;
pub mod input;
pub mod laws;
pub mod lengths;
pub mod machine;
pub mod passes;
pub mod tables;
pub mod window;

pub use engine::{explode, explode_with_buffer, Explode, ExplodeBuffer};
pub use error::{Error, Result};
