//! An arithmetic coder: a lossless entropy codec that compresses a sequence
//! of symbols into a bitstream and decodes it back exactly.
//!
//! The crate is organised leaves-first: `range` holds the fixed-width integer
//! interval that stands in for the coder's fraction, `symbol_model` maps
//! symbols to integer sub-intervals of a total weight, `encoder` and `decoder`
//! turn symbols into bits and back, `bits` packs bit sequences into bytes and
//! frames the container header, and `codec` ties everything together into
//! whole-buffer compression and decompression.

pub mod bits;
pub mod codec;
pub mod decoder;
pub mod encoder;
pub mod range;
pub mod symbol_model;
