//! LZO1X-1 compression and decompression.
//!
//! `format` describes the compressed stream as a decoding machine over bytes,
//! `decoder` holds the verified decompressor and `laws` what its results
//! share across buffer sizes; `dict` (the match finder), `stream` (the
//! streams it encodes and why they decode back) and `compressor` make up the
//! verified compressor.
use vstd::prelude::*;

pub mod format;
pub mod decoder;
pub mod laws;
pub mod dict;
pub mod stream;
pub mod compressor;
pub mod rules;

pub use decoder::{consume_zero_byte_length, copy_from_lookbehind, decompress, get_le16, read_zero_byte_length};
pub use compressor::{compress, encode_literal_run, encode_lookback_match, find_better_match};
pub use dict::{mismatch, Dict, Match2, Match3, State};

verus! {

/// Errors reported by the LZO compressor and decompressor.
#[derive(Debug, PartialEq, Eq, Structural)]
pub enum EResult {
    LookbehindOverrun,
    OutputOverrun,
    InputOverrun,
    Error,
    /// Decompression finished before the end of the input; carries the decompressed size.
    InputNotConsumed(usize),
}

/// Largest number of zero bytes accepted in one extended length field.
pub const MAX_255_COUNT: usize = usize::MAX / 255 - 2;

} // verus!
