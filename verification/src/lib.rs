//! A block codec for the Snappy format: a fast byte-oriented compressor whose
//! decoder reproduces the input exactly.
//!
//! Every function in this crate carries a contract, and the contracts are
//! stated over the wire format itself: [`format`] says what a block means,
//! [`encoder`] says which block is written for an input, and [`laws`]
//! proves that the two agree. [`stream`] offers the same two operations
//! over sources and sinks.

pub mod error;
pub mod varint;
pub mod format;
pub mod decoder;
pub mod emit;
pub mod matcher;
pub mod encoder;
pub mod laws;
pub mod stream;

pub use crate::error::{snappy_to_result, SnappyError};
pub use crate::varint::{decode_varint, encode_varint};
pub use crate::decoder::{uncompress, uncompressed_length, validate_compressed_buffer};
pub use crate::encoder::{compress, max_compressed_length};
pub use crate::stream::{
    compress_source_to_sink, uncompress_source_to_sink, RustSliceSource, RustVecSink, Sink, Source,
};
