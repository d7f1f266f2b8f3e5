//! A Snappy-format block codec: a greedy LZ77 encoder, a decoder that rejects
//! malformed frames, and the helpers around them, all proved against a
//! mathematical model of the frame format.
use vstd::prelude::*;

pub mod decode;
pub mod encode;
pub mod format;

pub use decode::{uncompress, uncompressed_length, validate_compressed_buffer, InvalidInput};
pub use encode::{compress, max_compressed_length};
