//! Reader and writer for the Yaz0 container format: an LZ77-family,
//! byte-oriented compression used to package asset archives.
//!
//! The compressor searches a bounded lookback window for back-references
//! (either greedily or with a one-byte lookahead) and emits a packet stream;
//! the decompressor reconstructs the original bytes from that stream.

pub mod codec;
pub mod deflate;
mod error;
pub mod header;
pub mod inflate;

pub use crate::deflate::CompressionLevel;
pub use crate::deflate::Yaz0Writer;
pub use crate::error::Error;
pub use crate::header::Yaz0Header;
pub use crate::inflate::Yaz0Archive;
