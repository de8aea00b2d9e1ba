//! Lossless codec for the fixed-width run of extra bytes carried by every
//! record of a stream: the first record travels raw, every later one as
//! per-slot byte deltas observed by per-slot adaptive symbol models.

pub mod extra_bytes;
pub mod model;
pub mod stream;

pub use extra_bytes::{
    CodecError, Coded, ExtraBytes, ExtraBytesCompressor, ExtraBytesDecompressor,
};
pub use model::SymbolModel;
