//! A length-prefixed LZ4 block codec.
//!
//! An encoded block is a four-byte little-endian length followed by a stream
//! of LZ4 sequences. [`compress`] produces such a block from any byte slice,
//! and [`decompress`] gives back the bytes that were compressed or reports
//! why the block is malformed. The meaning of a block is given once, as the
//! spec function [`format::decoded`], and both directions are proved against
//! it; [`laws`] states what follows for the two together.

pub mod error;
pub mod decode;
pub mod encode;
pub mod format;
pub mod laws;
pub mod lemmas;
pub mod scan;

pub use decode::decompress;
pub use encode::compress;
pub use error::CorruptInput;
