//! Byte-oriented delta codec: a delta holds COPY/ADD instructions against a
//! base, framed in a small self-describing container that carries a tag.
//!
//! - `delta`: the container and the public `encode`, `decode`, `get_tag`;
//! - `instr`: instructions, their wire form and the stream decoder;
//! - `fast`, `suffix`: the two matchers, on a shared `builder`;
//! - `rolling`: the rolling fingerprint of the fast matcher;
//! - `lex`: lexicographic order, for the suffix array;
//! - `envelope`: optional zstd post-compression of the stream;
//! - `varint`: LEB128 integers;
//! - `buffer`: owned results for embedders.
pub mod buffer;
pub mod builder;
pub mod delta;
pub mod envelope;
pub mod error;
pub mod fast;
pub mod instr;
pub mod lex;
pub mod rolling;
pub mod suffix;
pub mod varint;

pub use buffer::{xpatch_decode, xpatch_encode, XPatchBuffer, XPatchResult};
pub use delta::{decode, decode_header, encode, get_tag, Algorithm};
pub use error::DecodeError;
