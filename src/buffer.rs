//! Owned results for embedders: a byte buffer with its length, and the
//! outcome of a decode as a buffer or an error kind.
use crate::delta::{decode, decode_spec, encode, encode_spec};
use crate::error::DecodeError;
use vstd::prelude::*;

verus! {

/// Bytes handed out by the library, with their count.
pub struct XPatchBuffer {
    pub data: Vec<u8>,
    pub len: usize,
}

impl XPatchBuffer {
    /// The buffer holds `len` bytes.
    pub open spec fn wf(&self) -> bool {
        self.len == self.data@.len()
    }

    /// A buffer that holds `data`.
    pub fn from_vec(data: Vec<u8>) -> (r: Self)
        ensures
            r.wf(),
            r.data@ == data@,
    {
        let len = data.len();
        XPatchBuffer { data, len }
    }

    /// An empty buffer.
    pub fn empty() -> (r: Self)
        ensures
            r.wf(),
            r.data@.len() == 0,
    {
        XPatchBuffer { data: Vec::new(), len: 0 }
    }
}

/// The outcome of an operation that can fail: on success `error` is `None`
/// and `buffer` holds the result; on failure `buffer` is empty.
pub struct XPatchResult {
    pub buffer: XPatchBuffer,
    pub error: Option<DecodeError>,
}

impl XPatchResult {
    /// The outcome for a decode result.
    pub fn from_result(r: Result<Vec<u8>, DecodeError>) -> (out: Self)
        ensures
            out.buffer.wf(),
            match r {
                Ok(v) => out.error is None && out.buffer.data@ == v@,
                Err(e) => out.error == Some(e) && out.buffer.data@.len() == 0,
            },
    {
        match r {
            Ok(v) => XPatchResult { buffer: XPatchBuffer::from_vec(v), error: None },
            Err(e) => XPatchResult { buffer: XPatchBuffer::empty(), error: Some(e) },
        }
    }
}

/// Encodes `new` against `base` with `tag` into a buffer.
pub fn xpatch_encode(tag: usize, base: &[u8], new: &[u8], enable_zstd: bool) -> (r: XPatchBuffer)
    ensures
        r.wf(),
        encode_spec(tag, base@, new@, enable_zstd, r.data@),
{
    XPatchBuffer::from_vec(encode(tag, base, new, enable_zstd))
}

/// Decodes `delta` against `base` into a buffer, or the error kind.
pub fn xpatch_decode(base: &[u8], delta: &[u8]) -> (r: XPatchResult)
    ensures
        r.buffer.wf(),
        match decode_spec(base@, delta@) {
            Ok(x) => r.error is None && r.buffer.data@ == x,
            Err(e) => r.error == Some(e) && r.buffer.data@.len() == 0,
        },
{
    XPatchResult::from_result(decode(base, delta))
}

} // verus!
