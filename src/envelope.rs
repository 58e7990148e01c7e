//! The optional post-compression layer over the instruction stream: a zstd
//! frame, kept only when it is strictly shorter than the raw stream.
use crate::error::DecodeError;
use vstd::prelude::*;

verus! {

/// The compression level handed to zstd (its default level).
pub const ZSTD_LEVEL: i32 = 3;

/// The zstd frame that compressing `data` at `ZSTD_LEVEL` gives.
pub uninterp spec fn zstd_compressed(data: Seq<u8>) -> Seq<u8>;

/// The data that decompressing the zstd frames `data` gives, or `None`
/// where they are not valid.
pub uninterp spec fn zstd_decompressed(data: Seq<u8>) -> Option<Seq<u8>>;

/// Relies on `zstd::stream::encode_all`: writing to a vector at a valid
/// level it fails only when memory runs out; the frame depends on the data
/// and the level alone, and decompressing it gives the data back.
#[verifier::external_body]
fn zstd_compress(data: &[u8]) -> (r: Option<Vec<u8>>)
    ensures
        r is Some,
        r matches Some(c) ==> c@ == zstd_compressed(data@) && zstd_decompressed(c@) == Some(
            data@,
        ),
{
    zstd::stream::encode_all(data, ZSTD_LEVEL).ok()
}

/// Relies on `zstd::stream::decode_all`: the data of the frames, which
/// depends on the input alone, or an error where it is not valid.
#[verifier::external_body]
fn zstd_decompress(data: &[u8]) -> (r: Option<Vec<u8>>)
    ensures
        match zstd_decompressed(data@) {
            Some(x) => r matches Some(v) && v@ == x,
            None => r is None,
        },
{
    zstd::stream::decode_all(data).ok()
}

/// Picks the body to ship from the raw stream and what the compressor gave
/// for it: the compressed form, flagged, only when it is strictly shorter.
pub fn select_body(raw: Vec<u8>, compressed: Option<Vec<u8>>) -> (r: (Vec<u8>, bool))
    ensures
        match compressed {
            Some(c) => if c@.len() < raw@.len() {
                r.0@ == c@ && r.1
            } else {
                r.0@ == raw@ && !r.1
            },
            None => r.0@ == raw@ && !r.1,
        },
{
    match compressed {
        Some(c) => {
            if c.len() < raw.len() {
                (c, true)
            } else {
                (raw, false)
            }
        },
        None => (raw, false),
    }
}

/// The body to ship for the raw instruction stream, and whether it is
/// compressed. It is compressed only when that is allowed and shrinks it;
/// either way it unwraps to the raw stream and is never longer.
pub fn postcompress(raw: Vec<u8>, allow: bool) -> (r: (Vec<u8>, bool))
    ensures
        r.1 == (allow && zstd_compressed(raw@).len() < raw@.len()),
        r.1 ==> r.0@ == zstd_compressed(raw@),
        !r.1 ==> r.0@ == raw@,
        r.0@.len() <= raw@.len(),
        unwrap_spec(r.0@, r.1) == Ok::<Seq<u8>, DecodeError>(raw@),
{
    if allow {
        let c = zstd_compress(raw.as_slice());
        select_body(raw, c)
    } else {
        (raw, false)
    }
}

/// The raw instruction stream inside a body.
pub open spec fn unwrap_spec(body: Seq<u8>, compressed: bool) -> Result<Seq<u8>, DecodeError> {
    if compressed {
        match zstd_decompressed(body) {
            Some(x) => Ok(x),
            None => Err(DecodeError::PostcompressFailure),
        }
    } else {
        Ok(body)
    }
}

/// Recovers the raw instruction stream from a body.
pub fn unwrap_body(body: &[u8], compressed: bool) -> (r: Result<Vec<u8>, DecodeError>)
    ensures
        match unwrap_spec(body@, compressed) {
            Ok(x) => r matches Ok(v) && v@ == x,
            Err(e) => r == Err::<Vec<u8>, DecodeError>(e),
        },
{
    if compressed {
        match zstd_decompress(body) {
            Some(v) => Ok(v),
            None => Err(DecodeError::PostcompressFailure),
        }
    } else {
        let mut v: Vec<u8> = Vec::new();
        crate::instr::push_range(&mut v, body, 0, body.len());
        assert(v@ =~= body@);
        Ok(v)
    }
}

} // verus!
