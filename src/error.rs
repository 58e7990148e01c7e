//! The ways a delta can fail to decode.
use vstd::prelude::*;

verus! {

/// One kind for each way a delta can be rejected; the decoder reports the
/// first one it meets.
#[derive(Debug, Clone, Copy, PartialEq, Eq, Structural)]
pub enum DecodeError {
    /// Missing magic, unknown algorithm id, reserved bits set, or a header
    /// that ends early.
    MalformedHeader,
    /// The body ends inside an instruction or a literal.
    TruncatedBody,
    /// A copy reaches outside the base.
    CopyOutOfRange,
    /// The output length differs from the length the header declares.
    LengthMismatch,
    /// A varint needs more than 64 bits.
    VarintOverflow,
    /// The post-compression layer rejected the body.
    PostcompressFailure,
}

impl DecodeError {
    /// A short human-readable description.
    pub fn message(&self) -> (r: &'static str)
        ensures
            r@.len() > 0,
    {
        match self {
            DecodeError::MalformedHeader => {
                proof {
                    reveal_strlit("malformed header");
                }
                "malformed header"
            },
            DecodeError::TruncatedBody => {
                proof {
                    reveal_strlit("truncated body");
                }
                "truncated body"
            },
            DecodeError::CopyOutOfRange => {
                proof {
                    reveal_strlit("copy out of range");
                }
                "copy out of range"
            },
            DecodeError::LengthMismatch => {
                proof {
                    reveal_strlit("length mismatch");
                }
                "length mismatch"
            },
            DecodeError::VarintOverflow => {
                proof {
                    reveal_strlit("varint overflow");
                }
                "varint overflow"
            },
            DecodeError::PostcompressFailure => {
                proof {
                    reveal_strlit("post-compression payload rejected");
                }
                "post-compression payload rejected"
            },
        }
    }
}

} // verus!
