//! Error taxonomy of the optimization pipeline.

use vstd::prelude::*;

verus! {

/// Errors surfaced at the engine boundary.
///
/// `DeflatedDataTooLong` is a normal trial outcome rather than a pipeline
/// failure: it reports that a compression trial exceeded the current best
/// size and lost.
#[derive(Clone, PartialEq, Eq, Debug)]
pub enum PngError {
    /// The input does not begin with the PNG signature.
    NotPng,
    /// A chunk header or payload extends past the end of the input.
    TruncatedChunk,
    /// A chunk's checksum does not match its contents; carries the chunk name.
    BadCrc(u32),
    /// The compressed image data could not be inflated.
    InflateFailed,
    /// A compression trial output exceeded the current ceiling.
    DeflatedDataTooLong(usize),
    /// The IHDR chunk is missing, malformed, or holds an illegal combination.
    InvalidHeader,
    /// The decoded scanline data does not have the expected size.
    InternalInvariantViolated,
}

impl PngError {
    /// A short stable description of the error kind.
    pub fn kind_name(&self) -> (r: &'static str)
        ensures
            r@.len() > 0,
    {
        let s: &'static str = match self {
            PngError::NotPng => "not a PNG",
            PngError::TruncatedChunk => "truncated chunk",
            PngError::BadCrc(_) => "bad CRC",
            PngError::InflateFailed => "inflate failed",
            PngError::DeflatedDataTooLong(_) => "deflated data too long",
            PngError::InvalidHeader => "invalid header",
            PngError::InternalInvariantViolated => "internal invariant violated",
        };
        proof {
            reveal_strlit("not a PNG");
            reveal_strlit("truncated chunk");
            reveal_strlit("bad CRC");
            reveal_strlit("inflate failed");
            reveal_strlit("deflated data too long");
            reveal_strlit("invalid header");
            reveal_strlit("internal invariant violated");
        }
        s
    }
}

pub type PngResult<T> = Result<T, PngError>;

} // verus!
