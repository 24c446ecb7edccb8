//! The DEFLATE façade: an opaque, deterministic compressor and its inverse,
//! plus the deflater strategy the options select.

use vstd::prelude::*;
use crate::atomicmin::AtomicMin;
use crate::error::{PngError, PngResult};

verus! {

/// The zlib stream the compressor produces for `data` at `level`.
pub uninterp spec fn deflate_of(data: Seq<u8>, level: int) -> Seq<u8>;

/// What a zlib stream inflates to, if it is well formed.
pub uninterp spec fn inflate_of(data: Seq<u8>) -> Option<Seq<u8>>;

/// The compressor accepts levels up to this; higher requested levels are
/// clamped.
pub const MAX_BACKEND_LEVEL: u8 = 10;

pub open spec fn spec_clamp_level(level: u8) -> int {
    if level > 10 {
        10
    } else {
        level as int
    }
}

/// Relies on `miniz_oxide::deflate::compress_to_vec_zlib`: a deterministic
/// function of its arguments whose output is a zlib stream that inflates
/// back to the input, byte for byte.
#[verifier::external_body]
fn deflate_raw(data: &[u8], level: u8) -> (r: Vec<u8>)
    ensures
        r@ == deflate_of(data@, level as int),
        inflate_of(r@) == Some(data@),
{
    miniz_oxide::deflate::compress_to_vec_zlib(data, level)
}

/// Relies on `miniz_oxide::inflate::decompress_to_vec_zlib_with_limit`:
/// inflates a zlib stream, growing the output to at most `limit` bytes and
/// failing if the stream is malformed or needs more room.
#[verifier::external_body]
fn inflate_raw(data: &[u8], limit: usize) -> (r: Result<Vec<u8>, ()>)
    ensures
        match r {
            Ok(v) => inflate_of(data@) == Some(v@) && v@.len() <= limit,
            Err(_) => match inflate_of(data@) {
                Some(v) => v.len() > limit,
                None => true,
            },
        },
{
    match miniz_oxide::inflate::decompress_to_vec_zlib_with_limit(data, limit) {
        Ok(v) => Ok(v),
        Err(_) => Err(()),
    }
}

/// Compress `data` at `level`, aborting with `DeflatedDataTooLong` when the
/// output exceeds the ceiling in `max_size`.
pub fn deflate(data: &[u8], level: u8, max_size: &AtomicMin) -> (r: PngResult<Vec<u8>>)
    ensures
        match r {
            Ok(v) => v@ == deflate_of(data@, spec_clamp_level(level)) && inflate_of(v@) == Some(
                data@,
            ) && match max_size.spec_get() {
                Some(m) => v@.len() <= m,
                None => true,
            },
            Err(e) => e matches PngError::DeflatedDataTooLong(n) && n
                == deflate_of(data@, spec_clamp_level(level)).len() && match max_size.spec_get() {
                Some(m) => n > m,
                None => false,
            },
        },
{
    let lvl = if level > MAX_BACKEND_LEVEL {
        MAX_BACKEND_LEVEL
    } else {
        level
    };
    let out = deflate_raw(data, lvl);
    match max_size.get() {
        Some(m) if out.len() > m => Err(PngError::DeflatedDataTooLong(out.len())),
        _ => Ok(out),
    }
}

/// Inflate a zlib stream of known maximum size.
pub fn inflate(data: &[u8], max_size: usize) -> (r: PngResult<Vec<u8>>)
    ensures
        match r {
            Ok(v) => inflate_of(data@) == Some(v@) && v@.len() <= max_size,
            Err(e) => e == PngError::InflateFailed && match inflate_of(data@) {
                Some(v) => v.len() > max_size,
                None => true,
            },
        },
{
    match inflate_raw(data, max_size) {
        Ok(v) => Ok(v),
        Err(_) => Err(PngError::InflateFailed),
    }
}

/// The DEFLATE strategy chosen by the options: a cheap level-based
/// compressor. The backend accepts levels up to 10, so levels 11 and 12
/// behave like 10; no slow high-quality deflater variant is built in, as no
/// such backend is available here.
#[derive(Clone, Copy, PartialEq, Eq, Structural, Debug)]
pub enum Deflaters {
    /// Compression levels 1 through 12; levels above the backend maximum
    /// behave like the maximum.
    Libdeflater { compression: u8 },
}

impl Deflaters {
    pub fn compression_level(self) -> (r: u8)
        ensures
            self matches Deflaters::Libdeflater { compression } && r == compression,
    {
        match self {
            Deflaters::Libdeflater { compression } => compression,
        }
    }
}

} // verus!
