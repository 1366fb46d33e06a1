//! Decompression strategies: pure transforms from compressed bytes to
//! decompressed bytes, chosen by the caller at construction time.

use vstd::prelude::*;

verus! {

/// Error returned by a decompression strategy on corrupt or truncated input.
#[derive(Debug, Clone, Copy, PartialEq, Eq, Structural)]
pub struct DecompressError;

/// A decompression algorithm. Each strategy is a pure transform: its
/// `spec_decompress` says which output, if any, it produces for an input,
/// and the executable `decompress` realizes exactly that.
pub trait Decompress {
    /// The mathematical meaning of this strategy.
    spec fn spec_decompress(input: Seq<u8>) -> Option<Seq<u8>>;

    /// Decompress `compressed_data`, failing exactly on the inputs the
    /// strategy rejects.
    fn decompress(compressed_data: Vec<u8>) -> (r: Result<Vec<u8>, DecompressError>)
        ensures
            match r {
                Ok(out) => Self::spec_decompress(compressed_data@) == Some(out@),
                Err(_) => Self::spec_decompress(compressed_data@) is None,
            },
    ;
}

/// What `zstd::stream::decode_all` yields for a given input: `Some` of the
/// decoded bytes of a well-formed frame sequence, `None` where decoding fails.
pub uninterp spec fn zstd_decoded(input: Seq<u8>) -> Option<Seq<u8>>;

/// Relies on `zstd::stream::decode_all`: decoding an in-memory slice is a
/// pure function of those bytes, succeeding exactly on well-formed frames.
#[verifier::external_body]
fn zstd_decode_all(data: &Vec<u8>) -> (r: Result<Vec<u8>, DecompressError>)
    ensures
        match r {
            Ok(out) => zstd_decoded(data@) == Some(out@),
            Err(_) => zstd_decoded(data@) is None,
        },
{
    match zstd::stream::decode_all(&data[..]) {
        Ok(v) => Ok(v),
        Err(_) => Err(DecompressError),
    }
}

/// Decompression through the zstd codec.
pub struct ZStdDecompression;

impl Decompress for ZStdDecompression {
    open spec fn spec_decompress(input: Seq<u8>) -> Option<Seq<u8>> {
        zstd_decoded(input)
    }

    fn decompress(compressed_data: Vec<u8>) -> (r: Result<Vec<u8>, DecompressError>) {
        zstd_decode_all(&compressed_data)
    }
}

/// The identity strategy, for archives that are not compressed.
pub struct NoDecompression;

impl Decompress for NoDecompression {
    open spec fn spec_decompress(input: Seq<u8>) -> Option<Seq<u8>> {
        Some(input)
    }

    fn decompress(compressed_data: Vec<u8>) -> (r: Result<Vec<u8>, DecompressError>) {
        Ok(compressed_data)
    }
}

} // verus!
