use vstd::prelude::*;
use crate::errors::StorageError;

verus! {

/// The compressed form that zstd's `encode_all` produces for an input at a
/// compression level; a function of those two alone.
pub uninterp spec fn zstd_encoding(level: int, b: Seq<u8>) -> Seq<u8>;

/// What zstd's `decode_all` reconstructs from a byte sequence: the original
/// payload for well-formed compressed input, nothing otherwise.
pub uninterp spec fn zstd_decoding(c: Seq<u8>) -> Option<Seq<u8>>;

/// The fixed compression level, chosen for throughput over ratio.
pub const COMPRESSION_LEVEL: i32 = 3;

/// Relies on `zstd::stream::encode_all`: deterministic compression whose
/// output `decode_all` reconstructs exactly.
#[verifier::external_body]
pub(crate) fn zstd_compress(data: &[u8], level: i32) -> (r: Result<Vec<u8>, StorageError>)
    ensures
        r matches Ok(c) ==> c@ == zstd_encoding(level as int, data@),
        r matches Ok(c) ==> zstd_decoding(c@) == Some(data@),
        r matches Err(e) ==> e == StorageError::CompressionError,
{
    zstd::stream::encode_all(data, level).map_err(|_| StorageError::CompressionError)
}

/// Relies on `zstd::stream::decode_all`: decompression is a function of the
/// compressed bytes alone, and fails exactly on input it cannot decode.
#[verifier::external_body]
pub(crate) fn zstd_decompress(data: &[u8]) -> (r: Result<Vec<u8>, StorageError>)
    ensures
        r matches Ok(d) ==> zstd_decoding(data@) == Some(d@),
        r matches Err(e) ==> e == StorageError::CompressionError && zstd_decoding(data@)
            is None,
{
    zstd::stream::decode_all(data).map_err(|_| StorageError::CompressionError)
}

} // verus!
