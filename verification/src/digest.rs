//! Trusted bindings to the outside content hasher, checksum and inflater.
//! Each result is a pure function of the input bytes alone; the algorithms
//! themselves (SHA-1, CRC32, DEFLATE) are not restated here, their results
//! are only named.
use vstd::prelude::*;

verus! {

/// The 20-byte SHA-1 digest of a byte sequence.
pub uninterp spec fn sha1_of(data: Seq<u8>) -> Seq<u8>;

/// The CRC32 (IEEE) checksum of a byte sequence.
pub uninterp spec fn crc32_of(data: Seq<u8>) -> u32;

/// What inflating a zlib stream yields: the decompressed bytes, or nothing
/// when the stream is not a complete valid stream.
pub uninterp spec fn inflate_of(data: Seq<u8>) -> Option<Seq<u8>>;

/// Relies on sha1_smol::Sha1 (new, update, digest): the digest is 20 bytes
/// and depends on the fed bytes alone; feeding two slices in order hashes
/// their concatenation.
#[verifier::external_body]
pub fn sha1_pair(a: &[u8], b: &[u8]) -> (r: Vec<u8>)
    ensures
        r@ == sha1_of(a@ + b@),
        r@.len() == 20,
{
    let mut h = sha1_smol::Sha1::new();
    h.update(a);
    h.update(b);
    h.digest().bytes().to_vec()
}

/// Relies on crc32fast::hash: one CRC32 (IEEE) value per input.
#[verifier::external_body]
pub fn crc32(data: &[u8]) -> (r: u32)
    ensures
        r == crc32_of(data@),
{
    crc32fast::hash(data)
}

/// Relies on miniz_oxide::inflate::decompress_to_vec_zlib: inflates a whole
/// zlib stream to its decompressed bytes, or fails on a malformed stream.
#[verifier::external_body]
pub fn inflate(data: &[u8]) -> (r: Option<Vec<u8>>)
    ensures
        match r {
            Some(v) => inflate_of(data@) == Some(v@),
            None => inflate_of(data@) is None,
        },
{
    miniz_oxide::inflate::decompress_to_vec_zlib(data).ok()
}

} // verus!
