//! Decompression of zlib streams, done by the `flate2` crate.

use vstd::prelude::*;

verus! {

/// The first `size` bytes that the zlib stream `packed` decompresses to, or
/// `None` where the decompressor fails before it has produced that many.
pub uninterp spec fn inflated(packed: Seq<u8>, size: nat) -> Option<Seq<u8>>;

/// The view of an optional byte vector.
pub open spec fn bytes_of(out: Option<Vec<u8>>) -> Option<Seq<u8>> {
    match out {
        Some(bytes) => Some(bytes@),
        None => None,
    }
}

/// Runs `flate2::bufread::ZlibDecoder` over `packed` and reads exactly `size`
/// bytes from it with `std::io::Read::read_exact`. The result depends on the
/// two arguments alone and is named `inflated`; nothing is claimed of it but
/// that a successful read fills the whole buffer of `size` bytes.
#[verifier::external_body]
pub(crate) fn inflate(packed: &[u8], size: usize) -> (out: Option<Vec<u8>>)
    ensures
        bytes_of(out) == inflated(packed@, size as nat),
        out matches Some(bytes) ==> bytes@.len() == size,
{
    let mut bytes = vec![0u8; size];
    let mut decoder = flate2::bufread::ZlibDecoder::new(packed);
    match std::io::Read::read_exact(&mut decoder, &mut bytes) {
        Ok(()) => Some(bytes),
        Err(_) => None,
    }
}

} // verus!
