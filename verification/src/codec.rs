//! Decompression of a compressed file held in memory.

use std::io::Read;
use vstd::prelude::*;

verus! {

/// What decoding a whole bzip2 file gives: the decompressed bytes of all its
/// streams, one after the other, or `None` where the decoder reports an
/// error.
pub uninterp spec fn bz2_decoded(data: Seq<u8>) -> Option<Seq<u8>>;

/// Runs `bzip2::read::MultiBzDecoder` over the bytes up to the end of its
/// output. The contract only names the outcome: the decoder works on nothing
/// but the bytes it is given.
#[verifier::external_body]
fn decode_all(data: &[u8]) -> (r: Option<Vec<u8>>)
    ensures
        match r {
            Some(bytes) => bz2_decoded(data@) == Some(bytes@),
            None => bz2_decoded(data@) is None,
        },
{
    let mut decoder = bzip2::read::MultiBzDecoder::new(data);
    let mut bytes = Vec::new();
    match decoder.read_to_end(&mut bytes) {
        Ok(_) => Some(bytes),
        Err(_) => None,
    }
}

/// Decompresses a compressed file; `None` when its bytes cannot be decoded to
/// the end.
pub fn decompress(data: &[u8]) -> (r: Option<Vec<u8>>)
    ensures
        match r {
            Some(bytes) => bz2_decoded(data@) == Some(bytes@),
            None => bz2_decoded(data@) is None,
        },
{
    decode_all(data)
}

} // verus!
