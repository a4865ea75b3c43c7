use vstd::prelude::*;

use crate::strings::has_high_byte;

verus! {

/// What `smaz::compress` makes of a byte string.
pub uninterp spec fn smaz_compressed(b: Seq<u8>) -> Seq<u8>;

/// What `smaz::decompress` makes of a byte string made of codebook indices only.
pub uninterp spec fn smaz_decompressed(b: Seq<u8>) -> Seq<u8>;

/// Relies on `smaz::compress`: its result depends on the input bytes alone. Output without
/// the bytes 254 and 255 holds no verbatim run, only codebook indices, each standing for the
/// codebook entry that it matched in the input, so `smaz::decompress` gives the input back.
#[verifier::external_body]
pub(crate) fn compress_bytes(b: &[u8]) -> (r: Vec<u8>)
    ensures
        r@ == smaz_compressed(b@),
        !has_high_byte(r@) ==> smaz_decompressed(r@) == b@,
{
    smaz::compress(b)
}

/// Relies on `smaz::decompress`: a byte below 254 is read as a codebook index (the
/// codebook has 254 entries), so input made of such bytes alone is always decoded, and the
/// result depends on the input bytes alone.
#[verifier::external_body]
pub(crate) fn decompress_bytes(b: &[u8]) -> (r: Option<Vec<u8>>)
    requires
        forall|i: int| 0 <= i < b@.len() ==> b@[i] < 254,
    ensures
        r is Some,
        r matches Some(v) ==> v@ == smaz_decompressed(b@),
{
    smaz::decompress(b).ok()
}

} // verus!
