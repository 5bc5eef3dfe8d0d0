//! The zlib compression that wraps every stored object.

use vstd::prelude::*;

verus! {

/// The zlib stream that the encoder produces for the given input at the
/// default compression level.
pub uninterp spec fn zlib_of(bytes: Seq<u8>) -> Seq<u8>;

/// What the zlib decoder yields for the given input: the decoded bytes, or
/// nothing when the input is not a well-formed stream.
pub uninterp spec fn inflate_of(bytes: Seq<u8>) -> Option<Seq<u8>>;

/// Relies on flate2::write::ZlibEncoder at Compression::default: the output
/// is a zlib stream that decodes back to the input (zlib is lossless).
#[verifier::external_body]
pub(crate) fn zlib_compress(bytes: &[u8]) -> (r: Vec<u8>)
    ensures
        r@ == zlib_of(bytes@),
        inflate_of(r@) == Some(bytes@),
{
    let mut encoder = flate2::write::ZlibEncoder::new(
        Vec::new(),
        flate2::Compression::default(),
    );
    std::io::Write::write_all(&mut encoder, bytes).expect("writing to a Vec cannot fail");
    encoder.finish().expect("writing to a Vec cannot fail")
}

/// Relies on flate2::read::ZlibDecoder: decodes a zlib stream, failing on
/// input that is not one.
#[verifier::external_body]
pub(crate) fn zlib_decompress(bytes: &[u8]) -> (r: Option<Vec<u8>>)
    ensures
        match inflate_of(bytes@) {
            Some(s) => r matches Some(v) && v@ == s,
            None => r is None,
        },
{
    let mut decoder = flate2::read::ZlibDecoder::new(bytes);
    let mut out = Vec::new();
    match std::io::Read::read_to_end(&mut decoder, &mut out) {
        Ok(_) => Some(out),
        Err(_) => None,
    }
}

} // verus!
