use vstd::prelude::*;

verus! {

/// The raw deflate stream that flate2's `DeflateEncoder` writes for a byte
/// string at its best compression level, or `None` where it reports an error.
pub uninterp spec fn deflated(raw: Seq<u8>) -> Option<Seq<u8>>;

/// What flate2's `DeflateDecoder` makes of a byte string: the bytes that
/// the deflate stream holds, or `None` where it reports an error.
pub uninterp spec fn inflated(stream: Seq<u8>) -> Option<Seq<u8>>;

/// Feeds the bytes to a `flate2::write::DeflateEncoder` over an empty `Vec`,
/// made with `Compression::best()`, and finishes it. An error of the encoder
/// comes back as `None`. Besides naming the result, the contract states that
/// deflate is lossless: the decoder gets the bytes back from what the encoder
/// wrote.
#[verifier::external_body]
pub(crate) fn deflate(raw: &[u8]) -> (stream: Option<Vec<u8>>)
    ensures
        stream is Some == deflated(raw@) is Some,
        stream matches Some(s) ==> deflated(raw@) == Some(s@) && inflated(s@) == Some(raw@),
{
    let mut encoder = flate2::write::DeflateEncoder::new(Vec::new(), flate2::Compression::best());
    match std::io::Write::write_all(&mut encoder, raw) {
        Ok(()) => encoder.finish().ok(),
        Err(_) => None,
    }
}

/// Feeds the bytes to a `flate2::write::DeflateDecoder` over an empty `Vec`
/// and finishes it. An error of the decoder comes back as `None`.
#[verifier::external_body]
pub(crate) fn inflate(stream: &[u8]) -> (raw: Option<Vec<u8>>)
    ensures
        raw is Some == inflated(stream@) is Some,
        raw matches Some(r) ==> inflated(stream@) == Some(r@),
{
    let mut decoder = flate2::write::DeflateDecoder::new(Vec::new());
    match std::io::Write::write_all(&mut decoder, stream) {
        Ok(()) => decoder.finish().ok(),
        Err(_) => None,
    }
}

} // verus!
