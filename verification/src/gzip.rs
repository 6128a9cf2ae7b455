//! Transparent decompression of compressed input files.
//!
//! A compressed read file may be a multi-member stream: several
//! independently compressed segments concatenated together. Decoding must
//! cover every member; stopping after the first silently truncates the
//! input.

use vstd::prelude::*;

verus! {

/// The bytes that decoding a (possibly multi-member) gzip stream yields,
/// or `None` when the stream is not well-formed. The result is a function
/// of the input bytes alone.
pub uninterp spec fn multi_gunzip_of(data: Seq<u8>) -> Option<Seq<u8>>;

/// Relies on flate2::read::MultiGzDecoder, which decodes every member of a
/// concatenated gzip stream in order; the decoded bytes (and whether
/// decoding succeeds at all) depend on the input bytes alone.
#[verifier::external_body]
pub(crate) fn gunzip_all(data: &Vec<u8>) -> (r: Option<Vec<u8>>)
    ensures
        r is Some <==> multi_gunzip_of(data@) is Some,
        r is Some ==> r->Some_0@ == multi_gunzip_of(data@)->Some_0,
{
    let mut decoder = flate2::read::MultiGzDecoder::new(data.as_slice());
    let mut out: Vec<u8> = Vec::new();
    match std::io::Read::read_to_end(&mut decoder, &mut out) {
        Ok(_) => Some(out),
        Err(_) => None,
    }
}

} // verus!
