use std::io::Read;
use vstd::prelude::*;
use xz2::read::{XzDecoder, XzEncoder};

verus! {

/// What the xz decoder makes of a stream: the bytes that the stream unpacks to, or
/// nothing where the decoder rejects the stream.
pub uninterp spec fn xz_content(stream: Seq<u8>) -> Option<Seq<u8>>;

/// `xz2::read::XzEncoder::new` on `data` at preset `level`, read to its end: always a
/// stream, and one that the decoder unpacks to `data`. That the stream unpacks to
/// `data` is what the outside crate documents of its encoder and decoder; nothing
/// here proves it. That there always is a stream is read from the outside source:
/// its reader hands on no error but that of the reader below it, which a byte slice
/// never raises. The outside constructor panics on a preset that liblzma does not
/// know, so `level` stays within 0 to 9.
#[verifier::external_body]
pub(crate) fn xz_encode(data: &[u8], level: u32) -> (out: Option<Vec<u8>>)
    requires
        level <= 9,
    ensures
        out is Some,
        out matches Some(stream) ==> xz_content(stream@) == Some(data@),
{
    let mut packed: Vec<u8> = Vec::new();
    match XzEncoder::new(data, level).read_to_end(&mut packed) {
        Ok(_) => Some(packed),
        Err(_) => None,
    }
}

/// `xz2::read::XzDecoder::new` on `stream`, read to its end: what the decoder makes
/// of the stream, which the contract only gives its name. The decoder works on the
/// bytes of the stream alone and without a limit on its memory.
#[verifier::external_body]
pub(crate) fn xz_decode(stream: &[u8]) -> (out: Option<Vec<u8>>)
    ensures
        match out {
            Some(data) => xz_content(stream@) == Some(data@),
            None => xz_content(stream@) is None,
        },
{
    let mut unpacked: Vec<u8> = Vec::new();
    match XzDecoder::new(stream).read_to_end(&mut unpacked) {
        Ok(_) => Some(unpacked),
        Err(_) => None,
    }
}

} // verus!
