//! The xz decoder.

use std::io::Read;
use vstd::prelude::*;
use xz2::read::XzDecoder;

verus! {

/// `std::io::Error`, the error of the decoder. Nothing is said of what it
/// holds.
#[verifier::external_type_specification]
#[verifier::external_body]
pub struct ExIoError(std::io::Error);

/// A decoder of `xz2` over compressed bytes that lie in memory. What it holds
/// is told by `xz_contents`.
#[verifier::external_body]
pub struct XzStream<'a> {
    decoder: XzDecoder<&'a [u8]>,
}

/// What decoding the compressed bytes `data` gives: the bytes that a decoder
/// can produce from them, in order, and whether they start with one stream that
/// is whole and in which the decoder finds no fault.
pub uninterp spec fn xz_output(data: Seq<u8>) -> (Seq<u8>, bool);

/// What is left of that in a decoder: the bytes that it has yet to produce, and
/// whether it finds no fault.
pub uninterp spec fn xz_contents(stream: XzStream<'_>) -> (Seq<u8>, bool);

/// `xz2::read::XzDecoder::new`: a decoder of the one stream at the front of
/// `data`. Claimed: what it produces, and whether it finds a fault, depends on
/// `data` alone, as long as there is the memory that it asks for.
#[verifier::external_body]
pub(crate) fn xz_open(data: &[u8]) -> (stream: XzStream<'_>)
    ensures
        xz_contents(stream) == xz_output(data@),
{
    XzStream { decoder: XzDecoder::new(data) }
}

/// `read_exact` of `std::io::Read` for `xz2::read::XzDecoder`. Claimed: where
/// it succeeds, it delivers the next `count` bytes and leaves those behind
/// them; where the decoder finds no fault and has so many bytes left, it
/// succeeds. It is left open how many bytes in front of a fault can be read,
/// since a read that meets the fault keeps back the bytes it has produced; and
/// so is what is left after a failure, and what the error holds.
#[verifier::external_body]
pub(crate) fn xz_read_exact(stream: &mut XzStream<'_>, count: usize) -> (res: Result<
    Vec<u8>,
    std::io::Error,
>)
    ensures
        res matches Ok(bytes) ==> {
            let (left, faultless) = xz_contents(*old(stream));
            &&& count <= left.len()
            &&& bytes@ == left.take(count as int)
            &&& xz_contents(*final(stream)) == (left.skip(count as int), faultless)
        },
        xz_contents(*old(stream)).1 && count <= xz_contents(*old(stream)).0.len() ==> res is Ok,
{
    let mut bytes = vec![0u8; count];
    stream.decoder.read_exact(&mut bytes)?;
    Ok(bytes)
}

} // verus!
