//! Where the bytes of a stream come from.

use crate::xz::{xz_contents, xz_open, xz_output, xz_read_exact, XzStream};
use vstd::prelude::*;

verus! {

/// Why bytes could not be read.
#[derive(Debug)]
pub enum ReadError {
    /// The data ends before the bytes asked for do.
    UnexpectedEnd,
    /// The decoder of a compressed stream could not deliver them.
    Decoder(std::io::Error),
}

/// A sequence of bytes that is read from front to back: bytes as they are, or
/// what a decoder makes of compressed ones.
pub enum ByteSource<'a> {
    Plain(&'a [u8]),
    Xz(XzStream<'a>),
}

impl<'a> View for ByteSource<'a> {
    type V = Seq<u8>;

    /// The bytes that are left.
    open spec fn view(&self) -> Seq<u8> {
        match self {
            ByteSource::Plain(bytes) => bytes@,
            ByteSource::Xz(stream) => xz_contents(*stream).0,
        }
    }
}

impl<'a> ByteSource<'a> {
    /// Whether all bytes that are left can be read. A decoder that finds a
    /// fault may fail before it.
    pub open spec fn reliable(&self) -> bool {
        match self {
            ByteSource::Plain(_) => true,
            ByteSource::Xz(stream) => xz_contents(*stream).1,
        }
    }

    /// The bytes as they are.
    pub fn plain(bytes: &'a [u8]) -> (source: Self)
        ensures
            source@ == bytes@,
            source is Plain,
    {
        ByteSource::Plain(bytes)
    }

    /// What the decoder makes of the compressed bytes `data`.
    pub fn xz(data: &'a [u8]) -> (source: Self)
        ensures
            source is Xz,
            source@ == xz_output(data@).0,
            source.reliable() == xz_output(data@).1,
    {
        ByteSource::Xz(xz_open(data))
    }

    /// Takes the next `count` bytes. Fails where fewer are left, and may fail
    /// earlier where the source is not reliable.
    pub fn read_exact(&mut self, count: usize) -> (res: Result<Vec<u8>, ReadError>)
        ensures
            res matches Ok(bytes) ==> {
                &&& count <= old(self)@.len()
                &&& bytes@ == old(self)@.take(count as int)
                &&& final(self)@ == old(self)@.skip(count as int)
                &&& final(self).reliable() == old(self).reliable()
            },
            old(self).reliable() && count <= old(self)@.len() ==> res is Ok,
            res matches Err(error) ==> (error is Decoder <==> *old(self) is Xz),
            *final(self) is Xz <==> *old(self) is Xz,
    {
        match self {
            ByteSource::Plain(bytes) => {
                let data: &'a [u8] = *bytes;
                if count > data.len() {
                    return Err(ReadError::UnexpectedEnd);
                }
                let (front, rest) = data.split_at(count);
                let mut out: Vec<u8> = Vec::with_capacity(count);
                out.extend_from_slice(front);
                *bytes = rest;
                assert(out@ =~= data@.take(count as int));
                assert(rest@ =~= data@.skip(count as int));
                Ok(out)
            },
            ByteSource::Xz(stream) => match xz_read_exact(stream, count) {
                Ok(bytes) => Ok(bytes),
                Err(error) => Err(ReadError::Decoder(error)),
            },
        }
    }
}

} // verus!
