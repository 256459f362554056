//! Reading the bytes of a track that arrive in chunks.

use crate::byte_source::{ByteSource, ReadError};
use crate::varint::{
    is_terminated, lemma_append_digit, lemma_quantity_len_is, quantity_bytes, quantity_len,
    quantity_value,
};
use std::collections::VecDeque;
use vstd::prelude::*;

verus! {

/// The length of the chunks that a track is cut into.
pub const CHUNK_LEN: usize = 65536;

/// The bytes of all chunks, one after the other.
pub open spec fn joined(chunks: Seq<Vec<u8>>) -> Seq<u8>
    decreases chunks.len(),
{
    if chunks.len() == 0 {
        Seq::empty()
    } else {
        chunks[0]@ + joined(chunks.skip(1))
    }
}

proof fn lemma_joined_push(chunks: Seq<Vec<u8>>, chunk: Vec<u8>)
    ensures
        joined(chunks.push(chunk)) == joined(chunks) + chunk@,
    decreases chunks.len(),
{
    if chunks.len() == 0 {
        assert(chunks.push(chunk).skip(1) =~= chunks);
        assert(joined(chunks.push(chunk)) =~= joined(chunks) + chunk@);
    } else {
        lemma_joined_push(chunks.skip(1), chunk);
        assert(chunks.push(chunk).skip(1) =~= chunks.skip(1).push(chunk));
        assert(joined(chunks.push(chunk)) =~= joined(chunks) + chunk@);
    }
}

/// Copies `count` bytes of `chunk`, from `start` on, to the place `at` of `buf`.
fn copy_into(chunk: &Vec<u8>, start: usize, count: usize, buf: &mut [u8], at: usize)
    requires
        start + count <= chunk@.len(),
        at + count <= old(buf)@.len(),
    ensures
        final(buf)@ == old(buf)@.take(at as int) + chunk@.subrange(start as int, start + count)
            + old(buf)@.skip(at + count),
{
    let chunk_len: usize = chunk.len();
    let buf_len: usize = buf.len();
    let mut i: usize = 0;
    while i < count
        invariant
            i <= count,
            start + count <= chunk@.len() == chunk_len,
            at + count <= old(buf)@.len() == buf_len,
            buf@.len() == old(buf)@.len(),
            forall|k: int| 0 <= k < i ==> #[trigger] buf@[at + k] == chunk@[start + k],
            forall|k: int|
                0 <= k < buf@.len() && !(at <= k < at + i) ==> #[trigger] buf@[k] == old(buf)@[k],
        decreases count - i,
    {
        let ghost before = buf@;
        buf[at + i] = chunk[start + i];
        assert forall|k: int| 0 <= k < i + 1 implies #[trigger] buf@[at + k] == chunk@[start
            + k] by {
            if k < i {
                assert(before[at + k] == chunk@[start + k]);
            }
        }
        i += 1;
    }
    proof {
        let wanted = old(buf)@.take(at as int) + chunk@.subrange(start as int, start + count)
            + old(buf)@.skip(at + count);
        assert forall|k: int| 0 <= k < buf@.len() implies buf@[k] == wanted[k] by {
            if at <= k < at + count {
                assert(buf@[at + (k - at)] == chunk@[start + (k - at)]);
            }
        }
        assert(buf@ =~= wanted);
    }
}

/// A reader of chunks that wait in a queue, with one byte that can be put back.
pub struct ChannelReader {
    pub rx: VecDeque<Vec<u8>>,
    pub current_chunk: Vec<u8>,
    pub pos: usize,
    pub peeked_byte: Option<u8>,
}

impl View for ChannelReader {
    type V = Seq<u8>;

    /// The bytes that are left to read.
    open spec fn view(&self) -> Seq<u8> {
        self.put_back() + self.arrived()
    }
}

impl ChannelReader {
    /// The byte that was put back, if any.
    pub open spec fn put_back(&self) -> Seq<u8> {
        match self.peeked_byte {
            Some(b) => seq![b],
            None => Seq::empty(),
        }
    }

    /// What is left of the chunks.
    pub open spec fn arrived(&self) -> Seq<u8> {
        self.current_chunk@.skip(self.pos as int) + joined(self.rx@)
    }

    /// The position lies in the current chunk, and no waiting chunk is empty.
    pub open spec fn wf(&self) -> bool {
        &&& self.pos <= self.current_chunk@.len()
        &&& forall|i: int| 0 <= i < self.rx@.len() ==> (#[trigger] self.rx@[i])@.len() > 0
    }

    /// How many bytes of the chunks one read can give: those left of the
    /// current chunk, or else those of the next one.
    pub open spec fn at_hand(&self) -> nat {
        if self.pos < self.current_chunk@.len() {
            (self.current_chunk@.len() - self.pos) as nat
        } else if self.rx@.len() > 0 {
            self.rx@[0]@.len()
        } else {
            0
        }
    }

    /// How many bytes one read into a buffer of length `len` gives.
    pub open spec fn given(&self, len: nat) -> nat {
        let first = self.put_back().len();
        if len <= first {
            len
        } else if self.at_hand() < len - first {
            first + self.at_hand()
        } else {
            len
        }
    }

    /// Cuts the next `track_len` bytes of a source into chunks and returns a
    /// reader of them. Fails where the source has fewer bytes left, or fails
    /// itself.
    pub fn open(source: &mut ByteSource, track_len: u32) -> (res: Result<Self, ReadError>)
        ensures
            res matches Ok(reader) ==> {
                &&& track_len <= old(source)@.len()
                &&& reader.wf()
                &&& reader@ == old(source)@.take(track_len as int)
                &&& final(source)@ == old(source)@.skip(track_len as int)
                &&& final(source).reliable() == old(source).reliable()
            },
            *final(source) is Xz <==> *old(source) is Xz,
            old(source).reliable() && track_len <= old(source)@.len() ==> res is Ok,
            res matches Err(error) ==> (error is Decoder <==> *old(source) is Xz),
    {
        let mut rx: VecDeque<Vec<u8>> = VecDeque::new();
        let mut track_bytes_left: u32 = track_len;
        while track_bytes_left > 0
            invariant
                track_bytes_left <= track_len,
                track_len - track_bytes_left <= old(source)@.len(),
                source.reliable() == old(source).reliable(),
                *source is Xz <==> *old(source) is Xz,
                source@ == old(source)@.skip(track_len - track_bytes_left),
                joined(rx@) == old(source)@.take(track_len - track_bytes_left),
                forall|i: int| 0 <= i < rx@.len() ==> (#[trigger] rx@[i])@.len() > 0,
            decreases track_bytes_left,
        {
            let to_read: usize = if track_bytes_left as usize <= CHUNK_LEN {
                track_bytes_left as usize
            } else {
                CHUNK_LEN
            };
            let ghost done = track_len - track_bytes_left;
            let chunk = match source.read_exact(to_read) {
                Ok(chunk) => chunk,
                Err(error) => {
                    return Err(error);
                },
            };
            proof {
                lemma_joined_push(rx@, chunk);
                assert(old(source)@.take(done) + chunk@ =~= old(source)@.take(done + to_read));
                assert(source@ =~= old(source)@.skip(done + to_read));
            }
            rx.push_back(chunk);
            track_bytes_left -= to_read as u32;
        }
        let reader = ChannelReader { rx, current_chunk: Vec::new(), pos: 0, peeked_byte: None };
        assert(reader@ =~= joined(reader.rx@));
        Ok(reader)
    }

    /// Puts a byte back, to be read next, in place of one put back before.
    pub fn unget_byte(&mut self, b: u8)
        ensures
            final(self).peeked_byte == Some(b),
            final(self).rx == old(self).rx,
            final(self).current_chunk == old(self).current_chunk,
            final(self).pos == old(self).pos,
            final(self)@ == seq![b] + old(self).arrived(),
    {
        self.peeked_byte = Some(b);
    }

    /// Reads into the front of `buf` and returns how many bytes it read: the
    /// byte that was put back, if any, and as many of one chunk as fit. The next
    /// chunk is taken only where it is needed.
    pub fn read(&mut self, buf: &mut [u8]) -> (count: usize)
        requires
            old(self).wf(),
        ensures
            final(self).wf(),
            count == old(self).given(old(buf)@.len()),
            count <= old(self)@.len(),
            final(buf)@ == old(self)@.take(count as int) + old(buf)@.skip(count as int),
            final(self)@ == old(self)@.skip(count as int),
            old(buf)@.len() > 0 && old(self)@.len() > 0 ==> count > 0,
            old(buf)@.len() > 0 ==> final(self).peeked_byte is None,
            if old(buf)@.len() == 0 {
                *final(self) == *old(self)
            } else if old(buf)@.len() == 1 && old(self).peeked_byte is Some {
                &&& final(self).rx == old(self).rx
                &&& final(self).current_chunk == old(self).current_chunk
                &&& final(self).pos == old(self).pos
            } else if old(self).pos < old(self).current_chunk@.len() {
                &&& final(self).rx == old(self).rx
                &&& final(self).current_chunk == old(self).current_chunk
                &&& final(self).pos == old(self).pos + count - old(self).put_back().len()
            } else if old(self).rx@.len() > 0 {
                &&& final(self).rx@ == old(self).rx@.skip(1)
                &&& final(self).current_chunk == old(self).rx@[0]
                &&& final(self).pos == count - old(self).put_back().len()
            } else {
                &&& final(self).rx@ == old(self).rx@
                &&& final(self).current_chunk == old(self).current_chunk
                &&& final(self).pos == old(self).pos
            },
    {
        if buf.len() == 0 {
            assert(buf@ =~= self@.take(0) + buf@.skip(0));
            assert(self@ =~= self@.skip(0));
            return 0;
        }
        let ghost all = self@;
        let ghost chunks = self.arrived();
        let ghost first = self.put_back();
        let mut bytes_read: usize = 0;
        if let Some(b) = self.peeked_byte.take() {
            buf[0] = b;
            if buf.len() == 1 {
                assert(buf@ =~= all.take(1) + old(buf)@.skip(1));
                assert(self@ =~= all.skip(1));
                return 1;
            }
            bytes_read += 1;
        }
        assert(buf@ =~= first + old(buf)@.skip(bytes_read as int));
        let copied: usize = self.read_chunk(buf, bytes_read);
        proof {
            let count = bytes_read + copied;
            assert(all.take(count) =~= first + chunks.take(copied as int));
            assert(buf@ =~= all.take(count) + old(buf)@.skip(count));
            assert(self@ =~= all.skip(count));
        }
        bytes_read + copied
    }

    /// Reads bytes of one chunk to the place `at` of `buf`, as many as fit, and
    /// returns how many it read.
    fn read_chunk(&mut self, buf: &mut [u8], at: usize) -> (copied: usize)
        requires
            old(self).wf(),
            at < old(buf)@.len(),
        ensures
            final(self).wf(),
            final(self).peeked_byte == old(self).peeked_byte,
            copied == (if old(self).at_hand() < old(buf)@.len() - at {
                old(self).at_hand() as int
            } else {
                old(buf)@.len() - at
            }),
            copied <= old(self).arrived().len(),
            copied > 0 <==> old(self).arrived().len() > 0,
            final(buf)@ == old(buf)@.take(at as int) + old(self).arrived().take(copied as int)
                + old(buf)@.skip(at + copied),
            final(self).arrived() == old(self).arrived().skip(copied as int),
            if old(self).pos < old(self).current_chunk@.len() {
                &&& final(self).rx == old(self).rx
                &&& final(self).current_chunk == old(self).current_chunk
                &&& final(self).pos == old(self).pos + copied
            } else if old(self).rx@.len() > 0 {
                &&& final(self).rx@ == old(self).rx@.skip(1)
                &&& final(self).current_chunk == old(self).rx@[0]
                &&& final(self).pos == copied
            } else {
                &&& final(self).rx@ == old(self).rx@
                &&& final(self).current_chunk == old(self).current_chunk
                &&& final(self).pos == old(self).pos
            },
    {
        let ghost chunks = self.arrived();
        if !self.next_chunk() {
            assert(buf@ =~= buf@.take(at as int) + chunks.take(0) + buf@.skip(at as int));
            assert(chunks.skip(0) =~= chunks);
            return 0;
        }
        let available: usize = self.current_chunk.len() - self.pos;
        let room: usize = buf.len() - at;
        let to_copy: usize = if available < room {
            available
        } else {
            room
        };
        let ghost start = self.pos as int;
        copy_into(&self.current_chunk, self.pos, to_copy, buf, at);
        self.pos += to_copy;
        assert(chunks.take(to_copy as int) =~= self.current_chunk@.subrange(
            start,
            start + to_copy,
        ));
        assert(self.arrived() =~= chunks.skip(to_copy as int));
        to_copy
    }

    /// Makes sure that bytes of the current chunk are left, by going on to the
    /// next one where need be. Returns `false` where no chunk is left.
    fn next_chunk(&mut self) -> (found: bool)
        requires
            old(self).wf(),
        ensures
            final(self).wf(),
            final(self).arrived() == old(self).arrived(),
            final(self).peeked_byte == old(self).peeked_byte,
            found <==> old(self).at_hand() > 0,
            found <==> old(self).arrived().len() > 0,
            found ==> final(self).current_chunk@.len() - final(self).pos == old(self).at_hand(),
            if old(self).pos < old(self).current_chunk@.len() {
                *final(self) == *old(self)
            } else if old(self).rx@.len() > 0 {
                &&& final(self).rx@ == old(self).rx@.skip(1)
                &&& final(self).current_chunk == old(self).rx@[0]
                &&& final(self).pos == 0
            } else {
                &&& final(self).rx@ == old(self).rx@
                &&& final(self).current_chunk == old(self).current_chunk
                &&& final(self).pos == old(self).pos
            },
    {
        if self.pos >= self.current_chunk.len() {
            let ghost before = self.arrived();
            match self.rx.pop_front() {
                Some(chunk) => {
                    self.current_chunk = chunk;
                    self.pos = 0;
                    proof {
                        assert(old(self).rx@[0]@.len() > 0);
                        assert(old(self).rx@.skip(1) =~= self.rx@);
                        assert(self.current_chunk@.skip(0) =~= self.current_chunk@);
                        assert(old(self).current_chunk@.skip(old(self).pos as int)
                            =~= Seq::empty());
                        assert(self.arrived() =~= before);
                        assert forall|i: int| 0 <= i < self.rx@.len() implies (
                        #[trigger] self.rx@[i])@.len() > 0 by {
                            assert(self.rx@[i] == old(self).rx@[i + 1]);
                        }
                    }
                },
                None => {
                    assert(before =~= Seq::empty());
                    return false;
                },
            }
        }
        true
    }

    /// Fills `buf`. Fails where fewer bytes are left; they are then in the
    /// front of `buf`, and nothing is left to read.
    pub fn read_exact(&mut self, buf: &mut [u8]) -> (res: Result<(), ReadError>)
        requires
            old(self).wf(),
        ensures
            final(self).wf(),
            old(buf)@.len() <= old(self)@.len() ==> {
                &&& res is Ok
                &&& final(buf)@ == old(self)@.take(old(buf)@.len() as int)
                &&& final(self)@ == old(self)@.skip(old(buf)@.len() as int)
            },
            old(buf)@.len() > old(self)@.len() ==> {
                &&& res == Err::<(), _>(ReadError::UnexpectedEnd)
                &&& final(buf)@ == old(self)@ + old(buf)@.skip(old(self)@.len() as int)
                &&& final(self)@ == Seq::<u8>::empty()
            },
            old(buf)@.len() > 0 ==> final(self).peeked_byte is None,
            old(buf)@.len() == 0 ==> *final(self) == *old(self),
            old(buf)@.len() == 1 && old(self).peeked_byte is Some ==> {
                &&& final(self).rx == old(self).rx
                &&& final(self).current_chunk == old(self).current_chunk
                &&& final(self).pos == old(self).pos
            },
    {
        let mut filled: usize = 0;
        assert(buf@ =~= self@.take(0) + buf@.skip(0));
        assert(self@ =~= self@.skip(0));
        while filled < buf.len()
            invariant
                self.wf(),
                filled == 0 ==> *self == *old(self),
                filled > 0 ==> self.peeked_byte is None,
                old(buf)@.len() == 1 && old(self).peeked_byte is Some ==> {
                    &&& self.rx == old(self).rx
                    &&& self.current_chunk == old(self).current_chunk
                    &&& self.pos == old(self).pos
                },
                buf@.len() == old(buf)@.len(),
                filled <= buf@.len(),
                filled <= old(self)@.len(),
                buf@ == old(self)@.take(filled as int) + old(buf)@.skip(filled as int),
                self@ == old(self)@.skip(filled as int),
            decreases buf@.len() - filled,
        {
            let ghost before = buf@;
            let ghost left = self@;
            let (front, rest) = buf.split_at_mut(filled);
            let count = self.read(rest);
            assert(before.skip(filled as int) =~= old(buf)@.skip(filled as int));
            if count == 0 {
                assert(left.len() == 0);
                assert(left.take(0) + before.skip(filled as int).skip(0) =~= before.skip(
                    filled as int,
                ));
                assert(self@ =~= Seq::empty());
                assert(old(self)@.take(filled as int) =~= old(self)@);
                return Err(ReadError::UnexpectedEnd);
            }
            proof {
                assert(old(self)@.take(filled as int) + left.take(count as int) =~= old(
                    self,
                )@.take(filled + count));
                assert(old(buf)@.skip(filled as int).skip(count as int) =~= old(buf)@.skip(
                    filled + count,
                ));
                assert(self@ =~= old(self)@.skip(filled + count));
                assert(front@ =~= old(self)@.take(filled as int));
            }
            filled += count;
            assert(buf@ =~= old(self)@.take(filled as int) + old(buf)@.skip(filled as int));
        }
        assert(buf@ =~= old(self)@.take(filled as int));
        Ok(())
    }

    /// Skips `count` bytes, or all that are left where there are fewer.
    pub fn skip_bytes(&mut self, count: u32)
        requires
            old(self).wf(),
        ensures
            final(self).wf(),
            count <= old(self)@.len() ==> final(self)@ == old(self)@.skip(count as int),
            count > old(self)@.len() ==> final(self)@ == Seq::<u8>::empty(),
    {
        if count == 0 {
            assert(self@ =~= self@.skip(0));
            return;
        }
        let ghost all = self@;
        let mut done: u32 = 0;
        if self.peeked_byte.is_some() {
            self.peeked_byte = None;
            done += 1;
        }
        assert(self@ =~= all.skip(done as int));
        while done < count
            invariant
                self.wf(),
                self.peeked_byte is None,
                done <= count,
                done <= all.len(),
                self@ == all.skip(done as int),
            ensures
                self.wf(),
                count <= all.len() ==> self@ == all.skip(count as int),
                count > all.len() ==> self@ == Seq::<u8>::empty(),
            decreases count - done,
        {
            let ghost before = self@;
            if !self.next_chunk() {
                assert(self@ =~= Seq::empty());
                assert(before =~= Seq::empty());
                break;
            }
            assert(self@ =~= before);
            let available: usize = self.current_chunk.len() - self.pos;
            let wanted: u32 = count - done;
            let step: usize = if available < wanted as usize {
                available
            } else {
                wanted as usize
            };
            self.pos += step;
            assert(self@ =~= before.skip(step as int));
            assert(before.skip(step as int) =~= all.skip(done + step));
            done += step as u32;
        }
    }
}

/// Putting back the byte that was just read undoes the read.
pub proof fn law_unget_undoes_a_read(
    before: ChannelReader,
    read: ChannelReader,
    undone: ChannelReader,
)
    requires
        before@.len() > 0,
        read@ == before@.skip(1),
        read.peeked_byte is None,
        undone.peeked_byte == Some(before@[0]),
        undone.arrived() == read.arrived(),
    ensures
        undone@ == before@,
{
    assert(read@ =~= read.arrived());
    assert(undone@ =~= before@);
}

/// Reads a quantity of any length and returns what 32 bits hold of it. Fails
/// where the bytes end before the quantity does; nothing is then left to read.
pub fn read_varint_from_stream(r: &mut ChannelReader) -> (res: Result<u32, ReadError>)
    requires
        old(r).wf(),
    ensures
        final(r).wf(),
        is_terminated(old(r)@) ==> {
            &&& res == Ok::<_, ReadError>(quantity_value(quantity_bytes(old(r)@)))
            &&& final(r)@ == old(r)@.skip(quantity_len(old(r)@) as int)
        },
        !is_terminated(old(r)@) ==> {
            &&& res == Err::<u32, _>(ReadError::UnexpectedEnd)
            &&& final(r)@ == Seq::<u8>::empty()
        },
{
    let ghost all = r@;
    let ghost mut n: int = 0;
    let mut value: u32 = 0;
    let mut b: [u8; 1] = [0u8; 1];
    assert(all.skip(0) =~= all);
    assert(all.take(0) =~= Seq::empty());
    loop
        invariant
            r.wf(),
            0 <= n <= all.len(),
            r@ == all.skip(n),
            forall|i: int| 0 <= i < n ==> #[trigger] all[i] >= 0x80,
            value == quantity_value(all.take(n)),
            all == old(r)@,
        decreases all.len() - n,
    {
        match r.read_exact(&mut b) {
            Ok(()) => {},
            Err(error) => {
                proof {
                    if n > 0 {
                        lemma_quantity_len_is(all, n);
                    }
                }
                return Err(error);
            },
        }
        let byte = b[0];
        proof {
            assert(b@[0] == all.skip(n).take(1)[0]);
            assert(all.take(n).push(byte) =~= all.take(n + 1));
            lemma_append_digit(all.take(n), byte, value);
            assert(all.skip(n).skip(1) =~= all.skip(n + 1));
        }
        value = (value << 7) | ((byte & 0x7F) as u32);
        assert((byte & 0x80 == 0) == (byte < 0x80)) by (bit_vector);
        if (byte & 0x80) == 0 {
            proof {
                lemma_quantity_len_is(all, n + 1);
            }
            return Ok(value);
        }
        proof {
            n = n + 1;
        }
    }
}

} // verus!
