//! Reading one track of a file through a window of bounded size.

use crate::byte_source::ReadError;
use crate::varint::{lemma_append_digit, quantity_value};
use vstd::prelude::*;

verus! {

/// What a track cursor holds, as mathematical values.
#[verifier::ext_equal]
pub struct CursorState {
    /// The file that the track lies in.
    pub file: Seq<u8>,
    /// The whole buffer, with what lies in it beyond the window.
    pub buffer: Seq<u8>,
    /// Where in the file the window starts.
    pub buffer_start: nat,
    /// How many bytes at the front of the buffer are the window.
    pub buffer_len: nat,
    /// Where in the file the track ends.
    pub end: nat,
    /// Where in the file the next byte is read.
    pub pos: nat,
    pub track_idx: usize,
    pub abs_tick: u32,
    pub last_status: u8,
}

impl CursorState {
    /// Whether there are bytes of the track left.
    pub open spec fn has_data(self) -> bool {
        self.pos < self.end
    }

    /// How many bytes a refill asks the file for.
    pub open spec fn wanted(self) -> nat {
        if self.buffer.len() <= self.end - self.pos {
            self.buffer.len()
        } else {
            (self.end - self.pos) as nat
        }
    }

    /// Whether a refill asks for bytes past the end of the file.
    pub open spec fn fill_fails(self) -> bool {
        self.has_data() && self.pos + self.wanted() > self.file.len()
    }

    /// The state after a refill. Past the end of the track the window becomes
    /// empty. Where the file ends before the bytes asked for do, those that
    /// are there land in the buffer and the window stays what it was.
    pub open spec fn filled(self) -> CursorState {
        if !self.has_data() {
            CursorState { buffer_len: 0, ..self }
        } else if self.fill_fails() {
            let got = if self.pos <= self.file.len() {
                self.file.skip(self.pos as int)
            } else {
                Seq::empty()
            };
            CursorState { buffer: got + self.buffer.skip(got.len() as int), ..self }
        } else {
            CursorState {
                buffer: self.file.subrange(self.pos as int, (self.pos + self.wanted()) as int)
                    + self.buffer.skip(self.wanted() as int),
                buffer_start: self.pos,
                buffer_len: self.wanted(),
                ..self
            }
        }
    }

    /// The state from which the next byte is taken: refilled where the
    /// position lies behind the window.
    pub open spec fn ready(self) -> CursorState {
        if self.pos - self.buffer_start >= self.buffer_len {
            self.filled()
        } else {
            self
        }
    }

    /// Whether the next byte lies in the buffer.
    pub open spec fn readable(self) -> bool {
        self.ready().pos - self.ready().buffer_start < self.buffer.len()
    }

    /// The next byte. At a position where the window is empty it is whatever
    /// an earlier refill left there.
    pub open spec fn byte(self) -> u8 {
        self.ready().buffer[self.ready().pos - self.ready().buffer_start]
    }

    /// The state after the next byte was read.
    pub open spec fn next(self) -> CursorState {
        CursorState { pos: self.pos + 1, ..self.ready() }
    }

    /// No byte at or past this position can be read.
    pub open spec fn reach(self) -> nat {
        (if self.end < self.buffer_start {
            self.buffer_start
        } else {
            self.end
        }) + self.buffer.len()
    }

    /// The bytes of the quantity at the position, up to the first byte below
    /// `0x80`, with the state after it; `None` where one of them cannot be
    /// read.
    pub open spec fn quantity(self) -> Option<(Seq<u8>, CursorState)>
        decreases self.reach() - self.pos,
    {
        if !self.readable() {
            None
        } else if self.byte() < 0x80 {
            Some((seq![self.byte()], self.next()))
        } else {
            match self.next().quantity() {
                Some((rest, after)) => Some((seq![self.byte()] + rest, after)),
                None => None,
            }
        }
    }

    /// The state after `n` bytes were skipped.
    pub open spec fn skipped(self, n: nat) -> CursorState {
        let moved = CursorState { pos: self.pos + n, ..self };
        if moved.has_data() {
            moved.ready()
        } else {
            moved
        }
    }
}

/// A position in one track of a file, read through a buffer that holds a
/// window of the track.
pub struct BufferedTrackCursor<'a> {
    pub track_idx: usize,
    pub file: &'a [u8],
    pub buffer: Vec<u8>,
    pub buffer_start_file_pos: u64,
    pub buffer_len: usize,
    pub buffer_capacity: usize,
    pub file_track_end: u64,
    pub file_current_pos: u64,
    pub abs_tick: u32,
    pub last_status: u8,
}

impl<'a> View for BufferedTrackCursor<'a> {
    type V = CursorState;

    open spec fn view(&self) -> CursorState {
        CursorState {
            file: self.file@,
            buffer: self.buffer@,
            buffer_start: self.buffer_start_file_pos as nat,
            buffer_len: self.buffer_len as nat,
            end: self.file_track_end as nat,
            pos: self.file_current_pos as nat,
            track_idx: self.track_idx,
            abs_tick: self.abs_tick,
            last_status: self.last_status,
        }
    }
}

/// The size of the buffer for a track of `track_len` bytes: as long as the
/// track, but at most `max_buffer_size` and at least 1024 bytes.
pub open spec fn buffer_size(max_buffer_size: int, track_len: int) -> int {
    let capped = if track_len < max_buffer_size {
        track_len
    } else {
        max_buffer_size
    };
    if capped < 1024 {
        1024
    } else {
        capped
    }
}

/// The cursor at the start of the track that lies in `file` from `start` to
/// `end`, its buffer zeroed and then filled.
pub open spec fn opened(
    file: Seq<u8>,
    start: nat,
    end: nat,
    track_idx: usize,
    max_buffer_size: int,
) -> CursorState {
    let empty = CursorState {
        file,
        buffer: Seq::new(buffer_size(max_buffer_size, end - start) as nat, |i: int| 0u8),
        buffer_start: 0,
        buffer_len: 0,
        end,
        pos: start,
        track_idx,
        abs_tick: 0,
        last_status: 0,
    };
    empty.filled()
}

impl<'a> BufferedTrackCursor<'a> {
    /// The buffer is not empty, the window lies in it, the position is not
    /// before the window, and no position that a read or a skip can reach from
    /// within the track is too large for its type.
    pub open spec fn wf(&self) -> bool {
        &&& 0 < self.buffer@.len() == self.buffer_capacity
        &&& self.buffer_len <= self.buffer_capacity
        &&& self.buffer_start_file_pos <= self.file_current_pos
        &&& self.buffer_start_file_pos <= self.file_track_end
        &&& self.file_track_end + self.buffer_capacity + 0x1_0000_0000 <= u64::MAX
    }

    /// Whether two cursors read the same track, at the same tick, through
    /// buffers of one size.
    pub open spec fn same_track(&self, other: &Self) -> bool {
        &&& self.track_idx == other.track_idx
        &&& self.file == other.file
        &&& self.file_track_end == other.file_track_end
        &&& self.buffer_capacity == other.buffer_capacity
        &&& self.abs_tick == other.abs_tick
    }

    /// Whether the position is one that reading bytes can reach: not further
    /// behind the end of the track than the buffer is long.
    pub open spec fn within_reach(&self) -> bool {
        self.file_current_pos <= self.file_track_end + self.buffer_capacity
    }

    /// A cursor at the start of the track that lies in `file` from `start` to
    /// `end`. The window is filled at once, as far as the file allows.
    pub fn new(
        file: &'a [u8],
        start: u64,
        end: u64,
        idx: usize,
        max_buffer_size: usize,
    ) -> (cursor: Self)
        requires
            start <= end,
            end - start <= usize::MAX,
            end + buffer_size(max_buffer_size as int, end - start) + 0x1_0000_0000 <= u64::MAX,
        ensures
            cursor.wf(),
            cursor@ == opened(file@, start as nat, end as nat, idx, max_buffer_size as int),
    {
        let track_len: usize = (end - start) as usize;
        let capped: usize = if track_len < max_buffer_size {
            track_len
        } else {
            max_buffer_size
        };
        let actual_buffer_capacity: usize = if capped < 1024 {
            1024
        } else {
            capped
        };
        let buffer: Vec<u8> = vec![0u8; actual_buffer_capacity];
        let mut cursor = BufferedTrackCursor {
            track_idx: idx,
            file,
            file_track_end: end,
            file_current_pos: start,
            buffer,
            buffer_start_file_pos: 0,
            buffer_len: 0,
            buffer_capacity: actual_buffer_capacity,
            abs_tick: 0,
            last_status: 0,
        };
        assert(cursor.buffer@ =~= Seq::new(
            buffer_size(max_buffer_size as int, end - start) as nat,
            |i: int| 0u8,
        ));
        let _ = cursor.fill_buffer();
        cursor
    }

    /// Moves the window to the current position and fills it from the file.
    /// Fails where the file ends before the bytes asked for do.
    pub fn fill_buffer(&mut self) -> (res: Result<(), ReadError>)
        requires
            old(self).wf(),
        ensures
            final(self).wf(),
            final(self).same_track(old(self)),
            final(self)@ == old(self)@.filled(),
            res is Err <==> old(self)@.fill_fails(),
            res matches Err(e) ==> e is UnexpectedEnd,
    {
        if self.file_current_pos >= self.file_track_end {
            self.buffer_len = 0;
            return Ok(());
        }
        let remaining: u64 = self.file_track_end - self.file_current_pos;
        let to_read: usize = if remaining < self.buffer_capacity as u64 {
            remaining as usize
        } else {
            self.buffer_capacity
        };
        let file_len: u64 = self.file.len() as u64;
        let available: u64 = if self.file_current_pos < file_len {
            file_len - self.file_current_pos
        } else {
            0
        };
        let count: usize = if available < to_read as u64 {
            available as usize
        } else {
            to_read
        };
        self.copy_from_file(count);
        if count < to_read {
            assert(self@ =~= old(self)@.filled());
            return Err(ReadError::UnexpectedEnd);
        }
        self.buffer_start_file_pos = self.file_current_pos;
        self.buffer_len = to_read;
        assert(self@ =~= old(self)@.filled());
        Ok(())
    }

    /// Copies `count` bytes from the current position of the file to the front
    /// of the buffer.
    fn copy_from_file(&mut self, count: usize)
        requires
            count <= old(self).buffer@.len(),
            count > 0 ==> old(self).file_current_pos + count <= old(self).file@.len(),
        ensures
            *final(self) == (BufferedTrackCursor { buffer: final(self).buffer, ..*old(self) }),
            count > 0 ==> final(self).buffer@ == old(self).file@.subrange(
                old(self).file_current_pos as int,
                old(self).file_current_pos + count,
            ) + old(self).buffer@.skip(count as int),
            count == 0 ==> final(self).buffer@ == old(self).buffer@,
    {
        let file_len: usize = self.file.len();
        let mut i: usize = 0;
        while i < count
            invariant
                file_len == old(self).file@.len(),
                i <= count <= old(self).buffer@.len(),
                count > 0 ==> old(self).file_current_pos + count <= old(self).file@.len(),
                *self == (BufferedTrackCursor { buffer: self.buffer, ..*old(self) }),
                self.buffer@.len() == old(self).buffer@.len(),
                forall|k: int|
                    0 <= k < i ==> #[trigger] self.buffer@[k] == old(
                        self,
                    ).file@[old(self).file_current_pos + k],
                forall|k: int|
                    i <= k < self.buffer@.len() ==> #[trigger] self.buffer@[k] == old(
                        self,
                    ).buffer@[k],
            decreases count - i,
        {
            let b: u8 = self.file[self.file_current_pos as usize + i];
            self.buffer[i] = b;
            i += 1;
        }
        proof {
            if count > 0 {
                assert(self.buffer@ =~= old(self).file@.subrange(
                    old(self).file_current_pos as int,
                    old(self).file_current_pos + count,
                ) + old(self).buffer@.skip(count as int));
            } else {
                assert(self.buffer@ =~= old(self).buffer@);
            }
        }
    }

    /// Whether there are bytes of the track left.
    pub fn has_data(&self) -> (res: bool)
        ensures
            res == self@.has_data(),
    {
        self.file_current_pos < self.file_track_end
    }

    /// Reads the next byte. Returns `None` where it does not lie in the
    /// buffer, which can only be past the end of the track or of the file.
    pub fn read_byte(&mut self) -> (res: Option<u8>)
        requires
            old(self).wf(),
        ensures
            final(self).wf(),
            final(self).same_track(old(self)),
            res is Some ==> final(self).within_reach(),
            old(self)@.readable() ==> res == Some(old(self)@.byte()) && final(self)@ == old(
                self,
            )@.next(),
            !old(self)@.readable() ==> res is None && final(self)@ == old(self)@.ready(),
    {
        let res = self.peek_byte();
        if res.is_some() {
            self.file_current_pos += 1;
        }
        res
    }

    /// Tells the next byte without reading it; `None` as for `read_byte`.
    pub fn peek_byte(&mut self) -> (res: Option<u8>)
        requires
            old(self).wf(),
        ensures
            final(self).wf(),
            final(self).same_track(old(self)),
            final(self)@ == old(self)@.ready(),
            res == (if old(self)@.readable() {
                Some(old(self)@.byte())
            } else {
                None
            }),
    {
        let local_pos: u64 = self.file_current_pos - self.buffer_start_file_pos;
        if local_pos >= self.buffer_len as u64 {
            let _ = self.fill_buffer();
        }
        let local_pos: u64 = self.file_current_pos - self.buffer_start_file_pos;
        if local_pos < self.buffer_capacity as u64 {
            Some(self.buffer[local_pos as usize])
        } else {
            None
        }
    }

    /// Skips `len` bytes, and refills the window where the new position lies
    /// behind it and still in the track.
    pub fn skip_bytes(&mut self, len: u64)
        requires
            old(self).wf(),
            old(self).file_current_pos + len <= u64::MAX,
        ensures
            final(self).wf(),
            final(self).same_track(old(self)),
            final(self)@ == old(self)@.skipped(len as nat),
    {
        self.file_current_pos += len;
        let local_pos: u64 = self.file_current_pos - self.buffer_start_file_pos;
        if local_pos >= self.buffer_len as u64 && self.file_current_pos < self.file_track_end {
            let _ = self.fill_buffer();
        }
    }
}

/// Reads a quantity of any length and returns what 32 bits hold of it. Returns
/// `None` where one of its bytes cannot be read.
pub fn read_varint_buffered(c: &mut BufferedTrackCursor) -> (res: Option<u32>)
    requires
        old(c).wf(),
    ensures
        final(c).wf(),
        final(c).same_track(old(c)),
        res is Some ==> final(c).within_reach(),
        match old(c)@.quantity() {
            Some((bytes, after)) => res == Some(quantity_value(bytes)) && final(c)@ == after,
            None => res is None,
        },
{
    let mut value: u32 = 0;
    let ghost mut seen: Seq<u8> = Seq::empty();
    loop
        invariant
            c.wf(),
            c.same_track(old(c)),
            value == quantity_value(seen),
            old(c)@.quantity() == (match c@.quantity() {
                Some((rest, after)) => Some((seen + rest, after)),
                None => None::<(Seq<u8>, CursorState)>,
            }),
        decreases c@.reach() - c@.pos,
    {
        let b = match c.read_byte() {
            Some(b) => b,
            None => {
                return None;
            },
        };
        proof {
            lemma_append_digit(seen, b, value);
            assert(seen + seq![b] =~= seen.push(b));
        }
        value = (value << 7) | ((b & 0x7F) as u32);
        assert((b & 0x80 == 0) == (b < 0x80)) by (bit_vector);
        if (b & 0x80) == 0 {
            return Some(value);
        }
        proof {
            if let Some((rest, after)) = c@.quantity() {
                assert(seen + (seq![b] + rest) =~= seen.push(b) + rest);
            }
            seen = seen.push(b);
        }
    }
}

} // verus!
