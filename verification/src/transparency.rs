//! Reading through a window gives what the file holds: as long as a track lies
//! in its file, its cursor reads the bytes of the track, whatever the size of
//! the buffer.

use crate::buffered_cursor::{opened, CursorState};
use crate::message::{
    after_due, claimed_len, due_message, due_rest, due_status, is_whole_body, message_kind, Message,
    MessageKind,
};
use crate::tempo_scan::lemma_meta_tempo;
use crate::track_event::{event_of, TrackEvent};
use crate::varint::{
    big_endian, is_terminated, lemma_quantity_len_bound, quantity_bytes, quantity_len,
    quantity_value,
};
use vstd::prelude::*;

verus! {

impl CursorState {
    /// The track lies in the file, and the window holds what the file holds
    /// there.
    pub open spec fn coherent(self) -> bool {
        &&& self.end <= self.file.len()
        &&& 0 < self.buffer.len()
        &&& self.buffer_len <= self.buffer.len()
        &&& self.buffer_start <= self.pos
        &&& self.buffer_start + self.buffer_len <= self.end
        &&& self.buffer.take(self.buffer_len as int) == self.file.subrange(
            self.buffer_start as int,
            (self.buffer_start + self.buffer_len) as int,
        )
    }

    /// The bytes of the track that are left.
    pub open spec fn left(self) -> Seq<u8> {
        if self.pos <= self.end {
            self.file.subrange(self.pos as int, self.end as int)
        } else {
            Seq::empty()
        }
    }

    /// Whether `other` is a coherent cursor in the same track, with the same
    /// tick and status, at position `pos`.
    pub open spec fn moved_to(self, other: CursorState, pos: nat) -> bool {
        &&& other.coherent()
        &&& other.file == self.file
        &&& other.end == self.end
        &&& other.pos == pos
        &&& other.track_idx == self.track_idx
        &&& other.abs_tick == self.abs_tick
        &&& other.last_status == self.last_status
    }
}

/// The first refill of a track that lies in its file leaves a coherent cursor.
pub proof fn law_opened_is_coherent(
    file: Seq<u8>,
    start: nat,
    end: nat,
    track_idx: usize,
    max_buffer_size: int,
)
    requires
        start <= end <= file.len(),
    ensures
        opened(file, start, end, track_idx, max_buffer_size).coherent(),
        opened(file, start, end, track_idx, max_buffer_size).left() == file.subrange(
            start as int,
            end as int,
        ),
{
    let c = opened(file, start, end, track_idx, max_buffer_size);
    assert(c.buffer.take(c.buffer_len as int) =~= file.subrange(
        c.buffer_start as int,
        (c.buffer_start + c.buffer_len) as int,
    ));
}

proof fn lemma_ready(c: CursorState)
    requires
        c.coherent(),
        c.has_data(),
    ensures
        c.moved_to(c.ready(), c.pos),
        c.ready().pos - c.ready().buffer_start < c.ready().buffer_len,
{
    let r = c.ready();
    assert(r.buffer.take(r.buffer_len as int) =~= c.file.subrange(
        r.buffer_start as int,
        (r.buffer_start + r.buffer_len) as int,
    ));
}

/// In the track, a cursor reads the byte that the file holds at its position,
/// and moves one byte on.
pub proof fn law_reads_the_file(c: CursorState)
    requires
        c.coherent(),
        c.has_data(),
    ensures
        c.readable(),
        c.byte() == c.file[c.pos as int],
        c.moved_to(c.next(), c.pos + 1),
        c.moved_to(c.ready(), c.pos),
{
    lemma_ready(c);
    let r = c.ready();
    assert(r.buffer[r.pos - r.buffer_start] == r.buffer.take(r.buffer_len as int)[r.pos
        - r.buffer_start]);
}

/// Skipping moves the position and nothing else.
pub proof fn law_skip_moves(c: CursorState, n: nat)
    requires
        c.coherent(),
    ensures
        c.moved_to(c.skipped(n), c.pos + n),
{
    let moved = CursorState { pos: c.pos + n, ..c };
    if moved.has_data() {
        lemma_ready(moved);
    }
}

/// A quantity that ends in the track is read as the file holds it.
pub proof fn law_quantity_from_file(c: CursorState)
    requires
        c.coherent(),
        is_terminated(c.left()),
    ensures
        c.quantity() matches Some((bytes, after)) && bytes == quantity_bytes(c.left())
            && c.moved_to(after, c.pos + quantity_len(c.left())) && after.left() == c.left().skip(
            quantity_len(c.left()) as int,
        ),
    decreases c.end - c.pos,
{
    let s = c.left();
    lemma_quantity_len_bound(s);
    law_reads_the_file(c);
    assert(s[0] == c.file[c.pos as int]);
    if s[0] < 0x80 {
        assert(quantity_bytes(s) =~= seq![s[0]]);
        assert(c.next().left() =~= s.skip(1));
    } else {
        let d = c.next();
        let t = s.skip(1);
        assert(d.left() =~= t);
        lemma_quantity_len_bound(t);
        if t.len() > 0 {
            assert(s[quantity_len(s) - 1] == t[quantity_len(t) - 1]);
        }
        law_quantity_from_file(d);
        assert(quantity_bytes(s) =~= seq![s[0]] + quantity_bytes(t));
        assert(s.skip(quantity_len(s) as int) =~= t.skip(quantity_len(t) as int));
    }
}

/// Whether a cursor at the bytes `d.left()` behind a status reads the event of
/// the message that they are, and stands behind it afterwards.
spec fn reads_body(d: CursorState, status: u8) -> bool {
    let n = claimed_len(status, d.left());
    let m = Message { tick: d.abs_tick, status, body: d.left().take(n as int) };
    &&& d.event_body(status) matches Some((event, after))
    &&& event == event_of(m)
    &&& d.moved_to(after, d.pos + n)
    &&& after.left() == d.left().skip(n as int)
}

proof fn lemma_note_from_file(d: CursorState, status: u8)
    requires
        d.coherent(),
        d.pos <= d.end,
        is_whole_body(status, d.left()),
        message_kind(status) == MessageKind::NoteOn || message_kind(status)
            == MessageKind::NoteOff,
    ensures
        reads_body(d, status),
{
    reveal(CursorState::event_body);
    let rest = d.left();
    law_reads_the_file(d);
    law_reads_the_file(d.next());
    assert(d.next().next().left() =~= rest.skip(2));
    assert(rest.take(2)[1] == d.file[d.pos as int + 1]);
}

proof fn lemma_skip_from_file(d: CursorState, n: nat)
    requires
        d.coherent(),
        d.pos <= d.end,
        n <= d.left().len(),
    ensures
        d.moved_to(d.skipped(n), d.pos + n),
        d.skipped(n).left() == d.left().skip(n as int),
{
    law_skip_moves(d, n);
    assert(d.skipped(n).left() =~= d.left().skip(n as int));
}

proof fn lemma_sysex_from_file(d: CursorState, status: u8)
    requires
        d.coherent(),
        d.pos <= d.end,
        is_whole_body(status, d.left()),
        message_kind(status) == MessageKind::SysEx,
    ensures
        reads_body(d, status),
{
    reveal(CursorState::event_body);
    let rest = d.left();
    law_quantity_from_file(d);
    let (q, f) = d.quantity().unwrap();
    lemma_quantity_len_bound(rest);
    lemma_skip_from_file(f, quantity_value(q) as nat);
    assert(f.left().skip(quantity_value(q) as int) =~= rest.skip(
        claimed_len(status, rest) as int,
    ));
}

proof fn lemma_tempo_from_file(f: CursorState)
    requires
        f.coherent(),
        f.pos + 3 <= f.end,
    ensures
        ({
            let r = f.left();
            &&& f.tempo() matches Some((event, after))
            &&& event == TrackEvent::Tempo(big_endian(seq![r[0], r[1], r[2]]) as u64)
            &&& f.moved_to(after, f.pos + 3)
            &&& after.left() == r.skip(3)
        }),
{
    let r = f.left();
    law_reads_the_file(f);
    law_reads_the_file(f.next());
    law_reads_the_file(f.next().next());
    assert(r[0] == f.file[f.pos as int]);
    assert(r[1] == f.file[f.pos as int + 1]);
    assert(r[2] == f.file[f.pos as int + 2]);
    assert(f.next().next().next().left() =~= r.skip(3));
}

proof fn lemma_meta_from_file(d: CursorState, status: u8)
    requires
        d.coherent(),
        d.pos <= d.end,
        is_whole_body(status, d.left()),
        message_kind(status) == MessageKind::Meta,
    ensures
        reads_body(d, status),
{
    reveal(CursorState::event_body);
    let rest = d.left();
    let n = claimed_len(status, rest) as int;
    law_reads_the_file(d);
    let e = d.next();
    assert(e.left() =~= rest.skip(1));
    assert(rest[0] == d.byte());
    law_quantity_from_file(e);
    let (q, f) = e.quantity().unwrap();
    lemma_quantity_len_bound(rest.skip(1));
    lemma_meta_tempo(d.abs_tick, status, rest);
    assert(f.left() =~= rest.skip(1 + q.len() as int));
    if rest[0] == 0x51 && quantity_value(q) == 3 {
        lemma_tempo_from_file(f);
        assert(f.left().skip(3) =~= rest.skip(n));
    } else {
        lemma_skip_from_file(f, quantity_value(q) as nat);
        assert(f.left().skip(quantity_value(q) as int) =~= rest.skip(n));
    }
}

/// What follows a status is read as the message that the file holds.
proof fn lemma_body_from_file(d: CursorState, status: u8)
    requires
        d.coherent(),
        d.pos <= d.end,
        is_whole_body(status, d.left()),
    ensures
        reads_body(d, status),
{
    match message_kind(status) {
        MessageKind::NoteOn | MessageKind::NoteOff => {
            lemma_note_from_file(d, status);
        },
        MessageKind::Meta => {
            lemma_meta_from_file(d, status);
        },
        MessageKind::SysEx => {
            lemma_sysex_from_file(d, status);
        },
        MessageKind::ControlChange | MessageKind::TwoData => {
            reveal(CursorState::event_body);
            lemma_skip_from_file(d, 2);
        },
        MessageKind::OneData => {
            reveal(CursorState::event_body);
            lemma_skip_from_file(d, 1);
        },
        MessageKind::Unknown => {
            reveal(CursorState::event_body);
            assert(d.left().skip(0) =~= d.left());
        },
    }
}

/// In the track, a cursor reads the event of the message that the file holds
/// at its position, when all of that message lies in the track.
pub proof fn law_event_is_the_message(c: CursorState)
    requires
        c.coherent(),
        c.has_data(),
        is_whole_body(due_status(c.left(), c.last_status), due_rest(c.left())),
    ensures
        ({
            let r = c.left();
            &&& c.event() matches Some((event, after))
            &&& event == event_of(due_message(r, c.abs_tick, c.last_status))
            &&& after.coherent()
            &&& after.left() == after_due(r, c.last_status)
            &&& after.last_status == due_status(r, c.last_status)
            &&& after.abs_tick == c.abs_tick
            &&& after.file == c.file
            &&& after.end == c.end
            &&& after.track_idx == c.track_idx
        }),
{
    let r = c.left();
    law_reads_the_file(c);
    assert(r[0] == c.file[c.pos as int]);
    if r[0] >= 0x80 {
        let d = CursorState { last_status: r[0], ..c.next() };
        assert(d.left() =~= due_rest(r));
        lemma_body_from_file(d, r[0]);
    } else {
        let d = c.ready();
        assert(d.left() =~= r);
        lemma_body_from_file(d, c.last_status);
    }
}

} // verus!
