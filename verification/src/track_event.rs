//! Reading the events of one track.

use crate::buffered_cursor::{read_varint_buffered, BufferedTrackCursor, CursorState};
use crate::message::{classify, is_tempo, message_kind, starts_note, tempo_of, Message, MessageKind};
use crate::varint::{big_endian, quantity_value, read_u24_be};
use vstd::prelude::*;

verus! {

/// What an event of a track means to the counts.
#[derive(Clone, Copy, PartialEq, Eq, Structural, Debug)]
pub enum TrackEvent {
    NoteOn,
    NoteOff,
    ControlChange,
    /// A tempo change, to so many microseconds per quarter note.
    Tempo(u64),
    Other,
}

/// What a message with all its bytes means to the counts.
pub open spec fn event_of(m: Message) -> TrackEvent {
    match message_kind(m.status) {
        MessageKind::NoteOn => if starts_note(m) {
            TrackEvent::NoteOn
        } else {
            TrackEvent::NoteOff
        },
        MessageKind::NoteOff => TrackEvent::NoteOff,
        MessageKind::ControlChange => TrackEvent::ControlChange,
        MessageKind::Meta => if is_tempo(m) {
            TrackEvent::Tempo(tempo_of(m))
        } else {
            TrackEvent::Other
        },
        _ => TrackEvent::Other,
    }
}

impl CursorState {
    /// The next two bytes, with the state after them.
    pub open spec fn pair(self) -> Option<(u8, u8, CursorState)> {
        let second = self.next();
        if self.readable() && second.readable() {
            Some((self.byte(), second.byte(), second.next()))
        } else {
            None
        }
    }

    /// The event of status `status` whose bytes after the status start at the
    /// position, with the state after it; `None` where one of the bytes that
    /// matter cannot be read.
    #[verifier::opaque]
    pub open spec fn event_body(self, status: u8) -> Option<(TrackEvent, CursorState)> {
        match message_kind(status) {
            MessageKind::NoteOn => match self.pair() {
                Some((_, velocity, after)) => Some(
                    (
                        if velocity > 0 {
                            TrackEvent::NoteOn
                        } else {
                            TrackEvent::NoteOff
                        },
                        after,
                    ),
                ),
                None => None,
            },
            MessageKind::NoteOff => match self.pair() {
                Some((_, _, after)) => Some((TrackEvent::NoteOff, after)),
                None => None,
            },
            MessageKind::ControlChange => Some((TrackEvent::ControlChange, self.skipped(2))),
            MessageKind::TwoData => Some((TrackEvent::Other, self.skipped(2))),
            MessageKind::OneData => Some((TrackEvent::Other, self.skipped(1))),
            MessageKind::Meta => if self.readable() {
                match self.next().quantity() {
                    Some((len_bytes, after)) => if self.byte() == 0x51 && quantity_value(len_bytes)
                        == 3 {
                        after.tempo()
                    } else {
                        Some((TrackEvent::Other, after.skipped(quantity_value(len_bytes) as nat)))
                    },
                    None => None,
                }
            } else {
                None
            },
            MessageKind::SysEx => match self.quantity() {
                Some((len_bytes, after)) => Some(
                    (TrackEvent::Other, after.skipped(quantity_value(len_bytes) as nat)),
                ),
                None => None,
            },
            MessageKind::Unknown => Some((TrackEvent::Other, self)),
        }
    }

    /// The tempo that the next three bytes spell, with the state after them.
    pub open spec fn tempo(self) -> Option<(TrackEvent, CursorState)> {
        match self.pair() {
            Some((t0, t1, third)) => if third.readable() {
                let tempo = big_endian(seq![t0, t1, third.byte()]) as u64;
                Some((TrackEvent::Tempo(tempo), third.next()))
            } else {
                None
            },
            None => None,
        }
    }

    /// The event at the position, with the state after it. A byte below `0x80`
    /// where the status would be leaves the running status in force and is the
    /// first byte after it.
    pub open spec fn event(self) -> Option<(TrackEvent, CursorState)> {
        if !self.readable() {
            None
        } else if self.byte() >= 0x80 {
            (CursorState { last_status: self.byte(), ..self.next() }).event_body(self.byte())
        } else {
            self.ready().event_body(self.last_status)
        }
    }
}

/// Refilling where the position lies behind the window leaves a state in which
/// nothing is left to refill.
pub(crate) proof fn lemma_ready_is_ready(s: CursorState)
    requires
        s.buffer.len() > 0,
    ensures
        s.ready().ready() == s.ready(),
{
    let r = s.ready();
    if s.has_data() && s.fill_fails() {
        assert(s.filled().buffer.len() == s.buffer.len());
        assert(s.filled().filled().buffer =~= s.filled().buffer);
    }
}

/// Reads the event at the cursor, which must not be at the end of its track,
/// and moves past it. Returns `None` where one of the bytes that matter cannot
/// be read.
pub fn read_event(c: &mut BufferedTrackCursor) -> (res: Option<TrackEvent>)
    requires
        old(c).wf(),
        old(c)@.has_data(),
    ensures
        final(c).wf(),
        final(c).same_track(old(c)),
        match old(c)@.event() {
            Some((event, after)) => res == Some(event) && final(c)@ == after,
            None => res is None,
        },
{
    proof {
        lemma_ready_is_ready(c@);
    }
    let next_byte = match c.peek_byte() {
        Some(b) => b,
        None => {
            return None;
        },
    };
    let mut status = next_byte;
    if status >= 0x80 {
        let _ = c.read_byte();
        c.last_status = status;
    } else {
        status = c.last_status;
    }
    read_event_body(c, status)
}

/// Reads what follows the status of an event and moves past it. Returns `None`
/// where one of the bytes that matter cannot be read.
pub fn read_event_body(c: &mut BufferedTrackCursor, status: u8) -> (res: Option<TrackEvent>)
    requires
        old(c).wf(),
        old(c).within_reach(),
    ensures
        final(c).wf(),
        final(c).same_track(old(c)),
        match old(c)@.event_body(status) {
            Some((event, after)) => res == Some(event) && final(c)@ == after,
            None => res is None,
        },
        res == Some(TrackEvent::NoteOn) <==> status / 16 == 9 && (old(c)@.pair() matches Some(
            (_, velocity, _),
        ) && velocity > 0),
        res == Some(TrackEvent::NoteOff) <==> (old(c)@.pair() matches Some((_, velocity, _)) && (
        status / 16 == 8 || (status / 16 == 9 && velocity == 0))),
        res == Some(TrackEvent::ControlChange) <==> status / 16 == 11,
        res matches Some(TrackEvent::Tempo(_)) ==> status == 255,
{
    reveal(CursorState::event_body);
    match classify(status) {
        MessageKind::NoteOn => {
            c.read_byte()?;
            let velocity = c.read_byte()?;
            Some(
                if velocity > 0 {
                    TrackEvent::NoteOn
                } else {
                    TrackEvent::NoteOff
                },
            )
        },
        MessageKind::NoteOff => {
            c.read_byte()?;
            c.read_byte()?;
            Some(TrackEvent::NoteOff)
        },
        MessageKind::ControlChange => {
            c.skip_bytes(2);
            Some(TrackEvent::ControlChange)
        },
        MessageKind::TwoData => {
            c.skip_bytes(2);
            Some(TrackEvent::Other)
        },
        MessageKind::OneData => {
            c.skip_bytes(1);
            Some(TrackEvent::Other)
        },
        MessageKind::Meta => {
            let meta_type = c.read_byte()?;
            let meta_len = read_varint_buffered(c)?;
            if meta_type == 0x51 && meta_len == 3 {
                let t0 = c.read_byte()?;
                let t1 = c.read_byte()?;
                let t2 = c.read_byte()?;
                Some(TrackEvent::Tempo(read_u24_be(t0, t1, t2)))
            } else {
                c.skip_bytes(meta_len as u64);
                Some(TrackEvent::Other)
            }
        },
        MessageKind::SysEx => {
            let sys_len = read_varint_buffered(c)?;
            c.skip_bytes(sys_len as u64);
            Some(TrackEvent::Other)
        },
        MessageKind::Unknown => Some(TrackEvent::Other),
    }
}

} // verus!
