//! Picking the note and controller events out of a track that arrives in
//! chunks.

use crate::channel_reader::{read_varint_from_stream, ChannelReader};
use crate::message::{
    after_status, body_len, classify, is_control_change, is_note, lemma_first_message, messages,
    starts_message, starts_note, Message, MessageKind,
};
use crate::varint::{
    lemma_quantity_len_bound, lemma_quantity_shape, quantity_bytes, quantity_len, quantity_value,
};
use vstd::prelude::*;

verus! {

/// A note or controller event of a track.
#[derive(Clone, Copy, PartialEq, Eq, Structural, Debug)]
pub struct ParsedMidiEvent {
    pub abs_tick: u32,
    pub is_note_on: bool,
    pub is_cc: bool,
}

/// The event that a message is reported as: note-on messages, whether or not
/// they start a note, and controller messages, when they have both data bytes.
pub open spec fn reported(m: Message) -> Option<ParsedMidiEvent> {
    if is_note(m) {
        Some(ParsedMidiEvent { abs_tick: m.tick, is_note_on: starts_note(m), is_cc: false })
    } else if is_control_change(m) {
        Some(ParsedMidiEvent { abs_tick: m.tick, is_note_on: false, is_cc: true })
    } else {
        None
    }
}

/// The events that some messages are reported as, in their order.
pub open spec fn parsed_events(ms: Seq<Message>) -> Seq<ParsedMidiEvent>
    decreases ms.len(),
{
    if ms.len() == 0 {
        Seq::empty()
    } else {
        let rest = parsed_events(ms.skip(1));
        match reported(ms[0]) {
            Some(event) => seq![event] + rest,
            None => rest,
        }
    }
}

/// The parser of one track.
pub struct TrackParser {
    pub reader: ChannelReader,
    pub abs_tick: u32,
    pub last_status: u8,
}

impl TrackParser {
    /// The reader is well-formed.
    pub open spec fn wf(&self) -> bool {
        self.reader.wf()
    }

    /// The events that are left in the track.
    pub open spec fn upcoming(&self) -> Seq<ParsedMidiEvent> {
        parsed_events(messages(self.reader@, self.abs_tick, self.last_status))
    }

    /// A parser at the start of a track.
    pub fn new(reader: ChannelReader) -> (parser: Self)
        requires
            reader.wf(),
        ensures
            parser.wf(),
            parser.reader == reader,
            parser.abs_tick == 0,
            parser.last_status == 0,
    {
        TrackParser { reader, abs_tick: 0, last_status: 0 }
    }

    /// Reads on to the next event; `None` where the track has no more.
    pub fn next_event(&mut self) -> (res: Option<ParsedMidiEvent>)
        requires
            old(self).wf(),
        ensures
            final(self).wf(),
            match res {
                Some(event) => old(self).upcoming() == seq![event] + final(self).upcoming(),
                None => old(self).upcoming() == Seq::<ParsedMidiEvent>::empty()
                    && final(self).upcoming() == Seq::<ParsedMidiEvent>::empty(),
            },
    {
        let mut single_byte: [u8; 1] = [0u8; 1];
        loop
            invariant
                self.wf(),
                self.upcoming() == old(self).upcoming(),
            decreases self.reader@.len(),
        {
            let ghost s = self.reader@;
            let ghost tick = self.abs_tick;
            let ghost running = self.last_status;
            proof {
                lemma_quantity_len_bound(s);
                lemma_quantity_shape(s);
            }
            let delta = match read_varint_from_stream(&mut self.reader) {
                Ok(delta) => delta,
                Err(_) => {
                    assert(!starts_message(s));
                    assert(!starts_message(self.reader@));
                    return None;
                },
            };
            self.abs_tick = self.abs_tick.saturating_add(delta);
            if self.reader.read_exact(&mut single_byte).is_err() {
                assert(!starts_message(s));
                assert(!starts_message(self.reader@));
                return None;
            }
            proof {
                assert(single_byte@[0] == s.skip(quantity_len(s) as int).take(1)[0]);
                assert(single_byte@[0] == s[quantity_len(s) as int]);
                lemma_first_message(s, tick, running);
                assert(self.reader@ =~= s.skip(quantity_len(s) as int + 1));
            }
            let mut status = single_byte[0];
            if status >= 0x80 {
                self.last_status = status;
            } else {
                status = self.last_status;
                self.reader.unget_byte(single_byte[0]);
                assert(self.reader@ =~= s.skip(quantity_len(s) as int));
            }
            assert(self.reader@ == after_status(s));
            let event = self.read_body(status);
            if event.is_some() {
                return event;
            }
        }
    }

    /// Reads what follows the status of a message, as far as it is there, and
    /// returns the event that the message is reported as, if any.
    fn read_body(&mut self, status: u8) -> (res: Option<ParsedMidiEvent>)
        requires
            old(self).wf(),
        ensures
            final(self).wf(),
            final(self).abs_tick == old(self).abs_tick,
            final(self).last_status == old(self).last_status,
            ({
                let rest = old(self).reader@;
                let n = body_len(status, rest) as int;
                &&& final(self).reader@ == rest.skip(n)
                &&& res == reported(
                    Message { tick: old(self).abs_tick, status, body: rest.take(n) },
                )
                &&& res is Some <==> rest.len() >= 2 && (status / 16 == 9 || status / 16 == 11)
                &&& res matches Some(event) ==> {
                    &&& event.abs_tick == old(self).abs_tick
                    &&& event.is_cc <==> status / 16 == 11
                    &&& event.is_note_on <==> status / 16 == 9 && rest[1] > 0
                }
            }),
    {
        let ghost rest = self.reader@;
        let ghost n = body_len(status, rest) as int;
        let mut data: [u8; 2] = [0u8; 2];
        let mut single_byte: [u8; 1] = [0u8; 1];
        match classify(status) {
            MessageKind::NoteOn => {
                if self.reader.read_exact(&mut data).is_ok() {
                    let is_note_on = data[1] > 0;
                    assert(data@[1] == rest.take(n)[1]);
                    return Some(
                        ParsedMidiEvent { abs_tick: self.abs_tick, is_note_on, is_cc: false },
                    );
                }
            },
            MessageKind::ControlChange => {
                if self.reader.read_exact(&mut data).is_ok() {
                    return Some(
                        ParsedMidiEvent {
                            abs_tick: self.abs_tick,
                            is_note_on: false,
                            is_cc: true,
                        },
                    );
                }
            },
            MessageKind::NoteOff | MessageKind::TwoData => {
                let _ = self.reader.read_exact(&mut data);
            },
            MessageKind::OneData => {
                let _ = self.reader.read_exact(&mut single_byte);
            },
            MessageKind::Meta => {
                let _ = self.reader.read_exact(&mut single_byte);
                self.skip_counted();
            },
            MessageKind::SysEx => {
                self.skip_counted();
            },
            MessageKind::Unknown => {},
        }
        assert(self.reader@ =~= rest.skip(n));
        None
    }

    /// Skips a quantity and as many bytes as it says, as far as they are there.
    fn skip_counted(&mut self)
        requires
            old(self).wf(),
        ensures
            final(self).wf(),
            final(self).abs_tick == old(self).abs_tick,
            final(self).last_status == old(self).last_status,
            ({
                let rest = old(self).reader@;
                let n = quantity_len(rest) + quantity_value(quantity_bytes(rest));
                final(self).reader@ == (if n <= rest.len() {
                    rest.skip(n)
                } else {
                    Seq::empty()
                })
            }),
    {
        proof {
            lemma_quantity_len_bound(self.reader@);
            lemma_quantity_shape(self.reader@);
        }
        let ghost rest = self.reader@;
        if let Ok(len) = read_varint_from_stream(&mut self.reader) {
            self.reader.skip_bytes(len);
        }
        proof {
            let n = quantity_len(rest) + quantity_value(quantity_bytes(rest));
            assert(self.reader@ =~= (if n <= rest.len() {
                rest.skip(n)
            } else {
                Seq::empty()
            }));
        }
    }
}

} // verus!
