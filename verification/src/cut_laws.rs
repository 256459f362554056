//! What holds of any bytes, message by message, whether or not they were
//! written as a track.

use crate::buffered_cursor::{opened, CursorState};
use crate::byte_laws::law_kinds_are_told_by_the_high_half;
use crate::event_queue::NextEvent;
use crate::message::{body_len, is_tempo, lemma_first_message, messages, tempo_of, Message};
use crate::standard::{AnalysisError, StandardState};
use crate::tempo_map::TempoChange;
use crate::tempo_scan::tempo_changes;
use crate::track_event::TrackEvent;
use crate::track_parser::{parsed_events, reported, ParsedMidiEvent};
use crate::varint::{
    base128, big_endian, lemma_quantity_len_is, quantity_bytes, quantity_len, quantity_value,
};
use vstd::prelude::*;

verus! {

/// The smaller of two numbers.
pub open spec fn at_most(a: int, b: int) -> int {
    if a <= b {
        a
    } else {
        b
    }
}

/// Whether the first byte below 128 in `s`, from `from` on, is at `k`.
pub open spec fn ends_quantity(s: Seq<u8>, from: int, k: int) -> bool {
    &&& 0 <= from <= k < s.len()
    &&& s[k] < 128
    &&& forall|i: int| from <= i < k ==> #[trigger] s[i] >= 128
}

proof fn lemma_ends_quantity(s: Seq<u8>, from: int, k: int)
    requires
        ends_quantity(s, from, k),
    ensures
        quantity_len(s.skip(from)) == k + 1 - from,
        quantity_bytes(s.skip(from)) == s.subrange(from, k + 1),
{
    let t = s.skip(from);
    let n = k + 1 - from;
    assert forall|i: int| 0 <= i < n - 1 implies #[trigger] t[i] >= 0x80 by {
        assert(t[i] == s[from + i]);
    }
    lemma_quantity_len_is(t, n);
    assert(t.take(n) =~= s.subrange(from, k + 1));
}

/// A message goes from its delta time, which ends at `q`, over its status, if it
/// has one of its own, to the end of its data. How much data there is depends on
/// the status: two bytes, one, none, or as many as a length says. What is behind
/// it is cut in the same way.
pub proof fn law_messages_are_cut_one_behind_the_other(
    s: Seq<u8>,
    q: int,
    tick: u32,
    running: u8,
)
    requires
        ends_quantity(s, 0, q),
        q + 1 < s.len(),
    ensures
        ({
            let ms = messages(s, tick, running);
            let own = s[q + 1] >= 128;
            let rest = if own {
                s.skip(q + 2)
            } else {
                s.skip(q + 1)
            };
            let status = ms[0].status;
            let n = ms[0].body.len() as int;
            &&& ms.len() > 0
            &&& ms[0].tick == at_most(
                tick + base128(s.take(q + 1)) as int % 0x1_0000_0000,
                0xFFFF_FFFF,
            )
            &&& status == (if own {
                s[q + 1]
            } else {
                running
            })
            &&& n <= rest.len()
            &&& ms[0].body == rest.take(n)
            &&& ms.skip(1) == messages(rest.skip(n), ms[0].tick, status)
            &&& status / 16 == 8 || status / 16 == 9 || status / 16 == 10 || status / 16 == 11
                || status / 16 == 14 ==> n == at_most(2, rest.len() as int)
            &&& status / 16 == 12 || status / 16 == 13 ==> n == at_most(1, rest.len() as int)
            &&& status < 128 ==> n == 0
            &&& 240 < status < 255 && status != 247 ==> n == 0
            &&& status == 255 && rest.len() == 0 ==> n == 0
            &&& status == 255 ==> forall|k: int| #[trigger]
                ends_quantity(rest, 1, k) ==> n == at_most(
                    k + 1 + base128(rest.subrange(1, k + 1)) as int % 0x1_0000_0000,
                    rest.len() as int,
                )
            &&& status == 240 || status == 247 ==> forall|k: int| #[trigger]
                ends_quantity(rest, 0, k) ==> n == at_most(
                    k + 1 + base128(rest.subrange(0, k + 1)) as int % 0x1_0000_0000,
                    rest.len() as int,
                )
        }),
{
    lemma_ends_quantity(s, 0, q);
    assert(s.skip(0) =~= s);
    assert(s.subrange(0, q + 1) =~= s.take(q + 1));
    lemma_first_message(s, tick, running);
    let ms = messages(s, tick, running);
    let own = s[q + 1] >= 128;
    let rest = if own {
        s.skip(q + 2)
    } else {
        s.skip(q + 1)
    };
    let status = ms[0].status;
    let n = ms[0].body.len();
    assert(n == body_len(status, rest));
    assert forall|k: int| status == 255 && #[trigger] ends_quantity(rest, 1, k) implies n
        == at_most(
        k + 1 + base128(rest.subrange(1, k + 1)) as int % 0x1_0000_0000,
        rest.len() as int,
    ) by {
        lemma_ends_quantity(rest, 1, k);
    }
    assert forall|k: int|
        (status == 240 || status == 247) && #[trigger] ends_quantity(rest, 0, k) implies n
        == at_most(
        k + 1 + base128(rest.subrange(0, k + 1)) as int % 0x1_0000_0000,
        rest.len() as int,
    ) by {
        lemma_ends_quantity(rest, 0, k);
        assert(rest.skip(0) =~= rest);
    }
}

/// Bytes that end before or right behind a delta time hold no message.
pub proof fn law_no_message_without_a_byte_behind_its_delta(s: Seq<u8>, tick: u32, running: u8)
    requires
        forall|i: int| 0 <= i < s.len() - 1 ==> #[trigger] s[i] >= 128,
    ensures
        messages(s, tick, running).len() == 0,
{
    if s.len() > 0 {
        lemma_quantity_len_is(s, s.len() as int);
    }
}

/// What a message is reported as: note-on and controller messages with both
/// data bytes are, whatever the channel, the key, the controller and the time,
/// and no others.
pub proof fn law_reports_are_told_by_the_bytes(m: Message)
    ensures
        reported(m) is Some <==> m.body.len() == 2 && (m.status / 16 == 9 || m.status / 16 == 11),
        reported(m) matches Some(event) ==> {
            &&& event.abs_tick == m.tick
            &&& event.is_cc <==> m.status / 16 == 11
            &&& event.is_note_on <==> m.status / 16 == 9 && m.body[1] > 0
        },
{
}

/// When a message sets a tempo, and which: a meta message of type 81 whose
/// length is three and whose three data bytes are there. The length ends at
/// `k`.
pub proof fn law_tempos_are_told_by_the_bytes(m: Message, k: int)
    requires
        ends_quantity(m.body, 1, k),
    ensures
        is_tempo(m) <==> {
            &&& m.status == 255
            &&& m.body[0] == 81
            &&& base128(m.body.subrange(1, k + 1)) as int % 0x1_0000_0000 == 3
            &&& m.body.len() == k + 4
        },
        is_tempo(m) ==> tempo_of(m) == m.body[k + 1] * 65536 + m.body[k + 2] * 256 + m.body[k + 3],
{
    lemma_ends_quantity(m.body, 1, k);
    if is_tempo(m) {
        let d = m.body.skip(m.body.len() - 3);
        assert(d =~= seq![m.body[k + 1], m.body[k + 2], m.body[k + 3]]);
        lemma_spelled(d[0], d[1], d[2]);
    }
}

/// A message more adds to the reported events and to the tempo changes what it
/// is itself, at its own time, and leaves what was there.
pub proof fn law_lists_grow_message_by_message(ms: Seq<Message>, m: Message)
    ensures
        parsed_events(Seq::empty()) == Seq::<ParsedMidiEvent>::empty(),
        parsed_events(ms.push(m)) == (match reported(m) {
            Some(event) => parsed_events(ms).push(event),
            None => parsed_events(ms),
        }),
        tempo_changes(Seq::empty()) == Seq::<TempoChange>::empty(),
        tempo_changes(ms.push(m)) == (if is_tempo(m) {
            tempo_changes(ms).push(TempoChange { abs_tick: m.tick, tempo_us: tempo_of(m) })
        } else {
            tempo_changes(ms)
        }),
    decreases ms.len(),
{
    let longer = ms.push(m);
    if ms.len() == 0 {
        assert(longer.skip(1) =~= ms);
    } else {
        law_lists_grow_message_by_message(ms.skip(1), m);
        assert(longer.skip(1) =~= ms.skip(1).push(m));
    }
    assert(parsed_events(longer) =~= (match reported(m) {
        Some(event) => parsed_events(ms).push(event),
        None => parsed_events(ms),
    }));
    assert(tempo_changes(longer) =~= (if is_tempo(m) {
        tempo_changes(ms).push(TempoChange { abs_tick: m.tick, tempo_us: tempo_of(m) })
    } else {
        tempo_changes(ms)
    }));
}

/// Where a cursor stands, and with which status, when the status of the event
/// at `c` was read.
pub open spec fn behind_status(c: CursorState) -> CursorState {
    if c.byte() >= 128 {
        CursorState { last_status: c.byte(), ..c.next() }
    } else {
        c.ready()
    }
}

/// Whether the cursor has moved on by `n` bytes, with nothing else changed but
/// the window.
pub open spec fn is_behind(after: CursorState, c: CursorState, n: int) -> bool {
    &&& after.pos == c.pos + n
    &&& after.file == c.file
    &&& after.end == c.end
    &&& after.track_idx == c.track_idx
    &&& after.abs_tick == c.abs_tick
    &&& after.last_status == c.last_status
}

/// A quantity that a cursor reads goes up to its first byte below 128.
pub proof fn law_cursors_read_quantities_byte_by_byte(c: CursorState)
    ensures
        c.quantity() matches Some((bytes, after)) ==> {
            &&& bytes.len() > 0
            &&& bytes.last() < 128
            &&& forall|i: int| 0 <= i < bytes.len() - 1 ==> #[trigger] bytes[i] >= 128
            &&& is_behind(after, c, bytes.len() as int)
        },
        c.quantity() is Some && c.byte() < 128 ==> c.quantity().unwrap().0 == seq![c.byte()],
        c.quantity() is Some && c.byte() >= 128 ==> {
            &&& c.next().quantity() is Some
            &&& c.quantity().unwrap().0 == seq![c.byte()] + c.next().quantity().unwrap().0
        },
        !c.readable() ==> c.quantity() is None,
        c.readable() && c.byte() < 128 ==> c.quantity() is Some,
        c.readable() && c.byte() >= 128 && c.next().quantity() is Some ==> c.quantity() is Some,
    decreases c.reach() - c.pos,
{
    if c.readable() && c.byte() >= 128 && c.next().quantity() is Some {
        law_cursors_read_quantities_byte_by_byte(c.next());
        let (rest, _) = c.next().quantity().unwrap();
        let bytes = seq![c.byte()] + rest;
        assert forall|i: int| 0 <= i < bytes.len() - 1 implies #[trigger] bytes[i] >= 128 by {
            if i > 0 {
                assert(bytes[i] == rest[i - 1]);
            }
        }
    }
}

proof fn lemma_moves(c: CursorState, n: nat)
    ensures
        is_behind(c.next(), c, 1),
        is_behind(c.next().next(), c, 2),
        is_behind(c.next().next().next(), c, 3),
        is_behind(c.skipped(n), c, n as int),
{
}

proof fn lemma_event_is_body(c: CursorState)
    requires
        c.readable(),
    ensures
        c.event() == behind_status(c).event_body(behind_status(c).last_status),
{
}

proof fn lemma_channel_body(at: CursorState, status: u8)
    requires
        8 <= status / 16 < 15,
    ensures
        ({
            let high = status / 16;
            let both = at.readable() && at.next().readable();
            let e = at.event_body(status);
            &&& high == 8 ==> e == (if both {
                Some((TrackEvent::NoteOff, at.next().next()))
            } else {
                None
            })
            &&& high == 9 ==> e == (if both {
                Some(
                    (
                        if at.next().byte() > 0 {
                            TrackEvent::NoteOn
                        } else {
                            TrackEvent::NoteOff
                        },
                        at.next().next(),
                    ),
                )
            } else {
                None
            })
            &&& high == 10 || high == 14 ==> e == Some((TrackEvent::Other, at.skipped(2)))
            &&& high == 11 ==> e == Some((TrackEvent::ControlChange, at.skipped(2)))
            &&& high == 12 || high == 13 ==> e == Some((TrackEvent::Other, at.skipped(1)))
        }),
{
    reveal(CursorState::event_body);
    law_kinds_are_told_by_the_high_half(status);
}

/// What an event on a channel is, and where it ends, for any cursor: told by the
/// high half of its status, own or running, and for a note by its velocity.
pub proof fn law_channel_events_are_told_by_their_bytes(c: CursorState)
    requires
        c.readable(),
    ensures
        ({
            let at = behind_status(c);
            let high = at.last_status / 16;
            let both = at.readable() && at.next().readable();
            &&& high == 8 ==> (c.event() is Some <==> both)
            &&& high == 9 ==> (c.event() is Some <==> both)
            &&& 10 <= high < 15 ==> c.event() is Some
            &&& high == 8 && both ==> c.event().unwrap().0 == TrackEvent::NoteOff
            &&& high == 9 && both ==> (c.event().unwrap().0 == TrackEvent::NoteOn
                <==> at.next().byte() > 0)
            &&& high == 9 && both ==> (c.event().unwrap().0 == TrackEvent::NoteOff
                <==> at.next().byte() == 0)
            &&& high == 11 ==> c.event().unwrap().0 == TrackEvent::ControlChange
            &&& high == 10 || 12 <= high < 15 ==> c.event().unwrap().0 == TrackEvent::Other
            &&& c.event() is Some && 8 <= high < 12 ==> is_behind(c.event().unwrap().1, at, 2)
            &&& c.event() is Some && high == 14 ==> is_behind(c.event().unwrap().1, at, 2)
            &&& 12 <= high < 14 ==> is_behind(c.event().unwrap().1, at, 1)
        }),
{
    let at = behind_status(c);
    lemma_event_is_body(c);
    if 8 <= at.last_status / 16 < 15 {
        lemma_channel_body(at, at.last_status);
        lemma_moves(at, 2);
        lemma_moves(at, 1);
    }
}

proof fn lemma_spelled(a: u8, b: u8, c: u8)
    ensures
        big_endian(seq![a, b, c]) == a * 65536 + b * 256 + c,
{
    let three = seq![a, b, c];
    reveal_with_fuel(big_endian, 4);
    assert(three.drop_last() =~= seq![a, b]);
    assert(three.drop_last().drop_last() =~= seq![a]);
    assert(three.drop_last().drop_last().drop_last() =~= Seq::empty());
}

/// What a meta event is, and where it ends, for any cursor: one of type 81 and
/// length three sets the tempo that its three bytes spell, and every other one
/// does nothing and goes on for as many bytes as its length says.
pub proof fn law_meta_events_are_told_by_their_bytes(c: CursorState)
    requires
        c.readable(),
        behind_status(c).last_status == 255,
    ensures
        ({
            let at = behind_status(c);
            let known = at.readable() && at.next().quantity() is Some;
            let (len_bytes, data) = at.next().quantity().unwrap();
            let len = base128(len_bytes) as int % 0x1_0000_0000;
            let sets = known && at.byte() == 81 && len == 3;
            let third = data.next().next();
            let three = data.readable() && data.next().readable() && third.readable();
            &&& !known ==> c.event() is None
            &&& sets ==> (c.event() is Some <==> three)
            &&& sets && three ==> c.event().unwrap().0 == TrackEvent::Tempo(
                (data.byte() * 65536 + data.next().byte() * 256 + third.byte()) as u64,
            )
            &&& sets && three ==> is_behind(c.event().unwrap().1, data, 3)
            &&& known && !sets ==> c.event() is Some
            &&& known && !sets ==> c.event().unwrap().0 == TrackEvent::Other
            &&& known && !sets ==> is_behind(c.event().unwrap().1, data, len)
        }),
{
    let at = behind_status(c);
    lemma_event_is_body(c);
    let (len_bytes, data) = at.next().quantity().unwrap();
    assert(at.event_body(255) == (if at.readable() {
        match at.next().quantity() {
            Some((len_bytes, data)) => if at.byte() == 0x51 && quantity_value(len_bytes) == 3 {
                data.tempo()
            } else {
                Some((TrackEvent::Other, data.skipped(quantity_value(len_bytes) as nat)))
            },
            None => None,
        }
    } else {
        None
    })) by {
        reveal(CursorState::event_body);
    }
    lemma_moves(data, quantity_value(len_bytes) as nat);
    lemma_spelled(data.byte(), data.next().byte(), data.next().next().byte());
}

/// What every other event is, and where it ends, for any cursor: it does
/// nothing. A system exclusive one goes on for as many bytes as its length says;
/// a status without a meaning has no bytes behind it.
pub proof fn law_other_events_do_nothing(c: CursorState)
    requires
        c.readable(),
        ({
            let status = behind_status(c).last_status;
            status < 128 || 240 <= status < 255
        }),
    ensures
        ({
            let at = behind_status(c);
            let counted = at.last_status == 240 || at.last_status == 247;
            let (bytes, after) = at.quantity().unwrap();
            &&& c.event() matches Some((event, _)) ==> event == TrackEvent::Other
            &&& c.event() is Some <==> !counted || at.quantity() is Some
            &&& !counted ==> is_behind(c.event().unwrap().1, at, 0)
            &&& counted && at.quantity() is Some ==> is_behind(
                c.event().unwrap().1,
                after,
                base128(bytes) as int % 0x1_0000_0000,
            )
        }),
{
    let at = behind_status(c);
    lemma_event_is_body(c);
    let (bytes, after) = at.quantity().unwrap();
    assert(at.event_body(at.last_status) == (if at.last_status == 240 || at.last_status == 247 {
        match at.quantity() {
            Some((bytes, after)) => Some(
                (TrackEvent::Other, after.skipped(quantity_value(bytes) as nat)),
            ),
            None => None,
        }
    } else {
        Some((TrackEvent::Other, at))
    })) by {
        reveal(CursorState::event_body);
    }
    lemma_moves(after, quantity_value(bytes) as nat);
}

/// The time of a track moves on by the delta time that is read, as far as 32
/// bits hold it, from whatever it was; at the start it is the first delta time.
pub proof fn law_delta_times_add_up(c: CursorState)
    ensures
        !c.has_data() ==> c.advanced() == Some(c) && c.started() == Some(c),
        c.has_data() ==> (c.advanced() is Some <==> c.quantity() is Some),
        c.has_data() ==> (c.started() is Some <==> c.quantity() is Some),
        c.has_data() && c.quantity() is Some ==> {
            let (bytes, after) = c.quantity().unwrap();
            let delta = base128(bytes) as int % 0x1_0000_0000;
            &&& c.advanced().unwrap().abs_tick == at_most(c.abs_tick + delta, 0xFFFF_FFFF)
            &&& c.started().unwrap().abs_tick == delta
            &&& c.advanced().unwrap().pos == after.pos
            &&& c.started().unwrap().pos == after.pos
            &&& c.advanced().unwrap().last_status == c.last_status
            &&& c.started().unwrap().last_status == c.last_status
        },
{
    law_cursors_read_quantities_byte_by_byte(c);
}

/// The buffer of a track is never under 1024 bytes, and otherwise neither longer
/// than the track nor than what a track may have.
pub proof fn law_buffers_fit_their_tracks(
    file: Seq<u8>,
    start: nat,
    end: nat,
    track_idx: usize,
    max_buffer_size: int,
)
    requires
        start <= end,
    ensures
        ({
            let c = opened(file, start, end, track_idx, max_buffer_size);
            let n = c.buffer.len();
            &&& n >= 1024
            &&& n > 1024 ==> n <= end - start && n <= max_buffer_size
            &&& n >= end - start || n >= max_buffer_size
            &&& c.pos == start
            &&& c.end == end
            &&& c.file == file
            &&& c.track_idx == track_idx
            &&& c.abs_tick == 0
            &&& c.last_status == 0
        }),
{
}

/// A refill, byte by byte. It asks for the rest of the track or for a buffer
/// full of it, whichever is less. Where the file has so much, the window is that
/// much of the file from the position on; where it does not, the window stays,
/// and what the file has is laid over the front of the buffer; behind the track
/// the window becomes empty. All other bytes of the buffer stay.
pub proof fn law_refills_byte_by_byte(c: CursorState, i: int)
    requires
        c.pos <= c.file.len(),
        0 <= i < c.buffer.len(),
    ensures
        ({
            let after = c.filled();
            let asked = at_most(c.end - c.pos, c.buffer.len() as int);
            &&& after.buffer.len() == c.buffer.len()
            &&& is_behind(after, c, 0)
            &&& c.pos >= c.end ==> after.buffer_len == 0 && after.buffer == c.buffer
            &&& c.pos < c.end && c.pos + asked <= c.file.len() ==> {
                &&& after.buffer_start == c.pos
                &&& after.buffer_len == asked
                &&& after.buffer[i] == (if i < asked {
                    c.file[c.pos + i]
                } else {
                    c.buffer[i]
                })
            }
            &&& c.pos < c.end && c.pos + asked > c.file.len() ==> {
                &&& after.buffer_start == c.buffer_start
                &&& after.buffer_len == c.buffer_len
                &&& after.buffer[i] == (if c.pos + i < c.file.len() {
                    c.file[c.pos + i]
                } else {
                    c.buffer[i]
                })
            }
        }),
{
}

/// Inside the window a byte is read from the buffer, and nothing but the
/// position moves; elsewhere there is a refill first.
pub proof fn law_bytes_come_from_the_window(c: CursorState)
    requires
        c.buffer_start <= c.pos,
        c.buffer_len <= c.buffer.len(),
    ensures
        c.pos < c.buffer_start + c.buffer_len ==> {
            &&& c.readable()
            &&& c.byte() == c.buffer[c.pos - c.buffer_start]
            &&& c.next() == (CursorState { pos: c.pos + 1, ..c })
        },
        c.pos >= c.buffer_start + c.buffer_len ==> {
            let full = c.filled();
            &&& c.readable() <==> c.pos < full.buffer_start + c.buffer.len()
            &&& c.byte() == full.buffer[c.pos - full.buffer_start]
            &&& c.next() == (CursorState { pos: c.pos + 1, ..full })
        },
{
}

/// A due event is applied or refused. A track without bytes left changes
/// nothing. A track whose bytes cannot be read is an overrun, a count at its
/// limit an overflow. Otherwise the track, and no other, has moved on, its event
/// is counted, and the track is queued again just where bytes of it are left.
pub proof fn law_events_are_applied_or_refused(a: StandardState, event: NextEvent)
    requires
        event.track_idx < a.cursors.len(),
    ensures
        ({
            let t = event.track_idx as int;
            let c = a.cursors[t];
            let (e, after) = c.event().unwrap();
            let full = match e {
                TrackEvent::NoteOn => a.tally.total_notes == 0xFFFF_FFFF_FFFF_FFFF
                    || a.tally.current_polyphony == 0x7FFF_FFFF,
                TrackEvent::ControlChange => a.tally.total_cc_events == 0xFFFF_FFFF_FFFF_FFFF,
                _ => false,
            };
            let reads = c.event() is Some;
            &&& !c.has_data() ==> a.applied(event) == Ok::<_, AnalysisError>(a)
            &&& c.has_data() ==> (a.applied(event) == Err::<StandardState, _>(
                AnalysisError::Overrun,
            ) <==> !reads || (!full && after.advanced() is None))
            &&& c.has_data() ==> (a.applied(event) == Err::<StandardState, _>(
                AnalysisError::Overflow,
            ) <==> reads && full)
            &&& c.has_data() ==> (a.applied(event) is Ok <==> reads && !full && after.advanced()
                is Some)
            &&& c.has_data() && a.applied(event) is Ok ==> {
                let b = a.applied(event).unwrap();
                let again = NextEvent { tick: b.cursors[t].abs_tick, track_idx: event.track_idx };
                &&& b.cursors.len() == a.cursors.len()
                &&& Some(b.cursors[t]) == after.advanced()
                &&& forall|i: int|
                    0 <= i < a.cursors.len() && i != t ==> #[trigger] b.cursors[i] == a.cursors[i]
                &&& b.last_time_tick == a.last_time_tick
                &&& after.pos < after.end ==> b.queue == a.queue.insert(again)
                &&& after.pos >= after.end ==> b.queue == a.queue
                &&& b.tally.total_notes - a.tally.total_notes == (if e == TrackEvent::NoteOn {
                    1int
                } else {
                    0
                })
                &&& b.tally.total_cc_events - a.tally.total_cc_events == (if e
                    == TrackEvent::ControlChange {
                    1int
                } else {
                    0
                })
            }
        }),
{
}

} // verus!
