//! The messages of a track: how bytes are cut into them and what they mean.

use crate::varint::{
    big_endian, is_terminated, lemma_quantity_len_bound, quantity_bytes, quantity_len,
    quantity_value,
};
use vstd::prelude::*;

verus! {

/// What a status byte announces.
#[derive(Clone, Copy, PartialEq, Eq, Structural, Debug)]
pub enum MessageKind {
    NoteOn,
    NoteOff,
    ControlChange,
    /// Another channel message with two data bytes.
    TwoData,
    /// A channel message with one data byte.
    OneData,
    Meta,
    SysEx,
    /// A status without a meaning in a file, or no status at all.
    Unknown,
}

/// The kind of message that `status` announces.
pub open spec fn message_kind(status: u8) -> MessageKind {
    if 0x80 <= status < 0x90 {
        MessageKind::NoteOff
    } else if 0x90 <= status < 0xA0 {
        MessageKind::NoteOn
    } else if 0xA0 <= status < 0xB0 || 0xE0 <= status < 0xF0 {
        MessageKind::TwoData
    } else if 0xB0 <= status < 0xC0 {
        MessageKind::ControlChange
    } else if 0xC0 <= status < 0xE0 {
        MessageKind::OneData
    } else if status == 0xFF {
        MessageKind::Meta
    } else if status == 0xF0 || status == 0xF7 {
        MessageKind::SysEx
    } else {
        MessageKind::Unknown
    }
}

/// Tells the kind of message that `status` announces.
pub fn classify(status: u8) -> (kind: MessageKind)
    ensures
        kind == message_kind(status),
        kind == MessageKind::NoteOff <==> status / 16 == 8,
        kind == MessageKind::NoteOn <==> status / 16 == 9,
        kind == MessageKind::ControlChange <==> status / 16 == 11,
        kind == MessageKind::TwoData <==> status / 16 == 10 || status / 16 == 14,
        kind == MessageKind::OneData <==> status / 16 == 12 || status / 16 == 13,
        kind == MessageKind::Meta <==> status == 255,
        kind == MessageKind::SysEx <==> status == 240 || status == 247,
{
    let msg_type = status & 0xF0;
    assert(msg_type == status & 0xF0 ==> {
        &&& (msg_type == 0x80 <==> 0x80 <= status < 0x90)
        &&& (msg_type == 0x90 <==> 0x90 <= status < 0xA0)
        &&& (msg_type == 0xA0 <==> 0xA0 <= status < 0xB0)
        &&& (msg_type == 0xB0 <==> 0xB0 <= status < 0xC0)
        &&& (msg_type == 0xC0 <==> 0xC0 <= status < 0xD0)
        &&& (msg_type == 0xD0 <==> 0xD0 <= status < 0xE0)
        &&& (msg_type == 0xE0 <==> 0xE0 <= status < 0xF0)
    }) by (bit_vector);
    if msg_type == 0x90 {
        MessageKind::NoteOn
    } else if msg_type == 0x80 {
        MessageKind::NoteOff
    } else if msg_type == 0xB0 {
        MessageKind::ControlChange
    } else if msg_type == 0xA0 || msg_type == 0xE0 {
        MessageKind::TwoData
    } else if msg_type == 0xC0 || msg_type == 0xD0 {
        MessageKind::OneData
    } else if status == 0xFF {
        MessageKind::Meta
    } else if status == 0xF0 || status == 0xF7 {
        MessageKind::SysEx
    } else {
        MessageKind::Unknown
    }
}

/// One message of a track: when it happens, in ticks from the start of the
/// track, its status (its own or the running one) and the bytes after it.
pub struct Message {
    pub tick: u32,
    pub status: u8,
    pub body: Seq<u8>,
}

/// The sum of two tick counts, held at the largest count.
pub open spec fn saturating_ticks(a: u32, b: u32) -> u32 {
    if a + b <= u32::MAX {
        (a + b) as u32
    } else {
        u32::MAX
    }
}

/// Whether `s` starts with a delta time that something follows.
pub open spec fn starts_message(s: Seq<u8>) -> bool {
    quantity_len(s) < s.len()
}

/// The delta time at the front of `s`.
pub open spec fn delta_of(s: Seq<u8>) -> u32 {
    quantity_value(quantity_bytes(s))
}

/// The status of the message at the front of `s`; a byte below `0x80` where
/// the status would be leaves the running status in force.
pub open spec fn status_of(s: Seq<u8>, running: u8) -> u8 {
    let b = s[quantity_len(s) as int];
    if b >= 0x80 {
        b
    } else {
        running
    }
}

/// What follows the status of the message at the front of `s`.
pub open spec fn after_status(s: Seq<u8>) -> Seq<u8> {
    let n = quantity_len(s) as int;
    if s[n] >= 0x80 {
        s.skip(n + 1)
    } else {
        s.skip(n)
    }
}

/// How many bytes a message of this status claims of the bytes `rest` that
/// follow its status, whether or not so many are there.
pub open spec fn claimed_len(status: u8, rest: Seq<u8>) -> nat {
    match message_kind(status) {
        MessageKind::NoteOn
        | MessageKind::NoteOff
        | MessageKind::ControlChange
        | MessageKind::TwoData => 2,
        MessageKind::OneData => 1,
        MessageKind::Meta => if rest.len() == 0 {
            1
        } else {
            1 + quantity_len(rest.skip(1)) + quantity_value(quantity_bytes(rest.skip(1))) as nat
        },
        MessageKind::SysEx => quantity_len(rest) + quantity_value(quantity_bytes(rest)) as nat,
        MessageKind::Unknown => 0,
    }
}

/// How many of the bytes `rest` a message of this status takes: those it
/// claims, as far as they are there.
pub open spec fn body_len(status: u8, rest: Seq<u8>) -> nat {
    if claimed_len(status, rest) <= rest.len() {
        claimed_len(status, rest)
    } else {
        rest.len()
    }
}

/// The messages in the bytes `s` of a track, when `tick` ticks have passed and
/// `running` is the status in force. The last one may be cut short.
pub open spec fn messages(s: Seq<u8>, tick: u32, running: u8) -> Seq<Message>
    decreases s.len(),
{
    if !starts_message(s) {
        Seq::empty()
    } else {
        let now = saturating_ticks(tick, delta_of(s));
        let status = status_of(s, running);
        let rest = after_status(s);
        let n = body_len(status, rest) as int;
        let first = Message { tick: now, status, body: rest.take(n) };
        seq![first] + messages(rest.skip(n), now, status)
    }
}

/// The first message of `s`, and the messages after it.
pub(crate) proof fn lemma_first_message(s: Seq<u8>, tick: u32, running: u8)
    requires
        starts_message(s),
    ensures
        ({
            let ms = messages(s, tick, running);
            let now = saturating_ticks(tick, delta_of(s));
            let status = status_of(s, running);
            let rest = after_status(s);
            let n = body_len(status, rest) as int;
            &&& ms.len() > 0
            &&& ms[0] == (Message { tick: now, status, body: rest.take(n) })
            &&& ms.skip(1) == messages(rest.skip(n), now, status)
        }),
{
    let now = saturating_ticks(tick, delta_of(s));
    let status = status_of(s, running);
    let rest = after_status(s);
    let n = body_len(status, rest) as int;
    assert(messages(s, tick, running).skip(1) =~= messages(rest.skip(n), now, status));
}

/// The messages of a whole track.
pub open spec fn track_messages(track: Seq<u8>) -> Seq<Message> {
    messages(track, 0, 0)
}

/// Whether all that a message of this status claims of the bytes `rest` behind
/// its status is there, the length it gives included.
pub open spec fn is_whole_body(status: u8, rest: Seq<u8>) -> bool {
    &&& claimed_len(status, rest) <= rest.len()
    &&& match message_kind(status) {
        MessageKind::Meta => rest.len() > 0 && is_terminated(rest.skip(1)),
        MessageKind::SysEx => is_terminated(rest),
        _ => true,
    }
}

/// Whether the bytes `s` of a track, when `running` is the status in force, end
/// neither inside a delta time nor inside a message.
pub open spec fn is_whole(s: Seq<u8>, running: u8) -> bool
    decreases s.len(),
{
    s.len() == 0 || (is_terminated(s) && (starts_message(s) ==> {
        let status = status_of(s, running);
        let rest = after_status(s);
        &&& is_whole_body(status, rest)
        &&& is_whole(rest.skip(body_len(status, rest) as int), status)
    }))
}

/// The status of the message that follows a delta time, at the front of `r`.
pub open spec fn due_status(r: Seq<u8>, running: u8) -> u8 {
    if r[0] >= 0x80 {
        r[0]
    } else {
        running
    }
}

/// What follows that status.
pub open spec fn due_rest(r: Seq<u8>) -> Seq<u8> {
    if r[0] >= 0x80 {
        r.skip(1)
    } else {
        r
    }
}

/// The message that follows a delta time, at the front of `r`.
pub open spec fn due_message(r: Seq<u8>, tick: u32, running: u8) -> Message {
    let status = due_status(r, running);
    let rest = due_rest(r);
    Message { tick, status, body: rest.take(body_len(status, rest) as int) }
}

/// What follows that message.
pub open spec fn after_due(r: Seq<u8>, running: u8) -> Seq<u8> {
    due_rest(r).skip(body_len(due_status(r, running), due_rest(r)) as int)
}

/// The messages in the bytes `r` of a track, when a delta time was read and
/// its message is due at `tick`.
pub open spec fn due_messages(r: Seq<u8>, tick: u32, running: u8) -> Seq<Message> {
    if r.len() == 0 {
        Seq::empty()
    } else {
        seq![due_message(r, tick, running)] + messages(
            after_due(r, running),
            tick,
            due_status(r, running),
        )
    }
}

/// Whether the bytes `r`, when a delta time was read, end neither inside a
/// delta time nor inside a message.
pub open spec fn is_whole_due(r: Seq<u8>, running: u8) -> bool {
    r.len() == 0 || {
        &&& is_whole_body(due_status(r, running), due_rest(r))
        &&& is_whole(after_due(r, running), due_status(r, running))
    }
}

/// Reading the delta time leaves the messages.
pub(crate) proof fn lemma_due(s: Seq<u8>, tick: u32, running: u8)
    requires
        s.len() > 0,
        is_whole(s, running),
    ensures
        ({
            let r = s.skip(quantity_len(s) as int);
            &&& due_messages(r, saturating_ticks(tick, delta_of(s)), running) == messages(
                s,
                tick,
                running,
            )
            &&& is_whole_due(r, running)
        }),
{
    lemma_quantity_len_bound(s);
    let n = quantity_len(s) as int;
    let r = s.skip(n);
    if starts_message(s) {
        assert(r[0] == s[n]);
        assert(r.skip(1) =~= s.skip(n + 1));
    }
}

/// Whether a message is a tempo change with its three tempo bytes.
pub open spec fn is_tempo(m: Message) -> bool {
    let q = quantity_bytes(m.body.skip(1));
    &&& message_kind(m.status) == MessageKind::Meta
    &&& m.body.len() > 0
    &&& m.body[0] == 0x51
    &&& quantity_value(q) == 3
    &&& m.body.len() == 1 + q.len() + 3
}

/// The tempo, in microseconds per quarter note, that a tempo change sets.
pub open spec fn tempo_of(m: Message) -> u64 {
    big_endian(m.body.skip(m.body.len() - 3)) as u64
}

/// Whether a message is a note message with both of its data bytes.
pub open spec fn is_note(m: Message) -> bool {
    message_kind(m.status) == MessageKind::NoteOn && m.body.len() == 2
}

/// Whether a message starts a note: a note-on message of velocity 0 does not.
pub open spec fn starts_note(m: Message) -> bool {
    is_note(m) && m.body[1] > 0
}

/// Whether a message is a controller message with both of its data bytes.
pub open spec fn is_control_change(m: Message) -> bool {
    message_kind(m.status) == MessageKind::ControlChange && m.body.len() == 2
}

} // verus!
