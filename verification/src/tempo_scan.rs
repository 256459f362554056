//! Collecting the tempo changes of a track.

use crate::message::{
    after_status, body_len, classify, is_tempo, lemma_first_message, message_kind, messages,
    tempo_of, track_messages, Message, MessageKind,
};
use crate::tempo_map::TempoChange;
use crate::varint::{
    big_endian, lemma_append_digit, lemma_big_endian_bound, lemma_quantity_len_bound,
    lemma_quantity_len_is, lemma_quantity_prefix, quantity_bytes, quantity_len, quantity_value,
    read_u24_be,
};
use vstd::prelude::*;

verus! {

/// The tempo changes among some messages, in their order.
pub open spec fn tempo_changes(ms: Seq<Message>) -> Seq<TempoChange>
    decreases ms.len(),
{
    if ms.len() == 0 {
        Seq::empty()
    } else {
        let rest = tempo_changes(ms.skip(1));
        if is_tempo(ms[0]) {
            seq![TempoChange { abs_tick: ms[0].tick, tempo_us: tempo_of(ms[0]) }] + rest
        } else {
            rest
        }
    }
}

/// Reads the quantity at `offset` and moves `offset` past it. Data that ends
/// inside the quantity ends it.
fn read_varint_to_end(data: &[u8], offset: &mut usize) -> (value: u32)
    requires
        *old(offset) <= data@.len(),
    ensures
        value == quantity_value(quantity_bytes(data@.skip(*old(offset) as int))),
        *final(offset) == *old(offset) + quantity_len(data@.skip(*old(offset) as int)),
        *final(offset) <= data@.len(),
{
    let ghost start = *offset as int;
    let ghost s = data@.skip(start);
    let ghost mut n: int = 0;
    let mut value: u32 = 0;
    assert(s.take(0) =~= Seq::empty());
    loop
        invariant_except_break
            forall|i: int| 0 <= i < n ==> #[trigger] s[i] >= 0x80,
        invariant
            s == data@.skip(start),
            0 <= start <= data@.len(),
            0 <= n <= s.len(),
            *offset == start + n,
            value == quantity_value(s.take(n)),
        ensures
            quantity_len(s) == n,
        decreases s.len() - n,
    {
        if *offset >= data.len() {
            proof {
                if n > 0 {
                    lemma_quantity_len_is(s, n);
                }
            }
            break;
        }
        let b = data[*offset];
        proof {
            assert(s[n] == b);
            assert(s.take(n).push(b) =~= s.take(n + 1));
            lemma_append_digit(s.take(n), b, value);
            n = n + 1;
        }
        *offset += 1;
        value = (value << 7) | ((b & 0x7F) as u32);
        assert((b & 0x80 == 0) == (b < 0x80)) by (bit_vector);
        if (b & 0x80) == 0 {
            proof {
                lemma_quantity_len_is(s, n);
            }
            break;
        }
    }
    value
}

/// The place `n` bytes behind `offset`, or the end where that comes first.
fn advance(offset: usize, n: u32, end: usize) -> (res: usize)
    requires
        offset <= end,
    ensures
        res == (if offset + n <= end {
            offset + n
        } else {
            end as int
        }),
{
    if n as usize > end - offset {
        end
    } else {
        offset + n as usize
    }
}

/// When the body of a meta message is a tempo change.
pub(crate) proof fn lemma_meta_tempo(tick: u32, status: u8, rest: Seq<u8>)
    requires
        message_kind(status) == MessageKind::Meta,
        rest.len() > 0,
    ensures
        ({
            let q = quantity_bytes(rest.skip(1));
            let at = 1 + q.len() as int;
            let m = Message { tick, status, body: rest.take(body_len(status, rest) as int) };
            &&& is_tempo(m) <==> rest[0] == 0x51 && quantity_value(q) == 3 && at + 3 <= rest.len()
            &&& is_tempo(m) ==> tempo_of(m) == big_endian(
                seq![rest[at], rest[at + 1], rest[at + 2]],
            )
        }),
{
    let tail = rest.skip(1);
    let q = quantity_bytes(tail);
    let at = 1 + q.len() as int;
    let n = body_len(status, rest) as int;
    let body = rest.take(n);
    lemma_quantity_len_bound(tail);
    lemma_quantity_prefix(tail, n - 1);
    assert(body.skip(1) =~= tail.take(n - 1));
    if quantity_value(q) == 3 && at + 3 <= rest.len() {
        assert(body.skip(n - 3) =~= seq![rest[at], rest[at + 1], rest[at + 2]]);
        lemma_big_endian_bound(body.skip(n - 3));
    }
}

/// Appends the tempo changes of a track to `changes`.
pub fn scan_track(track_data: &[u8], changes: &mut Vec<TempoChange>)
    ensures
        final(changes)@ == old(changes)@ + tempo_changes(track_messages(track_data@)),
{
    let track_len = track_data.len();
    let ghost d = track_data@;
    let mut offset: usize = 0;
    let mut abs_tick: u32 = 0;
    let mut last_status: u8 = 0;
    assert(d.skip(0) =~= d);
    while offset < track_len
        invariant
            track_len == d.len(),
            d == track_data@,
            offset <= track_len,
            old(changes)@ + tempo_changes(track_messages(d)) == changes@ + tempo_changes(
                messages(d.skip(offset as int), abs_tick, last_status),
            ),
        ensures
            changes@ == old(changes)@ + tempo_changes(track_messages(d)),
        decreases track_len - offset,
    {
        let ghost s = d.skip(offset as int);
        let ghost tick = abs_tick;
        let ghost running = last_status;
        let ghost before = changes@;
        proof {
            lemma_quantity_len_bound(s);
        }
        let delta = read_varint_to_end(track_data, &mut offset);
        abs_tick = abs_tick.saturating_add(delta);
        if offset >= track_len {
            assert(tempo_changes(messages(s, tick, running)) =~= Seq::empty());
            assert(changes@ + tempo_changes(messages(s, tick, running)) =~= changes@);
            break;
        }
        proof {
            lemma_first_message(s, tick, running);
        }
        let mut status = track_data[offset];
        assert(status == s[quantity_len(s) as int]);
        if status >= 0x80 {
            last_status = status;
            offset += 1;
        } else {
            status = last_status;
        }
        let ghost rest = after_status(s);
        let ghost from = offset as int;
        let ghost n = body_len(status, rest) as int;
        assert(rest =~= d.skip(from));
        scan_body(track_data, &mut offset, abs_tick, status, changes);
        proof {
            let m = Message { tick: abs_tick, status, body: rest.take(n) };
            let later = tempo_changes(messages(rest.skip(n), abs_tick, status));
            assert(rest.skip(n) =~= d.skip(offset as int));
            if is_tempo(m) {
                let c = TempoChange { abs_tick, tempo_us: tempo_of(m) };
                assert(before.push(c) + later =~= before + (seq![c] + later));
            }
        }
    }
}

/// Moves `offset` past what follows the status of a message, as far as it is
/// there, and appends the tempo change that the message is, if it is one.
fn scan_body(
    track_data: &[u8],
    offset: &mut usize,
    abs_tick: u32,
    status: u8,
    changes: &mut Vec<TempoChange>,
)
    requires
        *old(offset) <= track_data@.len(),
    ensures
        ({
            let rest = track_data@.skip(*old(offset) as int);
            let n = body_len(status, rest) as int;
            let m = Message { tick: abs_tick, status, body: rest.take(n) };
            &&& *final(offset) == *old(offset) + n
            &&& *final(offset) <= track_data@.len()
            &&& final(changes)@ == (if is_tempo(m) {
                old(changes)@.push(TempoChange { abs_tick, tempo_us: tempo_of(m) })
            } else {
                old(changes)@
            })
        }),
{
    let track_len = track_data.len();
    let ghost rest = track_data@.skip(*offset as int);
    match classify(status) {
        MessageKind::NoteOn
        | MessageKind::NoteOff
        | MessageKind::ControlChange
        | MessageKind::TwoData => {
            *offset = advance(*offset, 2, track_len);
        },
        MessageKind::OneData => {
            *offset = advance(*offset, 1, track_len);
        },
        MessageKind::Meta => {
            if *offset >= track_len {
                return;
            }
            let meta_type = track_data[*offset];
            *offset += 1;
            proof {
                assert(rest.skip(1) =~= track_data@.skip(*offset as int));
                lemma_quantity_len_bound(rest.skip(1));
                lemma_meta_tempo(abs_tick, status, rest);
            }
            let meta_len = read_varint_to_end(track_data, offset);
            if meta_type == 0x51 && meta_len == 3 && track_len - *offset >= 3 {
                let t0 = track_data[*offset];
                let t1 = track_data[*offset + 1];
                let t2 = track_data[*offset + 2];
                changes.push(TempoChange { abs_tick, tempo_us: read_u24_be(t0, t1, t2) });
            }
            *offset = advance(*offset, meta_len, track_len);
        },
        MessageKind::SysEx => {
            proof {
                lemma_quantity_len_bound(rest);
            }
            let sys_len = read_varint_to_end(track_data, offset);
            *offset = advance(*offset, sys_len, track_len);
        },
        MessageKind::Unknown => {},
    }
}

} // verus!
