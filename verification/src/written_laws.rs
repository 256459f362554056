//! What was written is read: the messages, events and tempo changes of a track
//! are those that its writer meant.

use crate::message::{
    after_status, body_len, claimed_len, delta_of, is_control_change, is_note, is_tempo, is_whole,
    lemma_first_message, message_kind, messages, saturating_ticks, starts_message, starts_note,
    status_of, tempo_of, track_messages, Message, MessageKind,
};
use crate::varint::{
    big_endian, is_terminated, lemma_quantity_len_bound, quantity_bytes, quantity_len,
};
use crate::varint_laws::{law_written_quantity_reads_back, written};
use crate::written::{is_writable, tick_of, ticks_until, track_bytes, Item, Timed};
use vstd::prelude::*;

verus! {

/// How the event at the front of some bytes is cut off them.
pub(crate) proof fn lemma_item_is_cut(item: Item, running: u8, rest: Seq<u8>)
    requires
        item.can_follow(running),
    ensures
        ({
            let all = item.body_bytes() + rest;
            let status = item.status_byte();
            &&& claimed_len(status, all) == item.body_bytes().len()
            &&& match message_kind(status) {
                MessageKind::Meta => all.len() > 0 && is_terminated(all.skip(1)),
                MessageKind::SysEx => is_terminated(all),
                _ => true,
            }
        }),
{
    let all = item.body_bytes() + rest;
    match item {
        Item::Meta { kind, data, .. } => {
            law_written_quantity_reads_back(data.len() as u32, data + rest);
            assert(all.skip(1) =~= written(data.len()) + (data + rest));
            assert(quantity_bytes(all.skip(1)).len() == written(data.len()).len());
            lemma_quantity_len_bound(all.skip(1));
        },
        Item::SysEx { data, .. } => {
            law_written_quantity_reads_back(data.len() as u32, data + rest);
            assert(all =~= written(data.len()) + (data + rest));
            assert(quantity_bytes(all).len() == written(data.len()).len());
            lemma_quantity_len_bound(all);
        },
        _ => {},
    }
}

/// The first event of a written track is its first message, and what follows
/// is the rest of the track.
proof fn lemma_first_item(ts: Seq<Timed>, running: u8)
    requires
        ts.len() > 0,
        is_writable(ts, running),
    ensures
        ({
            let s = track_bytes(ts);
            let item = ts[0].item;
            let rest = after_status(s);
            &&& is_terminated(s)
            &&& starts_message(s)
            &&& delta_of(s) == ts[0].delta
            &&& status_of(s, running) == item.status_byte()
            &&& rest == item.body_bytes() + track_bytes(ts.skip(1))
            &&& body_len(item.status_byte(), rest) == item.body_bytes().len()
            &&& rest.take(item.body_bytes().len() as int) == item.body_bytes()
            &&& rest.skip(item.body_bytes().len() as int) == track_bytes(ts.skip(1))
        }),
{
    let s = track_bytes(ts);
    let item = ts[0].item;
    let tail = track_bytes(ts.skip(1));
    let behind = item.bytes() + tail;
    let w = written(ts[0].delta as nat);
    law_written_quantity_reads_back(ts[0].delta, behind);
    assert(s =~= w + behind);
    lemma_quantity_len_bound(s);
    let n = quantity_len(s) as int;
    assert(n == w.len());
    assert(behind.len() > 0);
    assert(s[n] == behind[0]);
    assert(s.skip(n) =~= behind);
    let rest = item.body_bytes() + tail;
    if item.is_running() {
        assert(behind =~= rest);
    } else {
        assert(behind[0] == item.status_byte());
        assert(s.skip(n + 1) =~= rest);
    }
    assert(after_status(s) == rest);
    lemma_item_is_cut(item, running, tail);
    assert(rest.take(item.body_bytes().len() as int) =~= item.body_bytes());
    assert(rest.skip(item.body_bytes().len() as int) =~= tail);
}

/// The message that an event is.
pub open spec fn message_of(timed: Timed, tick: u32) -> Message {
    Message { tick, status: timed.item.status_byte(), body: timed.item.body_bytes() }
}

pub(crate) proof fn lemma_written_messages(ts: Seq<Timed>, tick: u32, running: u8)
    requires
        is_writable(ts, running),
    ensures
        is_whole(track_bytes(ts), running),
        ({
            let ms = messages(track_bytes(ts), tick, running);
            &&& ms.len() == ts.len()
            &&& ts.len() > 0 ==> {
                let now = saturating_ticks(tick, ts[0].delta);
                &&& ms[0] == message_of(ts[0], now)
                &&& ms.skip(1) == messages(
                    track_bytes(ts.skip(1)),
                    now,
                    ts[0].item.status_byte(),
                )
            }
        }),
    decreases ts.len(),
{
    if ts.len() > 0 {
        let status = ts[0].item.status_byte();
        let now = saturating_ticks(tick, ts[0].delta);
        lemma_first_item(ts, running);
        lemma_written_messages(ts.skip(1), now, status);
        lemma_first_message(track_bytes(ts), tick, running);
        lemma_item_is_cut(ts[0].item, running, track_bytes(ts.skip(1)));
    }
}

proof fn lemma_ticks_until_skip(ts: Seq<Timed>, i: int)
    requires
        0 <= i < ts.len(),
    ensures
        ticks_until(ts, i) == ts[0].delta + ticks_until(ts.skip(1), i - 1),
    decreases i,
{
    if i > 0 {
        lemma_ticks_until_skip(ts, i - 1);
        assert(ts.skip(1)[i - 1] == ts[i]);
    } else {
        assert(ticks_until(ts, -1) == 0);
        assert(ticks_until(ts.skip(1), -1) == 0);
    }
}

proof fn lemma_written_ticks(ts: Seq<Timed>, tick: u32, running: u8, i: int)
    requires
        is_writable(ts, running),
        0 <= i < ts.len(),
    ensures
        ({
            let m = messages(track_bytes(ts), tick, running)[i];
            &&& m.tick == (if tick + ticks_until(ts, i) <= u32::MAX {
                tick + ticks_until(ts, i)
            } else {
                u32::MAX as int
            })
            &&& m.status == ts[i].item.status_byte()
            &&& m.body == ts[i].item.body_bytes()
        }),
    decreases ts.len(),
{
    let ms = messages(track_bytes(ts), tick, running);
    let now = saturating_ticks(tick, ts[0].delta);
    lemma_written_messages(ts, tick, running);
    lemma_ticks_until_skip(ts, i);
    lemma_ticks_not_negative(ts.skip(1), i - 1);
    if i == 0 {
        assert(ticks_until(ts.skip(1), -1) == 0);
    } else {
        lemma_written_ticks(ts.skip(1), now, ts[0].item.status_byte(), i - 1);
        assert(ms.skip(1)[i - 1] == ms[i]);
        assert(ts.skip(1)[i - 1] == ts[i]);
    }
}

proof fn lemma_ticks_not_negative(ts: Seq<Timed>, i: int)
    ensures
        ticks_until(ts, i) >= 0,
    decreases i + 1,
{
    if i >= 0 {
        lemma_ticks_not_negative(ts, i - 1);
    }
}

/// A written track is read as it was meant: one message for each event, with
/// its status and its bytes, at the sum of the delta times up to it as far as 32
/// bits hold it; and no message is cut short.
pub proof fn law_written_track_reads_back(ts: Seq<Timed>)
    requires
        is_writable(ts, 0),
    ensures
        is_whole(track_bytes(ts), 0),
        track_messages(track_bytes(ts)).len() == ts.len(),
        forall|i: int|
            0 <= i < ts.len() ==> {
                let m = #[trigger] track_messages(track_bytes(ts))[i];
                &&& m.tick == tick_of(ts, i)
                &&& m.status == ts[i].item.status_byte()
                &&& m.body == ts[i].item.body_bytes()
            },
{
    lemma_written_messages(ts, 0, 0);
    assert forall|i: int| 0 <= i < ts.len() implies ({
        let m = #[trigger] track_messages(track_bytes(ts))[i];
        &&& m.tick == tick_of(ts, i)
        &&& m.status == ts[i].item.status_byte()
        &&& m.body == ts[i].item.body_bytes()
    }) by {
        lemma_written_ticks(ts, 0, 0, i);
    }
}

/// What the message of an event means: whether it starts a note, is a note
/// message or a controller message, and which tempo it sets.
pub proof fn law_written_event_means_what_it_says(timed: Timed, running: u8, tick: u32)
    requires
        timed.item.can_follow(running),
    ensures
        ({
            let m = message_of(timed, tick);
            &&& starts_note(m) <==> timed.item.starts()
            &&& is_note(m) <==> (timed.item matches Item::Voice { status, .. } && status / 16 == 9)
            &&& is_control_change(m) <==> timed.item.controls()
            &&& is_tempo(m) <==> timed.item.tempo() is Some
            &&& timed.item.tempo() matches Some(us) ==> tempo_of(m) == us
        }),
{
    let m = message_of(timed, tick);
    if let Item::Meta { kind, data, .. } = timed.item {
        law_written_quantity_reads_back(data.len() as u32, data);
        assert(m.body.skip(1) =~= written(data.len()) + data);
        assert(m.body[0] == kind);
        if data.len() == 3 {
            assert(m.body.skip(m.body.len() - 3) =~= data);
            assert(data =~= seq![data[0], data[1], data[2]]);
            reveal_with_fuel(big_endian, 4);
            assert(data.drop_last() =~= seq![data[0], data[1]]);
            assert(data.drop_last().drop_last() =~= seq![data[0]]);
            assert(data.drop_last().drop_last().drop_last() =~= Seq::empty());
        }
    }
}

} // verus!
