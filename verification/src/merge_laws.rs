//! What the analysis of a file makes of a written song: its tracks are played
//! together, and what is played is counted.

use crate::buffered_cursor::CursorState;
use crate::count_laws::{file_tracks, is_step, law_start_has_all_ahead, popped};
use crate::event_queue::NextEvent;
use crate::message::{after_due, due_message, due_rest, due_status, is_whole_body};
use crate::progress_laws::law_every_event_makes_progress;
use crate::song_laws::{law_written_song_is_found, lemma_many_tracks};
use crate::standard::{
    header_len, is_start, max_buffer_size, opened_track, track_offsets, StandardState,
};
use crate::tally_laws::{is_run_by, Move};
use crate::track_event::{event_of, TrackEvent};
use crate::transparency::{law_event_is_the_message, law_opened_is_coherent, law_quantity_from_file};
use crate::varint::lemma_quantity_len_bound;
use crate::varint_laws::{law_written_quantity_reads_back, written};
use crate::written::{
    is_song, is_writable, song_bytes, song_tracks, tick_of, ticks_until, track_bytes, Item, Timed,
};
use crate::written_laws::{law_written_event_means_what_it_says, lemma_item_is_cut, message_of};
use vstd::prelude::*;

verus! {

/// The status of the event before event `n`.
pub open spec fn status_before(ts: Seq<Timed>, n: int) -> u8 {
    if n > 0 {
        ts[n - 1].item.status_byte()
    } else {
        0
    }
}

/// What is left of a track when the delta time of event `n` was read.
pub open spec fn due_bytes(ts: Seq<Timed>, n: int) -> Seq<u8> {
    if n < ts.len() {
        ts[n].item.bytes() + track_bytes(ts.skip(n + 1))
    } else {
        Seq::empty()
    }
}

/// Whether a cursor stands behind the delta time of event `n` of a track.
pub open spec fn stands_at(c: CursorState, ts: Seq<Timed>, n: int) -> bool {
    &&& 0 <= n <= ts.len()
    &&& c.coherent()
    &&& c.left() == due_bytes(ts, n)
    &&& c.last_status == status_before(ts, n)
    &&& n < ts.len() ==> c.abs_tick == tick_of(ts, n)
    &&& c.has_data() <==> n < ts.len()
}

proof fn lemma_ticks_grow(ts: Seq<Timed>, n: int)
    requires
        0 <= n < ts.len(),
    ensures
        0 <= ticks_until(ts, n - 1) <= ticks_until(ts, n),
        ticks_until(ts, n) == ticks_until(ts, n - 1) + ts[n].delta,
    decreases n,
{
    if n > 0 {
        lemma_ticks_grow(ts, n - 1);
    }
}

/// Reading the delta time of event `n`.
proof fn lemma_read_delta(c: CursorState, ts: Seq<Timed>, n: int)
    requires
        0 <= n <= ts.len(),
        c.coherent(),
        c.left() == track_bytes(ts.skip(n)),
        c.last_status == status_before(ts, n),
        c.abs_tick == (if n > 0 {
            tick_of(ts, n - 1)
        } else {
            0
        }),
    ensures
        c.has_data() <==> n < ts.len(),
        c.advanced() matches Some(next) && stands_at(next, ts, n) && next.track_idx == c.track_idx
            && next.abs_tick >= c.abs_tick,
{
    let rest = ts.skip(n);
    let s = c.left();
    if n < ts.len() {
        let behind = due_bytes(ts, n);
        assert(rest[0] == ts[n]);
        assert(rest.skip(1) =~= ts.skip(n + 1));
        law_written_quantity_reads_back(ts[n].delta, behind);
        assert(s =~= written(ts[n].delta as nat) + behind);
        lemma_quantity_len_bound(s);
        law_quantity_from_file(c);
        lemma_ticks_grow(ts, n);
        let (bytes, after) = c.quantity().unwrap();
        let next = c.advanced().unwrap();
        assert(next.left() =~= after.left());
        assert(behind.len() > 0);
        assert(next.coherent());
    } else {
        assert(rest =~= Seq::empty());
        assert(s.len() == 0);
    }
}

/// What the counts make of an event.
pub open spec fn meaning(item: Item) -> TrackEvent {
    if item.starts() {
        TrackEvent::NoteOn
    } else if item.ends() {
        TrackEvent::NoteOff
    } else if item.controls() {
        TrackEvent::ControlChange
    } else {
        match item.tempo() {
            Some(us) => TrackEvent::Tempo(us as u64),
            None => TrackEvent::Other,
        }
    }
}

proof fn lemma_meaning(timed: Timed, running: u8, tick: u32)
    requires
        timed.item.can_follow(running),
    ensures
        event_of(message_of(timed, tick)) == meaning(timed.item),
{
    law_written_event_means_what_it_says(timed, running, tick);
}

/// The event at the front of some bytes, its delta time read.
proof fn lemma_due_item(timed: Timed, running: u8, tail: Seq<u8>, tick: u32)
    requires
        timed.item.can_follow(running),
    ensures
        ({
            let r = timed.item.bytes() + tail;
            &&& r.len() > 0
            &&& due_status(r, running) == timed.item.status_byte()
            &&& due_rest(r) == timed.item.body_bytes() + tail
            &&& is_whole_body(due_status(r, running), due_rest(r))
            &&& due_message(r, tick, running) == message_of(timed, tick)
            &&& after_due(r, running) == tail
        }),
{
    let item = timed.item;
    let r = item.bytes() + tail;
    let rest = item.body_bytes() + tail;
    if item.is_running() {
        assert(r =~= rest);
    } else {
        assert(r[0] == item.status_byte());
        assert(r.skip(1) =~= rest);
    }
    lemma_item_is_cut(item, running, tail);
    assert(rest.take(item.body_bytes().len() as int) =~= item.body_bytes());
    assert(rest.skip(item.body_bytes().len() as int) =~= tail);
}

proof fn lemma_follows(ts: Seq<Timed>, n: int)
    requires
        is_writable(ts, 0),
        0 <= n < ts.len(),
    ensures
        ts[n].item.can_follow(status_before(ts, n)),
{
    lemma_follows_from(ts, 0, n);
}

proof fn lemma_follows_from(ts: Seq<Timed>, running: u8, n: int)
    requires
        is_writable(ts, running),
        0 <= n < ts.len(),
    ensures
        ts[n].item.can_follow(
            if n > 0 {
                ts[n - 1].item.status_byte()
            } else {
                running
            },
        ),
    decreases n,
{
    if n > 0 {
        lemma_follows_from(ts.skip(1), ts[0].item.status_byte(), n - 1);
        assert(ts.skip(1)[n - 1] == ts[n]);
        if n > 1 {
            assert(ts.skip(1)[n - 2] == ts[n - 1]);
        }
    }
}

/// Reading event `n` and the delta time behind it.
pub(crate) proof fn lemma_take_item(c: CursorState, ts: Seq<Timed>, n: int)
    requires
        is_writable(ts, 0),
        stands_at(c, ts, n),
        n < ts.len(),
    ensures
        c.event() matches Some((event, after)) && event == meaning(ts[n].item) && (
        after.has_data() <==> n + 1 < ts.len()) && (after.advanced() matches Some(next)
            && stands_at(next, ts, n + 1) && next.abs_tick >= c.abs_tick),
{
    let tail = track_bytes(ts.skip(n + 1));
    let r = c.left();
    lemma_follows(ts, n);
    lemma_due_item(ts[n], c.last_status, tail, c.abs_tick);
    lemma_meaning(ts[n], c.last_status, c.abs_tick);
    law_event_is_the_message(c);
    let (event, after) = c.event().unwrap();
    assert(after.left() == tail);
    lemma_read_delta(after, ts, n + 1);
}

/// How many of the first `k` moves of a run are of track `t`.
pub open spec fn taken(moves: Seq<Move>, k: int, t: int) -> nat
    decreases k,
{
    if k <= 0 {
        0
    } else {
        taken(moves, k - 1, t) + if moves[k - 1].event.track_idx == t {
            1nat
        } else {
            0
        }
    }
}

/// The event that move `k` of a run plays: the next one of its track.
pub open spec fn played_at(song: Seq<Seq<Timed>>, moves: Seq<Move>, k: int) -> Timed {
    let t = moves[k].event.track_idx as int;
    song[t][taken(moves, k, t) as int]
}

/// What the moves of a run play, one after the other.
pub open spec fn played(song: Seq<Seq<Timed>>, moves: Seq<Move>) -> Seq<Item> {
    Seq::new(moves.len(), |k: int| played_at(song, moves, k).item)
}

/// Whether every cursor stands at the next event of its track, and the queue
/// holds these events.
pub open spec fn plays(a: StandardState, song: Seq<Seq<Timed>>, moves: Seq<Move>, k: int) -> bool {
    &&& a.cursors.len() == song.len()
    &&& forall|t: int|
        0 <= t < song.len() ==> stands_at(
            #[trigger] a.cursors[t],
            song[t],
            taken(moves, k, t) as int,
        )
    &&& forall|e: NextEvent| #[trigger]
        a.queue.count(e) == (if e.track_idx < song.len() && taken(
            moves,
            k,
            e.track_idx as int,
        ) < song[e.track_idx as int].len() && e.tick == a.cursors[e.track_idx as int].abs_tick {
            1nat
        } else {
            0
        })
}

proof fn lemma_plays_at_start(
    format: u16,
    count: u16,
    division: u16,
    song: Seq<Seq<Timed>>,
    a: StandardState,
    moves: Seq<Move>,
)
    requires
        is_song(song),
        song_bytes(format, count, division, song).len() <= isize::MAX,
        is_start(song_bytes(format, count, division, song), a),
    ensures
        plays(a, song, moves, 0),
{
    let file = song_bytes(format, count, division, song);
    let offsets = track_offsets(file, header_len());
    law_written_song_is_found(format, count, division, song);
    assert forall|t: int| 0 <= t < song.len() implies stands_at(
        #[trigger] a.cursors[t],
        song[t],
        0,
    ) && (opened_track(file, t).has_data() <==> song[t].len() > 0) by {
        let o = opened_track(file, t);
        assert(offsets[t].0 <= offsets[t].1 <= file.len());
        law_opened_is_coherent(
            file,
            offsets[t].0 as nat,
            offsets[t].1 as nat,
            t as usize,
            max_buffer_size(offsets.len()) as int,
        );
        assert(file_tracks(file)[t] == song_tracks(song)[t]);
        assert(o.left() == track_bytes(song[t]));
        assert(song[t].skip(0) =~= song[t]);
        lemma_read_delta(o, song[t], 0);
        assert(o.started() == o.advanced());
    }
}

pub(crate) proof fn lemma_plays_on(
    song: Seq<Seq<Timed>>,
    a: StandardState,
    b: StandardState,
    moves: Seq<Move>,
    k: int,
)
    requires
        is_song(song),
        0 <= k < moves.len(),
        plays(a, song, moves, k),
        is_step(a, b, moves[k].event, moves[k].closed),
    ensures
        plays(b, song, moves, k + 1),
        ({
            let event = moves[k].event;
            let t = event.track_idx as int;
            let n = taken(moves, k, t) as int;
            let before = popped(a, event, moves[k].closed).tally;
            &&& 0 <= t < song.len()
            &&& 0 <= n < song[t].len()
            &&& event.tick == tick_of(song[t], n)
            &&& !before.overflows(meaning(song[t][n].item))
            &&& b.tally == before.counted(meaning(song[t][n].item))
            &&& b.last_time_tick == event.tick
        }),
{
    let event = moves[k].event;
    let t = event.track_idx as int;
    let n = taken(moves, k, t) as int;
    assert(a.queue.count(event) > 0);
    let c = a.cursors[t];
    assert(stands_at(c, song[t], n));
    assert(is_writable(song[t], 0));
    lemma_take_item(c, song[t], n);
    let (_, after) = c.event().unwrap();
    let next = after.advanced().unwrap();
    assert(taken(moves, k + 1, t) == n + 1);
    assert forall|u: int| 0 <= u < song.len() implies stands_at(
        #[trigger] b.cursors[u],
        song[u],
        taken(moves, k + 1, u) as int,
    ) by {
        if u != t {
            assert(b.cursors[u] == a.cursors[u]);
        }
    }
    assert forall|e: NextEvent| #[trigger]
        b.queue.count(e) == (if e.track_idx < song.len() && taken(
            moves,
            k + 1,
            e.track_idx as int,
        ) < song[e.track_idx as int].len() && e.tick == b.cursors[e.track_idx as int].abs_tick {
            1nat
        } else {
            0
        }) by {
        let old_count = a.queue.count(e);
        if e.track_idx != event.track_idx {
            assert(b.cursors[e.track_idx as int] == a.cursors[e.track_idx as int]
                || e.track_idx >= song.len());
        } else if old_count > 0 {
            assert(e == event);
        }
    }
}

pub(crate) proof fn lemma_plays(
    format: u16,
    count: u16,
    division: u16,
    song: Seq<Seq<Timed>>,
    states: Seq<StandardState>,
    moves: Seq<Move>,
    k: int,
)
    requires
        is_song(song),
        song_bytes(format, count, division, song).len() <= isize::MAX,
        is_start(song_bytes(format, count, division, song), states[0]),
        is_run_by(states, moves),
        0 <= k <= moves.len(),
    ensures
        plays(states[k], song, moves, k),
    decreases k,
{
    if k == 0 {
        lemma_plays_at_start(format, count, division, song, states[0], moves);
    } else {
        lemma_plays(format, count, division, song, states, moves, k - 1);
        assert(is_step(states[k - 1], states[k - 1 + 1], moves[k - 1].event, moves[k - 1].closed));
        lemma_plays_on(song, states[k - 1], states[k], moves, k - 1);
    }
}

/// The analysis of the file of a written song plays the tracks together. Each
/// move plays the next event of a track, at the sum of the delta times up to it;
/// no move is before an earlier one; and when no events are left, every event of
/// every track was played once.
pub proof fn law_the_tracks_are_played_together(
    format: u16,
    count: u16,
    division: u16,
    song: Seq<Seq<Timed>>,
    states: Seq<StandardState>,
    moves: Seq<Move>,
)
    requires
        is_song(song),
        song_bytes(format, count, division, song).len() <= isize::MAX,
        is_start(song_bytes(format, count, division, song), states[0]),
        is_run_by(states, moves),
    ensures
        forall|k: int|
            0 <= k < moves.len() ==> {
                let t = (#[trigger] moves[k]).event.track_idx as int;
                let n = taken(moves, k, t) as int;
                &&& 0 <= t < song.len()
                &&& 0 <= n < song[t].len()
                &&& moves[k].event.tick == tick_of(song[t], n)
                &&& states[k].last_time_tick <= moves[k].event.tick
                &&& states[k + 1].last_time_tick == moves[k].event.tick
            },
        states.last().queue.len() == 0 ==> forall|t: int|
            0 <= t < song.len() ==> #[trigger] taken(moves, moves.len() as int, t)
                == song[t].len(),
{
    assert forall|k: int| 0 <= k < moves.len() implies ({
        let t = (#[trigger] moves[k]).event.track_idx as int;
        let n = taken(moves, k, t) as int;
        &&& 0 <= t < song.len()
        &&& 0 <= n < song[t].len()
        &&& moves[k].event.tick == tick_of(song[t], n)
        &&& states[k].last_time_tick <= moves[k].event.tick
        &&& states[k + 1].last_time_tick == moves[k].event.tick
    }) by {
        lemma_plays(format, count, division, song, states, moves, k);
        assert(is_step(states[k], states[k + 1], moves[k].event, moves[k].closed));
        lemma_plays_on(song, states[k], states[k + 1], moves, k);
        lemma_in_time(format, count, division, song, states, moves, k);
    }
    let k = moves.len() as int;
    lemma_plays(format, count, division, song, states, moves, k);
    let end = states.last();
    if end.queue.len() == 0 {
        assert forall|t: int| 0 <= t < song.len() implies #[trigger] taken(moves, k, t)
            == song[t].len() by {
            assert(stands_at(end.cursors[t], song[t], taken(moves, k, t) as int));
            lemma_song_is_short(format, count, division, song);
            let e = NextEvent { tick: end.cursors[t].abs_tick, track_idx: t as usize };
            if taken(moves, k, t) < song[t].len() {
                assert(end.queue.count(e) > 0);
                assert(end.queue =~= end.queue.remove(e).insert(e));
            }
        }
    }
}

pub(crate) proof fn lemma_song_is_short(
    format: u16,
    count: u16,
    division: u16,
    song: Seq<Seq<Timed>>,
)
    requires
        song_bytes(format, count, division, song).len() <= isize::MAX,
    ensures
        song.len() <= usize::MAX,
{
    lemma_many_tracks(song_tracks(song));
}

proof fn lemma_in_time(
    format: u16,
    count: u16,
    division: u16,
    song: Seq<Seq<Timed>>,
    states: Seq<StandardState>,
    moves: Seq<Move>,
    k: int,
)
    requires
        is_song(song),
        song_bytes(format, count, division, song).len() <= isize::MAX,
        is_start(song_bytes(format, count, division, song), states[0]),
        is_run_by(states, moves),
        0 <= k <= moves.len(),
    ensures
        states[k].queue_ok(),
        k < moves.len() ==> states[k].last_time_tick <= moves[k].event.tick,
    decreases k,
{
    if k == 0 {
        law_written_song_is_found(format, count, division, song);
        law_start_has_all_ahead(song_bytes(format, count, division, song), states[0]);
    } else {
        lemma_in_time(format, count, division, song, states, moves, k - 1);
        let last = moves[k - 1];
        assert(is_step(states[k - 1], states[k - 1 + 1], last.event, last.closed));
        law_every_event_makes_progress(states[k - 1], states[k], last.event, last.closed);
    }
    if k < moves.len() {
        assert(is_step(states[k], states[k + 1], moves[k].event, moves[k].closed));
        assert(states[k].queue.count(moves[k].event) > 0);
    }
}

} // verus!
