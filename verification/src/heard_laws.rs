//! What the stream analysis makes of a written song.

use crate::clock_laws::lemma_sorting_keeps_changes;
use crate::message::{track_messages, Message};
use crate::mode_laws::{
    control_events, counts_after, law_buckets_count_seconds, lemma_events_last, notes_in_second,
    notes_in_time,
};
use crate::order_laws::seconds_of;
use crate::pass_laws::is_result_of;
use crate::song_laws::law_written_song_is_found;
use crate::standard::MidiStats;
use crate::stream::{all_changes, all_events, stream_walk, StreamScan};
use crate::tempo_map::TempoChange;
use crate::tempo_scan::tempo_changes;
use crate::track_parser::{parsed_events, reported, ParsedMidiEvent};
use crate::varint_laws::written;
use crate::written::{
    chunk_bytes, count_in_song, count_until, is_song, is_writable, song_bytes, song_tracks, tick_of,
    track_bytes, Item, Timed,
};
use crate::written_laws::{
    law_written_event_means_what_it_says, law_written_track_reads_back, message_of,
};
use vstd::prelude::*;
use vstd::seq_lib::to_multiset_contains;

verus! {

/// Whether the stream analysis hands out an event: a note-on message, of
/// whatever velocity, or a controller message.
pub open spec fn is_heard() -> spec_fn(int, Item) -> bool {
    |tick: int, item: Item|
        item matches Item::Voice { status, .. } && (status / 16 == 9 || status / 16 == 11)
}

/// Whether an event sets a tempo.
pub open spec fn sets_tempo() -> spec_fn(int, Item) -> bool {
    |tick: int, item: Item| item.tempo() is Some
}

proof fn lemma_events_push(ms: Seq<Message>, m: Message)
    ensures
        parsed_events(ms.push(m)) == (match reported(m) {
            Some(event) => parsed_events(ms).push(event),
            None => parsed_events(ms),
        }),
        tempo_changes(ms.push(m)) == tempo_changes(ms) + tempo_changes(seq![m]),
    decreases ms.len(),
{
    let longer = ms.push(m);
    if ms.len() == 0 {
        assert(longer.skip(1) =~= ms);
        assert(longer =~= seq![m]);
        assert(parsed_events(longer) =~= (match reported(m) {
            Some(event) => parsed_events(ms).push(event),
            None => parsed_events(ms),
        }));
        assert(tempo_changes(longer) =~= tempo_changes(ms) + tempo_changes(seq![m]));
    } else {
        lemma_events_push(ms.skip(1), m);
        assert(longer.skip(1) =~= ms.skip(1).push(m));
        assert(parsed_events(longer) =~= (match reported(m) {
            Some(event) => parsed_events(ms).push(event),
            None => parsed_events(ms),
        }));
        assert(tempo_changes(longer) =~= tempo_changes(ms) + tempo_changes(seq![m]));
    }
}

pub(crate) proof fn lemma_can_follow(ts: Seq<Timed>, running: u8, i: int) -> (before: u8)
    requires
        is_writable(ts, running),
        0 <= i < ts.len(),
    ensures
        ts[i].item.can_follow(before),
    decreases i,
{
    if i == 0 {
        running
    } else {
        lemma_can_follow(ts.skip(1), ts[0].item.status_byte(), i - 1)
    }
}

proof fn lemma_item_message(ts: Seq<Timed>, i: int)
    requires
        is_writable(ts, 0),
        0 <= i < ts.len(),
    ensures
        ({
            let m = track_messages(track_bytes(ts))[i];
            let item = ts[i].item;
            &&& 0 <= tick_of(ts, i) <= u32::MAX
            &&& m == message_of(ts[i], tick_of(ts, i) as u32)
            &&& reported(m) == (if is_heard()(tick_of(ts, i), item) {
                Some(
                    ParsedMidiEvent {
                        abs_tick: tick_of(ts, i) as u32,
                        is_note_on: item.starts(),
                        is_cc: item.controls(),
                    },
                )
            } else {
                None
            })
            &&& tempo_changes(seq![m]) == (match item.tempo() {
                Some(us) => seq![
                    TempoChange { abs_tick: tick_of(ts, i) as u32, tempo_us: us as u64 },
                ],
                None => Seq::empty(),
            })
        }),
{
    let m = track_messages(track_bytes(ts))[i];
    law_written_track_reads_back(ts);
    assert(m.tick == tick_of(ts, i));
    let before = lemma_can_follow(ts, 0, i);
    law_written_event_means_what_it_says(ts[i], before, m.tick);
    reveal_with_fuel(tempo_changes, 2);
    assert(seq![m].skip(1) =~= Seq::empty());
    assert(tempo_changes(seq![m]) =~= (match ts[i].item.tempo() {
        Some(us) => seq![TempoChange { abs_tick: tick_of(ts, i) as u32, tempo_us: us as u64 }],
        None => Seq::empty(),
    }));
}

/// Whether event `i` of a track sets the tempo that `c` says, when it says.
pub open spec fn is_change_of(ts: Seq<Timed>, i: int, c: TempoChange) -> bool {
    &&& 0 <= i < ts.len()
    &&& c.abs_tick == tick_of(ts, i)
    &&& ts[i].item.tempo() == Some(c.tempo_us as int)
}

/// Whether one of the first `k` events of a track is the change `c`.
spec fn is_change_until(ts: Seq<Timed>, k: int, c: TempoChange) -> bool {
    exists|i: int| i < k && #[trigger] is_change_of(ts, i, c)
}

/// Whether an event of a song is the change `c`.
pub open spec fn is_change_in(song: Seq<Seq<Timed>>, c: TempoChange) -> bool {
    exists|t: int, i: int| 0 <= t < song.len() && #[trigger] is_change_of(song[t], i, c)
}

proof fn lemma_reported_until(ts: Seq<Timed>, k: int)
    requires
        is_writable(ts, 0),
        0 <= k <= ts.len(),
    ensures
        ({
            let es = parsed_events(track_messages(track_bytes(ts)).take(k));
            &&& es.len() == count_until(ts, is_heard(), k)
            &&& forall|i: int|
                0 <= i < k && is_heard()(tick_of(ts, i), (#[trigger] ts[i]).item) ==> {
                    let n = count_until(ts, is_heard(), i) as int;
                    &&& n < es.len()
                    &&& es[n] == (ParsedMidiEvent {
                        abs_tick: tick_of(ts, i) as u32,
                        is_note_on: ts[i].item.starts(),
                        is_cc: ts[i].item.controls(),
                    })
                }
        }),
    decreases k,
{
    let ms = track_messages(track_bytes(ts));
    law_written_track_reads_back(ts);
    if k == 0 {
        assert(ms.take(0) =~= Seq::empty());
    } else {
        lemma_reported_until(ts, k - 1);
        lemma_item_message(ts, k - 1);
        assert(ms.take(k) =~= ms.take(k - 1).push(ms[k - 1]));
        lemma_events_push(ms.take(k - 1), ms[k - 1]);
        let before = parsed_events(ms.take(k - 1));
        let es = parsed_events(ms.take(k));
        assert forall|i: int|
            0 <= i < k && is_heard()(tick_of(ts, i), (#[trigger] ts[i]).item) implies ({
            let n = count_until(ts, is_heard(), i) as int;
            &&& n < es.len()
            &&& es[n] == (ParsedMidiEvent {
                abs_tick: tick_of(ts, i) as u32,
                is_note_on: ts[i].item.starts(),
                is_cc: ts[i].item.controls(),
            })
        }) by {
            if i < k - 1 {
                let n = count_until(ts, is_heard(), i) as int;
                assert(before[n] == es[n]);
            }
        }
    }
}

proof fn lemma_tempos_until(ts: Seq<Timed>, k: int)
    requires
        is_writable(ts, 0),
        0 <= k <= ts.len(),
    ensures
        ({
            let cs = tempo_changes(track_messages(track_bytes(ts)).take(k));
            &&& cs.len() == count_until(ts, sets_tempo(), k)
            &&& forall|i: int, c: TempoChange|
                i < k && #[trigger] is_change_of(ts, i, c) ==> {
                    let n = count_until(ts, sets_tempo(), i) as int;
                    n < cs.len() && cs[n] == c
                }
            &&& forall|n: int| 0 <= n < cs.len() ==> is_change_until(ts, k, #[trigger] cs[n])
        }),
    decreases k,
{
    let ms = track_messages(track_bytes(ts));
    law_written_track_reads_back(ts);
    if k == 0 {
        assert(ms.take(0) =~= Seq::empty());
    } else {
        lemma_tempos_until(ts, k - 1);
        lemma_item_message(ts, k - 1);
        assert(ms.take(k) =~= ms.take(k - 1).push(ms[k - 1]));
        lemma_events_push(ms.take(k - 1), ms[k - 1]);
        let before = tempo_changes(ms.take(k - 1));
        let cs = tempo_changes(ms.take(k));
        assert forall|i: int, c: TempoChange|
            i < k && #[trigger] is_change_of(ts, i, c) implies ({
            let n = count_until(ts, sets_tempo(), i) as int;
            n < cs.len() && cs[n] == c
        }) by {
            if i < k - 1 {
                let n = count_until(ts, sets_tempo(), i) as int;
                assert(before[n] == cs[n]);
            }
        }
        assert forall|n: int| 0 <= n < cs.len() implies is_change_until(
            ts,
            k,
            #[trigger] cs[n],
        ) by {
            if n < before.len() {
                assert(before[n] == cs[n]);
                assert(is_change_until(ts, k - 1, before[n]));
            } else {
                assert(is_change_of(ts, k - 1, cs[n]));
            }
        }
    }
}

/// The stream analysis hands out the note-on and controller messages of a
/// written track, all of them and nothing else, in their order; each at the sum
/// of the delta times up to it, and as what its bytes say that it is.
pub proof fn law_written_events_are_handed_out(ts: Seq<Timed>)
    requires
        is_writable(ts, 0),
    ensures
        ({
            let es = parsed_events(track_messages(track_bytes(ts)));
            &&& es.len() == count_until(ts, is_heard(), ts.len() as int)
            &&& forall|i: int|
                0 <= i < ts.len() && is_heard()(tick_of(ts, i), (#[trigger] ts[i]).item) ==> {
                    let n = count_until(ts, is_heard(), i) as int;
                    &&& n < es.len()
                    &&& es[n].abs_tick == tick_of(ts, i)
                    &&& es[n].is_note_on == ts[i].item.starts()
                    &&& es[n].is_cc == ts[i].item.controls()
                }
        }),
{
    let ms = track_messages(track_bytes(ts));
    law_written_track_reads_back(ts);
    assert(ms.take(ts.len() as int) =~= ms);
    lemma_reported_until(ts, ts.len() as int);
    assert forall|i: int| 0 <= i < ts.len() implies 0 <= #[trigger] tick_of(ts, i)
        && tick_of(ts, i) <= u32::MAX by {
        lemma_item_message(ts, i);
    }
}

/// The tempo changes of a written track are those that its events set, all of
/// them and nothing else, in their order; each at the sum of the delta times up
/// to it, and to the number that its three bytes spell.
pub proof fn law_written_tempos_are_collected(ts: Seq<Timed>)
    requires
        is_writable(ts, 0),
    ensures
        ({
            let cs = tempo_changes(track_messages(track_bytes(ts)));
            &&& cs.len() == count_until(ts, sets_tempo(), ts.len() as int)
            &&& forall|i: int, c: TempoChange| #[trigger]
                is_change_of(ts, i, c) ==> {
                    let n = count_until(ts, sets_tempo(), i) as int;
                    n < cs.len() && cs[n] == c
                }
            &&& forall|c: TempoChange| #[trigger]
                cs.contains(c) ==> exists|i: int| #[trigger] is_change_of(ts, i, c)
        }),
{
    let ms = track_messages(track_bytes(ts));
    let k = ts.len() as int;
    law_written_track_reads_back(ts);
    assert(ms.take(k) =~= ms);
    lemma_tempos_until(ts, k);
    let cs = tempo_changes(ms);
    assert forall|c: TempoChange| #[trigger] cs.contains(c) implies exists|i: int| #[trigger]
        is_change_of(ts, i, c) by {
        let n = choose|n: int| 0 <= n < cs.len() && cs[n] == c;
        assert(is_change_until(ts, k, cs[n]));
    }
}

proof fn lemma_changes_of_song(song: Seq<Seq<Timed>>)
    requires
        is_song(song),
    ensures
        all_changes(song_tracks(song)).len() == count_in_song(song, sets_tempo()),
        forall|c: TempoChange| #[trigger]
            all_changes(song_tracks(song)).contains(c) <==> is_change_in(song, c),
    decreases song.len(),
{
    let tracks = song_tracks(song);
    let cs = all_changes(tracks);
    if song.len() > 0 {
        let ts = song[0];
        let rest = song.skip(1);
        let first = tempo_changes(track_messages(track_bytes(ts)));
        let later = all_changes(song_tracks(rest));
        assert(is_writable(song[0], 0));
        lemma_song_skip(song);
        lemma_changes_of_song(rest);
        law_written_tempos_are_collected(ts);
        assert(tracks[0] == track_bytes(ts));
        assert(cs == first + later);
        assert forall|c: TempoChange| #[trigger] cs.contains(c) <==> is_change_in(song, c) by {
            if is_change_in(song, c) {
                let (t, i) = choose|t: int, i: int|
                    0 <= t < song.len() && #[trigger] is_change_of(song[t], i, c);
                if t == 0 {
                    let n = count_until(ts, sets_tempo(), i) as int;
                    assert(is_change_of(ts, i, c));
                    assert(cs[n] == c);
                } else {
                    assert(is_change_of(rest[t - 1], i, c));
                    assert(later.contains(c));
                    let n = choose|n: int| 0 <= n < later.len() && later[n] == c;
                    assert(cs[first.len() + n] == c);
                }
            }
            if cs.contains(c) {
                let n = choose|n: int| 0 <= n < cs.len() && cs[n] == c;
                if n < first.len() {
                    assert(first[n] == c);
                    assert(first.contains(c));
                    let i = choose|i: int| #[trigger] is_change_of(ts, i, c);
                    assert(is_change_of(song[0], i, c));
                } else {
                    assert(later[n - first.len()] == c);
                    assert(later.contains(c));
                    let (t, i) = choose|t: int, i: int|
                        0 <= t < rest.len() && #[trigger] is_change_of(rest[t], i, c);
                    assert(is_change_of(song[t + 1], i, c));
                }
            }
        }
    } else {
        assert(cs =~= Seq::empty());
    }
}

/// What the first pass over a written song finds: the division and the number
/// of tracks that were written, and the tempos that events of the tracks set,
/// all of them at their ticks and nothing else, in time order.
pub proof fn law_the_scan_finds_the_tempos(
    format: u16,
    count: u16,
    division: u16,
    song: Seq<Seq<Timed>>,
    scan: StreamScan,
)
    requires
        is_song(song),
        song_bytes(format, count, division, song).len() <= isize::MAX,
        ({
            let file = song_bytes(format, count, division, song);
            scan.is_scan_of(file, stream_walk(file).tracks)
        }),
    ensures
        ({
            let changes = scan.tempo_map.changes@;
            &&& scan.division == division
            &&& scan.tracks_count == song.len()
            &&& changes.len() == count_in_song(song, sets_tempo())
            &&& scan.segments@.len() == changes.len()
            &&& forall|i: int, j: int|
                0 <= i <= j < changes.len() ==> changes[i].abs_tick <= changes[j].abs_tick
            &&& forall|c: TempoChange| #[trigger] changes.contains(c) <==> is_change_in(song, c)
        }),
{
    let cs = all_changes(song_tracks(song));
    let changes = scan.tempo_map.changes@;
    law_written_song_is_found(format, count, division, song);
    lemma_changes_of_song(song);
    lemma_sorting_keeps_changes(cs, changes);
    assert forall|c: TempoChange| #[trigger] changes.contains(c) <==> is_change_in(song, c) by {
        to_multiset_contains(cs, c);
        to_multiset_contains(changes, c);
        assert(cs.contains(c) <==> is_change_in(song, c));
    }
}

/// How many of some events are such that `g` holds of them.
spec fn count_events(es: Seq<ParsedMidiEvent>, g: spec_fn(ParsedMidiEvent) -> bool) -> nat
    decreases es.len(),
{
    if es.len() == 0 {
        0
    } else {
        count_events(es.drop_last(), g) + if g(es.last()) {
            1nat
        } else {
            0
        }
    }
}

proof fn lemma_count_events_add(
    a: Seq<ParsedMidiEvent>,
    b: Seq<ParsedMidiEvent>,
    g: spec_fn(ParsedMidiEvent) -> bool,
)
    ensures
        count_events(a + b, g) == count_events(a, g) + count_events(b, g),
    decreases b.len(),
{
    if b.len() == 0 {
        assert(a + b =~= a);
    } else {
        assert((a + b).drop_last() =~= a + b.drop_last());
        lemma_count_events_add(a, b.drop_last(), g);
    }
}

/// Whether `g` holds of the event that is handed out for an event exactly where
/// `f` holds of its tick and of what it is.
spec fn says_the_same(
    f: spec_fn(int, Item) -> bool,
    g: spec_fn(ParsedMidiEvent) -> bool,
) -> bool {
    forall|tick: u32, item: Item|
        #[trigger] f(tick as int, item) <==> is_heard()(tick as int, item) && g(
            ParsedMidiEvent {
                abs_tick: tick,
                is_note_on: item.starts(),
                is_cc: item.controls(),
            },
        )
}

proof fn lemma_count_track(
    ts: Seq<Timed>,
    f: spec_fn(int, Item) -> bool,
    g: spec_fn(ParsedMidiEvent) -> bool,
    k: int,
)
    requires
        is_writable(ts, 0),
        0 <= k <= ts.len(),
        says_the_same(f, g),
    ensures
        count_events(parsed_events(track_messages(track_bytes(ts)).take(k)), g) == count_until(
            ts,
            f,
            k,
        ),
    decreases k,
{
    let ms = track_messages(track_bytes(ts));
    law_written_track_reads_back(ts);
    if k == 0 {
        assert(ms.take(0) =~= Seq::empty());
    } else {
        let item = ts[k - 1].item;
        lemma_count_track(ts, f, g, k - 1);
        lemma_item_message(ts, k - 1);
        assert(ms.take(k) =~= ms.take(k - 1).push(ms[k - 1]));
        lemma_events_push(ms.take(k - 1), ms[k - 1]);
        let tick = tick_of(ts, k - 1) as u32;
        assert(f(tick as int, item) <==> is_heard()(tick as int, item) && g(
            ParsedMidiEvent {
                abs_tick: tick,
                is_note_on: item.starts(),
                is_cc: item.controls(),
            },
        ));
        if is_heard()(tick as int, item) {
            let es = parsed_events(ms.take(k));
            assert(es.drop_last() =~= parsed_events(ms.take(k - 1)));
        }
    }
}

proof fn lemma_count_song(
    song: Seq<Seq<Timed>>,
    f: spec_fn(int, Item) -> bool,
    g: spec_fn(ParsedMidiEvent) -> bool,
)
    requires
        is_song(song),
        says_the_same(f, g),
    ensures
        count_events(all_events(song_tracks(song)), g) == count_in_song(song, f),
    decreases song.len(),
{
    let tracks = song_tracks(song);
    if song.len() > 0 {
        let ts = song[0];
        let ms = track_messages(track_bytes(ts));
        assert(is_writable(song[0], 0));
        lemma_song_skip(song);
        lemma_count_song(song.skip(1), f, g);
        lemma_count_track(ts, f, g, ts.len() as int);
        law_written_track_reads_back(ts);
        assert(ms.take(ts.len() as int) =~= ms);
        lemma_count_events_add(parsed_events(ms), all_events(tracks.skip(1)), g);
        assert(tracks[0] == track_bytes(ts));
    }
}

pub(crate) proof fn lemma_song_skip(song: Seq<Seq<Timed>>)
    requires
        is_song(song),
        song.len() > 0,
    ensures
        is_song(song.skip(1)),
        song_tracks(song).skip(1) == song_tracks(song.skip(1)),
{
    let rest = song.skip(1);
    assert forall|i: int| 0 <= i < rest.len() implies ({
        &&& is_writable(#[trigger] rest[i], 0)
        &&& track_bytes(rest[i]).len() <= 0xFFFF_FFFF
    }) by {
        assert(rest[i] == song[i + 1]);
    }
    assert(song_tracks(song).skip(1) =~= song_tracks(rest));
}

proof fn lemma_counts_are_counts(
    es: Seq<ParsedMidiEvent>,
    sec: spec_fn(u32) -> usize,
    s: int,
)
    ensures
        notes_in_second(es, seconds_of(es, sec), s) == count_events(
            es,
            |e: ParsedMidiEvent| e.is_note_on && sec(e.abs_tick) == s,
        ),
        notes_in_time(es, seconds_of(es, sec)) == count_events(
            es,
            |e: ParsedMidiEvent| e.is_note_on && sec(e.abs_tick) < 28800,
        ),
        control_events(es) == count_events(es, |e: ParsedMidiEvent| e.is_cc),
    decreases es.len(),
{
    if es.len() > 0 {
        lemma_counts_are_counts(es.drop_last(), sec, s);
        assert(seconds_of(es, sec).drop_last() =~= seconds_of(es.drop_last(), sec));
        lemma_events_last(es);
    }
}

proof fn lemma_events_fit(song: Seq<Seq<Timed>>)
    requires
        is_song(song),
    ensures
        all_events(song_tracks(song)).len() <= chunk_bytes(song_tracks(song)).len(),
    decreases song.len(),
{
    if song.len() > 0 {
        let ts = song[0];
        let tracks = song_tracks(song);
        assert(is_writable(song[0], 0));
        lemma_song_skip(song);
        lemma_events_fit(song.skip(1));
        law_written_events_are_handed_out(ts);
        lemma_count_bound(ts, is_heard(), ts.len() as int);
        lemma_track_not_shorter(ts);
        assert(tracks[0] == track_bytes(ts));
    }
}

proof fn lemma_count_bound(ts: Seq<Timed>, f: spec_fn(int, Item) -> bool, n: int)
    requires
        n >= 0,
    ensures
        count_until(ts, f, n) <= n,
    decreases n,
{
    if n > 0 {
        lemma_count_bound(ts, f, n - 1);
    }
}

proof fn lemma_track_not_shorter(ts: Seq<Timed>)
    ensures
        ts.len() <= track_bytes(ts).len(),
    decreases ts.len(),
{
    if ts.len() > 0 {
        lemma_track_not_shorter(ts.skip(1));
        assert(written(ts[0].delta as nat).len() > 0);
    }
}

/// The last second is the last one in which a note was counted, or the first.
proof fn lemma_last_second(es: Seq<ParsedMidiEvent>, secs: Seq<usize>)
    requires
        es.len() == secs.len(),
        es.len() <= u64::MAX,
    ensures
        ({
            let counts = counts_after(es, secs);
            let last = counts.last_second as int;
            &&& last < 28800
            &&& last > 0 ==> notes_in_second(es, secs, last) > 0
            &&& forall|s: int|
                last < s < 28800 ==> #[trigger] notes_in_second(es, secs, s) == 0
        }),
    decreases es.len(),
{
    if es.len() > 0 {
        lemma_last_second(es.drop_last(), secs.drop_last());
        let before = counts_after(es.drop_last(), secs.drop_last()).last_second as int;
        let last = counts_after(es, secs).last_second as int;
        assert forall|s: int| last < s < 28800 implies #[trigger] notes_in_second(es, secs, s)
            == 0 by {
            assert(notes_in_second(es.drop_last(), secs.drop_last(), s) == 0);
        }
    }
}

/// Whether an event starts a note in second `s`, when `sec` tells the second of
/// a tick.
pub open spec fn starts_in(sec: spec_fn(u32) -> usize, s: int) -> spec_fn(int, Item) -> bool {
    |tick: int, item: Item| item.starts() && sec(tick as u32) == s
}

/// Whether an event starts a note within eight hours.
pub open spec fn starts_in_time(sec: spec_fn(u32) -> usize) -> spec_fn(int, Item) -> bool {
    |tick: int, item: Item| item.starts() && sec(tick as u32) < 28800
}

proof fn lemma_song_second(song: Seq<Seq<Timed>>, sec: spec_fn(u32) -> usize, s: int)
    requires
        is_song(song),
    ensures
        ({
            let es = all_events(song_tracks(song));
            let secs = seconds_of(es, sec);
            &&& count_in_song(song, starts_in(sec, s)) == notes_in_second(es, secs, s)
            &&& count_in_song(song, starts_in_time(sec)) == notes_in_time(es, secs)
            &&& count_in_song(song, |tick: int, item: Item| item.controls()) == control_events(es)
        }),
{
    let es = all_events(song_tracks(song));
    lemma_counts_are_counts(es, sec, s);
    lemma_count_song(
        song,
        starts_in(sec, s),
        |e: ParsedMidiEvent| e.is_note_on && sec(e.abs_tick) == s,
    );
    lemma_count_song(
        song,
        starts_in_time(sec),
        |e: ParsedMidiEvent| e.is_note_on && sec(e.abs_tick) < 28800,
    );
    lemma_count_song(
        song,
        |tick: int, item: Item| item.controls(),
        |e: ParsedMidiEvent| e.is_cc,
    );
}

/// What recording the events of a written song comes to.
proof fn lemma_song_counts(song: Seq<Seq<Timed>>, sec: spec_fn(u32) -> usize)
    requires
        is_song(song),
        chunk_bytes(song_tracks(song)).len() <= isize::MAX,
    ensures
        ({
            let es = all_events(song_tracks(song));
            let counts = counts_after(es, seconds_of(es, sec));
            &&& counts.buckets.len() == 28800
            &&& forall|s: int|
                0 <= s < 28800 ==> #[trigger] count_in_song(song, starts_in(sec, s))
                    == counts.buckets[s]
            &&& counts.total_notes == count_in_song(song, starts_in_time(sec))
            &&& counts.total_cc_events == count_in_song(
                song,
                |tick: int, item: Item| item.controls(),
            )
            &&& counts.last_second < 28800
            &&& counts.last_second > 0 ==> count_in_song(
                song,
                starts_in(sec, counts.last_second as int),
            ) > 0
            &&& forall|s: int|
                counts.last_second < s < 28800 ==> #[trigger] count_in_song(
                    song,
                    starts_in(sec, s),
                ) == 0
        }),
{
    let es = all_events(song_tracks(song));
    let secs = seconds_of(es, sec);
    let counts = counts_after(es, secs);
    lemma_events_fit(song);
    law_buckets_count_seconds(es, secs);
    lemma_last_second(es, secs);
    lemma_song_second(song, sec, counts.last_second as int);
    assert forall|s: int| 0 <= s < 28800 implies #[trigger] count_in_song(song, starts_in(sec, s))
        == counts.buckets[s] by {
        lemma_song_second(song, sec, s);
        assert(counts.buckets[s] == notes_in_second(es, secs, s));
    }
    assert forall|s: int| counts.last_second < s < 28800 implies #[trigger] count_in_song(
        song,
        starts_in(sec, s),
    ) == 0 by {
        lemma_song_second(song, sec, s);
        assert(notes_in_second(es, secs, s) == 0);
    }
}

/// The result of the stream analysis of a written song. The division and the
/// number of tracks are those written. The notes are the events that start one
/// within eight hours, on whatever channel; the controller events are all there
/// are. No second has more notes than the largest number of notes per second,
/// and one has so many. The last second is the last one with a note.
pub proof fn law_the_stream_counts_the_song(
    format: u16,
    count: u16,
    division: u16,
    song: Seq<Seq<Timed>>,
    sec: spec_fn(u32) -> usize,
    stats: MidiStats,
    last_second: usize,
)
    requires
        is_song(song),
        song_bytes(format, count, division, song).len() <= isize::MAX,
        ({
            let file = song_bytes(format, count, division, song);
            is_result_of(
                file,
                seconds_of(all_events(stream_walk(file).tracks), sec),
                stats,
                last_second,
            )
        }),
    ensures
        stats.ppqn == division,
        stats.tracks_count == song.len(),
        stats.max_polyphony == 0,
        stats.total_notes == count_in_song(song, starts_in_time(sec)),
        stats.total_cc_events == count_in_song(song, |tick: int, item: Item| item.controls()),
        forall|s: int|
            0 <= s < 28800 ==> #[trigger] count_in_song(song, starts_in(sec, s)) <= stats.max_nps,
        exists|s: int|
            0 <= s < 28800 && #[trigger] count_in_song(song, starts_in(sec, s)) == stats.max_nps,
        last_second < 28800,
        last_second > 0 ==> count_in_song(song, starts_in(sec, last_second as int)) > 0,
        forall|s: int|
            last_second < s < 28800 ==> #[trigger] count_in_song(song, starts_in(sec, s)) == 0,
{
    law_written_song_is_found(format, count, division, song);
    lemma_song_counts(song, sec);
    let es = all_events(song_tracks(song));
    let counts = counts_after(es, seconds_of(es, sec));
    let top = choose|s: int| 0 <= s < counts.buckets.len() && counts.buckets[s] == stats.max_nps;
    assert(count_in_song(song, starts_in(sec, top)) == counts.buckets[top]);
}

} // verus!
