//! The two ways to analyse a file agree: they find the same tracks and see the
//! same notes and controller events in them.

use crate::count_laws::{
    controls_in, controls_in_tracks, file_tracks, is_run, is_whole_file, law_every_note_is_counted,
    notes_in, notes_in_tracks,
};
use crate::message::{track_messages, Message};
use crate::standard::{
    division_of, header_len, is_start, track_len, track_offsets, track_starts, track_tag,
    StandardState,
};
use crate::stream::{all_events, claimed_track_len, stream_walk, walk};
use crate::stream_tally::{StreamCounts, SECONDS};
use crate::track_parser::{parsed_events, reported, ParsedMidiEvent};
use crate::varint::big_endian;
use vstd::prelude::*;

verus! {

/// Whether `s` is made of tracks, one behind the other, and nothing else.
pub open spec fn is_chunked(s: Seq<u8>) -> bool
    decreases s.len(),
{
    s.len() == 0 || {
        &&& s.len() >= 8
        &&& s.take(4) == track_tag()
        &&& s.len() >= 8 + claimed_track_len(s)
        &&& is_chunked(s.skip(8 + claimed_track_len(s)))
    }
}

proof fn lemma_same_tracks(file: Seq<u8>, pos: nat, room: nat)
    requires
        pos <= file.len(),
        file.len() <= isize::MAX,
        is_chunked(file.skip(pos as int)),
        room >= file.len() - pos,
    ensures
        ({
            let offsets = track_offsets(file, pos);
            let found = walk(file.skip(pos as int), room);
            &&& found.end is Complete
            &&& found.tracks == Seq::new(
                offsets.len(),
                |i: int| file.subrange(offsets[i].0 as int, offsets[i].1 as int),
            )
        }),
    decreases file.len() - pos,
{
    let s = file.skip(pos as int);
    let offsets = track_offsets(file, pos);
    if s.len() > 0 {
        let n = claimed_track_len(s);
        let next = (pos + 8 + n) as nat;
        assert(s.take(4) =~= file.subrange(pos as int, pos as int + 4));
        assert(s.subrange(4, 8) =~= file.subrange(pos as int + 4, pos as int + 8));
        assert(track_starts(file, pos as int));
        assert(track_len(file, pos as int) == n);
        assert(s.skip(8 + n) =~= file.skip(next as int));
        lemma_same_tracks(file, next, (room - 1) as nat);
        let later = track_offsets(file, next);
        let first = ((pos + 8) as u64, next as u64);
        assert(offsets == seq![first] + later);
        assert(s.subrange(8, 8 + n) =~= file.subrange(pos as int + 8, next as int));
        assert(walk(s, room).tracks =~= Seq::new(
            offsets.len(),
            |i: int| file.subrange(offsets[i].0 as int, offsets[i].1 as int),
        ));
    } else {
        assert(walk(s, room).tracks =~= Seq::new(
            offsets.len(),
            |i: int| file.subrange(offsets[i].0 as int, offsets[i].1 as int),
        ));
    }
}

/// In a file that is made of a header and tracks, the stream analysis finds
/// the tracks that the analysis of the file itself finds.
pub proof fn law_modes_find_the_same_tracks(file: Seq<u8>)
    requires
        header_len() <= file.len() <= isize::MAX,
        is_chunked(file.skip(header_len() as int)),
    ensures
        stream_walk(file).end is Complete,
        stream_walk(file).tracks == file_tracks(file),
{
    lemma_same_tracks(file, header_len(), usize::MAX as nat);
}

/// A number below 2^32 as four bytes, the most significant first.
pub open spec fn word(n: nat) -> Seq<u8> {
    seq![
        (n / 0x100_0000 % 256) as u8,
        (n / 0x1_0000 % 256) as u8,
        (n / 0x100 % 256) as u8,
        (n % 256) as u8,
    ]
}

/// Some tracks written one behind the other, each behind its tag and length.
pub open spec fn written_tracks(tracks: Seq<Seq<u8>>) -> Seq<u8>
    decreases tracks.len(),
{
    if tracks.len() == 0 {
        Seq::empty()
    } else {
        track_tag() + word(tracks[0].len()) + tracks[0] + written_tracks(tracks.skip(1))
    }
}

proof fn lemma_word(n: nat)
    requires
        n <= u32::MAX,
    ensures
        big_endian(word(n)) == n,
{
    let w = word(n);
    reveal_with_fuel(big_endian, 5);
    assert(w.drop_last() =~= seq![w[0], w[1], w[2]]);
    assert(w.drop_last().drop_last() =~= seq![w[0], w[1]]);
    assert(w.drop_last().drop_last().drop_last() =~= seq![w[0]]);
    assert(w.drop_last().drop_last().drop_last().drop_last() =~= Seq::empty());
}

proof fn lemma_written_chunk(first: Seq<u8>, later: Seq<u8>)
    requires
        first.len() <= u32::MAX,
    ensures
        ({
            let s = track_tag() + word(first.len()) + first + later;
            let behind = 8 + first.len() as int;
            &&& s.len() == behind + later.len()
            &&& s.take(4) == track_tag()
            &&& claimed_track_len(s) == first.len()
            &&& s.subrange(8, behind) == first
            &&& s.skip(behind) == later
        }),
{
    let s = track_tag() + word(first.len()) + first + later;
    let behind = 8 + first.len() as int;
    lemma_word(first.len());
    assert(s.take(4) =~= track_tag());
    assert(s.subrange(4, 8) =~= word(first.len()));
    assert(s.subrange(8, behind) =~= first);
    assert(s.skip(behind) =~= later);
}

proof fn lemma_written_tracks(tracks: Seq<Seq<u8>>, room: nat)
    requires
        tracks.len() <= room,
        forall|i: int| 0 <= i < tracks.len() ==> (#[trigger] tracks[i]).len() <= u32::MAX,
    ensures
        is_chunked(written_tracks(tracks)),
        walk(written_tracks(tracks), room).end is Complete,
        walk(written_tracks(tracks), room).tracks == tracks,
    decreases tracks.len(),
{
    let s = written_tracks(tracks);
    if tracks.len() > 0 {
        let first = tracks[0];
        let rest = tracks.skip(1);
        assert forall|i: int| 0 <= i < rest.len() implies (#[trigger] rest[i]).len()
            <= u32::MAX by {
            assert(rest[i] == tracks[i + 1]);
        }
        lemma_written_tracks(rest, (room - 1) as nat);
        lemma_written_chunk(first, written_tracks(rest));
        assert(seq![first] + rest =~= tracks);
    } else {
        assert(walk(s, room).tracks =~= tracks);
    }
}

/// Tracks that were written behind a header are found again, all of them and in
/// their order.
pub proof fn law_written_tracks_are_found(header: Seq<u8>, tracks: Seq<Seq<u8>>)
    requires
        header.len() == header_len(),
        tracks.len() <= usize::MAX,
        forall|i: int| 0 <= i < tracks.len() ==> (#[trigger] tracks[i]).len() <= u32::MAX,
    ensures
        ({
            let stream = header + written_tracks(tracks);
            &&& division_of(stream) == division_of(header)
            &&& is_chunked(stream.skip(header_len() as int))
            &&& stream_walk(stream).end is Complete
            &&& stream_walk(stream).tracks == tracks
        }),
{
    let stream = header + written_tracks(tracks);
    assert(stream.skip(header_len() as int) =~= written_tracks(tracks));
    assert(stream.subrange(12, 14) =~= header.subrange(12, 14));
    lemma_written_tracks(tracks, usize::MAX as nat);
}

/// How many of some events start a note.
pub open spec fn note_events(events: Seq<ParsedMidiEvent>) -> nat
    decreases events.len(),
{
    if events.len() == 0 {
        0
    } else {
        note_events(events.skip(1)) + if events[0].is_note_on {
            1nat
        } else {
            0
        }
    }
}

/// How many of some events are controller events.
pub open spec fn control_events(events: Seq<ParsedMidiEvent>) -> nat
    decreases events.len(),
{
    if events.len() == 0 {
        0
    } else {
        control_events(events.skip(1)) + if events[0].is_cc {
            1nat
        } else {
            0
        }
    }
}

proof fn lemma_events_add(a: Seq<ParsedMidiEvent>, b: Seq<ParsedMidiEvent>)
    ensures
        note_events(a + b) == note_events(a) + note_events(b),
        control_events(a + b) == control_events(a) + control_events(b),
    decreases a.len(),
{
    if a.len() == 0 {
        assert(a + b =~= b);
    } else {
        assert((a + b).skip(1) =~= a.skip(1) + b);
        lemma_events_add(a.skip(1), b);
    }
}

proof fn lemma_reported_counts(ms: Seq<Message>)
    ensures
        note_events(parsed_events(ms)) == notes_in(ms),
        control_events(parsed_events(ms)) == controls_in(ms),
    decreases ms.len(),
{
    if ms.len() > 0 {
        lemma_reported_counts(ms.skip(1));
        if let Some(event) = reported(ms[0]) {
            let events = seq![event] + parsed_events(ms.skip(1));
            assert(events.skip(1) =~= parsed_events(ms.skip(1)));
        }
    }
}

/// The events that the stream analysis reports of some tracks are their notes
/// and their controller messages: as many of each as the tracks hold. With
/// whole tracks these are the totals of the other analysis.
pub proof fn law_stream_reports_every_note(tracks: Seq<Seq<u8>>)
    ensures
        note_events(all_events(tracks)) == notes_in_tracks(tracks),
        control_events(all_events(tracks)) == controls_in_tracks(tracks),
    decreases tracks.len(),
{
    if tracks.len() > 0 {
        law_stream_reports_every_note(tracks.skip(1));
        lemma_reported_counts(track_messages(tracks[0]));
        lemma_events_add(parsed_events(track_messages(tracks[0])), all_events(tracks.skip(1)));
    }
}

/// The counts after some events, each in the second that `secs` gives for it.
pub open spec fn counts_after(events: Seq<ParsedMidiEvent>, secs: Seq<usize>) -> StreamCounts
    decreases events.len(),
{
    if events.len() == 0 {
        StreamCounts::start()
    } else {
        counts_after(events.drop_last(), secs.drop_last()).recorded(events.last(), secs.last())
    }
}

/// How many of some events start a note in second `s`.
pub open spec fn notes_in_second(
    events: Seq<ParsedMidiEvent>,
    secs: Seq<usize>,
    s: int,
) -> nat
    decreases events.len(),
{
    if events.len() == 0 {
        0
    } else {
        notes_in_second(events.drop_last(), secs.drop_last(), s) + if events.last().is_note_on
            && secs.last() == s {
            1nat
        } else {
            0
        }
    }
}

/// How many of some events start a note in a second that is told apart.
pub open spec fn notes_in_time(events: Seq<ParsedMidiEvent>, secs: Seq<usize>) -> nat
    decreases events.len(),
{
    if events.len() == 0 {
        0
    } else {
        notes_in_time(events.drop_last(), secs.drop_last()) + if events.last().is_note_on
            && secs.last() < SECONDS {
            1nat
        } else {
            0
        }
    }
}

pub(crate) proof fn lemma_events_last(events: Seq<ParsedMidiEvent>)
    requires
        events.len() > 0,
    ensures
        note_events(events) == note_events(events.drop_last()) + (if events.last().is_note_on {
            1nat
        } else {
            0
        }),
        control_events(events) == control_events(events.drop_last()) + (if events.last().is_cc {
            1nat
        } else {
            0
        }),
{
    let one = seq![events.last()];
    assert(events =~= events.drop_last() + one);
    lemma_events_add(events.drop_last(), one);
    reveal_with_fuel(note_events, 2);
    reveal_with_fuel(control_events, 2);
    assert(one.skip(1) =~= Seq::empty());
}

/// After some events the bucket of each second holds the number of notes that
/// started in it, and the totals are the notes in time and the controller
/// events.
pub proof fn law_buckets_count_seconds(events: Seq<ParsedMidiEvent>, secs: Seq<usize>)
    requires
        events.len() == secs.len(),
        events.len() <= u64::MAX,
    ensures
        ({
            let counts = counts_after(events, secs);
            &&& counts.buckets.len() == SECONDS
            &&& forall|s: int|
                0 <= s < SECONDS ==> #[trigger] counts.buckets[s] == notes_in_second(
                    events,
                    secs,
                    s,
                )
            &&& counts.total_notes == notes_in_time(events, secs) <= events.len()
            &&& counts.total_cc_events == control_events(events) <= events.len()
        }),
    decreases events.len(),
{
    if events.len() > 0 {
        let before = counts_after(events.drop_last(), secs.drop_last());
        law_buckets_count_seconds(events.drop_last(), secs.drop_last());
        lemma_events_last(events);
        let counts = counts_after(events, secs);
        assert forall|s: int| 0 <= s < SECONDS implies #[trigger] counts.buckets[s]
            == notes_in_second(events, secs, s) by {
            assert(before.buckets[s] == notes_in_second(
                events.drop_last(),
                secs.drop_last(),
                s,
            ));
            lemma_second_bound(events.drop_last(), secs.drop_last(), s);
        }
    }
}

proof fn lemma_second_bound(events: Seq<ParsedMidiEvent>, secs: Seq<usize>, s: int)
    ensures
        notes_in_second(events, secs, s) <= events.len(),
    decreases events.len(),
{
    if events.len() > 0 {
        lemma_second_bound(events.drop_last(), secs.drop_last(), s);
    }
}

proof fn lemma_all_in_time(events: Seq<ParsedMidiEvent>, secs: Seq<usize>)
    requires
        events.len() == secs.len(),
        forall|i: int| 0 <= i < secs.len() ==> #[trigger] secs[i] < SECONDS,
    ensures
        notes_in_time(events, secs) == note_events(events),
    decreases events.len(),
{
    if events.len() > 0 {
        assert forall|i: int| 0 <= i < secs.drop_last().len() implies #[trigger] secs.drop_last()[i]
            < SECONDS by {
            assert(secs.drop_last()[i] == secs[i]);
        }
        lemma_all_in_time(events.drop_last(), secs.drop_last());
        lemma_events_last(events);
        assert(secs[secs.len() - 1] < SECONDS);
    }
}

/// Both ways to analyse a file count alike. When the file is a header and whole
/// tracks, a run of the analysis of the file itself that has no events left and
/// a stream analysis of the same bytes, all of whose events lie in the seconds
/// that are told apart, have counted the same notes and controller events.
pub proof fn law_modes_count_alike(
    file: Seq<u8>,
    states: Seq<StandardState>,
    secs: Seq<usize>,
)
    requires
        header_len() <= file.len(),
        is_whole_file(file),
        is_chunked(file.skip(header_len() as int)),
        states.len() > 0,
        is_start(file, states[0]),
        is_run(states),
        states.last().queue.len() == 0,
        secs.len() == all_events(stream_walk(file).tracks).len() <= u64::MAX,
        forall|i: int| 0 <= i < secs.len() ==> #[trigger] secs[i] < SECONDS,
    ensures
        ({
            let counts = counts_after(all_events(stream_walk(file).tracks), secs);
            &&& counts.total_notes == states.last().tally.total_notes
            &&& counts.total_cc_events == states.last().tally.total_cc_events
        }),
{
    let events = all_events(stream_walk(file).tracks);
    law_modes_find_the_same_tracks(file);
    law_stream_reports_every_note(file_tracks(file));
    law_every_note_is_counted(file, states);
    law_buckets_count_seconds(events, secs);
    lemma_all_in_time(events, secs);
}

} // verus!
