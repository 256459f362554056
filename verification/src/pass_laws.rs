//! What a whole second pass over a stream comes to.

use crate::mode_laws::counts_after;
use crate::standard::{division_of, MidiStats};
use crate::stream::{all_events, stream_walk, StreamAnalysis};
use crate::stream_tally::{is_largest, StreamCounts};
use crate::track_parser::ParsedMidiEvent;
use vstd::prelude::*;

verus! {

/// Whether `a` is where the second pass over a stream whose bytes can all be
/// read starts, as `StreamAnalysis::new` leaves it.
pub open spec fn is_pass_start(stream: Seq<u8>, a: StreamAnalysis<'_>) -> bool {
    &&& a.source.reliable()
    &&& a.division == division_of(stream)
    &&& a.tracks_count == 0
    &&& a.ahead() == stream_walk(stream)
    &&& a.upcoming() == all_events(stream_walk(stream).tracks)
    &&& a.tally@ == StreamCounts::start()
}

/// Whether a pass goes from `a` to `b` when `next_event` hands out `event` and
/// `record` counts it in second `sec`.
pub open spec fn is_pass_step(
    a: StreamAnalysis<'_>,
    b: StreamAnalysis<'_>,
    event: ParsedMidiEvent,
    sec: usize,
) -> bool {
    &&& b.source.reliable() == a.source.reliable()
    &&& b.division == a.division
    &&& a.upcoming() == seq![event] + b.upcoming()
    &&& b.ahead().end == a.ahead().end
    &&& b.tracks_count + b.ahead().tracks.len() == a.tracks_count + a.ahead().tracks.len()
    &&& !a.tally@.overflows(event, sec)
    &&& b.tally@ == a.tally@.recorded(event, sec)
}

/// Whether a pass goes through `states` when these events are handed out and
/// counted in these seconds.
pub open spec fn is_pass_by(
    states: Seq<StreamAnalysis<'_>>,
    events: Seq<ParsedMidiEvent>,
    secs: Seq<usize>,
) -> bool {
    &&& states.len() == events.len() + 1
    &&& secs.len() == events.len()
    &&& forall|k: int|
        0 <= k < events.len() ==> is_pass_step(
            states[k],
            states[k + 1],
            #[trigger] events[k],
            secs[k],
        )
}

/// Whether a pass goes from `a` to `b` when `next_event` finds no event.
pub open spec fn is_pass_end(a: StreamAnalysis<'_>, b: StreamAnalysis<'_>) -> bool {
    &&& b.division == a.division
    &&& b.tally == a.tally
    &&& a.source.reliable() ==> {
        &&& a.upcoming() == Seq::<ParsedMidiEvent>::empty()
        &&& a.ahead().end is Complete
        &&& b.tracks_count == a.tracks_count + a.ahead().tracks.len()
    }
}

/// Whether these are the counts of a stream whose events happen in the seconds
/// `secs`, with the last second in which a note started.
pub open spec fn is_result_of(
    stream: Seq<u8>,
    secs: Seq<usize>,
    stats: MidiStats,
    last_second: usize,
) -> bool {
    let tracks = stream_walk(stream).tracks;
    let counts = counts_after(all_events(tracks), secs);
    &&& stats.ppqn == division_of(stream)
    &&& stats.tracks_count == tracks.len()
    &&& stats.total_notes == counts.total_notes
    &&& stats.max_polyphony == 0
    &&& is_largest(counts.buckets, stats.max_nps)
    &&& stats.total_cc_events == counts.total_cc_events
    &&& last_second == counts.last_second
}

proof fn lemma_pass(
    states: Seq<StreamAnalysis<'_>>,
    events: Seq<ParsedMidiEvent>,
    secs: Seq<usize>,
    k: int,
)
    requires
        is_pass_by(states, events, secs),
        states[0].tally@ == StreamCounts::start(),
        0 <= k <= events.len(),
    ensures
        states[0].upcoming() == events.take(k) + states[k].upcoming(),
        states[k].tally@ == counts_after(events.take(k), secs.take(k)),
        states[k].source.reliable() == states[0].source.reliable(),
        states[k].division == states[0].division,
        states[k].ahead().end == states[0].ahead().end,
        states[k].tracks_count + states[k].ahead().tracks.len() == states[0].tracks_count
            + states[0].ahead().tracks.len(),
    decreases k,
{
    if k == 0 {
        assert(events.take(0) + states[0].upcoming() =~= states[0].upcoming());
    } else {
        let (a, b) = (states[k - 1], states[k]);
        let event = events[k - 1];
        lemma_pass(states, events, secs, k - 1);
        assert(is_pass_step(states[k - 1], states[k - 1 + 1], event, secs[k - 1]));
        assert(events.take(k) =~= events.take(k - 1).push(event));
        assert(events.take(k).drop_last() =~= events.take(k - 1));
        assert(secs.take(k).drop_last() =~= secs.take(k - 1));
        assert(events.take(k - 1) + (seq![event] + b.upcoming()) =~= events.take(k)
            + b.upcoming());
    }
}

/// A second pass over a stream whose bytes can all be read, when every event
/// handed out is counted in its second and no event is left: the events were
/// those of the tracks of the stream, and the counts are theirs.
pub proof fn law_a_pass_counts_every_event(
    stream: Seq<u8>,
    states: Seq<StreamAnalysis<'_>>,
    events: Seq<ParsedMidiEvent>,
    secs: Seq<usize>,
    ended: StreamAnalysis<'_>,
)
    requires
        is_pass_start(stream, states[0]),
        is_pass_by(states, events, secs),
        is_pass_end(states.last(), ended),
    ensures
        stream_walk(stream).end is Complete,
        events == all_events(stream_walk(stream).tracks),
        ended.tally@ == counts_after(all_events(stream_walk(stream).tracks), secs),
        ended.tracks_count == stream_walk(stream).tracks.len(),
        ended.division == division_of(stream),
        forall|stats: MidiStats, last_second: usize| #[trigger]
            ended.has_result(stats, last_second) ==> is_result_of(
                stream,
                secs,
                stats,
                last_second,
            ),
{
    let n = events.len() as int;
    lemma_pass(states, events, secs, n);
    assert(events.take(n) =~= events);
    assert(secs.take(n) =~= secs);
    assert(events + Seq::<ParsedMidiEvent>::empty() =~= events);
}

} // verus!
