//! The order of the tracks does not matter to the analysis of a stream.

use crate::message::track_messages;
use crate::mode_laws::{counts_after, law_written_tracks_are_found, written_tracks};
use crate::pass_laws::is_result_of;
use crate::standard::{division_of, header_len, MidiStats};
use crate::stream::{all_changes, all_events, stream_walk, ScanState, StreamScan, Walk, WalkEnd};
use crate::stream_tally::{StreamCounts, SECONDS};
use crate::tempo_map::{changes_at, is_sorting, lemma_no_changes, TempoChange};
use crate::tempo_scan::tempo_changes;
use crate::time_laws::law_sorting_is_unique;
use crate::track_parser::{parsed_events, ParsedMidiEvent};
use vstd::multiset::Multiset;
use vstd::prelude::*;
use vstd::seq_lib::{group_to_multiset_ensures, lemma_multiset_commutative, to_multiset_remove};

verus! {

proof fn lemma_take_out_track(tracks: Seq<Seq<u8>>, i: int)
    requires
        0 <= i < tracks.len(),
    ensures
        all_events(tracks).to_multiset() == parsed_events(
            track_messages(tracks[i]),
        ).to_multiset().add(all_events(tracks.remove(i)).to_multiset()),
        all_changes(tracks).to_multiset() == tempo_changes(
            track_messages(tracks[i]),
        ).to_multiset().add(all_changes(tracks.remove(i)).to_multiset()),
    decreases i,
{
    let first = track_messages(tracks[0]);
    let rest = tracks.skip(1);
    let without = tracks.remove(i);
    lemma_multiset_commutative(parsed_events(first), all_events(rest));
    lemma_multiset_commutative(tempo_changes(first), all_changes(rest));
    if i == 0 {
        assert(without =~= rest);
    } else {
        lemma_take_out_track(rest, i - 1);
        assert(without.skip(1) =~= rest.remove(i - 1));
        assert(without[0] == tracks[0]);
        lemma_multiset_commutative(parsed_events(first), all_events(without.skip(1)));
        lemma_multiset_commutative(tempo_changes(first), all_changes(without.skip(1)));
        assert(all_events(tracks).to_multiset() =~= parsed_events(
            track_messages(tracks[i]),
        ).to_multiset().add(all_events(without).to_multiset()));
        assert(all_changes(tracks).to_multiset() =~= tempo_changes(
            track_messages(tracks[i]),
        ).to_multiset().add(all_changes(without).to_multiset()));
    }
}

/// The same tracks in another order hold the same events and the same tempo
/// changes.
pub proof fn law_tracks_in_any_order_hold_the_same(a: Seq<Seq<u8>>, b: Seq<Seq<u8>>)
    requires
        a.to_multiset() == b.to_multiset(),
    ensures
        a.len() == b.len(),
        all_events(a).to_multiset() == all_events(b).to_multiset(),
        all_changes(a).to_multiset() == all_changes(b).to_multiset(),
    decreases a.len(),
{
    broadcast use group_to_multiset_ensures;

    assert(a.len() == a.to_multiset().len());
    assert(b.len() == b.to_multiset().len());
    if a.len() > 0 {
        assert(a.contains(a[0]));
        assert(a.to_multiset().count(a[0]) > 0);
        assert(b.contains(a[0]));
        let i = choose|i: int| 0 <= i < b.len() && b[i] == a[0];
        to_multiset_remove(a, 0);
        to_multiset_remove(b, i);
        law_tracks_in_any_order_hold_the_same(a.remove(0), b.remove(i));
        lemma_take_out_track(a, 0);
        lemma_take_out_track(b, i);
    } else {
        assert(a =~= b);
    }
}

/// The seconds of some events, when `sec` tells the second of a tick.
pub open spec fn seconds_of(
    events: Seq<ParsedMidiEvent>,
    sec: spec_fn(u32) -> usize,
) -> Seq<usize> {
    Seq::new(events.len(), |i: int| sec(events[i].abs_tick))
}

/// The counts after some events, when `sec` tells the second of a tick.
pub open spec fn counts_by_tick(
    events: Seq<ParsedMidiEvent>,
    sec: spec_fn(u32) -> usize,
) -> StreamCounts {
    counts_after(events, seconds_of(events, sec))
}

proof fn lemma_count_last(events: Seq<ParsedMidiEvent>, sec: spec_fn(u32) -> usize)
    ensures
        counts_by_tick(events, sec).buckets.len() == SECONDS,
        events.len() > 0 ==> counts_by_tick(events, sec) == counts_by_tick(
            events.drop_last(),
            sec,
        ).recorded(events.last(), sec(events.last().abs_tick)),
    decreases events.len(),
{
    if events.len() > 0 {
        lemma_count_last(events.drop_last(), sec);
        assert(seconds_of(events, sec).drop_last() =~= seconds_of(events.drop_last(), sec));
    }
}

proof fn lemma_recording_commutes(
    counts: StreamCounts,
    e: ParsedMidiEvent,
    s: usize,
    f: ParsedMidiEvent,
    t: usize,
)
    requires
        counts.buckets.len() == SECONDS,
    ensures
        counts.recorded(e, s).recorded(f, t) == counts.recorded(f, t).recorded(e, s),
{
    let x = counts.recorded(e, s).recorded(f, t);
    let y = counts.recorded(f, t).recorded(e, s);
    assert(x.buckets =~= y.buckets);
}

proof fn lemma_record_later(events: Seq<ParsedMidiEvent>, i: int, sec: spec_fn(u32) -> usize)
    requires
        0 <= i < events.len(),
    ensures
        counts_by_tick(events, sec) == counts_by_tick(events.remove(i), sec).recorded(
            events[i],
            sec(events[i].abs_tick),
        ),
    decreases events.len(),
{
    let before = events.drop_last();
    let last = events.last();
    let without = events.remove(i);
    lemma_count_last(events, sec);
    if i == events.len() - 1 {
        assert(without =~= before);
    } else {
        lemma_record_later(before, i, sec);
        lemma_count_last(without, sec);
        lemma_count_last(before.remove(i), sec);
        assert(without.drop_last() =~= before.remove(i));
        assert(without.last() == last);
        lemma_recording_commutes(
            counts_by_tick(before.remove(i), sec),
            events[i],
            sec(events[i].abs_tick),
            last,
            sec(last.abs_tick),
        );
    }
}

/// The counts do not depend on the order in which events are recorded, when
/// the second of an event depends on its tick alone.
pub proof fn law_counts_do_not_depend_on_order(
    a: Seq<ParsedMidiEvent>,
    b: Seq<ParsedMidiEvent>,
    sec: spec_fn(u32) -> usize,
)
    requires
        a.to_multiset() == b.to_multiset(),
    ensures
        counts_by_tick(a, sec) == counts_by_tick(b, sec),
    decreases a.len(),
{
    broadcast use group_to_multiset_ensures;

    assert(a.len() == a.to_multiset().len());
    assert(b.len() == b.to_multiset().len());
    if a.len() > 0 {
        assert(a.contains(a[0]));
        assert(a.to_multiset().count(a[0]) > 0);
        assert(b.contains(a[0]));
        let i = choose|i: int| 0 <= i < b.len() && b[i] == a[0];
        to_multiset_remove(a, 0);
        to_multiset_remove(b, i);
        law_counts_do_not_depend_on_order(a.remove(0), b.remove(i), sec);
        lemma_record_later(a, 0, sec);
        lemma_record_later(b, i, sec);
    } else {
        assert(a =~= b);
    }
}

/// Whether no two changes happen at one tick.
pub open spec fn at_distinct_ticks(s: Seq<TempoChange>) -> bool {
    forall|i: int, j: int| 0 <= i < j < s.len() ==> s[i].abs_tick != s[j].abs_tick
}

/// Whether a change is at `tick`.
pub open spec fn is_at(tick: u32) -> spec_fn(TempoChange) -> bool {
    |c: TempoChange| c.abs_tick == tick
}

pub(crate) proof fn lemma_changes_last(s: Seq<TempoChange>, tick: u32)
    requires
        s.len() > 0,
    ensures
        changes_at(s, tick) == (if s.last().abs_tick == tick {
            changes_at(s.drop_last(), tick).push(s.last())
        } else {
            changes_at(s.drop_last(), tick)
        }),
{
    reveal(Seq::filter);
}

pub(crate) proof fn lemma_changes_as_multiset(s: Seq<TempoChange>, tick: u32)
    ensures
        changes_at(s, tick).len() == s.to_multiset().filter(is_at(tick)).len(),
        changes_at(s, tick).to_multiset() == s.to_multiset().filter(is_at(tick)),
    decreases s.len(),
{
    broadcast use group_to_multiset_ensures;

    if s.len() == 0 {
        lemma_no_changes(s, tick);
        assert(s.to_multiset().len() == 0);
        assert(s.to_multiset() =~= Multiset::empty());
        assert(changes_at(s, tick) =~= s);
        assert(s.to_multiset().filter(is_at(tick)) =~= s.to_multiset());
    } else {
        let before = s.drop_last();
        lemma_changes_as_multiset(before, tick);
        lemma_changes_last(s, tick);
        assert(s =~= before.push(s.last()));
        assert(changes_at(s, tick).to_multiset() =~= s.to_multiset().filter(is_at(tick)));
    }
}

pub(crate) proof fn lemma_one_change_at_most(s: Seq<TempoChange>, tick: u32)
    requires
        at_distinct_ticks(s),
    ensures
        changes_at(s, tick).len() <= 1,
    decreases s.len(),
{
    if s.len() == 0 {
        lemma_no_changes(s, tick);
    } else {
        let before = s.drop_last();
        lemma_changes_last(s, tick);
        if s.last().abs_tick == tick {
            assert forall|k: int| 0 <= k < before.len() implies #[trigger] before[k].abs_tick
                != tick by {
                assert(s[k].abs_tick != s[s.len() - 1].abs_tick);
            }
            lemma_no_changes(before, tick);
        } else {
            lemma_one_change_at_most(before, tick);
        }
    }
}

/// Tempo changes at distinct ticks are sorted alike, in whatever order they
/// come.
pub proof fn law_distinct_changes_sort_alike(
    a: Seq<TempoChange>,
    b: Seq<TempoChange>,
    sorted_a: Seq<TempoChange>,
    sorted_b: Seq<TempoChange>,
)
    requires
        a.to_multiset() == b.to_multiset(),
        at_distinct_ticks(a),
        is_sorting(a, sorted_a),
        is_sorting(b, sorted_b),
    ensures
        sorted_a == sorted_b,
{
    broadcast use group_to_multiset_ensures;

    assert(a.len() == a.to_multiset().len());
    assert(b.len() == b.to_multiset().len());
    assert forall|tick: u32| #[trigger] changes_at(sorted_b, tick) == changes_at(a, tick) by {
        let (x, y) = (changes_at(a, tick), changes_at(b, tick));
        lemma_changes_as_multiset(a, tick);
        lemma_changes_as_multiset(b, tick);
        lemma_one_change_at_most(a, tick);
        assert(x.to_multiset() == y.to_multiset());
        assert(x.len() == y.len());
        if x.len() == 1 {
            assert(y.contains(y[0]));
            assert(y.to_multiset().count(y[0]) > 0);
            assert(x.contains(y[0]));
        }
        assert(x =~= y);
        assert(changes_at(sorted_b, tick) == changes_at(b, tick));
    }
    law_sorting_is_unique(a, sorted_a, sorted_b);
}

/// The seconds of the events of a stream, when `sec` tells them from what the
/// first pass found and from their ticks.
pub open spec fn stream_seconds(
    stream: Seq<u8>,
    scan: ScanState,
    sec: spec_fn(ScanState, u32) -> usize,
) -> Seq<usize> {
    seconds_of(all_events(stream_walk(stream).tracks), |tick: u32| sec(scan, tick))
}

/// The order of the tracks does not matter to the analysis of a stream. Two
/// streams of the same division that hold the same tracks, whose tempo changes
/// are at distinct ticks, give the same first pass; and when the second of an
/// event is told from the first pass and its tick, they have the same result.
pub proof fn law_track_order_does_not_matter(
    a: Seq<u8>,
    b: Seq<u8>,
    scan_a: StreamScan,
    scan_b: StreamScan,
    sec: spec_fn(ScanState, u32) -> usize,
)
    requires
        division_of(a) == division_of(b),
        stream_walk(a).tracks.to_multiset() == stream_walk(b).tracks.to_multiset(),
        at_distinct_ticks(all_changes(stream_walk(a).tracks)),
        scan_a.is_scan_of(a, stream_walk(a).tracks),
        scan_b.is_scan_of(b, stream_walk(b).tracks),
    ensures
        scan_a@ == scan_b@,
        forall|stats: MidiStats, last: usize, other_stats: MidiStats, other_last: usize|
            #[trigger] is_result_of(a, stream_seconds(a, scan_a@, sec), stats, last)
                && #[trigger] is_result_of(
                b,
                stream_seconds(b, scan_b@, sec),
                other_stats,
                other_last,
            ) ==> stats == other_stats && last == other_last,
{
    let (ta, tb) = (stream_walk(a).tracks, stream_walk(b).tracks);
    law_tracks_in_any_order_hold_the_same(ta, tb);
    law_distinct_changes_sort_alike(
        all_changes(ta),
        all_changes(tb),
        scan_a.tempo_map.changes@,
        scan_b.tempo_map.changes@,
    );
    assert(scan_a.segments@ =~= scan_b.segments@);
    law_counts_do_not_depend_on_order(
        all_events(ta),
        all_events(tb),
        |tick: u32| sec(scan_a@, tick),
    );
}

/// Streams of one header, behind which the same tracks are written in different
/// orders: where tempo changes are at distinct ticks, all tracks are found in
/// both, and the analyses of both have the same result.
pub proof fn law_reordered_files_count_alike(
    header: Seq<u8>,
    a: Seq<Seq<u8>>,
    b: Seq<Seq<u8>>,
    scan_a: StreamScan,
    scan_b: StreamScan,
    sec: spec_fn(ScanState, u32) -> usize,
)
    requires
        header.len() == header_len(),
        forall|i: int| 0 <= i < a.len() ==> (#[trigger] a[i]).len() <= u32::MAX,
        a.to_multiset() == b.to_multiset(),
        at_distinct_ticks(all_changes(a)),
        scan_a.is_scan_of(header + written_tracks(a), a),
        scan_b.is_scan_of(header + written_tracks(b), b),
    ensures
        ({
            let (x, y) = (header + written_tracks(a), header + written_tracks(b));
            &&& stream_walk(x) == (Walk { tracks: a, end: WalkEnd::Complete })
            &&& stream_walk(y) == (Walk { tracks: b, end: WalkEnd::Complete })
            &&& scan_a@ == scan_b@
            &&& forall|stats: MidiStats, last: usize, other_stats: MidiStats, other_last: usize|
                #[trigger] is_result_of(x, stream_seconds(x, scan_a@, sec), stats, last)
                    && #[trigger] is_result_of(
                    y,
                    stream_seconds(y, scan_b@, sec),
                    other_stats,
                    other_last,
                ) ==> stats == other_stats && last == other_last
        }),
{
    broadcast use group_to_multiset_ensures;

    law_tracks_in_any_order_hold_the_same(a, b);
    assert forall|i: int| 0 <= i < b.len() implies (#[trigger] b[i]).len() <= u32::MAX by {
        assert(b.contains(b[i]));
        assert(b.to_multiset().count(b[i]) > 0);
        assert(a.contains(b[i]));
    }
    law_written_tracks_are_found(header, a);
    law_written_tracks_are_found(header, b);
    law_track_order_does_not_matter(
        header + written_tracks(a),
        header + written_tracks(b),
        scan_a,
        scan_b,
        sec,
    );
}

} // verus!
