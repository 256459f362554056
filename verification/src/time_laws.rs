//! What holds of the time of messages, tempo changes and tracks.

use crate::message::{
    after_status, body_len, delta_of, messages, saturating_ticks, starts_message, status_of,
    track_messages, Message,
};
use crate::standard::{track_len, track_offsets, track_starts};
use crate::tempo_map::{
    changes_at, in_time_order, is_position, is_sorting, lemma_changes_split, lemma_no_changes,
    segment_before, TempoChange, TempoPosition, DEFAULT_TEMPO_US,
};
use crate::tempo_scan::tempo_changes;
use crate::track_parser::{parsed_events, reported};
use crate::varint::lemma_big_endian_word;
use vstd::prelude::*;

verus! {

/// Whether no message comes before an earlier one.
pub open spec fn in_order(ms: Seq<Message>) -> bool {
    forall|i: int, j: int| 0 <= i <= j < ms.len() ==> ms[i].tick <= ms[j].tick
}

pub(crate) proof fn lemma_messages_in_order(s: Seq<u8>, tick: u32, running: u8)
    ensures
        in_order(messages(s, tick, running)),
        forall|i: int|
            0 <= i < messages(s, tick, running).len() ==> tick <= #[trigger] messages(
                s,
                tick,
                running,
            )[i].tick,
    decreases s.len(),
{
    if starts_message(s) {
        let now = saturating_ticks(tick, delta_of(s));
        let status = status_of(s, running);
        let rest = after_status(s);
        let n = body_len(status, rest) as int;
        let later = messages(rest.skip(n), now, status);
        let all = messages(s, tick, running);
        lemma_messages_in_order(rest.skip(n), now, status);
        assert forall|i: int| 1 <= i < all.len() implies #[trigger] all[i] == later[i - 1] by {}
        assert forall|i: int, j: int| 0 <= i <= j < all.len() implies all[i].tick
            <= all[j].tick by {
            if i >= 1 {
                assert(later[i - 1].tick <= later[j - 1].tick);
            } else if j >= 1 {
                assert(all[j] == later[j - 1]);
            }
        }
    }
}

proof fn lemma_changes_in_order(ms: Seq<Message>)
    requires
        in_order(ms),
    ensures
        in_time_order(tempo_changes(ms)),
        forall|i: int|
            0 <= i < tempo_changes(ms).len() ==> ms[0].tick <= #[trigger] tempo_changes(
                ms,
            )[i].abs_tick,
    decreases ms.len(),
{
    if ms.len() > 0 {
        let t = ms.skip(1);
        assert(in_order(t)) by {
            assert forall|i: int, j: int| 0 <= i <= j < t.len() implies t[i].tick <= t[j].tick by {
                assert(ms[i + 1].tick <= ms[j + 1].tick);
            }
        }
        lemma_changes_in_order(t);
        if t.len() > 0 {
            assert(ms[0].tick <= ms[1].tick);
        }
    }
}

proof fn lemma_events_in_order(ms: Seq<Message>)
    requires
        in_order(ms),
    ensures
        forall|i: int, j: int|
            0 <= i <= j < parsed_events(ms).len() ==> parsed_events(ms)[i].abs_tick
                <= parsed_events(ms)[j].abs_tick,
        forall|i: int|
            0 <= i < parsed_events(ms).len() ==> ms[0].tick <= #[trigger] parsed_events(
                ms,
            )[i].abs_tick,
    decreases ms.len(),
{
    if ms.len() > 0 {
        let t = ms.skip(1);
        assert(in_order(t)) by {
            assert forall|i: int, j: int| 0 <= i <= j < t.len() implies t[i].tick <= t[j].tick by {
                assert(ms[i + 1].tick <= ms[j + 1].tick);
            }
        }
        lemma_events_in_order(t);
        if t.len() > 0 {
            assert(ms[0].tick <= ms[1].tick);
        }
        let later = parsed_events(t);
        let all = parsed_events(ms);
        assert forall|i: int| 0 <= i < later.len() implies ms[0].tick <= #[trigger]
        later[i].abs_tick by {
            assert(t.len() > 0);
            assert(t[0] == ms[1]);
        }
        if reported(ms[0]) is None {
            assert(all == later);
        } else {
            assert forall|i: int| 1 <= i < all.len() implies #[trigger] all[i] == later[i
                - 1] by {}
            assert forall|i: int, j: int| 0 <= i <= j < all.len() implies all[i].abs_tick
                <= all[j].abs_tick by {
                if i >= 1 {
                    assert(later[i - 1].abs_tick <= later[j - 1].abs_tick);
                } else if j >= 1 {
                    assert(all[j] == later[j - 1]);
                }
            }
        }
    }
}

/// Time never runs backwards in a track: its messages, the tempo changes among
/// them and the events reported of them are in the order in which they happen.
pub proof fn law_time_runs_forward(track: Seq<u8>)
    ensures
        in_order(track_messages(track)),
        in_time_order(tempo_changes(track_messages(track))),
        forall|i: int, j: int|
            0 <= i <= j < parsed_events(track_messages(track)).len() ==> parsed_events(
                track_messages(track),
            )[i].abs_tick <= parsed_events(track_messages(track))[j].abs_tick,
{
    lemma_messages_in_order(track, 0, 0);
    lemma_changes_in_order(track_messages(track));
    lemma_events_in_order(track_messages(track));
}

proof fn lemma_first_change(s: Seq<TempoChange>)
    requires
        s.len() > 0,
    ensures
        changes_at(s, s[0].abs_tick).len() > 0,
        changes_at(s, s[0].abs_tick)[0] == s[0],
        forall|tick: u32| #[trigger]
            changes_at(s, tick) == (if tick == s[0].abs_tick {
                seq![s[0]]
            } else {
                Seq::empty()
            }) + changes_at(s.skip(1), tick),
{
    let one = seq![s[0]];
    assert(s.skip(0) =~= s);
    assert forall|tick: u32| #[trigger] changes_at(s, tick) == (if tick == s[0].abs_tick {
        one
    } else {
        Seq::empty()
    }) + changes_at(s.skip(1), tick) by {
        lemma_changes_split(s, 0, tick);
        reveal(Seq::filter);
        assert(one.drop_last() =~= Seq::empty());
        assert(one.drop_last().filter(|c: TempoChange| c.abs_tick == tick) =~= Seq::empty());
        assert(changes_at(one, tick) =~= (if tick == s[0].abs_tick {
            one
        } else {
            Seq::empty()
        }));
    }
    assert(changes_at(s, s[0].abs_tick) == one + changes_at(s.skip(1), s[0].abs_tick));
}

proof fn lemma_not_later(a: Seq<TempoChange>, b: Seq<TempoChange>)
    requires
        a.len() > 0,
        b.len() > 0,
        in_time_order(b),
        changes_at(a, a[0].abs_tick) == changes_at(b, a[0].abs_tick),
    ensures
        b[0].abs_tick <= a[0].abs_tick,
{
    lemma_first_change(a);
    if b[0].abs_tick > a[0].abs_tick {
        lemma_no_changes(b, a[0].abs_tick);
    }
}

/// There is one way only to sort tempo changes: by their ticks, and at one tick
/// in the order in which they were.
pub proof fn law_sorting_is_unique(
    before: Seq<TempoChange>,
    a: Seq<TempoChange>,
    b: Seq<TempoChange>,
)
    requires
        is_sorting(before, a),
        is_sorting(before, b),
    ensures
        a == b,
{
    assert forall|tick: u32| #[trigger] changes_at(a, tick) == changes_at(b, tick) by {
        assert(changes_at(b, tick) == changes_at(before, tick));
    }
    lemma_same_changes(a, b);
}

/// Changes that are in time order already are sorted to themselves: of those at
/// one tick, the last stays the last.
pub proof fn law_changes_in_order_stay(before: Seq<TempoChange>, after: Seq<TempoChange>)
    requires
        is_sorting(before, after),
        forall|i: int, j: int|
            0 <= i <= j < before.len() ==> before[i].abs_tick <= before[j].abs_tick,
    ensures
        after == before,
{
    law_sorting_is_unique(before, after, before);
}

proof fn lemma_same_changes(a: Seq<TempoChange>, b: Seq<TempoChange>)
    requires
        a.len() == b.len(),
        in_time_order(a),
        in_time_order(b),
        forall|tick: u32| #[trigger] changes_at(a, tick) == changes_at(b, tick),
    ensures
        a == b,
    decreases a.len(),
{
    if a.len() > 0 {
        let (a1, b1) = (a.skip(1), b.skip(1));
        assert(changes_at(a, a[0].abs_tick) == changes_at(b, a[0].abs_tick));
        assert(changes_at(a, b[0].abs_tick) == changes_at(b, b[0].abs_tick));
        lemma_not_later(a, b);
        lemma_not_later(b, a);
        lemma_first_change(a);
        lemma_first_change(b);
        assert(a[0] == b[0]);
        assert forall|tick: u32| #[trigger] changes_at(a1, tick) == changes_at(b1, tick) by {
            let head = if tick == a[0].abs_tick {
                seq![a[0]]
            } else {
                Seq::empty()
            };
            let (x, y) = (changes_at(a1, tick), changes_at(b1, tick));
            assert(changes_at(a, tick) == head + x);
            assert(changes_at(b, tick) == head + y);
            assert(x =~= (head + x).skip(head.len() as int));
            assert(y =~= (head + y).skip(head.len() as int));
        }
        lemma_same_changes(a1, b1);
        assert(a =~= seq![a[0]] + a1);
        assert(b =~= seq![b[0]] + b1);
    } else {
        assert(a =~= b);
    }
}

/// The ticks of the segments before the changes up to and including `i`.
pub open spec fn ticks_through(s: Seq<TempoChange>, i: int) -> int
    decreases i + 1,
{
    if i < 0 {
        0
    } else {
        ticks_through(s, i - 1) + segment_before(s, i).delta_ticks
    }
}

/// The segments fill the time up to each change without gap or overlap: their
/// ticks add up to the tick of the change.
pub proof fn law_segments_fill_the_time(s: Seq<TempoChange>, i: int)
    requires
        in_time_order(s),
        0 <= i < s.len(),
    ensures
        ticks_through(s, i) == s[i].abs_tick,
    decreases i,
{
    if i > 0 {
        law_segments_fill_the_time(s, i - 1);
        assert(s[i - 1].abs_tick <= s[i].abs_tick);
    } else {
        assert(ticks_through(s, -1) == 0);
    }
}

/// The time of change `i`: what the segments up to it take, each its ticks times
/// its tempo. Divided by the ticks per quarter note, this is in microseconds.
pub open spec fn time_through(s: Seq<TempoChange>, i: int) -> int
    decreases i + 1,
{
    if i < 0 {
        0
    } else {
        time_through(s, i - 1) + segment_before(s, i).delta_ticks * segment_before(s, i).tempo_us
    }
}

/// The time of a tick that lies at a position among changes, in the same unit.
pub open spec fn time_at(s: Seq<TempoChange>, tick: u32, position: TempoPosition) -> int {
    match position {
        TempoPosition::BeforeFirst => tick * 500_000,
        TempoPosition::After { idx, delta_ticks, tempo_us } => time_through(s, idx as int)
            + delta_ticks * tempo_us,
    }
}

proof fn lemma_time_grows(s: Seq<TempoChange>, i: int, j: int)
    requires
        -1 <= i <= j,
    ensures
        0 <= time_through(s, i) <= time_through(s, j),
    decreases j + 1,
{
    if j >= 0 {
        let segment = segment_before(s, j);
        assert(segment.delta_ticks * segment.tempo_us >= 0) by (nonlinear_arith);
        if i < j {
            lemma_time_grows(s, i, j - 1);
        } else {
            lemma_time_grows(s, i - 1, i - 1);
        }
    }
}

proof fn lemma_no_time_at_tick_zero(s: Seq<TempoChange>, i: int)
    requires
        in_time_order(s),
        -1 <= i < s.len(),
        i >= 0 ==> s[i].abs_tick == 0,
    ensures
        time_through(s, i) == 0,
    decreases i + 1,
{
    if i >= 0 {
        let segment = segment_before(s, i);
        if i > 0 {
            assert(s[i - 1].abs_tick <= s[i].abs_tick);
        }
        lemma_no_time_at_tick_zero(s, i - 1);
        assert(segment.delta_ticks * segment.tempo_us == 0) by (nonlinear_arith)
            requires
                segment.delta_ticks == 0,
        ;
    }
}

/// A later tick never has an earlier time, no time is negative, and the first
/// tick is at the start.
pub proof fn law_later_ticks_are_not_earlier(
    s: Seq<TempoChange>,
    t1: u32,
    p1: TempoPosition,
    t2: u32,
    p2: TempoPosition,
)
    requires
        in_time_order(s),
        t1 <= t2,
        is_position(s, t1, p1),
        is_position(s, t2, p2),
    ensures
        0 <= time_at(s, t1, p1) <= time_at(s, t2, p2),
        t1 == 0 ==> time_at(s, t1, p1) == 0,
{
    match p1 {
        TempoPosition::BeforeFirst => {
            if let TempoPosition::After { idx, delta_ticks, tempo_us } = p2 {
                lemma_time_grows(s, 0, idx as int);
                assert(time_through(s, -1) == 0);
                assert(time_through(s, 0) == s[0].abs_tick * DEFAULT_TEMPO_US);
                assert(delta_ticks * tempo_us >= 0) by (nonlinear_arith);
            }
        },
        TempoPosition::After { idx: i1, delta_ticks: d1, tempo_us: u1 } => {
            lemma_time_grows(s, -1, i1 as int);
            assert(d1 * u1 >= 0) by (nonlinear_arith);
            if t1 == 0 {
                lemma_no_time_at_tick_zero(s, i1 as int);
                assert(d1 * u1 == 0) by (nonlinear_arith)
                    requires
                        d1 == 0,
                ;
            }
            match p2 {
                TempoPosition::BeforeFirst => {
                    assert(t2 < s[i1 as int].abs_tick);
                },
                TempoPosition::After { idx: i2, delta_ticks: d2, tempo_us: u2 } => {
                    assert(d2 * u2 >= 0) by (nonlinear_arith);
                    if i2 < i1 {
                        assert(t2 < s[i1 as int].abs_tick);
                    } else if i1 == i2 {
                        assert(d1 * u1 <= d2 * u1) by (nonlinear_arith)
                            requires
                                d1 <= d2,
                        ;
                    } else {
                        let segment = segment_before(s, i1 + 1);
                        assert(t1 < s[i1 + 1].abs_tick);
                        lemma_time_grows(s, i1 + 1, i2 as int);
                        assert(d1 * u1 <= segment.delta_ticks * u1) by (nonlinear_arith)
                            requires
                                d1 <= segment.delta_ticks,
                        ;
                    }
                },
            }
        },
    }
}

/// Tracks do not overlap: each starts behind the end of the one before it, with
/// room for its tag and its length between them.
pub proof fn law_tracks_do_not_overlap(file: Seq<u8>, pos: nat)
    requires
        file.len() <= isize::MAX,
        pos <= file.len() + u32::MAX,
    ensures
        ({
            let offsets = track_offsets(file, pos);
            &&& forall|i: int|
                0 <= i < offsets.len() ==> pos + 8 <= (#[trigger] offsets[i]).0 <= offsets[i].1
            &&& forall|i: int, j: int|
                #![trigger offsets[i], offsets[j]]
                0 <= i < j < offsets.len() ==> offsets[i].1 + 8 <= offsets[j].0
        }),
    decreases
            (if pos < file.len() {
                file.len() - pos
            } else {
                0
            }),
{
    if pos < file.len() {
        if track_starts(file, pos as int) {
            let word = file.subrange(pos as int + 4, pos as int + 8);
            lemma_big_endian_word(word);
            let end = pos + 8 + track_len(file, pos as int);
            let later = track_offsets(file, end);
            let all = track_offsets(file, pos);
            law_tracks_do_not_overlap(file, end);
            assert(all[0] == ((pos + 8) as u64, end as u64));
            assert forall|i: int| 1 <= i < all.len() implies #[trigger] all[i] == later[i - 1] by {}
            assert forall|i: int| 0 <= i < all.len() implies pos + 8 <= (#[trigger] all[i]).0
                <= all[i].1 by {
                if i >= 1 {
                    assert(later[i - 1].0 <= later[i - 1].1);
                }
            }
            assert forall|i: int, j: int|
                #![trigger all[i], all[j]]
                0 <= i < j < all.len() implies all[i].1 + 8 <= all[j].0 by {
                assert(all[j] == later[j - 1]);
                if i >= 1 {
                    assert(all[i] == later[i - 1]);
                }
            }
        } else {
            let all = track_offsets(file, pos);
            let later = track_offsets(file, pos + 1);
            law_tracks_do_not_overlap(file, pos + 1);
            assert(all == later);
            assert forall|i: int, j: int|
                #![trigger all[i], all[j]]
                0 <= i < j < all.len() implies all[i].1 + 8 <= all[j].0 by {
                assert(later[i].1 + 8 <= later[j].0);
            }
            assert forall|i: int| 0 <= i < all.len() implies pos + 8 <= (#[trigger] all[i]).0
                <= all[i].1 by {
                assert(pos + 1 + 8 <= later[i].0);
            }
        }
    }
}

} // verus!
