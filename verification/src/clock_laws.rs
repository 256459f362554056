//! The time of the analysis of a file is that of its tempo changes.

use crate::buffered_cursor::CursorState;
use crate::count_laws::{
    file_tracks, is_step, is_whole_file, law_start_has_all_ahead, lemma_advanced, lemma_start_track,
    lemma_step,
};
use crate::event_queue::NextEvent;
use crate::message::{
    after_due, due_message, due_status, is_tempo, messages, tempo_of, track_messages, Message,
};
use crate::order_laws::{
    at_distinct_ticks, is_at, lemma_changes_as_multiset, lemma_changes_last,
    lemma_one_change_at_most,
};
use crate::standard::{is_start, StandardState};
use crate::stream::all_changes;
use crate::tally_laws::{is_run_by, Move};
use crate::tempo_map::{
    changes_at, in_time_order, is_position, is_sorting, segment_before, TempoChange, TempoPosition,
    DEFAULT_TEMPO_US,
};
use crate::tempo_scan::tempo_changes;
use crate::time_laws::{lemma_messages_in_order, time_at, time_through};
use crate::transparency::law_event_is_the_message;
use vstd::multiset::Multiset;
use vstd::prelude::*;
use vstd::seq_lib::{group_to_multiset_ensures, lemma_multiset_commutative, to_multiset_remove};

verus! {

/// The time that passes during a run: for each move the ticks since the one
/// before it, times the tempo in force. Divided by the ticks per quarter note,
/// this is in microseconds.
pub open spec fn run_time(states: Seq<StandardState>, moves: Seq<Move>) -> int
    decreases moves.len(),
{
    if moves.len() == 0 {
        0
    } else {
        let a = states[moves.len() - 1];
        run_time(states, moves.drop_last()) + (moves.last().event.tick - a.last_time_tick)
            * a.tally.current_tempo_us
    }
}

/// The tempo changes that are left in front of some cursors, one track after
/// the other.
pub open spec fn changes_ahead(cursors: Seq<CursorState>) -> Seq<TempoChange>
    decreases cursors.len(),
{
    if cursors.len() == 0 {
        Seq::empty()
    } else {
        tempo_changes(cursors[0].messages_left()) + changes_ahead(cursors.skip(1))
    }
}

/// The tempo in force after the first `n` changes.
spec fn tempo_after(c: Seq<TempoChange>, n: int) -> u64 {
    if n > 0 {
        c[n - 1].tempo_us
    } else {
        DEFAULT_TEMPO_US
    }
}

/// The tick from which on it is.
spec fn tick_after(c: Seq<TempoChange>, n: int) -> u32 {
    if n > 0 {
        c[n - 1].abs_tick
    } else {
        0
    }
}

/// Whether the first `n` of the changes `c` were applied, those left are ahead,
/// and `time` is the time of the tick that the analysis has come to.
spec fn clock_is(a: StandardState, c: Seq<TempoChange>, n: int, time: int) -> bool {
    &&& 0 <= n <= c.len()
    &&& a.tally.current_tempo_us == tempo_after(c, n)
    &&& tick_after(c, n) <= a.last_time_tick
    &&& changes_ahead(a.cursors).to_multiset() == c.skip(n).to_multiset()
    &&& time == time_through(c, n - 1) + (a.last_time_tick - tick_after(c, n)) * tempo_after(c, n)
}

proof fn lemma_changes_update(cursors: Seq<CursorState>, i: int, d: CursorState)
    requires
        0 <= i < cursors.len(),
    ensures
        changes_ahead(cursors.update(i, d)).to_multiset().add(
            tempo_changes(cursors[i].messages_left()).to_multiset(),
        ) == changes_ahead(cursors).to_multiset().add(
            tempo_changes(d.messages_left()).to_multiset(),
        ),
    decreases cursors.len(),
{
    let updated = cursors.update(i, d);
    let rest = cursors.skip(1);
    let first = tempo_changes(cursors[0].messages_left());
    lemma_multiset_commutative(first, changes_ahead(rest));
    lemma_multiset_commutative(
        tempo_changes(updated[0].messages_left()),
        changes_ahead(updated.skip(1)),
    );
    if i == 0 {
        assert(updated.skip(1) =~= rest);
    } else {
        lemma_changes_update(rest, i - 1, d);
        assert(updated.skip(1) =~= rest.update(i - 1, d));
    }
    let x = changes_ahead(updated).to_multiset().add(
        tempo_changes(cursors[i].messages_left()).to_multiset(),
    );
    let y = changes_ahead(cursors).to_multiset().add(
        tempo_changes(d.messages_left()).to_multiset(),
    );
    assert forall|v: TempoChange| x.count(v) == y.count(v) by {
        if i > 0 {
            assert(changes_ahead(updated.skip(1)).to_multiset().add(
                tempo_changes(cursors[i].messages_left()).to_multiset(),
            ).count(v) == changes_ahead(rest).to_multiset().add(
                tempo_changes(d.messages_left()).to_multiset(),
            ).count(v));
        }
    }
    assert(x =~= y);
}

proof fn lemma_changes_not_before(ms: Seq<Message>, tick: u32)
    requires
        forall|i: int| 0 <= i < ms.len() ==> tick <= #[trigger] ms[i].tick,
    ensures
        forall|i: int|
            0 <= i < tempo_changes(ms).len() ==> tick <= #[trigger] tempo_changes(ms)[i].abs_tick,
    decreases ms.len(),
{
    if ms.len() > 0 {
        let rest = ms.skip(1);
        assert forall|i: int| 0 <= i < rest.len() implies tick <= #[trigger] rest[i].tick by {
            assert(rest[i] == ms[i + 1]);
        }
        lemma_changes_not_before(rest, tick);
        assert(tick <= ms[0].tick);
        let later = tempo_changes(rest);
        let all = tempo_changes(ms);
        assert forall|i: int| 0 <= i < all.len() implies tick <= #[trigger] all[i].abs_tick by {
            if is_tempo(ms[0]) {
                if i > 0 {
                    assert(all[i] == later[i - 1]);
                }
            } else {
                assert(all[i] == later[i]);
            }
        }
    }
}

/// The messages that are left in front of a cursor are not due before it.
proof fn lemma_left_not_before(d: CursorState)
    ensures
        forall|i: int|
            0 <= i < tempo_changes(d.messages_left()).len() ==> d.abs_tick
                <= #[trigger] tempo_changes(d.messages_left())[i].abs_tick,
{
    let r = d.left();
    let ms = d.messages_left();
    if r.len() > 0 {
        let status = due_status(r, d.last_status);
        let later = messages(after_due(r, d.last_status), d.abs_tick, status);
        lemma_messages_in_order(after_due(r, d.last_status), d.abs_tick, status);
        assert forall|i: int| 0 <= i < ms.len() implies d.abs_tick <= #[trigger] ms[i].tick by {
            if i > 0 {
                assert(ms[i] == later[i - 1]);
            }
        }
    }
    lemma_changes_not_before(ms, d.abs_tick);
}

proof fn lemma_ahead_not_before(cursors: Seq<CursorState>, tick: u32)
    requires
        forall|i: int|
            0 <= i < cursors.len() ==> (#[trigger] cursors[i]).coherent() && (
            cursors[i].has_data() ==> tick <= cursors[i].abs_tick),
    ensures
        forall|x: TempoChange| #[trigger]
            changes_ahead(cursors).contains(x) ==> tick <= x.abs_tick,
    decreases cursors.len(),
{
    if cursors.len() > 0 {
        let d = cursors[0];
        let rest = cursors.skip(1);
        let first = tempo_changes(d.messages_left());
        assert forall|i: int| 0 <= i < rest.len() implies (#[trigger] rest[i]).coherent() && (
        rest[i].has_data() ==> tick <= rest[i].abs_tick) by {
            assert(rest[i] == cursors[i + 1]);
        }
        assert(d.coherent());
        lemma_ahead_not_before(rest, tick);
        lemma_left_not_before(d);
        if !d.has_data() {
            assert(d.left().len() == 0);
            assert(first.len() == 0);
        }
        assert forall|x: TempoChange| #[trigger] changes_ahead(cursors).contains(
            x,
        ) implies tick <= x.abs_tick by {
            let all = changes_ahead(cursors);
            let i = choose|i: int| 0 <= i < all.len() && all[i] == x;
            if i < first.len() {
                assert(first[i] == x);
            } else {
                assert(changes_ahead(rest)[i - first.len()] == x);
                assert(changes_ahead(rest).contains(x));
            }
        }
    }
}

/// What is left of the changes is not due before a tick before which no queued
/// event is due.
proof fn lemma_rest_not_before(a: StandardState, c: Seq<TempoChange>, n: int, tick: u32)
    requires
        a.sound(None),
        forall|e: NextEvent| #[trigger] a.queue.contains(e) ==> tick <= e.tick,
        0 <= n <= c.len(),
        changes_ahead(a.cursors).to_multiset() == c.skip(n).to_multiset(),
    ensures
        forall|i: int| n <= i < c.len() ==> tick <= #[trigger] c[i].abs_tick,
{
    broadcast use group_to_multiset_ensures;

    assert forall|i: int| 0 <= i < a.cursors.len() implies (
    #[trigger] a.cursors[i]).coherent() && (a.cursors[i].has_data() ==> tick
        <= a.cursors[i].abs_tick) by {
        let e = NextEvent { tick: a.cursors[i].abs_tick, track_idx: i as usize };
        assert(a.cursors[i].sound());
        if a.cursors[i].has_data() {
            assert(a.queue.count(e) > 0);
            assert(a.queue.contains(e));
        }
    }
    lemma_ahead_not_before(a.cursors, tick);
    assert forall|i: int| n <= i < c.len() implies tick <= #[trigger] c[i].abs_tick by {
        let rest = c.skip(n);
        assert(rest[i - n] == c[i]);
        assert(rest.contains(c[i]));
        assert(rest.to_multiset().count(c[i]) > 0);
        assert(changes_ahead(a.cursors).contains(c[i]));
    }
}

/// What an event leaves ahead: all but the tempo change that it is, if it is
/// one.
proof fn lemma_event_takes_change(
    a: StandardState,
    b: StandardState,
    event: NextEvent,
    closed: bool,
)
    requires
        a.sound(None),
        a.queue_ok(),
        is_step(a, b, event, closed),
    ensures
        ({
            let d = a.cursors[event.track_idx as int];
            let m = due_message(d.left(), d.abs_tick, d.last_status);
            let before = changes_ahead(a.cursors).to_multiset();
            let after = changes_ahead(b.cursors).to_multiset();
            if d.has_data() && is_tempo(m) {
                &&& before == after.insert(
                    TempoChange { abs_tick: event.tick, tempo_us: tempo_of(m) },
                )
                &&& b.tally.current_tempo_us == tempo_of(m)
            } else {
                &&& before == after
                &&& b.tally.current_tempo_us == a.tally.current_tempo_us
            }
        }),
{
    broadcast use group_to_multiset_ensures;

    let track = event.track_idx as int;
    let d = a.cursors[track];
    assert(a.queue.count(event) > 0);
    if d.has_data() {
        let m = due_message(d.left(), d.abs_tick, d.last_status);
        law_event_is_the_message(d);
        let (_, behind) = d.event().unwrap();
        lemma_advanced(behind);
        let next = behind.advanced().unwrap();
        let ms = d.messages_left();
        let later = tempo_changes(next.messages_left());
        assert(ms.skip(1) =~= next.messages_left());
        assert(ms[0] == m);
        lemma_changes_update(a.cursors, track, next);
        let before = changes_ahead(a.cursors).to_multiset();
        let after = changes_ahead(b.cursors).to_multiset();
        if is_tempo(m) {
            let x = TempoChange { abs_tick: event.tick, tempo_us: tempo_of(m) };
            lemma_multiset_commutative(seq![x], later);
            assert(seq![x] =~= Seq::<TempoChange>::empty().push(x));
            assert(Seq::<TempoChange>::empty().to_multiset().len() == 0);
            assert(Seq::<TempoChange>::empty().to_multiset() =~= Multiset::empty());
            assert(seq![x].to_multiset() =~= Multiset::singleton(x));
            assert(tempo_changes(ms).to_multiset() =~= later.to_multiset().insert(x));
            assert forall|v: TempoChange| before.count(v) == after.insert(x).count(v) by {
                assert(after.add(tempo_changes(ms).to_multiset()).count(v) == before.add(
                    later.to_multiset(),
                ).count(v));
            }
            assert(before =~= after.insert(x));
        } else {
            assert forall|v: TempoChange| before.count(v) == after.count(v) by {
                assert(after.add(tempo_changes(ms).to_multiset()).count(v) == before.add(
                    later.to_multiset(),
                ).count(v));
            }
            assert(before =~= after);
        }
    }
}

/// A change that is left, when none that is left is before it, is the next one.
proof fn lemma_next_change(
    c: Seq<TempoChange>,
    n: int,
    x: TempoChange,
    after: Multiset<TempoChange>,
)
    requires
        in_time_order(c),
        at_distinct_ticks(c),
        0 <= n <= c.len(),
        c.skip(n).to_multiset() == after.insert(x),
        forall|i: int| n <= i < c.len() ==> x.abs_tick <= #[trigger] c[i].abs_tick,
    ensures
        n < c.len(),
        c[n] == x,
        c.skip(n + 1).to_multiset() == after,
{
    broadcast use group_to_multiset_ensures;

    let rest = c.skip(n);
    assert(rest.to_multiset().count(x) > 0);
    assert(rest.contains(x));
    let i = choose|i: int| 0 <= i < rest.len() && rest[i] == x;
    assert(c[n + i] == x);
    assert(x.abs_tick <= c[n].abs_tick);
    assert(c[n].abs_tick <= c[n + i].abs_tick);
    assert(i == 0);
    to_multiset_remove(rest, 0);
    assert(rest.remove(0) =~= c.skip(n + 1));
    assert(after =~= after.insert(x).remove(x));
}

proof fn lemma_clock_step(
    a: StandardState,
    b: StandardState,
    event: NextEvent,
    closed: bool,
    c: Seq<TempoChange>,
    n: int,
    time: int,
) -> (next: int)
    requires
        a.sound(None),
        a.queue_ok(),
        is_step(a, b, event, closed),
        in_time_order(c),
        at_distinct_ticks(c),
        clock_is(a, c, n, time),
    ensures
        clock_is(
            b,
            c,
            next,
            time + (event.tick - a.last_time_tick) * a.tally.current_tempo_us,
        ),
{
    let d = a.cursors[event.track_idx as int];
    let m = due_message(d.left(), d.abs_tick, d.last_status);
    let tempo = tempo_after(c, n) as int;
    let (from, t, now) = (tick_after(c, n) as int, a.last_time_tick as int, event.tick as int);
    assert(a.queue.count(event) > 0);
    assert(t <= now);
    assert(b.last_time_tick == event.tick);
    lemma_event_takes_change(a, b, event, closed);
    lemma_rest_not_before(a, c, n, event.tick);
    assert((t - from) * tempo + (now - t) * tempo == (now - from) * tempo) by (nonlinear_arith);
    if d.has_data() && is_tempo(m) {
        let x = TempoChange { abs_tick: event.tick, tempo_us: tempo_of(m) };
        lemma_next_change(c, n, x, changes_ahead(b.cursors).to_multiset());
        if n > 0 {
            assert(c[n - 1].abs_tick <= c[n].abs_tick);
        }
        assert(segment_before(c, n).delta_ticks == now - from);
        assert(segment_before(c, n).tempo_us == tempo);
        assert(time_through(c, n) == time_through(c, n - 1) + (now - from) * tempo);
        let left = (b.last_time_tick - tick_after(c, n + 1)) * tempo_after(c, n + 1);
        assert(left == 0) by (nonlinear_arith)
            requires
                left == (b.last_time_tick - tick_after(c, n + 1)) * tempo_after(c, n + 1),
                b.last_time_tick == tick_after(c, n + 1),
        ;
        n + 1
    } else {
        n
    }
}

pub(crate) proof fn lemma_sorting_keeps_changes(before: Seq<TempoChange>, after: Seq<TempoChange>)
    requires
        is_sorting(before, after),
    ensures
        before.to_multiset() == after.to_multiset(),
{
    assert forall|x: TempoChange| before.to_multiset().count(x) == after.to_multiset().count(
        x,
    ) by {
        lemma_changes_as_multiset(before, x.abs_tick);
        lemma_changes_as_multiset(after, x.abs_tick);
        assert(changes_at(after, x.abs_tick) == changes_at(before, x.abs_tick));
        let here = is_at(x.abs_tick);
        assert(before.to_multiset().filter(here).count(x) == before.to_multiset().count(x));
        assert(after.to_multiset().filter(here).count(x) == after.to_multiset().count(x));
    }
    assert(before.to_multiset() =~= after.to_multiset());
}

proof fn lemma_distinct_where_single(s: Seq<TempoChange>)
    requires
        forall|tick: u32| (#[trigger] changes_at(s, tick)).len() <= 1,
    ensures
        at_distinct_ticks(s),
    decreases s.len(),
{
    broadcast use group_to_multiset_ensures;

    if s.len() > 0 {
        let before = s.drop_last();
        let last = s.last();
        assert forall|tick: u32| (#[trigger] changes_at(before, tick)).len() <= 1 by {
            lemma_changes_last(s, tick);
            assert(changes_at(s, tick).len() <= 1);
        }
        lemma_distinct_where_single(before);
        assert forall|i: int, j: int| 0 <= i < j < s.len() implies s[i].abs_tick
            != s[j].abs_tick by {
            if j == s.len() - 1 && s[i].abs_tick == last.abs_tick {
                let x = before[i];
                lemma_changes_last(s, last.abs_tick);
                lemma_changes_as_multiset(before, last.abs_tick);
                let here = is_at(last.abs_tick);
                assert(before.contains(x));
                assert(before.to_multiset().count(x) > 0);
                assert(before.to_multiset().filter(here).count(x) > 0);
                assert(changes_at(before, last.abs_tick).contains(x));
                assert(changes_at(s, last.abs_tick).len() <= 1);
            } else if j < s.len() - 1 {
                assert(before[i] == s[i] && before[j] == s[j]);
            }
        }
    }
}

proof fn lemma_start_changes(cursors: Seq<CursorState>, tracks: Seq<Seq<u8>>)
    requires
        cursors.len() == tracks.len(),
        forall|i: int|
            0 <= i < cursors.len() ==> (#[trigger] cursors[i]).messages_left() == track_messages(
                tracks[i],
            ),
    ensures
        changes_ahead(cursors) == all_changes(tracks),
    decreases cursors.len(),
{
    if cursors.len() > 0 {
        assert(cursors[0].messages_left() == track_messages(tracks[0]));
        assert forall|i: int| 0 <= i < cursors.skip(1).len() implies (#[trigger] cursors.skip(
            1,
        )[i]).messages_left() == track_messages(tracks.skip(1)[i]) by {
            assert(cursors.skip(1)[i] == cursors[i + 1]);
        }
        lemma_start_changes(cursors.skip(1), tracks.skip(1));
    }
}

proof fn lemma_clock(
    states: Seq<StandardState>,
    moves: Seq<Move>,
    c: Seq<TempoChange>,
    k: int,
) -> (n: int)
    requires
        is_run_by(states, moves),
        0 <= k <= moves.len(),
        states[0].sound(None),
        states[0].queue_ok(),
        in_time_order(c),
        at_distinct_ticks(c),
        clock_is(states[0], c, 0, 0),
    ensures
        states[k].sound(None),
        states[k].queue_ok(),
        clock_is(states[k], c, n, run_time(states, moves.take(k))),
    decreases k,
{
    if k == 0 {
        0
    } else {
        let n = lemma_clock(states, moves, c, k - 1);
        let last = moves[k - 1];
        assert(is_step(states[k - 1], states[k - 1 + 1], last.event, last.closed));
        assert(moves.take(k).drop_last() =~= moves.take(k - 1));
        lemma_step(states[k - 1], states[k], last.event, last.closed);
        lemma_clock_step(
            states[k - 1],
            states[k],
            last.event,
            last.closed,
            c,
            n,
            run_time(states, moves.take(k - 1)),
        )
    }
}

/// The time of the tick that an analysis has come to is that which the tempo
/// changes give it, where all before it were applied.
proof fn lemma_clock_tells_time(
    a: StandardState,
    c: Seq<TempoChange>,
    n: int,
    time: int,
    p: TempoPosition,
)
    requires
        a.sound(None),
        a.queue_ok(),
        in_time_order(c),
        at_distinct_ticks(c),
        clock_is(a, c, n, time),
        is_position(c, a.last_time_tick, p),
    ensures
        time == time_at(c, a.last_time_tick, p),
{
    let t = a.last_time_tick;
    assert forall|e: NextEvent| #[trigger] a.queue.contains(e) implies t <= e.tick by {
        assert(a.queue.count(e) > 0);
    }
    lemma_rest_not_before(a, c, n, t);
    match p {
        TempoPosition::BeforeFirst => {
            if n > 0 {
                assert(t < c[n - 1].abs_tick);
            }
        },
        TempoPosition::After { idx, delta_ticks, tempo_us } => {
            let i = idx as int;
            if n > i + 1 {
                assert(t < c[n - 1].abs_tick);
            } else if n <= i {
                assert(t <= c[i].abs_tick);
                assert(t <= c[n].abs_tick <= c[i].abs_tick);
                assert(n == i);
                if n > 0 {
                    assert(c[n - 1].abs_tick <= c[n].abs_tick);
                }
                assert(segment_before(c, n).delta_ticks == t - tick_after(c, n));
                assert(delta_ticks * tempo_us == 0) by (nonlinear_arith)
                    requires
                        delta_ticks == 0,
                ;
            }
        },
    }
}

/// The time that passes during a run of the analysis of a file with whole
/// tracks is the time that the tempo changes of all tracks, in time order, give
/// the tick that the run has come to. The changes must be at distinct ticks:
/// which of two at one tick is applied last is left open.
pub proof fn law_the_clock_follows_the_tempo_changes(
    file: Seq<u8>,
    states: Seq<StandardState>,
    moves: Seq<Move>,
    c: Seq<TempoChange>,
    p: TempoPosition,
)
    requires
        is_whole_file(file),
        is_start(file, states[0]),
        is_run_by(states, moves),
        at_distinct_ticks(all_changes(file_tracks(file))),
        is_sorting(all_changes(file_tracks(file)), c),
        is_position(c, states.last().last_time_tick, p),
    ensures
        run_time(states, moves) == time_at(c, states.last().last_time_tick, p),
{
    let changes = all_changes(file_tracks(file));
    let start = states[0];
    law_start_has_all_ahead(file, start);
    assert forall|i: int| 0 <= i < start.cursors.len() implies (
    #[trigger] start.cursors[i]).messages_left() == track_messages(file_tracks(file)[i]) by {
        lemma_start_track(file, i);
    }
    lemma_start_changes(start.cursors, file_tracks(file));
    lemma_sorting_keeps_changes(changes, c);
    assert forall|tick: u32| (#[trigger] changes_at(c, tick)).len() <= 1 by {
        lemma_one_change_at_most(changes, tick);
    }
    lemma_distinct_where_single(c);
    assert(c.skip(0) =~= c);
    assert(time_through(c, -1) == 0);
    let k = moves.len() as int;
    let n = lemma_clock(states, moves, c, k);
    assert(moves.take(k) =~= moves);
    lemma_clock_tells_time(states[k], c, n, run_time(states, moves), p);
}

} // verus!
