//! What the running counts mean.

use crate::count_laws::{can_follow, is_run, is_step, popped};
use crate::event_queue::NextEvent;
use crate::standard::StandardState;
use crate::tally::Tally;
use crate::track_event::TrackEvent;
use vstd::prelude::*;

verus! {

/// What can happen to a tally: an event is counted, or a window is closed.
pub enum TallyStep {
    Count(TrackEvent),
    CloseWindow,
}

/// The tally after some steps.
pub open spec fn tally_after(steps: Seq<TallyStep>) -> Tally
    decreases steps.len(),
{
    if steps.len() == 0 {
        Tally::start()
    } else {
        let before = tally_after(steps.drop_last());
        match steps.last() {
            TallyStep::Count(event) => before.counted(event),
            TallyStep::CloseWindow => before.window_closed(),
        }
    }
}

/// Whether no count became too large during some steps.
pub open spec fn all_counted(steps: Seq<TallyStep>) -> bool
    decreases steps.len(),
{
    steps.len() == 0 || {
        &&& all_counted(steps.drop_last())
        &&& steps.last() matches TallyStep::Count(event) ==> !tally_after(
            steps.drop_last(),
        ).overflows(event)
    }
}

/// Whether a step starts a note.
pub open spec fn is_note_on(step: TallyStep) -> bool {
    step matches TallyStep::Count(event) && event == TrackEvent::NoteOn
}

/// How many notes started in each window, the open one last.
pub open spec fn windows(steps: Seq<TallyStep>) -> Seq<nat>
    decreases steps.len(),
{
    if steps.len() == 0 {
        seq![0]
    } else {
        let before = windows(steps.drop_last());
        if is_note_on(steps.last()) {
            before.drop_last().push(before.last() + 1)
        } else if steps.last() is CloseWindow {
            before.push(0)
        } else {
            before
        }
    }
}

/// How many notes sound after some steps: a note that starts adds one, one that
/// ends takes one away where there is one.
pub open spec fn sounding(steps: Seq<TallyStep>) -> int
    decreases steps.len(),
{
    if steps.len() == 0 {
        0
    } else {
        let before = sounding(steps.drop_last());
        if is_note_on(steps.last()) {
            before + 1
        } else if steps.last() == TallyStep::Count(TrackEvent::NoteOff) && before > 0 {
            before - 1
        } else {
            before
        }
    }
}

/// How many notes start during some steps.
pub open spec fn notes_started(steps: Seq<TallyStep>) -> nat
    decreases steps.len(),
{
    if steps.len() == 0 {
        0
    } else {
        notes_started(steps.drop_last()) + if is_note_on(steps.last()) {
            1nat
        } else {
            0
        }
    }
}

/// Whether `m` is the largest number in `s`, or zero where `s` is empty.
pub open spec fn is_max_of(s: Seq<nat>, m: int) -> bool {
    &&& forall|i: int| 0 <= i < s.len() ==> #[trigger] s[i] <= m
    &&& m == 0 || exists|i: int| 0 <= i < s.len() && #[trigger] s[i] == m
}

proof fn lemma_tally(steps: Seq<TallyStep>)
    requires
        all_counted(steps),
    ensures
        ({
            let t = tally_after(steps);
            &&& t.wf()
            &&& windows(steps).len() > 0
            &&& t.notes_in_current_second == windows(steps).last()
            &&& is_max_of(windows(steps).drop_last(), t.max_nps as int)
            &&& t.current_polyphony == sounding(steps)
            &&& t.total_notes == notes_started(steps)
        }),
    decreases steps.len(),
{
    if steps.len() > 0 {
        let p = steps.drop_last();
        lemma_tally(p);
        let before = windows(p);
        let after = windows(steps);
        let t = tally_after(p);
        if steps.last() is CloseWindow {
            assert(after.drop_last() =~= before);
            let m = t.window_closed().max_nps as int;
            assert forall|i: int| 0 <= i < before.len() implies #[trigger] before[i] <= m by {
                if i < before.len() - 1 {
                    assert(before[i] == before.drop_last()[i]);
                }
            }
            if m != 0 {
                if t.notes_in_current_second > t.max_nps {
                    assert(before[before.len() - 1] == m);
                } else {
                    let k = choose|k: int|
                        0 <= k < before.drop_last().len() && #[trigger] before.drop_last()[k] == m;
                    assert(before[k] == m);
                }
            }
        } else if is_note_on(steps.last()) {
            assert(after.drop_last() =~= before.drop_last());
        }
    }
}

/// The notes per second that an analysis ends with are the largest number of
/// notes that started in one window; the total is the number of notes that
/// started.
pub proof fn law_max_nps_is_the_fullest_window(steps: Seq<TallyStep>)
    requires
        all_counted(steps),
    ensures
        is_max_of(windows(steps), tally_after(steps).window_closed().max_nps as int),
        tally_after(steps).total_notes == notes_started(steps),
{
    let closed = steps.push(TallyStep::CloseWindow);
    assert(closed.drop_last() =~= steps);
    lemma_tally(closed);
    lemma_tally(steps);
    assert(windows(closed).drop_last() =~= windows(steps));
}

/// The largest polyphony is reached at some time and never exceeded.
pub proof fn law_max_polyphony_is_reached(steps: Seq<TallyStep>)
    requires
        all_counted(steps),
    ensures
        forall|k: int|
            0 <= k <= steps.len() ==> sounding(#[trigger] steps.take(k)) <= tally_after(
                steps,
            ).max_polyphony,
        exists|k: int|
            0 <= k <= steps.len() && sounding(#[trigger] steps.take(k)) == tally_after(
                steps,
            ).max_polyphony,
    decreases steps.len(),
{
    let m = tally_after(steps).max_polyphony;
    assert(steps.take(steps.len() as int) =~= steps);
    if steps.len() == 0 {
        assert(sounding(steps.take(0)) == 0);
    } else {
        let p = steps.drop_last();
        law_max_polyphony_is_reached(p);
        lemma_tally(p);
        lemma_tally(steps);
        assert forall|k: int| 0 <= k <= p.len() implies #[trigger] steps.take(k) == p.take(k) by {
            assert(steps.take(k) =~= p.take(k));
        }
        assert forall|k: int| 0 <= k <= steps.len() implies sounding(#[trigger] steps.take(k))
            <= m by {
            if k < steps.len() {
                assert(steps.take(k) == p.take(k));
            }
        }
        let old_m = tally_after(p).max_polyphony;
        if m == old_m {
            let k = choose|k: int| 0 <= k <= p.len() && sounding(#[trigger] p.take(k)) == old_m;
            assert(sounding(steps.take(k)) == m);
        } else {
            assert(sounding(steps.take(steps.len() as int)) == m);
        }
    }
}

/// What one event does to the tally of an analysis in state `a`: the current
/// window is closed or not, and what the cursor of the event's track reads is
/// counted, where bytes of the track are left.
pub open spec fn event_steps(a: StandardState, event: NextEvent, closed: bool) -> Seq<TallyStep> {
    let cursor = a.cursors[event.track_idx as int];
    (if closed {
        seq![TallyStep::CloseWindow]
    } else {
        Seq::empty()
    }) + (if cursor.has_data() {
        seq![TallyStep::Count(cursor.event().unwrap().0)]
    } else {
        Seq::empty()
    })
}

/// One event of a run: which event is taken, and whether the window is closed
/// before it is applied.
pub struct Move {
    pub event: NextEvent,
    pub closed: bool,
}

/// Whether a run of an analysis goes through `states` by `moves`.
pub open spec fn is_run_by(states: Seq<StandardState>, moves: Seq<Move>) -> bool {
    &&& states.len() == moves.len() + 1
    &&& forall|k: int|
        0 <= k < moves.len() ==> is_step(
            states[k],
            states[k + 1],
            (#[trigger] moves[k]).event,
            moves[k].closed,
        )
}

/// What the moves of a run do to its tally, one after the other.
pub open spec fn steps_of(states: Seq<StandardState>, moves: Seq<Move>) -> Seq<TallyStep>
    decreases moves.len(),
{
    if moves.len() == 0 {
        Seq::empty()
    } else {
        steps_of(states, moves.drop_last()) + event_steps(
            states[moves.len() - 1],
            moves.last().event,
            moves.last().closed,
        )
    }
}

/// Every run of an analysis goes by some moves.
pub proof fn law_a_run_has_moves(states: Seq<StandardState>) -> (moves: Seq<Move>)
    requires
        states.len() > 0,
        is_run(states),
    ensures
        is_run_by(states, moves),
    decreases states.len(),
{
    if states.len() == 1 {
        Seq::empty()
    } else {
        let p = states.drop_last();
        assert forall|k: int| #![trigger p[k]] 0 <= k < p.len() - 1 implies can_follow(
            p[k],
            p[k + 1],
        ) by {
            assert(can_follow(states[k], states[k + 1]));
        }
        let before = law_a_run_has_moves(p);
        let a = states[states.len() - 2];
        assert(can_follow(states[states.len() - 2], states[states.len() - 2 + 1]));
        let (event, closed) = choose|event: NextEvent, closed: bool|
            is_step(a, states.last(), event, closed);
        let moves = before.push(Move { event, closed });
        assert forall|k: int| 0 <= k < moves.len() implies is_step(
            states[k],
            states[k + 1],
            (#[trigger] moves[k]).event,
            moves[k].closed,
        ) by {
            if k < before.len() {
                assert(before[k] == moves[k]);
                assert(p[k] == states[k] && p[k + 1] == states[k + 1]);
            }
        }
        moves
    }
}

proof fn lemma_event_steps(
    a: StandardState,
    b: StandardState,
    event: NextEvent,
    closed: bool,
    before: Seq<TallyStep>,
)
    requires
        is_step(a, b, event, closed),
        all_counted(before),
        tally_after(before) == a.tally,
    ensures
        all_counted(before + event_steps(a, event, closed)),
        tally_after(before + event_steps(a, event, closed)) == b.tally,
{
    let steps = before + event_steps(a, event, closed);
    let opened = if closed {
        before.push(TallyStep::CloseWindow)
    } else {
        before
    };
    assert(before.push(TallyStep::CloseWindow).drop_last() =~= before);
    assert(all_counted(opened) && tally_after(opened) == popped(a, event, closed).tally);
    let cursor = a.cursors[event.track_idx as int];
    if cursor.has_data() {
        let (track_event, _) = cursor.event().unwrap();
        assert(steps =~= opened.push(TallyStep::Count(track_event)));
        assert(steps.drop_last() =~= opened);
    } else {
        assert(steps =~= opened);
    }
}

proof fn lemma_run_tally(states: Seq<StandardState>, moves: Seq<Move>, k: int)
    requires
        states[0].tally == Tally::start(),
        is_run_by(states, moves),
        0 <= k <= moves.len(),
    ensures
        all_counted(steps_of(states, moves.take(k))),
        tally_after(steps_of(states, moves.take(k))) == states[k].tally,
    decreases k,
{
    if k > 0 {
        lemma_run_tally(states, moves, k - 1);
        let last = moves[k - 1];
        assert(moves.take(k).drop_last() =~= moves.take(k - 1));
        assert(is_step(states[k - 1], states[k - 1 + 1], last.event, last.closed));
        lemma_event_steps(
            states[k - 1],
            states[k],
            last.event,
            last.closed,
            steps_of(states, moves.take(k - 1)),
        );
    }
}

/// A run of an analysis tallies the events that it reads, one step for each
/// event read and each window closed: the notes per second that it ends with
/// are those of its fullest window, the total is the number of notes that
/// started, and the largest polyphony is reached and never exceeded.
pub proof fn law_a_run_tallies_its_events(states: Seq<StandardState>, moves: Seq<Move>)
    requires
        states[0].tally == Tally::start(),
        is_run_by(states, moves),
    ensures
        ({
            let steps = steps_of(states, moves);
            let tally = states.last().tally;
            &&& all_counted(steps)
            &&& tally_after(steps) == tally
            &&& is_max_of(windows(steps), tally.window_closed().max_nps as int)
            &&& notes_started(steps) == tally.total_notes
            &&& forall|k: int|
                0 <= k <= steps.len() ==> sounding(#[trigger] steps.take(k))
                    <= tally.max_polyphony
            &&& exists|k: int|
                0 <= k <= steps.len() && sounding(#[trigger] steps.take(k))
                    == tally.max_polyphony
        }),
{
    assert(moves.take(moves.len() as int) =~= moves);
    lemma_run_tally(states, moves, moves.len() as int);
    law_max_nps_is_the_fullest_window(steps_of(states, moves));
    law_max_polyphony_is_reached(steps_of(states, moves));
}

} // verus!
