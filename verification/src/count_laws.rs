//! What the analysis of an uncompressed file counts: every note and every
//! controller event of its tracks, once, in whatever order events of the same
//! tick come and wherever windows are closed.

use crate::buffered_cursor::CursorState;
use crate::event_queue::NextEvent;
use crate::message::{
    delta_of, due_message, due_messages, is_control_change, is_whole, is_whole_due, lemma_due,
    messages, saturating_ticks, starts_note, track_messages, Message,
};
use crate::progress_laws::law_every_event_makes_progress;
use crate::standard::{
    header_len, is_start, max_buffer_size, opened_track, track_len, track_offsets, track_starts,
    AnalysisError, StandardState,
};
use crate::transparency::{law_event_is_the_message, law_opened_is_coherent, law_quantity_from_file};
use crate::varint::quantity_len;
use vstd::prelude::*;

verus! {

/// How many of some messages start a note.
pub open spec fn notes_in(ms: Seq<Message>) -> nat
    decreases ms.len(),
{
    if ms.len() == 0 {
        0
    } else {
        notes_in(ms.skip(1)) + if starts_note(ms[0]) {
            1nat
        } else {
            0
        }
    }
}

/// How many of some messages are controller messages.
pub open spec fn controls_in(ms: Seq<Message>) -> nat
    decreases ms.len(),
{
    if ms.len() == 0 {
        0
    } else {
        controls_in(ms.skip(1)) + if is_control_change(ms[0]) {
            1nat
        } else {
            0
        }
    }
}

/// How many notes the tracks with the given data start.
pub open spec fn notes_in_tracks(tracks: Seq<Seq<u8>>) -> nat
    decreases tracks.len(),
{
    if tracks.len() == 0 {
        0
    } else {
        notes_in(track_messages(tracks[0])) + notes_in_tracks(tracks.skip(1))
    }
}

/// How many controller messages the tracks with the given data hold.
pub open spec fn controls_in_tracks(tracks: Seq<Seq<u8>>) -> nat
    decreases tracks.len(),
{
    if tracks.len() == 0 {
        0
    } else {
        controls_in(track_messages(tracks[0])) + controls_in_tracks(tracks.skip(1))
    }
}

/// The data of the tracks of a file.
pub open spec fn file_tracks(file: Seq<u8>) -> Seq<Seq<u8>> {
    let offsets = track_offsets(file, header_len());
    Seq::new(offsets.len(), |i: int| file.subrange(offsets[i].0 as int, offsets[i].1 as int))
}

/// Whether the tracks of a file lie in the file and end neither inside a delta
/// time nor inside a message.
pub open spec fn is_whole_file(file: Seq<u8>) -> bool {
    let offsets = track_offsets(file, header_len());
    &&& file.len() <= isize::MAX
    &&& forall|i: int|
        0 <= i < offsets.len() ==> {
            &&& #[trigger] offsets[i].0 <= offsets[i].1 <= file.len()
            &&& is_whole(file.subrange(offsets[i].0 as int, offsets[i].1 as int), 0)
        }
}

impl CursorState {
    /// The messages that are left, when the delta time of the first was read.
    pub open spec fn messages_left(self) -> Seq<Message> {
        due_messages(self.left(), self.abs_tick, self.last_status)
    }

    /// The cursor reads what its file holds, and what is left ends neither
    /// inside a delta time nor inside a message.
    pub open spec fn sound(self) -> bool {
        self.coherent() && is_whole_due(self.left(), self.last_status)
    }
}

/// How many notes are left in front of some cursors.
pub open spec fn notes_ahead(cursors: Seq<CursorState>) -> nat
    decreases cursors.len(),
{
    if cursors.len() == 0 {
        0
    } else {
        notes_in(cursors[0].messages_left()) + notes_ahead(cursors.skip(1))
    }
}

/// How many controller messages are left in front of some cursors.
pub open spec fn controls_ahead(cursors: Seq<CursorState>) -> nat
    decreases cursors.len(),
{
    if cursors.len() == 0 {
        0
    } else {
        controls_in(cursors[0].messages_left()) + controls_ahead(cursors.skip(1))
    }
}

impl StandardState {
    /// Every cursor is sound, and a track with bytes left is queued, but for
    /// the track `except`.
    pub open spec fn sound(self, except: Option<usize>) -> bool {
        &&& self.cursors.len() <= usize::MAX
        &&& forall|i: int|
            0 <= i < self.cursors.len() ==> {
                let c = #[trigger] self.cursors[i];
                &&& c.sound()
                &&& c.has_data() && except != Some(i as usize) ==> self.queue.count(
                    NextEvent { tick: c.abs_tick, track_idx: i as usize },
                ) > 0
            }
    }
}

proof fn lemma_ahead_update(cursors: Seq<CursorState>, i: int, c: CursorState)
    requires
        0 <= i < cursors.len(),
    ensures
        notes_ahead(cursors.update(i, c)) + notes_in(cursors[i].messages_left()) == notes_ahead(
            cursors,
        ) + notes_in(c.messages_left()),
        controls_ahead(cursors.update(i, c)) + controls_in(cursors[i].messages_left())
            == controls_ahead(cursors) + controls_in(c.messages_left()),
    decreases cursors.len(),
{
    if i == 0 {
        assert(cursors.update(i, c).skip(1) =~= cursors.skip(1));
    } else {
        assert(cursors.update(i, c).skip(1) =~= cursors.skip(1).update(i - 1, c));
        lemma_ahead_update(cursors.skip(1), i - 1, c);
    }
}

proof fn lemma_nothing_ahead(cursors: Seq<CursorState>)
    requires
        forall|i: int|
            0 <= i < cursors.len() ==> !(#[trigger] cursors[i]).has_data() && cursors[i].coherent(),
    ensures
        notes_ahead(cursors) == 0,
        controls_ahead(cursors) == 0,
    decreases cursors.len(),
{
    if cursors.len() > 0 {
        assert(!cursors[0].has_data());
        assert(cursors[0].left().len() == 0);
        assert(cursors[0].messages_left() =~= Seq::empty());
        assert forall|i: int| 0 <= i < cursors.skip(1).len() implies !(#[trigger] cursors.skip(
            1,
        )[i]).has_data() && cursors.skip(1)[i].coherent() by {
            assert(cursors.skip(1)[i] == cursors[i + 1]);
        }
        lemma_nothing_ahead(cursors.skip(1));
    }
}

/// Reading the delta time of the next event leaves the messages.
pub(crate) proof fn lemma_advanced(c: CursorState)
    requires
        c.coherent(),
        is_whole(c.left(), c.last_status),
    ensures
        c.advanced() matches Some(next) && next.sound() && next.messages_left() == messages(
            c.left(),
            c.abs_tick,
            c.last_status,
        ) && (next.has_data() ==> c.has_data()) && next.track_idx == c.track_idx && next.abs_tick
            >= c.abs_tick,
{
    let s = c.left();
    if c.has_data() {
        law_quantity_from_file(c);
        lemma_due(s, c.abs_tick, c.last_status);
        let (bytes, after) = c.quantity().unwrap();
        let next = CursorState {
            abs_tick: saturating_ticks(c.abs_tick, delta_of(s)),
            ..after
        };
        assert(next.left() =~= s.skip(quantity_len(s) as int));
        assert(next.coherent());
    } else {
        assert(s =~= Seq::empty());
    }
}

/// Applying a due event of sound tracks never reads outside a buffer.
pub proof fn law_whole_tracks_do_not_overrun(state: StandardState, event: NextEvent)
    requires
        state.sound(Some(event.track_idx)),
        state.is_due(event),
    ensures
        state.applied(event) != Err::<StandardState, _>(AnalysisError::Overrun),
{
    let c = state.cursors[event.track_idx as int];
    if c.has_data() {
        law_event_is_the_message(c);
        let (_, after) = c.event().unwrap();
        lemma_advanced(after);
    }
}

/// Applying a due event of sound tracks counts it: what was counted and what
/// is left to count stay the same together, the tracks stay sound, and the
/// track is queued again where bytes of it are left.
pub proof fn law_apply_counts(state: StandardState, event: NextEvent, next: StandardState)
    requires
        state.sound(Some(event.track_idx)),
        state.is_due(event),
        state.applied(event) == Ok::<_, AnalysisError>(next),
    ensures
        next.sound(None),
        next.tally.total_notes + notes_ahead(next.cursors) == state.tally.total_notes + notes_ahead(
            state.cursors,
        ),
        next.tally.total_cc_events + controls_ahead(next.cursors) == state.tally.total_cc_events
            + controls_ahead(state.cursors),
{
    let track = event.track_idx as int;
    let c = state.cursors[track];
    if c.has_data() {
        let r = c.left();
        law_event_is_the_message(c);
        let (track_event, after) = c.event().unwrap();
        lemma_advanced(after);
        let d = after.advanced().unwrap();
        let m = due_message(r, c.abs_tick, c.last_status);
        let ms = c.messages_left();
        assert(ms.skip(1) =~= d.messages_left());
        assert(ms[0] == m);
        lemma_ahead_update(state.cursors, track, d);
        assert forall|i: int| 0 <= i < next.cursors.len() implies ({
            let e = #[trigger] next.cursors[i];
            &&& e.sound()
            &&& e.has_data() ==> next.queue.count(
                NextEvent { tick: e.abs_tick, track_idx: i as usize },
            ) > 0
        }) by {
            if i != track {
                assert(next.cursors[i] == state.cursors[i]);
            }
        }
    } else {
        assert(state.sound(None));
    }
}

/// The state in which an event is applied: it was taken out of the queue, the
/// clock was moved to it, and the current window was closed or not.
pub open spec fn popped(a: StandardState, event: NextEvent, closed: bool) -> StandardState {
    StandardState {
        queue: a.queue.remove(event),
        last_time_tick: event.tick,
        tally: if closed {
            a.tally.window_closed()
        } else {
            a.tally
        },
        ..a
    }
}

/// Whether an analysis can go from state `a` to state `b` by one event: the
/// earliest queued event is taken out, the current window is closed or not,
/// and the event is applied.
pub open spec fn is_step(
    a: StandardState,
    b: StandardState,
    event: NextEvent,
    closed: bool,
) -> bool {
    &&& a.queue.contains(event)
    &&& forall|e: NextEvent| #[trigger] a.queue.contains(e) ==> event.tick <= e.tick
    &&& popped(a, event, closed).applied(event) == Ok::<_, AnalysisError>(b)
}

proof fn lemma_popped(a: StandardState, event: NextEvent, closed: bool)
    requires
        a.sound(None),
        a.queue_ok(),
        a.queue.contains(event),
    ensures
        popped(a, event, closed).sound(Some(event.track_idx)),
        popped(a, event, closed).is_due(event),
{
    let p = popped(a, event, closed);
    assert(a.queue.count(event) > 0);
    assert forall|i: int| 0 <= i < p.cursors.len() implies ({
        let c = #[trigger] p.cursors[i];
        &&& c.sound()
        &&& c.has_data() && Some(event.track_idx) != Some(i as usize) ==> p.queue.count(
            NextEvent { tick: c.abs_tick, track_idx: i as usize },
        ) > 0
    }) by {
        assert(a.cursors[i].sound());
    }
}

pub(crate) proof fn lemma_step(a: StandardState, b: StandardState, event: NextEvent, closed: bool)
    requires
        a.sound(None),
        a.queue_ok(),
        is_step(a, b, event, closed),
    ensures
        b.sound(None),
        b.queue_ok(),
        b.tally.total_notes + notes_ahead(b.cursors) == a.tally.total_notes + notes_ahead(
            a.cursors,
        ),
        b.tally.total_cc_events + controls_ahead(b.cursors) == a.tally.total_cc_events
            + controls_ahead(a.cursors),
{
    lemma_popped(a, event, closed);
    law_apply_counts(popped(a, event, closed), event, b);
    law_every_event_makes_progress(a, b, event, closed);
}

proof fn lemma_track_count(file: Seq<u8>, pos: nat)
    ensures
        track_offsets(file, pos).len() <= file.len(),
        pos <= file.len() ==> track_offsets(file, pos).len() <= file.len() - pos,
        pos > file.len() ==> track_offsets(file, pos).len() == 0,
    decreases
            (if pos < file.len() {
                file.len() - pos
            } else {
                0
            }),
{
    if pos < file.len() {
        if track_starts(file, pos as int) {
            lemma_track_count(file, pos + 8 + track_len(file, pos as int));
        } else {
            lemma_track_count(file, pos + 1);
        }
    }
}

pub(crate) proof fn lemma_start_track(file: Seq<u8>, i: int)
    requires
        is_whole_file(file),
        0 <= i < track_offsets(file, header_len()).len(),
    ensures
        ({
            let o = opened_track(file, i);
            &&& o.started() matches Some(c)
            &&& c.sound()
            &&& c.messages_left() == track_messages(file_tracks(file)[i])
            &&& c.has_data() ==> o.has_data()
        }),
{
    let offsets = track_offsets(file, header_len());
    let o = opened_track(file, i);
    let t = file.subrange(offsets[i].0 as int, offsets[i].1 as int);
    assert(offsets[i].0 <= offsets[i].1);
    law_opened_is_coherent(
        file,
        offsets[i].0 as nat,
        offsets[i].1 as nat,
        i as usize,
        max_buffer_size(offsets.len()) as int,
    );
    assert(o.left() == t);
    assert(o.abs_tick == 0 && o.last_status == 0);
    lemma_advanced(o);
    if o.has_data() {
        assert(o.started() == o.advanced());
    }
}

proof fn lemma_start_totals(cursors: Seq<CursorState>, tracks: Seq<Seq<u8>>)
    requires
        cursors.len() == tracks.len(),
        forall|i: int|
            0 <= i < cursors.len() ==> (#[trigger] cursors[i]).messages_left() == track_messages(
                tracks[i],
            ),
    ensures
        notes_ahead(cursors) == notes_in_tracks(tracks),
        controls_ahead(cursors) == controls_in_tracks(tracks),
    decreases cursors.len(),
{
    if cursors.len() > 0 {
        assert(cursors[0].messages_left() == track_messages(tracks[0]));
        assert forall|i: int| 0 <= i < cursors.skip(1).len() implies (#[trigger] cursors.skip(
            1,
        )[i]).messages_left() == track_messages(tracks.skip(1)[i]) by {
            assert(cursors.skip(1)[i] == cursors[i + 1]);
        }
        lemma_start_totals(cursors.skip(1), tracks.skip(1));
    }
}

/// The start of an analysis of a file with whole tracks: every track is sound
/// and queued, and all that the tracks hold is left to count.
pub proof fn law_start_has_all_ahead(file: Seq<u8>, state: StandardState)
    requires
        is_whole_file(file),
        is_start(file, state),
    ensures
        state.sound(None),
        state.queue_ok(),
        state.tally.total_notes == 0,
        state.tally.total_cc_events == 0,
        notes_ahead(state.cursors) == notes_in_tracks(file_tracks(file)),
        controls_ahead(state.cursors) == controls_in_tracks(file_tracks(file)),
{
    let tracks = file_tracks(file);
    lemma_track_count(file, header_len());
    assert forall|i: int| 0 <= i < state.cursors.len() implies ({
        let c = #[trigger] state.cursors[i];
        &&& c.sound()
        &&& c.has_data() ==> state.queue.count(
            NextEvent { tick: c.abs_tick, track_idx: i as usize },
        ) > 0
        &&& c.messages_left() == track_messages(tracks[i])
    }) by {
        lemma_start_track(file, i);
    }
    lemma_start_totals(state.cursors, tracks);
}

/// Whether an analysis can go from state `a` to state `b` by some event.
pub open spec fn can_follow(a: StandardState, b: StandardState) -> bool {
    exists|event: NextEvent, closed: bool| is_step(a, b, event, closed)
}

/// A run of an analysis: `states` follow each other by one event each.
pub open spec fn is_run(states: Seq<StandardState>) -> bool {
    forall|k: int|
        #![trigger states[k]]
        0 <= k < states.len() - 1 ==> can_follow(states[k], states[k + 1])
}

proof fn lemma_run(states: Seq<StandardState>, k: int)
    requires
        0 <= k < states.len(),
        is_run(states),
        states[0].sound(None),
        states[0].queue_ok(),
    ensures
        states[k].sound(None),
        states[k].queue_ok(),
        states[k].tally.total_notes + notes_ahead(states[k].cursors) == states[0].tally.total_notes
            + notes_ahead(states[0].cursors),
        states[k].tally.total_cc_events + controls_ahead(states[k].cursors)
            == states[0].tally.total_cc_events + controls_ahead(states[0].cursors),
    decreases k,
{
    if k > 0 {
        lemma_run(states, k - 1);
        let a = states[k - 1];
        let b = states[k];
        assert(can_follow(states[k - 1], states[k - 1 + 1]));
        let (event, closed) = choose|event: NextEvent, closed: bool| is_step(a, b, event, closed);
        lemma_step(a, b, event, closed);
    }
}

/// The analysis of a file with whole tracks never reads outside a buffer: not
/// when the tracks are opened, and not when an event of a run is applied.
pub proof fn law_whole_files_do_not_overrun(file: Seq<u8>, states: Seq<StandardState>)
    requires
        is_whole_file(file),
        states.len() > 0,
        is_start(file, states[0]),
        is_run(states),
    ensures
        forall|i: int|
            0 <= i < track_offsets(file, header_len()).len() ==> (#[trigger] opened_track(
                file,
                i,
            )).started() is Some,
        forall|event: NextEvent, closed: bool|
            states.last().queue.contains(event) ==> #[trigger] popped(
                states.last(),
                event,
                closed,
            ).applied(event) != Err::<StandardState, _>(AnalysisError::Overrun),
{
    assert forall|i: int| 0 <= i < track_offsets(file, header_len()).len() implies (
    #[trigger] opened_track(file, i)).started() is Some by {
        lemma_start_track(file, i);
    }
    let a = states.last();
    law_start_has_all_ahead(file, states[0]);
    lemma_run(states, states.len() - 1);
    assert forall|event: NextEvent, closed: bool| a.queue.contains(event) implies #[trigger] popped(
        a,
        event,
        closed,
    ).applied(event) != Err::<StandardState, _>(AnalysisError::Overrun) by {
        lemma_popped(a, event, closed);
        law_whole_tracks_do_not_overrun(popped(a, event, closed), event);
    }
}

/// When the analysis of a file with whole tracks has no events left, it has
/// counted every note and every controller event of the tracks, once.
pub proof fn law_every_note_is_counted(file: Seq<u8>, states: Seq<StandardState>)
    requires
        is_whole_file(file),
        states.len() > 0,
        is_start(file, states[0]),
        is_run(states),
        states.last().queue.len() == 0,
    ensures
        states.last().tally.total_notes == notes_in_tracks(file_tracks(file)),
        states.last().tally.total_cc_events == controls_in_tracks(file_tracks(file)),
{
    let end = states.last();
    law_start_has_all_ahead(file, states[0]);
    lemma_run(states, states.len() - 1);
    assert forall|i: int| 0 <= i < end.cursors.len() implies !(
    #[trigger] end.cursors[i]).has_data() && end.cursors[i].coherent() by {
        let c = end.cursors[i];
        assert(c.sound());
        let e = NextEvent { tick: c.abs_tick, track_idx: i as usize };
        if c.has_data() {
            assert(end.queue.count(e) > 0);
            assert(end.queue =~= end.queue.remove(e).insert(e));
        }
    }
    lemma_nothing_ahead(end.cursors);
}

} // verus!
