//! What the analysis of a file counts of what is played.

use crate::count_laws::{
    controls_in, controls_in_tracks, is_run, is_step, law_every_note_is_counted, notes_in,
    notes_in_tracks, popped,
};
use crate::event_queue::NextEvent;
use crate::heard_laws::{lemma_can_follow, lemma_song_skip};
use crate::merge_laws::{
    lemma_plays, lemma_plays_on, lemma_song_is_short, lemma_take_item, meaning, played, stands_at,
    taken,
};
use crate::message::{track_messages, Message};
use crate::song_laws::law_written_song_is_found;
use crate::standard::{is_start, StandardState};
use crate::tally::Tally;
use crate::tally_laws::{is_run_by, Move};
use crate::written::{
    count_in_song, count_until, is_song, is_writable, song_bytes, song_tracks, track_bytes, Item,
    Timed,
};
use crate::written_laws::{
    law_written_event_means_what_it_says, law_written_track_reads_back, message_of,
};
use vstd::prelude::*;

verus! {

/// How many of some events start a note.
pub open spec fn starts_among(items: Seq<Item>) -> int
    decreases items.len(),
{
    if items.len() == 0 {
        0
    } else {
        starts_among(items.drop_last()) + if items.last().starts() {
            1int
        } else {
            0
        }
    }
}

/// How many of some events are controller messages.
pub open spec fn controls_among(items: Seq<Item>) -> int
    decreases items.len(),
{
    if items.len() == 0 {
        0
    } else {
        controls_among(items.drop_last()) + if items.last().controls() {
            1int
        } else {
            0
        }
    }
}

/// How many notes sound after some events: one more for each that starts one,
/// one fewer for each that ends one while one sounds.
pub open spec fn notes_sounding(items: Seq<Item>) -> int
    decreases items.len(),
{
    if items.len() == 0 {
        0
    } else {
        let before = notes_sounding(items.drop_last());
        if items.last().starts() {
            before + 1
        } else if items.last().ends() && before > 0 {
            before - 1
        } else {
            before
        }
    }
}

/// The tempo in force after some events: the last that was set, or half a
/// second per quarter note.
pub open spec fn tempo_in_force(items: Seq<Item>) -> int
    decreases items.len(),
{
    if items.len() == 0 {
        500_000
    } else {
        match items.last().tempo() {
            Some(us) => us,
            None => tempo_in_force(items.drop_last()),
        }
    }
}

/// Whether the moves from `i` up to `j` lie in one window: none of them but the
/// first begins a new one.
pub open spec fn in_one_window(moves: Seq<Move>, i: int, j: int) -> bool {
    &&& 0 <= i <= j <= moves.len()
    &&& forall|m: int| i < m < j ==> !(#[trigger] moves[m]).closed
}

/// How many notes start from event `i` up to `j`.
pub open spec fn starts_from(items: Seq<Item>, i: int, j: int) -> int {
    starts_among(items.subrange(i, j))
}

proof fn lemma_starts_step(items: Seq<Item>, i: int, j: int)
    requires
        0 <= i <= j < items.len(),
    ensures
        starts_from(items, i, j + 1) == starts_from(items, i, j) + (if items[j].starts() {
            1int
        } else {
            0
        }),
        starts_from(items, i, i) == 0,
{
    assert(items.subrange(i, j + 1).drop_last() =~= items.subrange(i, j));
    assert(items.subrange(i, i) =~= Seq::empty());
}

proof fn lemma_starts_bound(items: Seq<Item>, i: int, j: int)
    requires
        0 <= i <= j <= items.len(),
    ensures
        0 <= starts_from(items, i, j) <= starts_among(items.take(j)),
    decreases j,
{
    if i == j {
        assert(items.subrange(i, j) =~= Seq::empty());
        lemma_starts_not_negative(items.take(j));
    } else {
        lemma_starts_step(items, i, j - 1);
        lemma_starts_bound(items, i, j - 1);
        assert(items.take(j).drop_last() =~= items.take(j - 1));
    }
}

proof fn lemma_starts_not_negative(items: Seq<Item>)
    ensures
        0 <= starts_among(items),
    decreases items.len(),
{
    if items.len() > 0 {
        lemma_starts_not_negative(items.drop_last());
    }
}

/// Whether a tally is what the first `k` events come to.
spec fn tallies(t: Tally, items: Seq<Item>, k: int) -> bool {
    let p = items.take(k);
    &&& t.total_notes == starts_among(p)
    &&& t.total_cc_events == controls_among(p)
    &&& t.current_tempo_us == tempo_in_force(p)
    &&& t.current_polyphony == notes_sounding(p)
    &&& 0 <= t.current_polyphony <= t.max_polyphony
    &&& forall|j: int|
        0 <= j <= k ==> notes_sounding(#[trigger] items.take(j)) <= t.max_polyphony
    &&& exists|j: int|
        0 <= j <= k && notes_sounding(#[trigger] items.take(j)) == t.max_polyphony
}

/// Whether the windows of a tally are those of the first `k` events, the open
/// one from event `from` on.
spec fn windows_are(t: Tally, items: Seq<Item>, moves: Seq<Move>, k: int, from: int) -> bool {
    let top = t.window_closed().max_nps as int;
    &&& in_one_window(moves, from, k)
    &&& t.notes_in_current_second == starts_from(items, from, k)
    &&& forall|i: int|
        in_one_window(moves, i, k) ==> #[trigger] starts_from(items, i, k)
            <= t.notes_in_current_second
    &&& forall|i: int, j: int|
        in_one_window(moves, i, j) && j <= k ==> #[trigger] starts_from(items, i, j) <= top
    &&& exists|i: int, j: int|
        in_one_window(moves, i, j) && j <= k && #[trigger] starts_from(items, i, j) == top
}

proof fn lemma_tallies_step(a: Tally, b: Tally, closed: bool, items: Seq<Item>, k: int)
    requires
        0 <= k < items.len(),
        tallies(a, items, k),
        ({
            let before = if closed {
                a.window_closed()
            } else {
                a
            };
            &&& !before.overflows(meaning(items[k]))
            &&& b == before.counted(meaning(items[k]))
        }),
        items[k].tempo() matches Some(us) ==> 0 <= us <= u64::MAX,
    ensures
        tallies(b, items, k + 1),
{
    let p = items.take(k);
    let q = items.take(k + 1);
    assert(q.drop_last() =~= p);
    assert(q.last() == items[k]);
    assert forall|j: int| 0 <= j <= k + 1 implies notes_sounding(#[trigger] items.take(j))
        <= b.max_polyphony by {
        if j <= k {
            assert(notes_sounding(items.take(j)) <= a.max_polyphony);
        }
    }
    if b.max_polyphony == a.max_polyphony {
        let j = choose|j: int|
            0 <= j <= k && notes_sounding(#[trigger] items.take(j)) == a.max_polyphony;
        assert(notes_sounding(items.take(j)) == b.max_polyphony);
    } else {
        assert(notes_sounding(items.take(k + 1)) == b.max_polyphony);
    }
}

proof fn lemma_windows_step(
    a: Tally,
    b: Tally,
    items: Seq<Item>,
    moves: Seq<Move>,
    k: int,
    from: int,
) -> (next: int)
    requires
        items.len() == moves.len(),
        0 <= k < items.len(),
        tallies(a, items, k),
        windows_are(a, items, moves, k, from),
        ({
            let before = if moves[k].closed {
                a.window_closed()
            } else {
                a
            };
            &&& !before.overflows(meaning(items[k]))
            &&& b == before.counted(meaning(items[k]))
        }),
    ensures
        windows_are(b, items, moves, k + 1, next),
{
    let old_top = a.window_closed().max_nps as int;
    let top = b.window_closed().max_nps as int;
    let x = if items[k].starts() {
        1int
    } else {
        0
    };
    let next = if moves[k].closed {
        k
    } else {
        from
    };
    lemma_starts_bound(items, from, k);
    lemma_starts_step(items, next, k);
    lemma_starts_step(items, k, k);
    assert(b.notes_in_current_second == starts_from(items, next, k + 1));
    assert(items.subrange(k + 1, k + 1) =~= Seq::empty());
    assert forall|i: int| in_one_window(moves, i, k + 1) implies #[trigger] starts_from(
        items,
        i,
        k + 1,
    ) <= b.notes_in_current_second by {
        if i <= k {
            lemma_starts_step(items, i, k);
            if moves[k].closed {
                assert(!(i < k < k + 1));
            } else {
                assert(in_one_window(moves, i, k));
                assert(starts_from(items, i, k) <= a.notes_in_current_second);
            }
        }
    }
    assert(top >= old_top);
    assert forall|i: int, j: int| in_one_window(moves, i, j) && j <= k + 1 implies
        #[trigger] starts_from(items, i, j) <= top by {
        if j <= k {
            assert(starts_from(items, i, j) <= old_top);
        } else {
            assert(starts_from(items, i, k + 1) <= b.notes_in_current_second);
        }
    }
    if top == old_top {
        let (i, j) = choose|i: int, j: int|
            in_one_window(moves, i, j) && j <= k && #[trigger] starts_from(items, i, j) == old_top;
        assert(starts_from(items, i, j) == top);
    } else {
        assert(in_one_window(moves, next, k + 1));
        assert(starts_from(items, next, k + 1) == top);
    }
    next
}

proof fn lemma_tempo_fits(item: Item)
    ensures
        item.tempo() matches Some(us) ==> 0 <= us <= u64::MAX,
{
}

proof fn lemma_play(
    format: u16,
    count: u16,
    division: u16,
    song: Seq<Seq<Timed>>,
    states: Seq<StandardState>,
    moves: Seq<Move>,
    k: int,
) -> (from: int)
    requires
        is_song(song),
        song_bytes(format, count, division, song).len() <= isize::MAX,
        is_start(song_bytes(format, count, division, song), states[0]),
        is_run_by(states, moves),
        0 <= k <= moves.len(),
    ensures
        tallies(states[k].tally, played(song, moves), k),
        windows_are(states[k].tally, played(song, moves), moves, k, from),
    decreases k,
{
    let items = played(song, moves);
    if k == 0 {
        assert(items.take(0) =~= Seq::empty());
        assert(notes_sounding(items.take(0)) == 0);
        assert(items.subrange(0, 0) =~= Seq::empty());
        assert(in_one_window(moves, 0, 0));
        assert(starts_from(items, 0, 0) == 0);
        0
    } else {
        let from = lemma_play(format, count, division, song, states, moves, k - 1);
        let (a, b) = (states[k - 1], states[k]);
        let last = moves[k - 1];
        lemma_plays(format, count, division, song, states, moves, k - 1);
        assert(is_step(states[k - 1], states[k - 1 + 1], last.event, last.closed));
        lemma_plays_on(song, a, b, moves, k - 1);
        lemma_tempo_fits(items[k - 1]);
        lemma_tallies_step(a.tally, b.tally, last.closed, items, k - 1);
        lemma_windows_step(a.tally, b.tally, items, moves, k - 1, from)
    }
}

/// The result of the analysis of the file of a written song, as far as it was
/// played. The notes are the events played that start one, the controller
/// events those that are one. The largest polyphony is the most notes that
/// sounded at a time: a note-off message, whatever its data, and a note-on
/// message of velocity zero end a note. No stretch of one window has more notes
/// than the largest number of notes per second, and one has so many. The tempo
/// in force is always the last that was set.
pub proof fn law_the_result_is_what_was_played(
    format: u16,
    count: u16,
    division: u16,
    song: Seq<Seq<Timed>>,
    states: Seq<StandardState>,
    moves: Seq<Move>,
)
    requires
        is_song(song),
        song_bytes(format, count, division, song).len() <= isize::MAX,
        is_start(song_bytes(format, count, division, song), states[0]),
        is_run_by(states, moves),
    ensures
        ({
            let items = played(song, moves);
            let stats = states.last().result(division);
            &&& stats.ppqn == division
            &&& stats.tracks_count == song.len()
            &&& stats.total_notes == starts_among(items)
            &&& stats.total_cc_events == controls_among(items)
            &&& forall|j: int|
                0 <= j <= items.len() ==> notes_sounding(#[trigger] items.take(j))
                    <= stats.max_polyphony
            &&& exists|j: int|
                0 <= j <= items.len() && notes_sounding(#[trigger] items.take(j))
                    == stats.max_polyphony
            &&& forall|i: int, j: int|
                in_one_window(moves, i, j) ==> #[trigger] starts_from(items, i, j)
                    <= stats.max_nps
            &&& exists|i: int, j: int|
                in_one_window(moves, i, j) && #[trigger] starts_from(items, i, j)
                    == stats.max_nps
            &&& forall|k: int|
                0 <= k <= moves.len() ==> (#[trigger] states[k]).tally.current_tempo_us
                    == tempo_in_force(items.take(k))
        }),
{
    let items = played(song, moves);
    let n = moves.len() as int;
    let from = lemma_play(format, count, division, song, states, moves, n);
    lemma_plays(format, count, division, song, states, moves, n);
    assert(items.take(n) =~= items);
    assert forall|k: int| 0 <= k <= moves.len() implies (
    #[trigger] states[k]).tally.current_tempo_us == tempo_in_force(items.take(k)) by {
        let _ = lemma_play(format, count, division, song, states, moves, k);
    }
    lemma_song_is_short(format, count, division, song);
}

/// The analysis of the file of a written song goes on as long as events are
/// left: whichever of the earliest is taken, it can be applied, unless a count
/// is already the largest that its type holds.
pub proof fn law_the_song_plays_on(
    format: u16,
    count: u16,
    division: u16,
    song: Seq<Seq<Timed>>,
    states: Seq<StandardState>,
    moves: Seq<Move>,
    event: NextEvent,
    closed: bool,
)
    requires
        is_song(song),
        song_bytes(format, count, division, song).len() <= isize::MAX,
        is_start(song_bytes(format, count, division, song), states[0]),
        is_run_by(states, moves),
        states.last().queue.contains(event),
        notes_sounding(played(song, moves)) < 0x7FFF_FFFF,
        starts_among(played(song, moves)) < 0xFFFF_FFFF_FFFF_FFFF,
        controls_among(played(song, moves)) < 0xFFFF_FFFF_FFFF_FFFF,
    ensures
        popped(states.last(), event, closed).applied(event) is Ok,
{
    let items = played(song, moves);
    let n = moves.len() as int;
    let end = states.last();
    let t = event.track_idx as int;
    let _ = lemma_play(format, count, division, song, states, moves, n);
    lemma_plays(format, count, division, song, states, moves, n);
    assert(items.take(n) =~= items);
    assert(end.queue.count(event) > 0);
    assert(stands_at(end.cursors[t], song[t], taken(moves, n, t) as int));
    assert(is_writable(song[t], 0));
    lemma_take_item(end.cursors[t], song[t], taken(moves, n, t) as int);
}

proof fn lemma_notes_push(ms: Seq<Message>, m: Message)
    ensures
        notes_in(ms.push(m)) == notes_in(ms) + notes_in(seq![m]),
        controls_in(ms.push(m)) == controls_in(ms) + controls_in(seq![m]),
    decreases ms.len(),
{
    let longer = ms.push(m);
    if ms.len() == 0 {
        assert(longer =~= seq![m]);
    } else {
        assert(longer.skip(1) =~= ms.skip(1).push(m));
        lemma_notes_push(ms.skip(1), m);
    }
}

spec fn starts_at() -> spec_fn(int, Item) -> bool {
    |tick: int, item: Item| item.starts()
}

spec fn controls_at() -> spec_fn(int, Item) -> bool {
    |tick: int, item: Item| item.controls()
}

proof fn lemma_notes_until(ts: Seq<Timed>, k: int)
    requires
        is_writable(ts, 0),
        0 <= k <= ts.len(),
    ensures
        notes_in(track_messages(track_bytes(ts)).take(k)) == count_until(ts, starts_at(), k),
        controls_in(track_messages(track_bytes(ts)).take(k)) == count_until(ts, controls_at(), k),
    decreases k,
{
    let ms = track_messages(track_bytes(ts));
    law_written_track_reads_back(ts);
    if k == 0 {
        assert(ms.take(0) =~= Seq::empty());
    } else {
        let m = ms[k - 1];
        lemma_notes_until(ts, k - 1);
        let before = lemma_can_follow(ts, 0, k - 1);
        law_written_event_means_what_it_says(ts[k - 1], before, m.tick);
        assert(m == message_of(ts[k - 1], m.tick));
        assert(ms.take(k) =~= ms.take(k - 1).push(m));
        lemma_notes_push(ms.take(k - 1), m);
        reveal_with_fuel(notes_in, 2);
        reveal_with_fuel(controls_in, 2);
        assert(seq![m].skip(1) =~= Seq::empty());
    }
}

proof fn lemma_notes_in_song(song: Seq<Seq<Timed>>)
    requires
        is_song(song),
    ensures
        notes_in_tracks(song_tracks(song)) == count_in_song(song, starts_at()),
        controls_in_tracks(song_tracks(song)) == count_in_song(song, controls_at()),
    decreases song.len(),
{
    if song.len() > 0 {
        let ts = song[0];
        let ms = track_messages(track_bytes(ts));
        assert(is_writable(song[0], 0));
        lemma_song_skip(song);
        lemma_notes_in_song(song.skip(1));
        lemma_notes_until(ts, ts.len() as int);
        law_written_track_reads_back(ts);
        assert(ms.take(ts.len() as int) =~= ms);
        assert(song_tracks(song)[0] == track_bytes(ts));
    }
}

/// When no events are left, the analysis of the file of a written song has
/// counted all notes and all controller events of the song: on every channel,
/// at every time, and whatever the data of the controller messages.
pub proof fn law_the_whole_song_is_counted(
    format: u16,
    count: u16,
    division: u16,
    song: Seq<Seq<Timed>>,
    states: Seq<StandardState>,
)
    requires
        is_song(song),
        song_bytes(format, count, division, song).len() <= isize::MAX,
        states.len() > 0,
        is_start(song_bytes(format, count, division, song), states[0]),
        is_run(states),
        states.last().queue.len() == 0,
    ensures
        ({
            let stats = states.last().result(division);
            &&& stats.total_notes == count_in_song(song, |tick: int, item: Item| item.starts())
            &&& stats.total_cc_events == count_in_song(
                song,
                |tick: int, item: Item| item.controls(),
            )
        }),
{
    let file = song_bytes(format, count, division, song);
    law_written_song_is_found(format, count, division, song);
    law_every_note_is_counted(file, states);
    lemma_notes_in_song(song);
    assert(starts_at() =~= |tick: int, item: Item| item.starts());
    assert(controls_at() =~= |tick: int, item: Item| item.controls());
}

} // verus!
