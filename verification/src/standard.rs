//! Analysis of an uncompressed file: all tracks are merged into one sequence of
//! events, in the order in which they happen.

use crate::buffered_cursor::{opened, read_varint_buffered, BufferedTrackCursor, CursorState};
use crate::byte_source::ReadError;
use crate::event_queue::{EventQueue, NextEvent};
use crate::message::saturating_ticks;
use crate::tally::Tally;
use crate::track_event::read_event;
use crate::varint::{base128, big_endian, quantity_value, read_u16_be, read_u32_be};
use vstd::multiset::Multiset;
use vstd::prelude::*;

verus! {

/// Why a file could not be analysed.
#[derive(Debug)]
pub enum AnalysisError {
    /// Bytes that must be there could not be read.
    Read(ReadError),
    /// The file does not start with the tag `MThd`.
    MissingHeader,
    /// A track claims bytes so far past its end, or past the end of the file,
    /// that they do not lie in its buffer.
    Overrun,
    /// A count became too large for its type.
    Overflow,
}

/// The tag `MThd`, which starts a file.
pub open spec fn header_tag() -> Seq<u8> {
    seq![0x4D, 0x54, 0x68, 0x64]
}

/// The tag `MTrk`, which starts a track.
pub open spec fn track_tag() -> Seq<u8> {
    seq![0x4D, 0x54, 0x72, 0x6B]
}

/// The length of the header of a file.
pub open spec fn header_len() -> nat {
    14
}

/// The number of ticks per quarter note that a header gives.
pub open spec fn division_of(file: Seq<u8>) -> u16 {
    big_endian(file.subrange(12, 14)) as u16
}

/// Checks the header of a file and returns the number of ticks per quarter
/// note that it gives.
pub fn parse_header(file: &[u8]) -> (res: Result<u16, AnalysisError>)
    ensures
        res == (if file@.len() < header_len() {
            Err(AnalysisError::Read(ReadError::UnexpectedEnd))
        } else if file@.take(4) != header_tag() {
            Err(AnalysisError::MissingHeader)
        } else {
            Ok(division_of(file@))
        }),
        file@.len() < 14 <==> res matches Err(AnalysisError::Read(ReadError::UnexpectedEnd)),
        res is Ok <==> file@.len() >= 14 && file@[0] == 77 && file@[1] == 84 && file@[2] == 104
            && file@[3] == 100,
        res matches Ok(division) ==> division == file@[12] * 256 + file@[13],
{
    if file.len() < 14 {
        return Err(AnalysisError::Read(ReadError::UnexpectedEnd));
    }
    if !(file[0] == 0x4D && file[1] == 0x54 && file[2] == 0x68 && file[3] == 0x64) {
        proof {
            if file@.take(4) == header_tag() {
                assert(file@.take(4)[0] == 0x4D && file@.take(4)[1] == 0x54 && file@.take(4)[2]
                    == 0x68 && file@.take(4)[3] == 0x64);
            }
        }
        return Err(AnalysisError::MissingHeader);
    }
    assert(file@.take(4) =~= header_tag());
    assert(file@.subrange(12, 14) =~= seq![file@[12], file@[13]]);
    Ok(read_u16_be(file[12], file[13]))
}

/// Whether a track starts at `pos`: the tag and a length are there.
pub open spec fn track_starts(file: Seq<u8>, pos: int) -> bool {
    pos + 8 <= file.len() && file.subrange(pos, pos + 4) == track_tag()
}

/// The length that the track at `pos` claims.
pub open spec fn track_len(file: Seq<u8>, pos: int) -> nat {
    big_endian(file.subrange(pos + 4, pos + 8))
}

/// Where the tracks found from `pos` on start and end. Behind a track the
/// search goes on at its end, and elsewhere at the next byte; the last track
/// may end behind the file.
pub open spec fn track_offsets(file: Seq<u8>, pos: nat) -> Seq<(u64, u64)>
    decreases
            (if pos < file.len() {
                file.len() - pos
            } else {
                0
            }),
{
    if pos >= file.len() {
        Seq::empty()
    } else if track_starts(file, pos as int) {
        let start = pos + 8;
        let end = start + track_len(file, pos as int);
        seq![(start as u64, end as u64)] + track_offsets(file, end)
    } else {
        track_offsets(file, pos + 1)
    }
}

/// Finds the tracks of a file: the positions behind the header where each
/// track's data starts and ends.
pub fn find_tracks(file: &[u8]) -> (tracks: Vec<(u64, u64)>)
    requires
        file@.len() <= isize::MAX,
    ensures
        tracks@ == track_offsets(file@, header_len()),
        forall|i: int|
            0 <= i < tracks@.len() ==> {
                &&& #[trigger] tracks@[i].0 <= tracks@[i].1
                &&& tracks@[i].1 - tracks@[i].0 <= u32::MAX
                &&& tracks@[i].1 <= file@.len() + u32::MAX
            },
{
    let mut tracks: Vec<(u64, u64)> = Vec::new();
    let file_len: u64 = file.len() as u64;
    let mut pos: u64 = 14;
    while pos < file_len
        invariant
            file_len == file@.len() <= isize::MAX,
            pos <= file_len + u32::MAX + 14,
            tracks@ + track_offsets(file@, pos as nat) == track_offsets(file@, header_len()),
            forall|i: int|
                0 <= i < tracks@.len() ==> {
                    &&& #[trigger] tracks@[i].0 <= tracks@[i].1
                    &&& tracks@[i].1 - tracks@[i].0 <= u32::MAX
                    &&& tracks@[i].1 <= file@.len() + u32::MAX
                },
        decreases file_len + u32::MAX + 14 - pos,
    {
        if pos + 8 <= file_len {
            let p: usize = pos as usize;
            if file[p] == 0x4D && file[p + 1] == 0x54 && file[p + 2] == 0x72 && file[p + 3]
                == 0x6B {
                let len: u64 = read_u32_be(file[p + 4], file[p + 5], file[p + 6], file[p + 7])
                    as u64;
                proof {
                    assert(file@.subrange(pos as int, pos + 4) =~= track_tag());
                    assert(file@.subrange(pos + 4, pos + 8) =~= seq![
                        file@[pos + 4],
                        file@[pos + 5],
                        file@[pos + 6],
                        file@[pos + 7],
                    ]);
                    assert(tracks@.push(((pos + 8) as u64, (pos + 8 + len) as u64)) + track_offsets(
                        file@,
                        (pos + 8 + len) as nat,
                    ) =~= tracks@ + track_offsets(file@, pos as nat));
                }
                tracks.push((pos + 8, pos + 8 + len));
                pos = pos + 8 + len;
                continue;
            }
            proof {
                if track_starts(file@, pos as int) {
                    let tag = file@.subrange(pos as int, pos + 4);
                    assert(tag[0] == 0x4D && tag[1] == 0x54 && tag[2] == 0x72 && tag[3] == 0x6B);
                }
            }
        }
        pos += 1;
    }
    assert(tracks@ + track_offsets(file@, pos as nat) =~= tracks@);
    tracks
}

/// The largest buffer that a track gets when a file has so many tracks.
pub open spec fn max_buffer_size(tracks_count: nat) -> nat {
    if tracks_count <= 4096 {
        0x10_0000
    } else if 0x8000_0000nat / tracks_count < 0x1_0000 {
        0x1_0000
    } else {
        0x8000_0000nat / tracks_count
    }
}

/// Tells the largest buffer that a track gets: one mebibyte, or for many
/// tracks an equal share of two gibibytes, but at least 64 kibibytes.
pub fn max_track_buffer_size(tracks_count: usize) -> (size: usize)
    ensures
        size == max_buffer_size(tracks_count as nat),
        0x1_0000 <= size <= 0x10_0000,
{
    if tracks_count > 4096 {
        let share: usize = 0x8000_0000 / tracks_count;
        assert(share <= 0x8_0000) by (nonlinear_arith)
            requires
                share == 0x8000_0000usize / tracks_count,
                tracks_count > 4096,
        ;
        if share < 0x1_0000 {
            0x1_0000
        } else {
            share
        }
    } else {
        0x10_0000
    }
}

/// The result of an analysis, as far as it is made of whole numbers.
#[derive(Clone, Copy, PartialEq, Eq, Structural, Debug)]
pub struct MidiStats {
    /// Ticks per quarter note.
    pub ppqn: u16,
    pub tracks_count: usize,
    pub total_notes: u64,
    pub max_polyphony: i32,
    /// The most notes that started in one second.
    pub max_nps: u64,
    pub total_cc_events: u64,
}

/// An event whose time has come.
#[derive(Clone, Copy, PartialEq, Eq, Structural, Debug)]
pub struct DueEvent {
    pub event: NextEvent,
    /// The ticks since the event before it.
    pub delta_ticks: u32,
    /// The tempo during these ticks, in microseconds per quarter note.
    pub tempo_us: u64,
}

impl CursorState {
    /// The state after the first delta time of the track was read; `None`
    /// where one of its bytes cannot be read. A track without bytes has none.
    pub open spec fn started(self) -> Option<CursorState> {
        if self.has_data() {
            match self.quantity() {
                Some((bytes, after)) => Some(
                    CursorState { abs_tick: quantity_value(bytes), ..after },
                ),
                None => None,
            }
        } else {
            Some(self)
        }
    }

    /// The state after the delta time of the next event was read.
    pub open spec fn advanced(self) -> Option<CursorState> {
        if self.has_data() {
            match self.quantity() {
                Some((bytes, after)) => Some(
                    CursorState {
                        abs_tick: saturating_ticks(self.abs_tick, quantity_value(bytes)),
                        ..after
                    },
                ),
                None => None,
            }
        } else {
            Some(self)
        }
    }
}

/// Reads the delta time of the next event of a track and moves its tick on.
/// Returns whether there was one, or `None` where one of its bytes cannot be
/// read.
fn advance_track(c: &mut BufferedTrackCursor) -> (res: Option<bool>)
    requires
        old(c).wf(),
    ensures
        match old(c)@.advanced() {
            Some(next) => {
                &&& res == Some(old(c)@.has_data())
                &&& final(c)@ == next
                &&& final(c).wf()
                &&& final(c).track_idx == old(c).track_idx
                &&& final(c).abs_tick >= old(c).abs_tick
                &&& old(c)@.has_data() ==> {
                    let delta = base128(old(c)@.quantity().unwrap().0) as int % 0x1_0000_0000;
                    if old(c).abs_tick + delta <= 0xFFFF_FFFF {
                        final(c).abs_tick == old(c).abs_tick + delta
                    } else {
                        final(c).abs_tick == 0xFFFF_FFFF
                    }
                }
            },
            None => res is None,
        },
{
    if !c.has_data() {
        return Some(false);
    }
    let next_delta = match read_varint_buffered(c) {
        Some(next_delta) => next_delta,
        None => {
            return None;
        },
    };
    c.abs_tick = c.abs_tick.saturating_add(next_delta);
    Some(true)
}

/// What an analysis holds, as mathematical values.
#[verifier::ext_equal]
pub struct StandardState {
    pub cursors: Seq<CursorState>,
    pub queue: Multiset<NextEvent>,
    pub tally: Tally,
    pub last_time_tick: u32,
}

impl StandardState {
    /// Whether `event` is the event that its track waits for.
    pub open spec fn is_current(self, event: NextEvent) -> bool {
        &&& event.track_idx < self.cursors.len()
        &&& event.tick == self.cursors[event.track_idx as int].abs_tick
        &&& event.tick >= self.last_time_tick
    }

    /// Each queued event is the one that its track waits for, and is queued
    /// once.
    pub open spec fn queue_ok(self) -> bool {
        forall|e: NextEvent| #[trigger]
            self.queue.count(e) > 0 ==> self.is_current(e) && self.queue.count(e) == 1
    }

    /// What the analysis has come to, when its file has so many ticks per quarter
    /// note: the last window counts too.
    pub open spec fn result(self, division: u16) -> MidiStats {
        MidiStats {
            ppqn: division,
            tracks_count: self.cursors.len() as usize,
            total_notes: self.tally.total_notes,
            max_polyphony: self.tally.max_polyphony,
            max_nps: self.tally.window_closed().max_nps,
            total_cc_events: self.tally.total_cc_events,
        }
    }

    /// Whether `event` was taken out of the queue and waits to be applied.
    pub open spec fn is_due(self, event: NextEvent) -> bool {
        self.is_current(event) && self.queue.count(event) == 0
    }

    /// The state after the event at the cursor of a due event's track: the
    /// event is read and counted, and where bytes of the track are left, its
    /// next event is queued. A track without bytes left has no event there.
    pub open spec fn applied(self, event: NextEvent) -> Result<StandardState, AnalysisError> {
        let track = event.track_idx as int;
        let cursor = self.cursors[track];
        if !cursor.has_data() {
            Ok(self)
        } else {
            match cursor.event() {
                None => Err(AnalysisError::Overrun),
                Some((track_event, after)) => if self.tally.overflows(track_event) {
                    Err(AnalysisError::Overflow)
                } else {
                    match after.advanced() {
                        None => Err(AnalysisError::Overrun),
                        Some(next) => Ok(
                            StandardState {
                                cursors: self.cursors.update(track, next),
                                queue: if after.has_data() {
                                    self.queue.insert(
                                        NextEvent {
                                            tick: next.abs_tick,
                                            track_idx: event.track_idx,
                                        },
                                    )
                                } else {
                                    self.queue
                                },
                                tally: self.tally.counted(track_event),
                                ..self
                            },
                        ),
                    }
                },
            }
        }
    }
}

/// The queue stays in order when a track's event is taken out and, if the
/// track has another event, that one is put in.
pub(crate) proof fn lemma_queue_stays_ok(a: StandardState, b: StandardState, event: NextEvent)
    requires
        a.queue_ok(),
        a.is_current(event),
        b.cursors.len() == a.cursors.len(),
        forall|i: int|
            0 <= i < a.cursors.len() && i != event.track_idx ==> #[trigger] b.cursors[i]
                == a.cursors[i],
        forall|e: NextEvent| #[trigger] a.queue.contains(e) ==> b.last_time_tick <= e.tick,
        ({
            let tick = b.cursors[event.track_idx as int].abs_tick;
            ||| b.queue == a.queue.remove(event)
            ||| b.last_time_tick <= tick && b.queue == a.queue.remove(event).insert(
                NextEvent { tick, track_idx: event.track_idx },
            )
        }),
    ensures
        b.queue_ok(),
{
    assert forall|e: NextEvent| #[trigger] b.queue.count(e) > 0 implies b.is_current(e)
        && b.queue.count(e) == 1 by {
        if e.track_idx != event.track_idx {
            assert(a.queue.count(e) > 0);
            assert(a.queue.contains(e));
        } else if a.queue.count(e) > 0 {
            assert(e == event);
        }
    }
}

/// The cursor with which an analysis opens the track `i` of a file.
pub open spec fn opened_track(file: Seq<u8>, i: int) -> CursorState {
    let tracks = track_offsets(file, header_len());
    opened(
        file,
        tracks[i].0 as nat,
        tracks[i].1 as nat,
        i as usize,
        max_buffer_size(tracks.len()) as int,
    )
}

/// The state in which the analysis of a file starts, when every first delta
/// time could be read: each track has had its first delta time read, and every
/// track with bytes is queued.
pub open spec fn is_start(file: Seq<u8>, state: StandardState) -> bool {
    let count = track_offsets(file, header_len()).len();
    &&& state.cursors == Seq::new(count, |i: int| opened_track(file, i).started().unwrap())
    &&& forall|e: NextEvent| #[trigger]
        state.queue.count(e) == (if e.track_idx < count && opened_track(
            file,
            e.track_idx as int,
        ).has_data() && e.tick == state.cursors[e.track_idx as int].abs_tick {
            1nat
        } else {
            0
        })
    &&& state.tally == Tally::start()
    &&& state.last_time_tick == 0
}

/// The analysis of one uncompressed file.
///
/// `pop_event` says which event comes next and how much time passes until it;
/// the caller keeps the time and closes a window with `close_window` when a
/// second is over; `apply_event` then reads and counts the event.
pub struct StandardAnalysis<'a> {
    pub division: u16,
    pub cursors: Vec<BufferedTrackCursor<'a>>,
    pub queue: EventQueue,
    pub tally: Tally,
    pub last_time_tick: u32,
}

impl<'a> View for StandardAnalysis<'a> {
    type V = StandardState;

    open spec fn view(&self) -> StandardState {
        StandardState {
            cursors: Seq::new(self.cursors@.len(), |i: int| self.cursors@[i]@),
            queue: self.queue@,
            tally: self.tally,
            last_time_tick: self.last_time_tick,
        }
    }
}

impl<'a> StandardAnalysis<'a> {
    /// Every part is well-formed, the cursors know their tracks, and the queue
    /// holds the events that the tracks wait for.
    pub open spec fn wf(&self) -> bool {
        &&& forall|i: int|
            0 <= i < self.cursors@.len() ==> (#[trigger] self.cursors@[i]).wf()
                && self.cursors@[i].track_idx == i
        &&& self.queue.wf()
        &&& self.tally.wf()
        &&& self@.queue_ok()
    }

    /// Opens a file: checks its header, finds its tracks, and reads the first
    /// delta time of each.
    pub fn new(file: &'a [u8]) -> (res: Result<Self, AnalysisError>)
        requires
            file@.len() <= isize::MAX,
        ensures
            file@.len() < header_len() ==> res == Err::<Self, _>(
                AnalysisError::Read(ReadError::UnexpectedEnd),
            ),
            file@.len() >= header_len() && file@.take(4) != header_tag() ==> res == Err::<Self, _>(
                AnalysisError::MissingHeader,
            ),
            file@.len() >= header_len() && file@.take(4) == header_tag() ==> {
                let count = track_offsets(file@, header_len()).len();
                if exists|i: int|
                    0 <= i < count && (#[trigger] opened_track(file@, i)).started() is None {
                    res == Err::<Self, _>(AnalysisError::Overrun)
                } else {
                    &&& res matches Ok(analysis)
                    &&& analysis.wf()
                    &&& analysis.division == division_of(file@)
                    &&& is_start(file@, analysis@)
                }
            },
    {
        let division = parse_header(file)?;
        let tracks = find_tracks(file);
        let tracks_count = tracks.len();
        let max_size = max_track_buffer_size(tracks_count);
        let mut cursors: Vec<BufferedTrackCursor<'a>> = Vec::with_capacity(tracks_count);
        let mut queue = EventQueue::with_capacity(tracks_count);
        let mut idx: usize = 0;
        while idx < tracks_count
            invariant
                header_len() <= file@.len() <= isize::MAX,
                file@.take(4) == header_tag(),
                idx <= tracks_count == tracks@.len(),
                tracks@ == track_offsets(file@, header_len()),
                max_size == max_buffer_size(tracks_count as nat),
                max_size <= 0x10_0000,
                forall|i: int|
                    0 <= i < tracks@.len() ==> {
                        &&& #[trigger] tracks@[i].0 <= tracks@[i].1
                        &&& tracks@[i].1 - tracks@[i].0 <= u32::MAX
                        &&& tracks@[i].1 <= file@.len() + u32::MAX
                    },
                cursors@.len() == idx,
                queue.wf(),
                forall|i: int|
                    0 <= i < idx ==> {
                        &&& (#[trigger] cursors@[i]).wf()
                        &&& cursors@[i].track_idx == i
                        &&& opened_track(file@, i).started() == Some(cursors@[i]@)
                    },
                forall|e: NextEvent| #[trigger]
                    queue@.count(e) == (if e.track_idx < idx && opened_track(
                        file@,
                        e.track_idx as int,
                    ).has_data() && e.tick == cursors@[e.track_idx as int].abs_tick {
                        1nat
                    } else {
                        0
                    }),
            decreases tracks_count - idx,
        {
            let (start, end) = tracks[idx];
            let mut cursor = BufferedTrackCursor::new(file, start, end, idx, max_size);
            assert(cursor@ == opened_track(file@, idx as int));
            let ghost before = cursors@;
            if cursor.has_data() {
                let delta = match read_varint_buffered(&mut cursor) {
                    Some(delta) => delta,
                    None => {
                        assert(opened_track(file@, idx as int).started() is None);
                        return Err(AnalysisError::Overrun);
                    },
                };
                cursor.abs_tick = delta;
                queue.push(NextEvent { tick: delta, track_idx: idx });
            }
            cursors.push(cursor);
            assert(forall|i: int| 0 <= i < idx ==> cursors@[i] == before[i]);
            idx += 1;
        }
        proof {
            assert forall|i: int| 0 <= i < tracks_count implies (#[trigger] opened_track(
                file@,
                i,
            )).started() is Some by {
                assert(cursors@[i].wf());
            }
        }
        let analysis = StandardAnalysis {
            division,
            cursors,
            queue,
            tally: Tally::new(),
            last_time_tick: 0,
        };
        assert(analysis@.cursors =~= Seq::new(
            tracks_count as nat,
            |i: int| opened_track(file@, i).started().unwrap(),
        ));
        Ok(analysis)
    }

    /// Takes the earliest event out of the queue and moves the clock to it;
    /// `None` where no events are left. Events come out in the order in which
    /// they happen.
    pub fn pop_event(&mut self) -> (res: Option<DueEvent>)
        requires
            old(self).wf(),
        ensures
            final(self).wf(),
            final(self).division == old(self).division,
            res is None <==> old(self)@.queue.len() == 0,
            res is None ==> final(self)@ == old(self)@,
            res matches Some(due) ==> {
                &&& old(self)@.queue.contains(due.event)
                &&& forall|e: NextEvent| #[trigger]
                    old(self)@.queue.contains(e) ==> due.event.tick <= e.tick
                &&& old(self)@.last_time_tick <= due.event.tick
                &&& due.delta_ticks == due.event.tick - old(self)@.last_time_tick
                &&& due.tempo_us == old(self)@.tally.current_tempo_us
                &&& final(self)@ == (StandardState {
                    queue: old(self)@.queue.remove(due.event),
                    last_time_tick: due.event.tick,
                    ..old(self)@
                })
                &&& final(self)@.is_due(due.event)
            },
    {
        let event = match self.queue.pop() {
            Some(event) => event,
            None => {
                return None;
            },
        };
        assert(old(self)@.queue.count(event) > 0);
        let delta_ticks: u32 = event.tick - self.last_time_tick;
        self.last_time_tick = event.tick;
        proof {
            lemma_queue_stays_ok(old(self)@, self@, event);
        }
        Some(DueEvent { event, delta_ticks, tempo_us: self.tally.current_tempo_us })
    }

    /// Closes the current one-second window and begins a new one.
    pub fn close_window(&mut self)
        requires
            old(self).wf(),
        ensures
            final(self).wf(),
            final(self).division == old(self).division,
            final(self)@ == (StandardState {
                tally: old(self)@.tally.window_closed(),
                ..old(self)@
            }),
    {
        self.tally.close_window();
        assert(self@.queue_ok()) by {
            assert(forall|e: NextEvent|
                self@.queue.count(e) > 0 ==> old(self)@.queue.count(e) > 0);
        }
    }

    /// Reads and counts a due event, and queues the next one of its track.
    pub fn apply_event(&mut self, event: NextEvent) -> (res: Result<(), AnalysisError>)
        requires
            old(self).wf(),
            old(self)@.is_due(event),
        ensures
            final(self).division == old(self).division,
            match old(self)@.applied(event) {
                Ok(state) => res is Ok && final(self).wf() && final(self)@ == state,
                Err(error) => res == Err::<(), _>(error),
            },
    {
        let idx = event.track_idx;
        if !self.cursors[idx].has_data() {
            return Ok(());
        }
        let track_event = match read_event(&mut self.cursors[idx]) {
            Some(track_event) => track_event,
            None => {
                return Err(AnalysisError::Overrun);
            },
        };
        if !self.tally.count(track_event) {
            return Err(AnalysisError::Overflow);
        }
        let more = match advance_track(&mut self.cursors[idx]) {
            Some(more) => more,
            None => {
                return Err(AnalysisError::Overrun);
            },
        };
        if more {
            let tick = self.cursors[idx].abs_tick;
            self.queue.push(NextEvent { tick, track_idx: idx });
        }
        proof {
            let (_, after) = old(self)@.cursors[idx as int].event().unwrap();
            let next = after.advanced().unwrap();
            assert(self@.cursors =~= old(self)@.cursors.update(idx as int, next));
            assert(old(self)@.queue =~= old(self)@.queue.remove(event));
            assert forall|e: NextEvent| #[trigger] old(self)@.queue.contains(
                e,
            ) implies self@.last_time_tick <= e.tick by {
                assert(old(self)@.queue.count(e) > 0);
            }
            lemma_queue_stays_ok(old(self)@, self@, event);
        }
        Ok(())
    }

    /// Closes the last window and returns the counts.
    pub fn finish(self) -> (stats: MidiStats)
        requires
            self.wf(),
        ensures
            stats == self@.result(self.division),
            stats.ppqn == self.division && stats.tracks_count == self.cursors@.len(),
            stats.total_notes == self.tally.total_notes,
            stats.total_cc_events == self.tally.total_cc_events,
            stats.max_polyphony == self.tally.max_polyphony,
            stats.max_nps >= self.tally.max_nps && stats.max_nps
                >= self.tally.notes_in_current_second,
            stats.max_nps == self.tally.max_nps || stats.max_nps
                == self.tally.notes_in_current_second,
            stats.max_polyphony <= stats.total_notes && stats.max_nps <= stats.total_notes,
            stats.total_notes > 0 ==> stats.max_polyphony > 0 && stats.max_nps > 0,
    {
        let mut tally = self.tally;
        tally.close_window();
        MidiStats {
            ppqn: self.division,
            tracks_count: self.cursors.len(),
            total_notes: tally.total_notes,
            max_polyphony: tally.max_polyphony,
            max_nps: tally.max_nps,
            total_cc_events: tally.total_cc_events,
        }
    }
}

} // verus!
