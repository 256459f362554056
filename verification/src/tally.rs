//! The counts that the events of a file add up to.

use crate::tempo_map::DEFAULT_TEMPO_US;
use crate::track_event::TrackEvent;
use vstd::prelude::*;

verus! {

/// Running counts over the events of a file, in the order in which they happen.
#[derive(Clone, Copy, PartialEq, Eq, Structural, Debug)]
pub struct Tally {
    pub total_notes: u64,
    pub current_polyphony: i32,
    pub max_polyphony: i32,
    pub total_cc_events: u64,
    /// The tempo in force, in microseconds per quarter note.
    pub current_tempo_us: u64,
    /// The most notes that started in one of the windows closed so far.
    pub max_nps: u64,
    /// The notes that started since the last window was closed.
    pub notes_in_current_second: u64,
}

impl Tally {
    /// Notes sound only where notes started, a window holds no more notes than
    /// there were, and where notes started some sounded and lay in a window.
    pub open spec fn wf(self) -> bool {
        &&& 0 <= self.current_polyphony <= self.max_polyphony <= self.total_notes
        &&& self.max_nps <= self.total_notes
        &&& self.notes_in_current_second <= self.total_notes
        &&& self.total_notes > 0 ==> self.max_polyphony > 0 && self.max_nps
            + self.notes_in_current_second > 0
    }

    /// Nothing counted yet, at the tempo that a file starts with.
    pub open spec fn start() -> Tally {
        Tally {
            total_notes: 0,
            current_polyphony: 0,
            max_polyphony: 0,
            total_cc_events: 0,
            current_tempo_us: DEFAULT_TEMPO_US,
            max_nps: 0,
            notes_in_current_second: 0,
        }
    }

    /// Whether a count is already the largest that its type holds and the
    /// event would raise it.
    pub open spec fn overflows(self, event: TrackEvent) -> bool {
        match event {
            TrackEvent::NoteOn => self.total_notes == u64::MAX || self.current_polyphony
                == i32::MAX,
            TrackEvent::ControlChange => self.total_cc_events == u64::MAX,
            _ => false,
        }
    }

    /// The counts after one more event.
    pub open spec fn counted(self, event: TrackEvent) -> Tally {
        match event {
            TrackEvent::NoteOn => Tally {
                total_notes: (self.total_notes + 1) as u64,
                notes_in_current_second: (self.notes_in_current_second + 1) as u64,
                current_polyphony: (self.current_polyphony + 1) as i32,
                max_polyphony: if self.current_polyphony + 1 > self.max_polyphony {
                    (self.current_polyphony + 1) as i32
                } else {
                    self.max_polyphony
                },
                ..self
            },
            TrackEvent::NoteOff => Tally {
                current_polyphony: if self.current_polyphony > 0 {
                    (self.current_polyphony - 1) as i32
                } else {
                    0
                },
                ..self
            },
            TrackEvent::ControlChange => Tally {
                total_cc_events: (self.total_cc_events + 1) as u64,
                ..self
            },
            TrackEvent::Tempo(tempo_us) => Tally { current_tempo_us: tempo_us, ..self },
            TrackEvent::Other => self,
        }
    }

    /// The counts after the current window was closed and a new one begun.
    pub open spec fn window_closed(self) -> Tally {
        Tally {
            max_nps: if self.notes_in_current_second > self.max_nps {
                self.notes_in_current_second
            } else {
                self.max_nps
            },
            notes_in_current_second: 0,
            ..self
        }
    }

    /// A tally with nothing counted yet.
    pub fn new() -> (tally: Self)
        ensures
            tally == Tally::start(),
            tally.wf(),
    {
        Tally {
            total_notes: 0,
            current_polyphony: 0,
            max_polyphony: 0,
            total_cc_events: 0,
            current_tempo_us: DEFAULT_TEMPO_US,
            max_nps: 0,
            notes_in_current_second: 0,
        }
    }

    /// Counts one event. Returns `false`, and counts nothing, where a count
    /// would become too large for its type.
    pub fn count(&mut self, event: TrackEvent) -> (counted: bool)
        requires
            old(self).wf(),
        ensures
            final(self).wf(),
            counted == !old(self).overflows(event),
            *final(self) == (if counted {
                old(self).counted(event)
            } else {
                *old(self)
            }),
    {
        match event {
            TrackEvent::NoteOn => {
                if self.total_notes == u64::MAX || self.current_polyphony == i32::MAX {
                    return false;
                }
                self.total_notes += 1;
                self.notes_in_current_second += 1;
                self.current_polyphony += 1;
                if self.current_polyphony > self.max_polyphony {
                    self.max_polyphony = self.current_polyphony;
                }
            },
            TrackEvent::NoteOff => {
                self.current_polyphony = if self.current_polyphony > 0 {
                    self.current_polyphony - 1
                } else {
                    0
                };
            },
            TrackEvent::ControlChange => {
                if self.total_cc_events == u64::MAX {
                    return false;
                }
                self.total_cc_events += 1;
            },
            TrackEvent::Tempo(tempo_us) => {
                self.current_tempo_us = tempo_us;
            },
            TrackEvent::Other => {},
        }
        true
    }

    /// Closes the current window and begins a new one.
    pub fn close_window(&mut self)
        requires
            old(self).wf(),
        ensures
            final(self).wf(),
            *final(self) == old(self).window_closed(),
    {
        if self.notes_in_current_second > self.max_nps {
            self.max_nps = self.notes_in_current_second;
        }
        self.notes_in_current_second = 0;
    }
}

} // verus!
