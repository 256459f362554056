//! The analysis of a file ends, whatever the file holds.

use crate::buffered_cursor::CursorState;
use crate::count_laws::{can_follow, is_run, is_step};
use crate::event_queue::NextEvent;
use crate::standard::{lemma_queue_stays_ok, StandardState};
use vstd::prelude::*;

verus! {

impl CursorState {
    /// How many bytes of the track are left.
    pub open spec fn bytes_left(self) -> nat {
        if self.pos < self.end {
            (self.end - self.pos) as nat
        } else {
            0
        }
    }

    /// Whether `other` is a cursor of the same track and tick that is not
    /// behind this one.
    pub open spec fn leads_to(self, other: CursorState) -> bool {
        &&& other.end == self.end
        &&& other.abs_tick == self.abs_tick
        &&& other.pos >= self.pos
    }
}

/// How many bytes are left in front of some cursors.
pub open spec fn bytes_ahead(cursors: Seq<CursorState>) -> nat
    decreases cursors.len(),
{
    if cursors.len() == 0 {
        0
    } else {
        cursors[0].bytes_left() + bytes_ahead(cursors.skip(1))
    }
}

impl StandardState {
    /// The work that is left: queued events and bytes of tracks.
    pub open spec fn work_left(self) -> nat {
        self.queue.len() + bytes_ahead(self.cursors)
    }
}

proof fn lemma_quantity_moves(c: CursorState)
    ensures
        c.quantity() matches Some((_, after)) ==> c.leads_to(after) && after.pos > c.pos,
    decreases c.reach() - c.pos,
{
    if c.readable() && c.byte() >= 0x80 {
        lemma_quantity_moves(c.next());
    }
}

proof fn lemma_body_moves(c: CursorState, status: u8)
    ensures
        c.event_body(status) matches Some((_, after)) ==> c.leads_to(after),
{
    reveal(CursorState::event_body);
    lemma_quantity_moves(c);
    lemma_quantity_moves(c.next());
}

proof fn lemma_event_moves(c: CursorState)
    ensures
        c.event() matches Some((_, after)) ==> c.leads_to(after),
{
    if c.byte() >= 0x80 {
        lemma_body_moves(CursorState { last_status: c.byte(), ..c.next() }, c.byte());
    } else {
        lemma_body_moves(c.ready(), c.last_status);
    }
}

proof fn lemma_bytes_update(cursors: Seq<CursorState>, i: int, c: CursorState)
    requires
        0 <= i < cursors.len(),
    ensures
        bytes_ahead(cursors.update(i, c)) + cursors[i].bytes_left() == bytes_ahead(cursors)
            + c.bytes_left(),
    decreases cursors.len(),
{
    if i == 0 {
        assert(cursors.update(i, c).skip(1) =~= cursors.skip(1));
    } else {
        assert(cursors.update(i, c).skip(1) =~= cursors.skip(1).update(i - 1, c));
        lemma_bytes_update(cursors.skip(1), i - 1, c);
    }
}

/// Every event leaves less work, and the queue in order.
pub proof fn law_every_event_makes_progress(
    a: StandardState,
    b: StandardState,
    event: NextEvent,
    closed: bool,
)
    requires
        a.queue_ok(),
        is_step(a, b, event, closed),
    ensures
        b.queue_ok(),
        b.work_left() < a.work_left(),
{
    assert(a.queue.count(event) > 0);
    let c = a.cursors[event.track_idx as int];
    if c.has_data() {
        lemma_event_moves(c);
        let (_, after) = c.event().unwrap();
        lemma_quantity_moves(after);
        let next = after.advanced().unwrap();
        lemma_bytes_update(a.cursors, event.track_idx as int, next);
    }
    lemma_queue_stays_ok(a, b, event);
}

/// The analysis of a file ends: it never sees more events than there were
/// queued events and bytes of tracks when it started.
pub proof fn law_the_analysis_ends(states: Seq<StandardState>)
    requires
        states.len() > 0,
        states[0].queue_ok(),
        is_run(states),
    ensures
        states.last().queue_ok(),
        states.last().work_left() + (states.len() - 1) <= states[0].work_left(),
    decreases states.len(),
{
    if states.len() > 1 {
        let p = states.drop_last();
        assert forall|k: int| #![trigger p[k]] 0 <= k < p.len() - 1 implies can_follow(
            p[k],
            p[k + 1],
        ) by {
            assert(can_follow(states[k], states[k + 1]));
        }
        law_the_analysis_ends(p);
        let (a, b) = (p.last(), states.last());
        assert(can_follow(states[states.len() - 2], states[states.len() - 2 + 1]));
        let (event, closed) = choose|event: NextEvent, closed: bool| is_step(a, b, event, closed);
        law_every_event_makes_progress(a, b, event, closed);
    }
}

} // verus!
