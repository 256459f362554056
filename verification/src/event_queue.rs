//! The queue that merges the tracks: of the events that are due, the earliest
//! comes out first.

use core::cmp::Ordering;
use vstd::multiset::Multiset;
use vstd::prelude::*;
use vstd::seq_lib::{group_to_multiset_ensures, to_multiset_remove};

verus! {

/// The next event of one track: when it is due and which track it is in.
#[derive(Clone, Copy, PartialEq, Eq, Structural, Debug)]
pub struct NextEvent {
    pub tick: u32,
    pub track_idx: usize,
}

impl NextEvent {
    /// Orders events by urgency: the earlier one is the greater one. Events
    /// that are due at the same tick compare as equal.
    pub fn cmp(&self, other: &Self) -> (res: Ordering)
        ensures
            res == (if other.tick < self.tick {
                Ordering::Less
            } else if other.tick == self.tick {
                Ordering::Equal
            } else {
                Ordering::Greater
            }),
    {
        if other.tick < self.tick {
            Ordering::Less
        } else if other.tick == self.tick {
            Ordering::Equal
        } else {
            Ordering::Greater
        }
    }
}

impl PartialOrd for NextEvent {
    fn partial_cmp(&self, other: &Self) -> (res: Option<Ordering>) {
        Some(NextEvent::cmp(self, other))
    }
}

impl vstd::std_specs::cmp::PartialOrdSpecImpl for NextEvent {
    open spec fn obeys_partial_cmp_spec() -> bool {
        true
    }

    open spec fn partial_cmp_spec(&self, other: &Self) -> Option<Ordering> {
        if other.tick < self.tick {
            Some(Ordering::Less)
        } else if other.tick == self.tick {
            Some(Ordering::Equal)
        } else {
            Some(Ordering::Greater)
        }
    }
}

/// The parent of a place in the heap.
spec fn parent(i: int) -> int {
    (i - 1) / 2
}

/// Whether the event at place `i` is not due before the one above it.
spec fn ordered_at(s: Seq<NextEvent>, i: int) -> bool {
    s[parent(i)].tick <= s[i].tick
}

/// Whether no event is due before the one above it.
spec fn is_heap(s: Seq<NextEvent>) -> bool {
    forall|i: int| 0 < i < s.len() ==> #[trigger] ordered_at(s, i)
}

/// Whether the events below place `p` are not due before the one above it.
spec fn bridges(s: Seq<NextEvent>, p: int) -> bool {
    p > 0 ==> forall|i: int|
        0 < i < s.len() && #[trigger] parent(i) == p ==> s[parent(p)].tick <= s[i].tick
}

/// Whether only the event at place `p` may be due before the one above it.
spec fn is_heap_above(s: Seq<NextEvent>, p: int) -> bool {
    &&& forall|i: int| 0 < i < s.len() && i != p ==> #[trigger] ordered_at(s, i)
    &&& bridges(s, p)
}

/// Whether only the event at place `p` may be out of order, with the one above
/// it or with those below it.
spec fn is_heap_around(s: Seq<NextEvent>, p: int) -> bool {
    &&& forall|i: int|
        0 < i < s.len() && i != p && parent(i) != p ==> #[trigger] ordered_at(s, i)
    &&& bridges(s, p)
}

proof fn lemma_update_multiset(s: Seq<NextEvent>, i: int, e: NextEvent)
    requires
        0 <= i < s.len(),
    ensures
        s.update(i, e).to_multiset() == s.to_multiset().remove(s[i]).insert(e),
{
    broadcast use group_to_multiset_ensures;

    let t = s.update(i, e);
    assert(t.remove(i) =~= s.remove(i));
    to_multiset_remove(t, i);
    to_multiset_remove(s, i);
    assert(t.contains(t[i]));
    assert(t.to_multiset().count(e) > 0);
    assert(t.to_multiset() =~= t.to_multiset().remove(e).insert(e));
}

proof fn lemma_swap_multiset(s: Seq<NextEvent>, i: int, j: int)
    requires
        0 <= i < s.len(),
        0 <= j < s.len(),
    ensures
        s.update(i, s[j]).update(j, s[i]).to_multiset() == s.to_multiset(),
{
    broadcast use group_to_multiset_ensures;

    lemma_update_multiset(s, i, s[j]);
    lemma_update_multiset(s.update(i, s[j]), j, s[i]);
    assert(s.contains(s[i]));
    assert(s.contains(s[j]));
    if i == j {
        assert(s.update(i, s[j]).update(j, s[i]) =~= s);
    } else {
        assert(s.to_multiset().remove(s[i]).insert(s[j]).remove(s[j]).insert(s[i])
            =~= s.to_multiset());
    }
}

/// The event on top of a heap is due no later than any other.
proof fn lemma_top_is_earliest(s: Seq<NextEvent>, i: int)
    requires
        is_heap(s),
        0 <= i < s.len(),
    ensures
        s[0].tick <= s[i].tick,
    decreases i,
{
    if i > 0 {
        assert(ordered_at(s, i));
        lemma_top_is_earliest(s, parent(i));
    }
}

/// A queue of events out of which the earliest comes first. Which of several
/// events that are due at the same tick comes first is left open.
pub struct EventQueue {
    items: Vec<NextEvent>,
}

impl View for EventQueue {
    type V = Multiset<NextEvent>;

    closed spec fn view(&self) -> Multiset<NextEvent> {
        self.items@.to_multiset()
    }
}

impl EventQueue {
    /// The items are in heap order.
    pub closed spec fn wf(&self) -> bool {
        is_heap(self.items@)
    }

    /// An empty queue with room for `capacity` events.
    pub fn with_capacity(capacity: usize) -> (queue: Self)
        ensures
            queue.wf(),
            queue@ == Multiset::<NextEvent>::empty(),
    {
        broadcast use group_to_multiset_ensures;

        let items: Vec<NextEvent> = Vec::with_capacity(capacity);
        let queue = EventQueue { items };
        assert(queue@ =~= Multiset::empty());
        queue
    }

    /// Puts an event into the queue.
    pub fn push(&mut self, event: NextEvent)
        requires
            old(self).wf(),
        ensures
            final(self).wf(),
            final(self)@ == old(self)@.insert(event),
    {
        broadcast use group_to_multiset_ensures;

        let last: usize = self.items.len();
        self.items.push(event);
        proof {
            let s = self.items@;
            assert forall|i: int| 0 < i < s.len() && i != last implies #[trigger] ordered_at(
                s,
                i,
            ) by {
                assert(ordered_at(old(self).items@, i));
            }
        }
        self.sift_up(last);
    }

    /// Takes the earliest event out of the queue; `None` where it is empty.
    pub fn pop(&mut self) -> (res: Option<NextEvent>)
        requires
            old(self).wf(),
        ensures
            final(self).wf(),
            res is None <==> old(self)@.len() == 0,
            res is None ==> final(self)@ == old(self)@,
            res matches Some(event) ==> {
                &&& old(self)@.contains(event)
                &&& forall|e: NextEvent| #[trigger] old(self)@.contains(e) ==> event.tick <= e.tick
                &&& final(self)@ == old(self)@.remove(event)
            },
    {
        broadcast use group_to_multiset_ensures;

        let ghost before = self.items@;
        match self.items.pop() {
            None => {
                assert(self.items@ =~= before);
                None
            },
            Some(last) => {
                proof {
                    assert(self.items@ =~= before.drop_last());
                    assert(before =~= before.drop_last().push(last));
                    assert forall|e: NextEvent| #[trigger] before.to_multiset().contains(
                        e,
                    ) implies before[0].tick <= e.tick by {
                        assert(before.contains(e));
                        let k = choose|k: int| 0 <= k < before.len() && before[k] == e;
                        lemma_top_is_earliest(before, k);
                    }
                    assert(before.contains(before[0]));
                }
                if self.items.len() == 0 {
                    assert(before =~= Seq::<NextEvent>::empty().push(last));
                    assert(self.items@ =~= Seq::<NextEvent>::empty());
                    assert(self.items@.to_multiset() =~= before.to_multiset().remove(last));
                    return Some(last);
                }
                let top = self.items[0];
                let ghost mid = self.items@;
                self.items.set(0, last);
                proof {
                    lemma_update_multiset(mid, 0, last);
                    assert(mid.contains(top));
                    assert(before.to_multiset() == mid.to_multiset().insert(last));
                    assert(self.items@.to_multiset() =~= before.to_multiset().remove(top));
                    let s = self.items@;
                    assert forall|i: int|
                        0 < i < s.len() && i != 0 && parent(i) != 0 implies #[trigger] ordered_at(
                        s,
                        i,
                    ) by {
                        assert(ordered_at(before, i));
                    }
                }
                self.sift_down_to_bottom();
                Some(top)
            },
        }
    }

    /// Moves the event at `place` up until the one above it is not due later.
    fn sift_up(&mut self, place: usize)
        requires
            place < old(self).items@.len(),
            is_heap_above(old(self).items@, place as int),
        ensures
            is_heap(final(self).items@),
            final(self).items@.to_multiset() == old(self).items@.to_multiset(),
    {
        let mut pos: usize = place;
        while pos > 0
            invariant_except_break
                is_heap_above(self.items@, pos as int),
            invariant
                pos < self.items@.len(),
                self.items@.to_multiset() == old(self).items@.to_multiset(),
            ensures
                is_heap(self.items@),
            decreases pos,
        {
            let above: usize = (pos - 1) / 2;
            let event = self.items[pos];
            let other = self.items[above];
            if event <= other {
                assert(ordered_at(self.items@, pos as int));
                break;
            }
            let ghost s = self.items@;
            self.items.set(pos, other);
            self.items.set(above, event);
            proof {
                let t = self.items@;
                lemma_swap_multiset(s, pos as int, above as int);
                assert(t =~= s.update(pos as int, s[above as int]).update(
                    above as int,
                    s[pos as int],
                ));
                lemma_sift_up_step(s, pos as int);
            }
            pos = above;
        }
    }

    /// Moves the event on top down to the bottom, each time in exchange for the
    /// earlier of the two below it, and then up to where it belongs.
    fn sift_down_to_bottom(&mut self)
        requires
            0 < old(self).items@.len(),
            is_heap_around(old(self).items@, 0),
        ensures
            is_heap(final(self).items@),
            final(self).items@.to_multiset() == old(self).items@.to_multiset(),
    {
        let end: usize = self.items.len();
        let mut pos: usize = 0;
        while pos < end / 2
            invariant
                pos < end == self.items@.len(),
                is_heap_around(self.items@, pos as int),
                self.items@.to_multiset() == old(self).items@.to_multiset(),
            decreases end - pos,
        {
            let mut child: usize = 2 * pos + 1;
            if child + 1 < end {
                let left = self.items[child];
                let right = self.items[child + 1];
                if left <= right {
                    child += 1;
                }
            }
            let event = self.items[pos];
            let other = self.items[child];
            let ghost s = self.items@;
            self.items.set(pos, other);
            self.items.set(child, event);
            proof {
                let t = self.items@;
                lemma_swap_multiset(s, pos as int, child as int);
                assert(t =~= s.update(pos as int, s[child as int]).update(
                    child as int,
                    s[pos as int],
                ));
                lemma_sift_down_step(s, pos as int, child as int);
            }
            pos = child;
        }
        self.sift_up(pos);
    }
}

proof fn lemma_sift_up_step(s: Seq<NextEvent>, p: int)
    requires
        0 < p < s.len(),
        is_heap_above(s, p),
        s[p].tick < s[parent(p)].tick,
    ensures
        is_heap_above(s.update(p, s[parent(p)]).update(parent(p), s[p]), parent(p)),
{
    let a = parent(p);
    let t = s.update(p, s[a]).update(a, s[p]);
    assert forall|i: int| 0 < i < t.len() && i != a implies #[trigger] ordered_at(t, i) by {
        if i == p {
        } else {
            assert(ordered_at(s, i));
            if parent(i) == p {
                assert(s[parent(p)].tick <= s[i].tick);
            }
        }
    }
    if a > 0 {
        assert(ordered_at(s, a));
        assert forall|i: int| 0 < i < t.len() && #[trigger] parent(i) == a implies t[parent(a)].tick
            <= t[i].tick by {
            if i != p {
                assert(ordered_at(s, i));
            }
        }
    }
}

proof fn lemma_sift_down_step(s: Seq<NextEvent>, p: int, c: int)
    requires
        0 <= p < c < s.len(),
        parent(c) == p,
        is_heap_around(s, p),
        forall|i: int| 0 < i < s.len() && #[trigger] parent(i) == p ==> s[c].tick <= s[i].tick,
    ensures
        is_heap_around(s.update(p, s[c]).update(c, s[p]), c),
{
    let t = s.update(p, s[c]).update(c, s[p]);
    assert forall|i: int| 0 < i < t.len() && i != c && parent(i) != c implies #[trigger] ordered_at(
        t,
        i,
    ) by {
        if i == p {
            assert(parent(c) == p);
        } else if parent(i) == p {
        } else {
            assert(ordered_at(s, i));
        }
    }
    assert forall|i: int| 0 < i < t.len() && #[trigger] parent(i) == c implies t[parent(c)].tick
        <= t[i].tick by {
        assert(ordered_at(s, i));
    }
}

} // verus!
