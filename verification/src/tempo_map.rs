//! The tempo of a file over time.

use vstd::prelude::*;

verus! {

/// From a tick on, a quarter note takes so many microseconds.
#[derive(Clone, Copy, PartialEq, Eq, Structural, Debug)]
pub struct TempoChange {
    pub abs_tick: u32,
    pub tempo_us: u64,
}

/// The stretch of time before a tempo change: how many ticks lie between it
/// and the change before it, and the tempo during them.
#[derive(Clone, Copy, PartialEq, Eq, Structural, Debug)]
pub struct TempoSegment {
    pub delta_ticks: u32,
    pub tempo_us: u64,
}

/// Where a tick lies among the tempo changes.
#[derive(Clone, Copy, PartialEq, Eq, Structural, Debug)]
pub enum TempoPosition {
    /// Before the first change: the tempo that a file starts with is in force.
    BeforeFirst,
    /// At or after the change `idx`, by so many ticks, at the tempo it set.
    After { idx: usize, delta_ticks: u32, tempo_us: u64 },
}

/// The tempo that a file starts with, in microseconds per quarter note.
pub const DEFAULT_TEMPO_US: u64 = 500_000;

/// The changes of `s` at one tick, in their order.
pub open spec fn changes_at(s: Seq<TempoChange>, tick: u32) -> Seq<TempoChange> {
    s.filter(|c: TempoChange| c.abs_tick == tick)
}

/// Whether no change comes before an earlier one.
pub open spec fn in_time_order(s: Seq<TempoChange>) -> bool {
    forall|i: int, j: int| 0 <= i <= j < s.len() ==> s[i].abs_tick <= s[j].abs_tick
}

/// Whether `after` holds the changes of `before` sorted by their ticks, those
/// at one tick in the order in which they were.
pub open spec fn is_sorting(before: Seq<TempoChange>, after: Seq<TempoChange>) -> bool {
    &&& in_time_order(after)
    &&& after.len() == before.len()
    &&& forall|tick: u32| #[trigger] changes_at(after, tick) == changes_at(before, tick)
}

/// The segment before change `i`.
pub open spec fn segment_before(s: Seq<TempoChange>, i: int) -> TempoSegment {
    if i == 0 {
        TempoSegment { delta_ticks: s[0].abs_tick, tempo_us: DEFAULT_TEMPO_US }
    } else {
        TempoSegment {
            delta_ticks: (s[i].abs_tick - s[i - 1].abs_tick) as u32,
            tempo_us: s[i - 1].tempo_us,
        }
    }
}

/// Whether a position tells where a tick lies among changes: it names the last
/// change at or before the tick, if there is one.
pub open spec fn is_position(s: Seq<TempoChange>, tick: u32, position: TempoPosition) -> bool {
    match position {
        TempoPosition::BeforeFirst => forall|i: int|
            0 <= i < s.len() ==> tick < #[trigger] s[i].abs_tick,
        TempoPosition::After { idx, delta_ticks, tempo_us } => {
            &&& idx < s.len()
            &&& s[idx as int].abs_tick <= tick
            &&& forall|i: int| idx < i < s.len() ==> tick < #[trigger] s[i].abs_tick
            &&& delta_ticks == tick - s[idx as int].abs_tick
            &&& tempo_us == s[idx as int].tempo_us
        },
    }
}

pub(crate) proof fn lemma_changes_split(s: Seq<TempoChange>, i: int, tick: u32)
    requires
        0 <= i < s.len(),
    ensures
        changes_at(s.skip(i), tick) == changes_at(seq![s[i]], tick) + changes_at(
            s.skip(i + 1),
            tick,
        ),
{
    assert(s.skip(i) =~= seq![s[i]] + s.skip(i + 1));
    Seq::filter_distributes_over_add(
        seq![s[i]],
        s.skip(i + 1),
        |c: TempoChange| c.abs_tick == tick,
    );
}

proof fn lemma_changes_push(s: Seq<TempoChange>, c: TempoChange, tick: u32)
    ensures
        changes_at(s.push(c), tick) == changes_at(s, tick) + changes_at(seq![c], tick),
{
    assert(s.push(c) =~= s + seq![c]);
    Seq::filter_distributes_over_add(s, seq![c], |c: TempoChange| c.abs_tick == tick);
}

pub(crate) proof fn lemma_no_changes(s: Seq<TempoChange>, tick: u32)
    requires
        forall|k: int| 0 <= k < s.len() ==> #[trigger] s[k].abs_tick != tick,
    ensures
        changes_at(s, tick) == Seq::<TempoChange>::empty(),
{
    s.lemma_all_neg_filter_empty(|c: TempoChange| c.abs_tick == tick);
}

/// Merges two runs that are each in time order; of changes at one tick, those
/// of `a` come first.
fn merge_runs(a: &Vec<TempoChange>, b: &Vec<TempoChange>) -> (out: Vec<TempoChange>)
    requires
        in_time_order(a@),
        in_time_order(b@),
        a@.len() + b@.len() <= usize::MAX,
    ensures
        is_sorting(a@ + b@, out@),
{
    let mut out: Vec<TempoChange> = Vec::with_capacity(a.len() + b.len());
    let mut i: usize = 0;
    let mut j: usize = 0;
    proof {
        assert(a@.skip(0) =~= a@);
        assert(b@.skip(0) =~= b@);
        assert forall|tick: u32| #[trigger] changes_at(out@, tick) + changes_at(a@.skip(0), tick)
            + changes_at(b@.skip(0), tick) == changes_at(a@ + b@, tick) by {
            lemma_no_changes(out@, tick);
            Seq::filter_distributes_over_add(a@, b@, |c: TempoChange| c.abs_tick == tick);
            assert(changes_at(out@, tick) + changes_at(a@, tick) =~= changes_at(a@, tick));
        }
    }
    while i < a.len() || j < b.len()
        invariant
            i <= a@.len(),
            j <= b@.len(),
            in_time_order(a@),
            in_time_order(b@),
            out@.len() == i + j,
            in_time_order(out@),
            forall|k: int, l: int|
                0 <= k < out@.len() && i <= l < a@.len() ==> out@[k].abs_tick <= a@[l].abs_tick,
            forall|k: int, l: int|
                0 <= k < out@.len() && j <= l < b@.len() ==> out@[k].abs_tick <= b@[l].abs_tick,
            forall|tick: u32| #[trigger]
                changes_at(out@, tick) + changes_at(a@.skip(i as int), tick) + changes_at(
                    b@.skip(j as int),
                    tick,
                ) == changes_at(a@ + b@, tick),
        decreases a@.len() - i + b@.len() - j,
    {
        let ghost before = out@;
        if j >= b.len() || (i < a.len() && a[i].abs_tick <= b[j].abs_tick) {
            let c = a[i];
            out.push(c);
            proof {
                assert forall|tick: u32| #[trigger] changes_at(out@, tick) + changes_at(
                    a@.skip(i + 1),
                    tick,
                ) + changes_at(b@.skip(j as int), tick) == changes_at(a@ + b@, tick) by {
                    lemma_changes_push(before, c, tick);
                    lemma_changes_split(a@, i as int, tick);
                    assert(changes_at(before, tick) + changes_at(seq![c], tick) + changes_at(
                        a@.skip(i + 1),
                        tick,
                    ) =~= changes_at(before, tick) + changes_at(a@.skip(i as int), tick));
                    assert(changes_at(before, tick) + changes_at(a@.skip(i as int), tick)
                        + changes_at(b@.skip(j as int), tick) == changes_at(a@ + b@, tick));
                }
            }
            i += 1;
        } else {
            let c = b[j];
            out.push(c);
            proof {
                assert forall|tick: u32| #[trigger] changes_at(out@, tick) + changes_at(
                    a@.skip(i as int),
                    tick,
                ) + changes_at(b@.skip(j + 1), tick) == changes_at(a@ + b@, tick) by {
                    lemma_changes_push(before, c, tick);
                    lemma_changes_split(b@, j as int, tick);
                    let rest = a@.skip(i as int);
                    if tick == c.abs_tick {
                        assert forall|k: int| 0 <= k < rest.len() implies #[trigger] rest[k].abs_tick
                            != tick by {
                            assert(rest[k] == a@[i + k]);
                            assert(a@[i as int].abs_tick <= a@[i + k].abs_tick);
                        }
                        lemma_no_changes(rest, tick);
                    } else {
                        lemma_no_changes(seq![c], tick);
                    }
                    assert(changes_at(before, tick) + changes_at(seq![c], tick) + changes_at(
                        rest,
                        tick,
                    ) + changes_at(b@.skip(j + 1), tick) =~= changes_at(before, tick) + changes_at(
                        rest,
                        tick,
                    ) + (changes_at(seq![c], tick) + changes_at(b@.skip(j + 1), tick)));
                    assert(changes_at(before, tick) + changes_at(rest, tick) + changes_at(
                        b@.skip(j as int),
                        tick,
                    ) == changes_at(a@ + b@, tick));
                }
            }
            j += 1;
        }
    }
    proof {
        assert forall|tick: u32| #[trigger] changes_at(out@, tick) == changes_at(
            a@ + b@,
            tick,
        ) by {
            lemma_no_changes(a@.skip(i as int), tick);
            lemma_no_changes(b@.skip(j as int), tick);
            assert(changes_at(out@, tick) + changes_at(a@.skip(i as int), tick) + changes_at(
                b@.skip(j as int),
                tick,
            ) =~= changes_at(out@, tick));
        }
    }
    out
}

/// The changes from `lo` up to `hi`, sorted.
fn sort_range(changes: &Vec<TempoChange>, lo: usize, hi: usize) -> (out: Vec<TempoChange>)
    requires
        lo <= hi <= changes@.len(),
    ensures
        is_sorting(changes@.subrange(lo as int, hi as int), out@),
    decreases hi - lo,
{
    if hi - lo <= 1 {
        let mut out: Vec<TempoChange> = Vec::new();
        if lo < hi {
            out.push(changes[lo]);
        }
        assert(out@ =~= changes@.subrange(lo as int, hi as int));
        return out;
    }
    let mid: usize = lo + (hi - lo) / 2;
    let a = sort_range(changes, lo, mid);
    let b = sort_range(changes, mid, hi);
    let out = merge_runs(&a, &b);
    proof {
        let left = changes@.subrange(lo as int, mid as int);
        let right = changes@.subrange(mid as int, hi as int);
        assert(changes@.subrange(lo as int, hi as int) =~= left + right);
        assert forall|tick: u32| #[trigger] changes_at(out@, tick) == changes_at(
            left + right,
            tick,
        ) by {
            Seq::filter_distributes_over_add(left, right, |c: TempoChange| c.abs_tick == tick);
            Seq::filter_distributes_over_add(a@, b@, |c: TempoChange| c.abs_tick == tick);
            assert(changes_at(a@, tick) == changes_at(left, tick));
            assert(changes_at(b@, tick) == changes_at(right, tick));
        }
    }
    out
}

/// The tempo changes of a file.
pub struct TempoMap {
    pub changes: Vec<TempoChange>,
}

impl TempoMap {
    /// A map without changes.
    pub fn new() -> (map: Self)
        ensures
            map.changes@ == Seq::<TempoChange>::empty(),
    {
        TempoMap { changes: Vec::new() }
    }

    /// Sorts the changes by their ticks, those at one tick in the order in
    /// which they were added, and returns the segment before each of them.
    pub fn build_timeline(&mut self) -> (segments: Vec<TempoSegment>)
        ensures
            is_sorting(old(self).changes@, final(self).changes@),
            segments@ == Seq::new(
                final(self).changes@.len(),
                |i: int| segment_before(final(self).changes@, i),
            ),
            segments@.len() == old(self).changes@.len() == final(self).changes@.len(),
            forall|i: int, j: int|
                0 <= i <= j < final(self).changes@.len() ==> final(self).changes@[i].abs_tick
                    <= final(self).changes@[j].abs_tick,
            forall|i: int|
                0 <= i < segments@.len() ==> if i == 0 {
                    &&& (#[trigger] segments@[i]).tempo_us == 500_000
                    &&& segments@[i].delta_ticks == final(self).changes@[0].abs_tick
                } else {
                    &&& segments@[i].tempo_us == final(self).changes@[i - 1].tempo_us
                    &&& final(self).changes@[i - 1].abs_tick + segments@[i].delta_ticks
                        == final(self).changes@[i].abs_tick
                },
    {
        let len: usize = self.changes.len();
        let sorted = sort_range(&self.changes, 0, len);
        assert(self.changes@.subrange(0, len as int) =~= self.changes@);
        let mut segments: Vec<TempoSegment> = Vec::with_capacity(len);
        let mut last_tick: u32 = 0;
        let mut current_tempo: u64 = DEFAULT_TEMPO_US;
        let mut i: usize = 0;
        while i < len
            invariant
                i <= len == sorted@.len(),
                in_time_order(sorted@),
                segments@.len() == i,
                forall|k: int| 0 <= k < i ==> #[trigger] segments@[k] == segment_before(sorted@, k),
                i == 0 ==> last_tick == 0 && current_tempo == DEFAULT_TEMPO_US,
                i > 0 ==> last_tick == sorted@[i - 1].abs_tick && current_tempo == sorted@[i
                    - 1].tempo_us,
            decreases len - i,
        {
            let change = sorted[i];
            let delta_ticks: u32 = change.abs_tick - last_tick;
            segments.push(TempoSegment { delta_ticks, tempo_us: current_tempo });
            last_tick = change.abs_tick;
            current_tempo = change.tempo_us;
            i += 1;
        }
        self.changes = sorted;
        assert(segments@ =~= Seq::new(
            self.changes@.len(),
            |i: int| segment_before(self.changes@, i),
        ));
        segments
    }

    /// Finds the last change at or before a tick. The changes must be in time
    /// order, as `build_timeline` leaves them.
    pub fn locate(&self, tick: u32) -> (position: TempoPosition)
        requires
            in_time_order(self.changes@),
        ensures
            is_position(self.changes@, tick, position),
            position is BeforeFirst <==> forall|i: int|
                0 <= i < self.changes@.len() ==> tick < #[trigger] self.changes@[i].abs_tick,
            position matches TempoPosition::After { idx, delta_ticks, tempo_us } ==> {
                &&& idx < self.changes@.len()
                &&& self.changes@[idx as int].abs_tick + delta_ticks == tick
                &&& self.changes@[idx as int].tempo_us == tempo_us
                &&& forall|i: int|
                    idx < i < self.changes@.len() ==> tick < #[trigger] self.changes@[i].abs_tick
            },
    {
        let mut lo: usize = 0;
        let mut hi: usize = self.changes.len();
        while lo < hi
            invariant
                in_time_order(self.changes@),
                lo <= hi <= self.changes@.len(),
                forall|i: int| 0 <= i < lo ==> #[trigger] self.changes@[i].abs_tick <= tick,
                forall|i: int|
                    hi <= i < self.changes@.len() ==> tick < #[trigger] self.changes@[i].abs_tick,
            decreases hi - lo,
        {
            let mid: usize = lo + (hi - lo) / 2;
            if self.changes[mid].abs_tick <= tick {
                lo = mid + 1;
            } else {
                hi = mid;
            }
        }
        if lo == 0 {
            return TempoPosition::BeforeFirst;
        }
        let idx: usize = lo - 1;
        let base = self.changes[idx];
        TempoPosition::After { idx, delta_ticks: tick - base.abs_tick, tempo_us: base.tempo_us }
    }
}

} // verus!
