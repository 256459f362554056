//! Counts over events that come track by track: how many notes started in each
//! second.

use crate::track_parser::ParsedMidiEvent;
use vstd::prelude::*;

verus! {

/// How many seconds are told apart: eight hours.
pub const SECONDS: usize = 28800;

/// The sum of some counts.
pub open spec fn total(s: Seq<u64>) -> int
    decreases s.len(),
{
    if s.len() == 0 {
        0
    } else {
        total(s.drop_last()) + s.last()
    }
}

proof fn lemma_total_zero(s: Seq<u64>)
    requires
        forall|i: int| 0 <= i < s.len() ==> #[trigger] s[i] == 0,
    ensures
        total(s) == 0,
    decreases s.len(),
{
    if s.len() > 0 {
        lemma_total_zero(s.drop_last());
    }
}

proof fn lemma_total_update(s: Seq<u64>, i: int, v: u64)
    requires
        0 <= i < s.len(),
    ensures
        total(s.update(i, v)) == total(s) - s[i] + v,
    decreases s.len(),
{
    if i == s.len() - 1 {
        assert(s.update(i, v).drop_last() =~= s.drop_last());
    } else {
        assert(s.update(i, v).drop_last() =~= s.drop_last().update(i, v));
        lemma_total_update(s.drop_last(), i, v);
    }
}

proof fn lemma_total_bounds(s: Seq<u64>, i: int)
    requires
        0 <= i < s.len(),
    ensures
        s[i] <= total(s),
        total(s) >= 0,
    decreases s.len(),
{
    lemma_total_nonnegative(s.drop_last());
    if i < s.len() - 1 {
        lemma_total_bounds(s.drop_last(), i);
    }
}

proof fn lemma_total_nonnegative(s: Seq<u64>)
    ensures
        total(s) >= 0,
    decreases s.len(),
{
    if s.len() > 0 {
        lemma_total_nonnegative(s.drop_last());
    }
}

/// Whether `m` is the largest of some counts.
pub open spec fn is_largest(s: Seq<u64>, m: u64) -> bool {
    &&& exists|i: int| 0 <= i < s.len() && #[trigger] s[i] == m
    &&& forall|i: int| 0 <= i < s.len() ==> #[trigger] s[i] <= m
}

/// What the counts are, as mathematical values.
#[verifier::ext_equal]
pub struct StreamCounts {
    /// How many notes started in each second.
    pub buckets: Seq<u64>,
    pub total_notes: u64,
    pub total_cc_events: u64,
    /// The last second in which a note started.
    pub last_second: usize,
}

impl StreamCounts {
    /// Nothing counted yet.
    pub open spec fn start() -> StreamCounts {
        StreamCounts {
            buckets: Seq::new(SECONDS as nat, |i: int| 0u64),
            total_notes: 0,
            total_cc_events: 0,
            last_second: 0,
        }
    }

    /// The buckets hold every note that was counted, and none lies behind the
    /// last second.
    pub open spec fn consistent(self) -> bool {
        &&& self.buckets.len() == SECONDS
        &&& total(self.buckets) == self.total_notes
        &&& self.last_second < SECONDS
        &&& forall|i: int| self.last_second < i < SECONDS ==> #[trigger] self.buckets[i] == 0
        &&& if self.total_notes > 0 {
            self.buckets[self.last_second as int] > 0
        } else {
            self.last_second == 0
        }
    }

    /// Whether an event starts a note in a second that is told apart.
    pub open spec fn counts_note(event: ParsedMidiEvent, sec: usize) -> bool {
        event.is_note_on && sec < SECONDS
    }

    /// Whether a count is already the largest that its type holds and the
    /// event would raise it.
    pub open spec fn overflows(self, event: ParsedMidiEvent, sec: usize) -> bool {
        ||| Self::counts_note(event, sec) && self.total_notes == u64::MAX
        ||| event.is_cc && self.total_cc_events == u64::MAX
    }

    /// The counts after one more event, which happens in second `sec`. A note
    /// behind the last second that is told apart is not counted.
    pub open spec fn recorded(self, event: ParsedMidiEvent, sec: usize) -> StreamCounts {
        let noted = if Self::counts_note(event, sec) {
            StreamCounts {
                buckets: self.buckets.update(sec as int, (self.buckets[sec as int] + 1) as u64),
                total_notes: (self.total_notes + 1) as u64,
                last_second: if sec > self.last_second {
                    sec
                } else {
                    self.last_second
                },
                ..self
            }
        } else {
            self
        };
        if event.is_cc {
            StreamCounts { total_cc_events: (noted.total_cc_events + 1) as u64, ..noted }
        } else {
            noted
        }
    }
}

/// Running counts over the events of a stream.
pub struct StreamTally {
    pub nps_buckets: Vec<u64>,
    pub total_notes: u64,
    pub total_cc_events: u64,
    pub max_calculated_sec: usize,
}

impl View for StreamTally {
    type V = StreamCounts;

    open spec fn view(&self) -> StreamCounts {
        StreamCounts {
            buckets: self.nps_buckets@,
            total_notes: self.total_notes,
            total_cc_events: self.total_cc_events,
            last_second: self.max_calculated_sec,
        }
    }
}

impl StreamTally {
    /// The counts are consistent.
    pub open spec fn wf(&self) -> bool {
        self@.consistent()
    }

    /// A tally with nothing counted yet.
    pub fn new() -> (tally: Self)
        ensures
            tally.wf(),
            tally@ == StreamCounts::start(),
    {
        let nps_buckets: Vec<u64> = vec![0u64; SECONDS];
        proof {
            lemma_total_zero(nps_buckets@);
        }
        let tally = StreamTally {
            nps_buckets,
            total_notes: 0,
            total_cc_events: 0,
            max_calculated_sec: 0,
        };
        assert(tally@ =~= StreamCounts::start());
        tally
    }

    /// Counts an event that happens in second `sec`. Returns `false`, and
    /// counts nothing, where a count would become too large for its type.
    pub fn record(&mut self, event: &ParsedMidiEvent, sec: usize) -> (recorded: bool)
        requires
            old(self).wf(),
        ensures
            final(self).wf(),
            recorded == !old(self)@.overflows(*event, sec),
            final(self)@ == (if recorded {
                old(self)@.recorded(*event, sec)
            } else {
                old(self)@
            }),
    {
        if event.is_cc && self.total_cc_events == u64::MAX {
            return false;
        }
        if sec < self.nps_buckets.len() {
            if event.is_note_on {
                if self.total_notes == u64::MAX {
                    return false;
                }
                proof {
                    lemma_total_bounds(self.nps_buckets@, sec as int);
                    lemma_total_update(
                        self.nps_buckets@,
                        sec as int,
                        (self.nps_buckets@[sec as int] + 1) as u64,
                    );
                }
                self.total_notes += 1;
                let count: u64 = self.nps_buckets[sec];
                self.nps_buckets.set(sec, count + 1);
                if sec > self.max_calculated_sec {
                    self.max_calculated_sec = sec;
                }
            }
        }
        if event.is_cc {
            self.total_cc_events += 1;
        }
        assert(self@ =~= old(self)@.recorded(*event, sec));
        true
    }

    /// Tells the most notes that started in one second.
    pub fn max_nps(&self) -> (max: u64)
        requires
            self.wf(),
        ensures
            is_largest(self@.buckets, max),
    {
        let mut max: u64 = self.nps_buckets[0];
        let mut i: usize = 1;
        assert(self.nps_buckets@.take(1)[0] == max);
        while i < self.nps_buckets.len()
            invariant
                1 <= i <= self.nps_buckets@.len(),
                is_largest(self.nps_buckets@.take(i as int), max),
            decreases self.nps_buckets@.len() - i,
        {
            let count: u64 = self.nps_buckets[i];
            let ghost seen = self.nps_buckets@.take(i as int);
            let ghost longer = self.nps_buckets@.take(i + 1);
            proof {
                assert(longer =~= seen.push(count));
                let k = choose|k: int| 0 <= k < seen.len() && #[trigger] seen[k] == max;
                assert(longer[k] == max);
                assert(longer[i as int] == count);
            }
            if count >= max {
                max = count;
            }
            i += 1;
        }
        assert(self.nps_buckets@.take(i as int) =~= self.nps_buckets@);
        max
    }
}

} // verus!
