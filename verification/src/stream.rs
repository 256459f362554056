//! Analysis of a stream: a first pass collects the tempo changes, a second one
//! the events, each track by track.

use crate::byte_source::{ByteSource, ReadError};
use crate::channel_reader::ChannelReader;
use crate::message::track_messages;
use crate::standard::{division_of, header_len, track_tag, AnalysisError, MidiStats};
use crate::stream_tally::{is_largest, StreamCounts, StreamTally};
use crate::tempo_map::{is_sorting, segment_before, TempoChange, TempoMap, TempoSegment};
use crate::tempo_scan::{scan_track, tempo_changes};
use crate::track_parser::{parsed_events, ParsedMidiEvent, TrackParser};
use crate::varint::{big_endian, read_u16_be, read_u32_be};
use vstd::prelude::*;

verus! {

/// How the search for tracks in a stream ends.
pub enum WalkEnd {
    /// No tag is left.
    Complete,
    /// The stream ends inside a track.
    Truncated,
    /// There are more tracks than can be counted.
    TooMany,
}

/// The tracks found in a stream.
pub struct Walk {
    /// The data of the tracks.
    pub tracks: Seq<Seq<u8>>,
    pub end: WalkEnd,
}

/// The length that the four bytes behind the track tag at the front of `s` give.
pub open spec fn claimed_track_len(s: Seq<u8>) -> int {
    big_endian(s.subrange(4, 8)) as int
}

/// The tracks in a stream that goes on with the bytes `s`, when `room` more
/// tracks can be counted. A tag other than that of a track is skipped, and
/// what follows it is taken for the next tag.
pub open spec fn walk(s: Seq<u8>, room: nat) -> Walk
    decreases s.len(),
{
    if s.len() < 4 {
        Walk { tracks: Seq::empty(), end: WalkEnd::Complete }
    } else if s.take(4) != track_tag() {
        walk(s.skip(4), room)
    } else if room == 0 {
        Walk { tracks: Seq::empty(), end: WalkEnd::TooMany }
    } else if s.len() < 8 || s.len() < 8 + claimed_track_len(s) {
        Walk { tracks: Seq::empty(), end: WalkEnd::Truncated }
    } else {
        let behind = 8 + claimed_track_len(s);
        let later = walk(s.skip(behind), (room - 1) as nat);
        Walk { tracks: seq![s.subrange(8, behind)] + later.tracks, end: later.end }
    }
}

/// The tracks in a whole stream, behind its header.
pub open spec fn stream_walk(stream: Seq<u8>) -> Walk {
    walk(stream.skip(header_len() as int), usize::MAX as nat)
}

/// The tempo changes of some tracks, one track after the other.
pub open spec fn all_changes(tracks: Seq<Seq<u8>>) -> Seq<TempoChange>
    decreases tracks.len(),
{
    if tracks.len() == 0 {
        Seq::empty()
    } else {
        tempo_changes(track_messages(tracks[0])) + all_changes(tracks.skip(1))
    }
}

proof fn lemma_all_changes_push(tracks: Seq<Seq<u8>>, track: Seq<u8>)
    ensures
        all_changes(tracks.push(track)) == all_changes(tracks) + tempo_changes(
            track_messages(track),
        ),
    decreases tracks.len(),
{
    let longer = tracks.push(track);
    if tracks.len() == 0 {
        assert(longer.skip(1) =~= tracks);
        assert(all_changes(longer) =~= all_changes(tracks) + tempo_changes(track_messages(track)));
    } else {
        lemma_all_changes_push(tracks.skip(1), track);
        assert(longer.skip(1) =~= tracks.skip(1).push(track));
        assert(all_changes(longer) =~= all_changes(tracks) + tempo_changes(track_messages(track)));
    }
}

/// The events of some tracks, one track after the other.
pub open spec fn all_events(tracks: Seq<Seq<u8>>) -> Seq<ParsedMidiEvent>
    decreases tracks.len(),
{
    if tracks.len() == 0 {
        Seq::empty()
    } else {
        parsed_events(track_messages(tracks[0])) + all_events(tracks.skip(1))
    }
}

/// What is left of a stream from the next track tag on, or from where no tag
/// is left.
pub open spec fn at_track(s: Seq<u8>) -> Seq<u8>
    decreases s.len(),
{
    if s.len() < 4 || s.take(4) == track_tag() {
        s
    } else {
        at_track(s.skip(4))
    }
}

proof fn lemma_at_track(s: Seq<u8>, room: nat)
    ensures
        walk(at_track(s), room) == walk(s, room),
        at_track(s).len() <= s.len(),
        at_track(s).len() >= 4 ==> at_track(s).take(4) == track_tag(),
    decreases s.len(),
{
    if s.len() >= 4 && s.take(4) != track_tag() {
        lemma_at_track(s.skip(4), room);
    }
}

/// Reads on past the next track tag. Returns `false` where none is left, or
/// where the source fails.
fn find_track(source: &mut ByteSource) -> (found: bool)
    ensures
        found ==> {
            &&& at_track(old(source)@).len() >= 4
            &&& final(source)@ == at_track(old(source)@).skip(4)
            &&& final(source).reliable() == old(source).reliable()
        },
        *final(source) is Xz <==> *old(source) is Xz,
        !found && old(source).reliable() ==> at_track(old(source)@).len() < 4,
{
    loop
        invariant
            at_track(source@) == at_track(old(source)@),
            source.reliable() == old(source).reliable(),
            *source is Xz <==> *old(source) is Xz,
        decreases source@.len(),
    {
        let ghost s = source@;
        let chunk_tag = match source.read_exact(4) {
            Ok(chunk_tag) => chunk_tag,
            Err(_) => {
                return false;
            },
        };
        if chunk_tag[0] == 0x4D && chunk_tag[1] == 0x54 && chunk_tag[2] == 0x72 && chunk_tag[3]
            == 0x6B {
            assert(s.take(4) =~= track_tag());
            return true;
        }
        proof {
            if s.take(4) == track_tag() {
                assert(chunk_tag@[0] == 0x4D && chunk_tag@[1] == 0x54 && chunk_tag@[2] == 0x72
                    && chunk_tag@[3] == 0x6B);
            }
        }
    }
}

/// Reads the length of a track.
fn read_track_len(source: &mut ByteSource) -> (res: Result<u32, ReadError>)
    ensures
        res matches Ok(len) ==> {
            &&& old(source)@.len() >= 4
            &&& len == big_endian(old(source)@.take(4))
            &&& final(source)@ == old(source)@.skip(4)
            &&& final(source).reliable() == old(source).reliable()
        },
        *final(source) is Xz <==> *old(source) is Xz,
        old(source).reliable() && old(source)@.len() >= 4 ==> res is Ok,
        res matches Err(error) ==> (error is Decoder <==> *old(source) is Xz),
{
    match source.read_exact(4) {
        Ok(b) => {
            assert(b@ =~= seq![b@[0], b@[1], b@[2], b@[3]]);
            Ok(read_u32_be(b[0], b[1], b[2], b[3]))
        },
        Err(error) => Err(error),
    }
}

/// What the first pass over a stream found.
pub struct StreamScan {
    /// Ticks per quarter note.
    pub division: u16,
    pub tracks_count: usize,
    /// The tempo changes, in time order.
    pub tempo_map: TempoMap,
    /// The segment before each change.
    pub segments: Vec<TempoSegment>,
}

/// What the first pass found, as mathematical values.
pub struct ScanState {
    pub division: u16,
    pub tracks_count: usize,
    pub changes: Seq<TempoChange>,
    pub segments: Seq<TempoSegment>,
}

impl View for StreamScan {
    type V = ScanState;

    open spec fn view(&self) -> ScanState {
        ScanState {
            division: self.division,
            tracks_count: self.tracks_count,
            changes: self.tempo_map.changes@,
            segments: self.segments@,
        }
    }
}

impl StreamScan {
    /// Whether this is what the first pass finds in a stream with the given
    /// tracks.
    pub open spec fn is_scan_of(self, stream: Seq<u8>, tracks: Seq<Seq<u8>>) -> bool {
        &&& self.division == division_of(stream)
        &&& self.tracks_count == tracks.len()
        &&& is_sorting(all_changes(tracks), self.tempo_map.changes@)
        &&& self.segments@ == Seq::new(
            self.tempo_map.changes@.len(),
            |i: int| segment_before(self.tempo_map.changes@, i),
        )
    }
}

/// The first pass: reads the header of a stream and collects the tempo changes
/// of its tracks. A decoder that finds a fault may end the pass early, in front
/// of a tag as if the stream ended there, or elsewhere as an error.
#[verifier::spinoff_prover]
pub fn scan_stream(source: ByteSource) -> (res: Result<StreamScan, AnalysisError>)
    ensures
        source@.len() < header_len() ==> res matches Err(AnalysisError::Read(_)),
        source.reliable() && source@.len() >= header_len() ==> match stream_walk(source@).end {
            WalkEnd::Complete => res matches Ok(scan) && scan.is_scan_of(
                source@,
                stream_walk(source@).tracks,
            ),
            WalkEnd::Truncated => res matches Err(AnalysisError::Read(_)),
            WalkEnd::TooMany => res matches Err(AnalysisError::Overflow),
        },
        match res {
            Ok(scan) => exists|k: int|
                0 <= k <= stream_walk(source@).tracks.len() && scan.is_scan_of(
                    source@,
                    #[trigger] stream_walk(source@).tracks.take(k),
                ),
            Err(AnalysisError::Read(error)) => error is Decoder <==> source is Xz,
            Err(error) => error is Overflow && stream_walk(source@).end is TooMany,
        },
{
    let ghost stream = source@;
    let ghost whole = stream_walk(stream);
    let mut rest = source;
    let header = match rest.read_exact(14) {
        Ok(header) => header,
        Err(error) => {
            return Err(AnalysisError::Read(error));
        },
    };
    assert(stream.subrange(12, 14) =~= seq![header@[12], header@[13]]);
    let division = read_u16_be(header[12], header[13]);
    let mut tempo_map = TempoMap::new();
    let mut tracks_count: usize = 0;
    assert(all_changes(whole.tracks.take(0)) =~= Seq::empty());
    assert(whole.tracks.skip(0) =~= whole.tracks);
    loop
        invariant_except_break
            rest.reliable() == source.reliable(),
            rest is Xz <==> source is Xz,
            ({
                let ahead = walk(rest@, (usize::MAX - tracks_count) as nat);
                &&& ahead.end == whole.end
                &&& ahead.tracks == whole.tracks.skip(tracks_count as int)
            }),
        invariant
            stream == source@,
            stream.len() >= header_len(),
            whole == stream_walk(stream),
            tracks_count <= whole.tracks.len(),
            tempo_map.changes@ == all_changes(whole.tracks.take(tracks_count as int)),
        ensures
            source.reliable() ==> whole.end is Complete && tracks_count == whole.tracks.len(),
        decreases rest@.len(),
    {
        let ghost s = at_track(rest@);
        let ghost room = (usize::MAX - tracks_count) as nat;
        let ghost ahead = walk(rest@, room);
        let ghost k = tracks_count as int;
        proof {
            lemma_at_track(rest@, room);
        }
        if !find_track(&mut rest) {
            break;
        }
        if tracks_count == usize::MAX {
            return Err(AnalysisError::Overflow);
        }
        let track_len = match read_track_len(&mut rest) {
            Ok(track_len) => track_len,
            Err(error) => {
                return Err(AnalysisError::Read(error));
            },
        };
        assert(s.skip(4).take(4) =~= s.subrange(4, 8));
        assert(s.skip(4).skip(4) =~= s.skip(8));
        let track_data = match rest.read_exact(track_len as usize) {
            Ok(track_data) => track_data,
            Err(error) => {
                return Err(AnalysisError::Read(error));
            },
        };
        tracks_count += 1;
        scan_track(track_data.as_slice(), &mut tempo_map.changes);
        proof {
            let behind = 8 + claimed_track_len(s);
            let later = walk(s.skip(behind), (room - 1) as nat);
            assert(track_data@ =~= s.subrange(8, behind));
            assert(rest@ =~= s.skip(behind));
            assert(ahead.tracks[0] == track_data@);
            assert(whole.tracks[k] == track_data@);
            assert(whole.tracks.take(k + 1) =~= whole.tracks.take(k).push(track_data@));
            lemma_all_changes_push(whole.tracks.take(k), track_data@);
            assert(later.tracks =~= ahead.tracks.skip(1));
            assert(later.tracks =~= whole.tracks.skip(k + 1));
        }
    }
    let segments = tempo_map.build_timeline();
    let scan = StreamScan { division, tracks_count, tempo_map, segments };
    proof {
        let found = whole.tracks.take(tracks_count as int);
        assert(scan.is_scan_of(stream, found));
        if tracks_count == whole.tracks.len() {
            assert(found =~= whole.tracks);
        }
    }
    Ok(scan)
}

/// The second pass over a stream.
///
/// `next_event` reads on to the next note or controller event; the caller
/// tells in which second it happens, and `record` counts it.
pub struct StreamAnalysis<'a> {
    pub division: u16,
    pub source: ByteSource<'a>,
    pub parser: Option<TrackParser>,
    pub tracks_count: usize,
    pub tally: StreamTally,
}

impl<'a> StreamAnalysis<'a> {
    /// Every part is well-formed.
    pub open spec fn wf(&self) -> bool {
        &&& self.parser matches Some(parser) ==> parser.wf()
        &&& self.tally.wf()
    }

    /// The tracks that are left behind the one being read.
    pub open spec fn ahead(&self) -> Walk {
        walk(self.source@, (usize::MAX - self.tracks_count) as nat)
    }

    /// The events that are left of the track being read.
    pub open spec fn current(&self) -> Seq<ParsedMidiEvent> {
        match self.parser {
            Some(parser) => parser.upcoming(),
            None => Seq::empty(),
        }
    }

    /// The events that are left.
    pub open spec fn upcoming(&self) -> Seq<ParsedMidiEvent> {
        self.current() + all_events(self.ahead().tracks)
    }

    /// Whether these are the counts that the analysis has come to, with the last
    /// second in which a note started.
    pub open spec fn has_result(&self, stats: MidiStats, last_second: usize) -> bool {
        &&& stats.ppqn == self.division
        &&& stats.tracks_count == self.tracks_count
        &&& stats.total_notes == self.tally@.total_notes
        &&& stats.max_polyphony == 0
        &&& is_largest(self.tally@.buckets, stats.max_nps)
        &&& stats.total_cc_events == self.tally@.total_cc_events
        &&& last_second == self.tally@.last_second
    }

    /// Reads the header of a stream.
    pub fn new(source: ByteSource<'a>) -> (res: Result<Self, AnalysisError>)
        ensures
            source@.len() < header_len() ==> res is Err,
            source.reliable() && source@.len() >= header_len() ==> res is Ok,
            res matches Err(error) ==> error matches AnalysisError::Read(error) && (
            error is Decoder <==> source is Xz),
            res matches Ok(analysis) ==> {
                &&& analysis.wf()
                &&& analysis.source.reliable() == source.reliable()
                &&& analysis.division == division_of(source@)
                &&& analysis.tracks_count == 0
                &&& analysis.ahead() == stream_walk(source@)
                &&& analysis.upcoming() == all_events(stream_walk(source@).tracks)
                &&& analysis.tally@ == StreamCounts::start()
            },
    {
        let ghost stream = source@;
        let mut source = source;
        let header = match source.read_exact(14) {
            Ok(header) => header,
            Err(error) => {
                return Err(AnalysisError::Read(error));
            },
        };
        assert(stream.subrange(12, 14) =~= seq![header@[12], header@[13]]);
        let analysis = StreamAnalysis {
            division: read_u16_be(header[12], header[13]),
            source,
            parser: None,
            tracks_count: 0,
            tally: StreamTally::new(),
        };
        assert(analysis.upcoming() =~= all_events(stream_walk(stream).tracks));
        Ok(analysis)
    }

    /// Reads on to the next event; `Ok(None)` where the stream has no more. A
    /// decoder that finds a fault may end the stream early, behind a track.
    pub fn next_event(&mut self) -> (res: Result<Option<ParsedMidiEvent>, AnalysisError>)
        requires
            old(self).wf(),
        ensures
            final(self).wf(),
            final(self).division == old(self).division,
            final(self).tally == old(self).tally,
            final(self).source is Xz <==> old(self).source is Xz,
            old(self).tracks_count <= final(self).tracks_count <= old(self).tracks_count + old(
                self,
            ).ahead().tracks.len(),
            match res {
                Ok(Some(event)) => {
                    &&& old(self).upcoming() == seq![event] + final(self).upcoming()
                    &&& final(self).ahead().end == old(self).ahead().end
                    &&& final(self).tracks_count + final(self).ahead().tracks.len() == old(
                        self,
                    ).tracks_count + old(self).ahead().tracks.len()
                    &&& final(self).source.reliable() == old(self).source.reliable()
                },
                Ok(None) => {
                    &&& old(self).current() == Seq::<ParsedMidiEvent>::empty()
                    &&& old(self).source.reliable() ==> {
                        &&& old(self).upcoming() == Seq::<ParsedMidiEvent>::empty()
                        &&& old(self).ahead().end is Complete
                        &&& final(self).tracks_count == old(self).tracks_count + old(
                            self,
                        ).ahead().tracks.len()
                    }
                },
                Err(error) => {
                    &&& old(self).current() == Seq::<ParsedMidiEvent>::empty()
                    &&& old(self).source.reliable() ==> old(self).upcoming() == Seq::<
                        ParsedMidiEvent,
                    >::empty()
                    &&& match error {
                        AnalysisError::Read(read_error) => {
                            &&& read_error is Decoder <==> old(self).source is Xz
                            &&& old(self).source.reliable() ==> old(
                                self,
                            ).ahead().end is Truncated
                        },
                        AnalysisError::Overflow => old(self).ahead().end is TooMany,
                        _ => false,
                    }
                },
            },
    {
        loop
            invariant
                self.wf(),
                self.division == old(self).division,
                self.tally == old(self).tally,
                self.upcoming() == old(self).upcoming(),
                self.ahead().end == old(self).ahead().end,
                self.tracks_count + self.ahead().tracks.len() == old(self).tracks_count + old(
                    self,
                ).ahead().tracks.len(),
                self.tracks_count >= old(self).tracks_count,
                self.source.reliable() == old(self).source.reliable(),
                self.source is Xz <==> old(self).source is Xz,
                *self == *old(self) || old(self).current() == Seq::<ParsedMidiEvent>::empty(),
            decreases self.source@.len(),
        {
            let ghost room = (usize::MAX - self.tracks_count) as nat;
            let ghost ahead = self.ahead();
            let ghost upcoming = self.upcoming();
            let ghost current = self.current();
            if let Some(parser) = &mut self.parser {
                if let Some(event) = parser.next_event() {
                    assert(upcoming =~= seq![event] + self.upcoming());
                    return Ok(Some(event));
                }
            }
            assert(current =~= Seq::empty());
            assert(upcoming =~= all_events(ahead.tracks));
            let ghost s = at_track(self.source@);
            proof {
                lemma_at_track(self.source@, room);
            }
            if !find_track(&mut self.source) {
                return Ok(None);
            }
            if self.tracks_count == usize::MAX {
                return Err(AnalysisError::Overflow);
            }
            let track_len = match read_track_len(&mut self.source) {
                Ok(track_len) => track_len,
                Err(error) => {
                    return Err(AnalysisError::Read(error));
                },
            };
            assert(s.skip(4).take(4) =~= s.subrange(4, 8));
            assert(s.skip(4).skip(4) =~= s.skip(8));
            let reader = match ChannelReader::open(&mut self.source, track_len) {
                Ok(reader) => reader,
                Err(error) => {
                    return Err(AnalysisError::Read(error));
                },
            };
            self.tracks_count += 1;
            self.parser = Some(TrackParser::new(reader));
            proof {
                let behind = 8 + claimed_track_len(s);
                let later = walk(s.skip(behind), (room - 1) as nat);
                assert(reader@ =~= s.subrange(8, behind));
                assert(self.source@ =~= s.skip(behind));
                assert(ahead.tracks.skip(1) =~= later.tracks);
                assert(self.upcoming() =~= all_events(ahead.tracks));
            }
        }
    }

    /// Counts an event that happens in second `sec`.
    pub fn record(&mut self, event: &ParsedMidiEvent, sec: usize) -> (res: Result<
        (),
        AnalysisError,
    >)
        requires
            old(self).wf(),
        ensures
            final(self).wf(),
            final(self).division == old(self).division,
            final(self).source == old(self).source,
            final(self).parser == old(self).parser,
            final(self).tracks_count == old(self).tracks_count,
            if old(self).tally@.overflows(*event, sec) {
                res == Err::<(), _>(AnalysisError::Overflow) && final(self).tally@ == old(
                    self,
                ).tally@
            } else {
                res is Ok && final(self).tally@ == old(self).tally@.recorded(*event, sec)
            },
    {
        if self.tally.record(event, sec) {
            Ok(())
        } else {
            Err(AnalysisError::Overflow)
        }
    }

    /// Returns the counts, with the last second in which a note started.
    pub fn finish(self) -> (res: (MidiStats, usize))
        requires
            self.wf(),
        ensures
            self.has_result(res.0, res.1),
            res.0.ppqn == self.division && res.0.tracks_count == self.tracks_count,
            res.0.total_notes == self.tally.total_notes,
            res.0.total_cc_events == self.tally.total_cc_events,
            res.0.max_polyphony == 0,
            res.1 == self.tally.max_calculated_sec,
            forall|i: int|
                0 <= i < self.tally.nps_buckets@.len() ==> #[trigger] self.tally.nps_buckets@[i]
                    <= res.0.max_nps,
            self.tally.nps_buckets@.contains(res.0.max_nps),
            res.0.total_notes > 0 ==> res.0.max_nps > 0,
    {
        let max_nps = self.tally.max_nps();
        let stats = MidiStats {
            ppqn: self.division,
            tracks_count: self.tracks_count,
            total_notes: self.tally.total_notes,
            max_polyphony: 0,
            max_nps,
            total_cc_events: self.tally.total_cc_events,
        };
        (stats, self.tally.max_calculated_sec)
    }
}

} // verus!
