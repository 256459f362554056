//! A written song is found in its file, by both analyses.

use crate::count_laws::{file_tracks, is_whole_file, lemma_start_track};
use crate::message::is_whole;
use crate::mode_laws::{law_written_tracks_are_found, word, written_tracks};
use crate::standard::{
    division_of, header_len, header_tag, opened_track, track_len, track_offsets, track_starts,
    track_tag,
};
use crate::stream::{stream_walk, Walk, WalkEnd};
use crate::varint::big_endian;
use crate::written::{
    chunk_bytes, four_bytes, header_bytes, is_song, is_writable, song_bytes, song_tracks,
    track_bytes, Timed,
};
use crate::written_laws::law_written_track_reads_back;
use vstd::prelude::*;

verus! {

/// How many bytes lie between the header and the tag of track `i`: those of the
/// tracks before it, each with its tag and its length.
pub open spec fn place_of(tracks: Seq<Seq<u8>>, i: int) -> int
    decreases i,
{
    if i <= 0 {
        0
    } else {
        place_of(tracks, i - 1) + 8 + tracks[i - 1].len()
    }
}

proof fn lemma_chunks_are_tracks(tracks: Seq<Seq<u8>>)
    ensures
        chunk_bytes(tracks) == written_tracks(tracks),
    decreases tracks.len(),
{
    if tracks.len() > 0 {
        lemma_chunks_are_tracks(tracks.skip(1));
        assert(four_bytes(tracks[0].len() as int) =~= word(tracks[0].len()));
        assert(track_tag() =~= seq![0x4D, 0x54, 0x72, 0x6B]);
    }
}

/// What four bytes that spell a number spell.
pub(crate) proof fn lemma_four_bytes(n: int)
    requires
        0 <= n <= 0xFFFF_FFFF,
    ensures
        big_endian(four_bytes(n)) == n,
{
    let w = four_bytes(n);
    reveal_with_fuel(big_endian, 5);
    assert(w.drop_last() =~= seq![w[0], w[1], w[2]]);
    assert(w.drop_last().drop_last() =~= seq![w[0], w[1]]);
    assert(w.drop_last().drop_last().drop_last() =~= seq![w[0]]);
    assert(w.drop_last().drop_last().drop_last().drop_last() =~= Seq::empty());
}

proof fn lemma_place_skip(tracks: Seq<Seq<u8>>, i: int)
    requires
        0 < i <= tracks.len(),
    ensures
        place_of(tracks, i) == 8 + tracks[0].len() + place_of(tracks.skip(1), i - 1),
    decreases i,
{
    if i > 1 {
        lemma_place_skip(tracks, i - 1);
        assert(tracks.skip(1)[i - 2] == tracks[i - 1]);
    } else {
        assert(place_of(tracks, 0) == 0);
        assert(place_of(tracks.skip(1), 0) == 0);
    }
}

proof fn lemma_offsets(front: Seq<u8>, tracks: Seq<Seq<u8>>)
    requires
        front.len() + chunk_bytes(tracks).len() <= isize::MAX,
        forall|i: int| 0 <= i < tracks.len() ==> (#[trigger] tracks[i]).len() <= 0xFFFF_FFFF,
    ensures
        ({
            let file = front + chunk_bytes(tracks);
            let offsets = track_offsets(file, front.len());
            &&& offsets.len() == tracks.len()
            &&& forall|i: int|
                0 <= i < tracks.len() ==> {
                    let start = front.len() + place_of(tracks, i) + 8;
                    &&& (#[trigger] offsets[i]).0 == start
                    &&& offsets[i].1 == start + tracks[i].len() <= file.len()
                    &&& file.subrange(start, start + tracks[i].len()) == tracks[i]
                }
        }),
    decreases tracks.len(),
{
    let file = front + chunk_bytes(tracks);
    let pos = front.len() as int;
    let offsets = track_offsets(file, front.len());
    if tracks.len() > 0 {
        let first = tracks[0];
        let rest = tracks.skip(1);
        let chunk = seq![0x4Du8, 0x54, 0x72, 0x6B] + four_bytes(first.len() as int) + first;
        let longer = front + chunk;
        assert forall|i: int| 0 <= i < rest.len() implies (#[trigger] rest[i]).len()
            <= 0xFFFF_FFFF by {
            assert(rest[i] == tracks[i + 1]);
        }
        assert(file =~= longer + chunk_bytes(rest));
        lemma_offsets(longer, rest);
        lemma_four_bytes(first.len() as int);
        assert(file.subrange(pos, pos + 4) =~= track_tag());
        assert(file.subrange(pos + 4, pos + 8) =~= four_bytes(first.len() as int));
        assert(track_starts(file, pos));
        assert(track_len(file, pos) == first.len());
        let later = track_offsets(file, longer.len());
        assert(offsets == seq![((pos + 8) as u64, (pos + 8 + first.len()) as u64)] + later);
        assert forall|i: int| 0 <= i < tracks.len() implies ({
            let start = front.len() + place_of(tracks, i) + 8;
            &&& (#[trigger] offsets[i]).0 == start
            &&& offsets[i].1 == start + tracks[i].len() <= file.len()
            &&& file.subrange(start, start + tracks[i].len()) == tracks[i]
        }) by {
            if i == 0 {
                assert(place_of(tracks, 0) == 0);
                assert(file.subrange(pos + 8, pos + 8 + first.len()) =~= first);
            } else {
                lemma_place_skip(tracks, i);
                assert(offsets[i] == later[i - 1]);
                assert(rest[i - 1] == tracks[i]);
            }
        }
    }
}

/// A written song is found in its file, whatever else the header says: the
/// header is accepted and its division read; the search over the file gives the
/// place of each track; the walk over the same bytes as a stream gives the data
/// of each; and every track is whole.
pub proof fn law_written_song_is_found(
    format: u16,
    count: u16,
    division: u16,
    song: Seq<Seq<Timed>>,
)
    requires
        is_song(song),
        song_bytes(format, count, division, song).len() <= isize::MAX,
    ensures
        ({
            let file = song_bytes(format, count, division, song);
            let offsets = track_offsets(file, header_len());
            &&& header_len() == 14
            &&& file.take(4) == header_tag()
            &&& division_of(file) == division
            &&& stream_walk(file) == (Walk { tracks: song_tracks(song), end: WalkEnd::Complete })
            &&& file_tracks(file) == song_tracks(song)
            &&& is_whole_file(file)
            &&& offsets.len() == song.len()
            &&& forall|i: int|
                0 <= i < song.len() ==> {
                    &&& (#[trigger] offsets[i]).0 == 14 + place_of(song_tracks(song), i) + 8
                    &&& offsets[i].1 - offsets[i].0 == track_bytes(song[i]).len()
                    &&& opened_track(file, i).started() is Some
                }
        }),
{
    let file = song_bytes(format, count, division, song);
    let header = header_bytes(format, count, division);
    let tracks = song_tracks(song);
    let offsets = track_offsets(file, header_len());
    assert(file.take(4) =~= header_tag());
    assert(file.subrange(12, 14) =~= seq![(division / 256) as u8, (division % 256) as u8]);
    assert(big_endian(file.subrange(12, 14)) == division) by {
        let two = seq![(division / 256) as u8, (division % 256) as u8];
        reveal_with_fuel(big_endian, 3);
        assert(two.drop_last() =~= seq![two[0]]);
        assert(two.drop_last().drop_last() =~= Seq::empty());
    }
    assert forall|i: int| 0 <= i < tracks.len() implies (#[trigger] tracks[i]).len()
        <= 0xFFFF_FFFF by {
        assert(is_song(song) ==> track_bytes(song[i]).len() <= 0xFFFF_FFFF);
    }
    lemma_chunks_are_tracks(tracks);
    lemma_many_tracks(tracks);
    law_written_tracks_are_found(header, tracks);
    lemma_offsets(header, tracks);
    assert(file_tracks(file) =~= tracks) by {
        assert forall|i: int| 0 <= i < tracks.len() implies file_tracks(file)[i] == tracks[i] by {
            assert(offsets[i].1 <= file.len());
        }
    }
    assert forall|i: int| 0 <= i < offsets.len() implies ({
        &&& #[trigger] offsets[i].0 <= offsets[i].1 <= file.len()
        &&& is_whole(file.subrange(offsets[i].0 as int, offsets[i].1 as int), 0)
    }) by {
        assert(is_song(song) ==> is_writable(song[i], 0));
        law_written_track_reads_back(song[i]);
    }
    assert(is_whole_file(file));
    assert forall|i: int| 0 <= i < song.len() implies ({
        &&& (#[trigger] offsets[i]).0 == 14 + place_of(tracks, i) + 8
        &&& offsets[i].1 - offsets[i].0 == track_bytes(song[i]).len()
        &&& opened_track(file, i).started() is Some
    }) by {
        lemma_start_track(file, i);
    }
}

pub(crate) proof fn lemma_many_tracks(tracks: Seq<Seq<u8>>)
    ensures
        tracks.len() <= chunk_bytes(tracks).len(),
    decreases tracks.len(),
{
    if tracks.len() > 0 {
        lemma_many_tracks(tracks.skip(1));
    }
}

} // verus!
