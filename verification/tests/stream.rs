use midi_counter::byte_source::{ByteSource, ReadError};
use midi_counter::channel_reader::{read_varint_from_stream, ChannelReader, CHUNK_LEN};
use midi_counter::midi_parser::read_varint;
use midi_counter::standard::{AnalysisError, MidiStats, StandardAnalysis};
use midi_counter::stream::{scan_stream, StreamAnalysis};
use midi_counter::tempo_map::{TempoChange, TempoPosition, TempoSegment};
use midi_counter::track_parser::{ParsedMidiEvent, TrackParser};
use std::collections::VecDeque;
use std::io::Read;
use xz2::read::XzEncoder;

fn file(division: u16, tracks: &[Vec<u8>]) -> Vec<u8> {
    let mut bytes: Vec<u8> = b"MThd\x00\x00\x00\x06\x00\x01".to_vec();
    bytes.extend_from_slice(&(tracks.len() as u16).to_be_bytes());
    bytes.extend_from_slice(&division.to_be_bytes());
    for track in tracks {
        bytes.extend_from_slice(b"MTrk");
        bytes.extend_from_slice(&(track.len() as u32).to_be_bytes());
        bytes.extend_from_slice(track);
    }
    bytes
}

fn compressed(bytes: &[u8]) -> Vec<u8> {
    let mut out: Vec<u8> = Vec::new();
    XzEncoder::new(bytes, 6).read_to_end(&mut out).unwrap();
    out
}

fn opened(bytes: &[u8]) -> ChannelReader {
    ChannelReader::open(&mut ByteSource::plain(bytes), bytes.len() as u32).unwrap()
}

/// The counts of a stream, which `open` opens anew for each pass.
fn analyse<'a>(open: impl Fn() -> ByteSource<'a>) -> Result<(MidiStats, usize), AnalysisError> {
    let scan = scan_stream(open())?;
    let ticks_per_quarter = scan.division as f64;
    let mut micros = 0.0f64;
    let mut starts: Vec<f64> = Vec::new();
    for segment in &scan.segments {
        micros += segment.delta_ticks as f64 * segment.tempo_us as f64 / ticks_per_quarter;
        starts.push(micros);
    }
    let mut analysis = StreamAnalysis::new(open())?;
    while let Some(event) = analysis.next_event()? {
        let micros = match scan.tempo_map.locate(event.abs_tick) {
            TempoPosition::BeforeFirst => event.abs_tick as f64 * 500_000.0 / ticks_per_quarter,
            TempoPosition::After { idx, delta_ticks, tempo_us } => {
                starts[idx] + delta_ticks as f64 * tempo_us as f64 / ticks_per_quarter
            }
        };
        analysis.record(&event, (micros / 1_000_000.0) as usize)?;
    }
    Ok(analysis.finish())
}

fn sample() -> Vec<u8> {
    let conductor = vec![
        0x60, 0xFF, 0x51, 0x03, 0x0F, 0x42, 0x40, // a second per quarter note from 0.5 s on
        0x00, 0xFF, 0x2F, 0x00,
    ];
    let notes = vec![
        0x00, 0x90, 60, 100, // at 0 s
        0x60, 61, 100, // at 0.5 s
        0x60, 62, 100, // at 1.5 s
        0x00, 62, 0, // ends
        0x00, 0xB0, 7, 100,
        0x81, 0x40, 0x90, 63, 1, // at 3.5 s
        0x00, 0xF0, 0x01, 0xF7,
        0x00, 0xC0, 0x00,
    ];
    file(96, &[conductor, notes])
}

#[test]
fn a_stream_is_counted() {
    let bytes = sample();
    let (stats, last_second) = analyse(|| ByteSource::plain(&bytes)).unwrap();
    assert_eq!(
        stats,
        MidiStats {
            ppqn: 96,
            tracks_count: 2,
            total_notes: 4,
            max_polyphony: 0,
            max_nps: 2,
            total_cc_events: 1,
        }
    );
    assert_eq!(last_second, 3);
}

#[test]
fn a_compressed_stream_is_counted_alike() {
    let bytes = sample();
    let packed = compressed(&bytes);
    assert_ne!(packed, bytes);
    let plain = analyse(|| ByteSource::plain(&bytes)).unwrap();
    let unpacked = analyse(|| ByteSource::xz(&packed)).unwrap();
    assert_eq!(unpacked, plain);
}

#[test]
fn compressed_bytes_come_out_as_they_went_in() {
    let bytes: Vec<u8> = (0..300_000u32).map(|i| (i * i % 253) as u8).collect();
    let packed = compressed(&bytes);
    let mut source = ByteSource::xz(&packed);
    assert_eq!(source.read_exact(4).unwrap(), &bytes[..4]);
    assert_eq!(source.read_exact(0).unwrap(), &[]);
    assert_eq!(source.read_exact(200_000).unwrap(), &bytes[4..200_004]);
    assert_eq!(source.read_exact(99_996).unwrap(), &bytes[200_004..]);
    assert!(matches!(source.read_exact(1), Err(ReadError::Decoder(_))));
}

#[test]
fn plain_bytes_come_out_as_they_are() {
    let bytes: [u8; 5] = [1, 2, 3, 4, 5];
    let mut source = ByteSource::plain(&bytes);
    assert_eq!(source.read_exact(2).unwrap(), &[1, 2]);
    assert!(matches!(source.read_exact(4), Err(ReadError::UnexpectedEnd)));
    assert_eq!(source.read_exact(3).unwrap(), &[3, 4, 5]);
}

#[test]
fn both_analyses_count_alike() {
    let bytes = sample();
    let (stream, _) = analyse(|| ByteSource::plain(&bytes)).unwrap();
    let mut analysis = StandardAnalysis::new(&bytes).unwrap();
    while let Some(due) = analysis.pop_event() {
        analysis.apply_event(due.event).unwrap();
    }
    let stats = analysis.finish();
    assert_eq!(stats.total_notes, stream.total_notes);
    assert_eq!(stats.total_cc_events, stream.total_cc_events);
    assert_eq!(stats.tracks_count, stream.tracks_count);
    assert_eq!(stats.ppqn, stream.ppqn);
}

#[test]
fn the_scan_finds_tempo_changes_in_time_order() {
    let late = vec![0x70, 0xFF, 0x51, 0x03, 0x00, 0x00, 0x07];
    let early = vec![0x10, 0xFF, 0x51, 0x03, 0x00, 0x00, 0x05];
    let bytes = file(48, &[late, early]);
    let scan = scan_stream(ByteSource::plain(&bytes)).unwrap();
    assert_eq!(scan.division, 48);
    assert_eq!(scan.tracks_count, 2);
    assert_eq!(
        scan.tempo_map.changes,
        vec![
            TempoChange { abs_tick: 0x10, tempo_us: 5 },
            TempoChange { abs_tick: 0x70, tempo_us: 7 },
        ]
    );
    assert_eq!(
        scan.segments,
        vec![
            TempoSegment { delta_ticks: 0x10, tempo_us: 500_000 },
            TempoSegment { delta_ticks: 0x60, tempo_us: 5 },
        ]
    );
}

#[test]
fn a_stream_needs_no_header_tag() {
    let mut bytes = sample();
    bytes[0] = b'X';
    assert!(analyse(|| ByteSource::plain(&bytes)).is_ok());
}

#[test]
fn other_chunks_are_skipped_four_bytes_at_a_time() {
    let mut bytes = file(96, &[]);
    bytes.extend_from_slice(b"junk");
    bytes.extend_from_slice(b"MTrk\x00\x00\x00\x04\x00\x90\x3C\x64");
    bytes.extend_from_slice(b"ab");
    let (stats, _) = analyse(|| ByteSource::plain(&bytes)).unwrap();
    assert_eq!((stats.tracks_count, stats.total_notes), (1, 1));
    let mut shifted = file(96, &[]);
    shifted.extend_from_slice(b"jun");
    shifted.extend_from_slice(b"MTrk\x00\x00\x00\x04\x00\x90\x3C\x64");
    let (stats, _) = analyse(|| ByteSource::plain(&shifted)).unwrap();
    assert_eq!((stats.tracks_count, stats.total_notes), (0, 0));
}

#[test]
fn streams_that_end_early_are_refused() {
    let bytes = sample();
    let short = &bytes[..13];
    assert!(matches!(
        scan_stream(ByteSource::plain(short)),
        Err(AnalysisError::Read(ReadError::UnexpectedEnd))
    ));
    assert!(matches!(
        StreamAnalysis::new(ByteSource::plain(short)),
        Err(AnalysisError::Read(ReadError::UnexpectedEnd))
    ));
    for cut in [18, 20, bytes.len() - 1] {
        let cut = &bytes[..cut];
        assert!(matches!(
            scan_stream(ByteSource::plain(cut)),
            Err(AnalysisError::Read(ReadError::UnexpectedEnd))
        ));
        let packed = compressed(cut);
        assert!(matches!(
            scan_stream(ByteSource::xz(&packed)),
            Err(AnalysisError::Read(ReadError::Decoder(_)))
        ));
    }
    let mut analysis = StreamAnalysis::new(ByteSource::plain(&bytes[..bytes.len() - 1])).unwrap();
    assert!(matches!(
        analysis.next_event(),
        Err(AnalysisError::Read(ReadError::UnexpectedEnd))
    ));
}

#[test]
fn what_is_not_compressed_is_refused() {
    let bytes = sample();
    assert!(matches!(
        scan_stream(ByteSource::xz(&bytes)),
        Err(AnalysisError::Read(ReadError::Decoder(_)))
    ));
    let packed = compressed(&bytes);
    assert!(matches!(
        scan_stream(ByteSource::xz(&packed[..20])),
        Err(AnalysisError::Read(ReadError::Decoder(_)))
    ));
}

#[test]
fn notes_far_away_in_time_are_not_counted() {
    let track = vec![
        0x00, 0x90, 60, 100, // at 0 s
        0x83, 0xD4, 0x60, 60, 100, // 60000 ticks of half a second later
        0x00, 0xB0, 1, 2,
    ];
    let bytes = file(1, &[track]);
    let (stats, last_second) = analyse(|| ByteSource::plain(&bytes)).unwrap();
    assert_eq!(stats.total_notes, 1);
    assert_eq!(stats.total_cc_events, 1);
    assert_eq!(last_second, 0);
}

#[test]
fn counts_at_their_limit_overflow() {
    let bytes = file(96, &[vec![0x00, 0xB0, 1, 2]]);
    let mut analysis = StreamAnalysis::new(ByteSource::plain(&bytes)).unwrap();
    analysis.tally.total_cc_events = u64::MAX;
    let event = analysis.next_event().unwrap().unwrap();
    assert!(matches!(analysis.record(&event, 0), Err(AnalysisError::Overflow)));
}

#[test]
fn events_of_a_track_are_parsed() {
    let track: Vec<u8> = vec![
        0x10, 0x90, 60, 100, // starts
        0x10, 60, 0, // running status, ends
        0x00, 0x80, 61, 0, // not reported
        0x05, 0xB0, 1, 2, // a controller
        0x00, 0xFF, 0x01, 0x02, 0x90, 0x3C, // a text
        0x00, 0xF1, // no meaning
        0x00, 0x91, 60, // cut short
    ];
    let mut parser = TrackParser::new(opened(&track));
    let event = |abs_tick, is_note_on, is_cc| ParsedMidiEvent { abs_tick, is_note_on, is_cc };
    assert_eq!(parser.next_event(), Some(event(0x10, true, false)));
    assert_eq!(parser.next_event(), Some(event(0x20, false, false)));
    assert_eq!(parser.next_event(), Some(event(0x25, false, true)));
    assert_eq!(parser.next_event(), None);
    assert_eq!(parser.next_event(), None);
}

#[test]
fn a_byte_can_be_put_back() {
    let mut reader = opened(&[7, 8, 9]);
    let mut one = [0u8; 1];
    assert_eq!(reader.read(&mut one), 1);
    assert_eq!(one, [7]);
    reader.unget_byte(7);
    assert_eq!(reader.peeked_byte, Some(7));
    let mut all = [0u8; 4];
    assert_eq!(reader.read(&mut all), 3);
    assert_eq!(all, [7, 8, 9, 0]);
    assert_eq!(reader.read(&mut all), 0);
    assert_eq!(reader.read(&mut []), 0);
    reader.unget_byte(5);
    assert_eq!(reader.read(&mut one), 1);
    assert_eq!(one, [5]);
}

#[test]
fn reads_stop_at_chunks_and_exact_reads_do_not() {
    let bytes: Vec<u8> = (0..CHUNK_LEN + 100).map(|i| (i % 249) as u8).collect();
    let mut reader = opened(&bytes);
    let mut buf = vec![0u8; bytes.len()];
    assert_eq!(reader.read(&mut buf), CHUNK_LEN);
    assert_eq!(&buf[..CHUNK_LEN], &bytes[..CHUNK_LEN]);
    let mut reader = opened(&bytes);
    assert!(reader.read_exact(&mut buf).is_ok());
    assert_eq!(buf, bytes);
    assert!(matches!(reader.read_exact(&mut [0u8; 1]), Err(ReadError::UnexpectedEnd)));
    let mut reader = opened(&bytes);
    reader.skip_bytes(CHUNK_LEN as u32 + 98);
    let mut rest = [0u8; 3];
    assert!(matches!(reader.read_exact(&mut rest), Err(ReadError::UnexpectedEnd)));
    assert_eq!(&rest[..2], &bytes[CHUNK_LEN + 98..]);
    assert_eq!(rest[2], 0);
}

#[test]
fn a_source_too_short_for_a_track_fails() {
    let bytes = vec![0u8; 10];
    assert!(matches!(
        ChannelReader::open(&mut ByteSource::plain(&bytes), 11),
        Err(ReadError::UnexpectedEnd)
    ));
}

#[test]
fn quantities_of_any_length_are_read_from_chunks() {
    let mut reader = opened(&[0x8F, 0xFF, 0xFF, 0xFF, 0x7F, 0x81, 0x00, 0x80]);
    assert_eq!(read_varint_from_stream(&mut reader).unwrap(), 0xFFFF_FFFF);
    assert_eq!(read_varint_from_stream(&mut reader).unwrap(), 128);
    assert!(matches!(read_varint_from_stream(&mut reader), Err(ReadError::UnexpectedEnd)));
    assert!(matches!(read_varint_from_stream(&mut reader), Err(ReadError::UnexpectedEnd)));
}

#[test]
fn short_quantities_are_read_alike() {
    let samples: [&[u8]; 5] =
        [&[0x00], &[0x7F, 0x01], &[0x81, 0x00], &[0xFF, 0xFF, 0x7F], &[0x81, 0x80, 0x80, 0x00]];
    for bytes in samples {
        let mut offset: usize = 0;
        let value = read_varint(bytes, &mut offset).unwrap();
        assert_eq!(read_varint_from_stream(&mut opened(bytes)).unwrap(), value);
    }
}

#[test]
fn a_damaged_stream_gives_an_error_or_fewer_tracks() {
    let tracks: Vec<Vec<u8>> = (0..50u32)
        .map(|n| (0..400u32).flat_map(|i| [0x01, 0x90, (i * n % 128) as u8, 64]).collect())
        .collect();
    let packed = compressed(&file(96, &tracks));
    for place in [40, packed.len() / 2, packed.len() - 30] {
        let mut damaged = packed.clone();
        damaged[place] ^= 0x55;
        match scan_stream(ByteSource::xz(&damaged)) {
            Ok(scan) => assert!(scan.tracks_count <= 50),
            Err(AnalysisError::Read(ReadError::Decoder(_))) => {}
            Err(error) => panic!("{:?}", error),
        }
    }
}

#[test]
fn a_read_takes_the_next_chunk_where_it_is_needed() {
    let mut reader = ChannelReader {
        rx: VecDeque::from([vec![1, 2, 3], vec![4]]),
        current_chunk: vec![],
        pos: 0,
        peeked_byte: Some(9),
    };
    let mut buf = [0u8; 3];
    assert_eq!(reader.read(&mut buf), 3);
    assert_eq!(buf, [9, 1, 2]);
    assert_eq!(reader.peeked_byte, None);
    assert_eq!(reader.current_chunk, vec![1, 2, 3]);
    assert_eq!(reader.pos, 2);
    assert_eq!(reader.rx.len(), 1);
    assert_eq!(reader.read(&mut buf), 1);
    assert_eq!((reader.current_chunk.clone(), reader.pos), (vec![1, 2, 3], 3));
    assert_eq!(reader.read(&mut buf), 1);
    assert_eq!((reader.current_chunk.clone(), reader.pos), (vec![4], 1));
    assert_eq!(reader.read(&mut buf), 0);
    assert_eq!((reader.current_chunk.clone(), reader.pos), (vec![4], 1));
}

#[test]
fn a_byte_put_back_is_read_without_a_chunk() {
    let mut reader = ChannelReader {
        rx: VecDeque::from([vec![7]]),
        current_chunk: vec![5, 6],
        pos: 2,
        peeked_byte: None,
    };
    let mut one = [0u8; 1];
    reader.unget_byte(8);
    assert_eq!(reader.read(&mut one), 1);
    assert_eq!(one, [8]);
    reader.unget_byte(9);
    assert!(reader.read_exact(&mut one).is_ok());
    assert_eq!(one, [9]);
    assert_eq!(reader.peeked_byte, None);
    assert_eq!(reader.current_chunk, vec![5, 6]);
    assert_eq!(reader.pos, 2);
    assert_eq!(reader.rx.len(), 1);
}

#[test]
fn a_cut_off_track_is_reported_by_its_source() {
    let bytes = sample();
    let cut = &bytes[..bytes.len() - 1];
    let packed = compressed(cut);
    let mut analysis = StreamAnalysis::new(ByteSource::xz(&packed)).unwrap();
    assert!(matches!(
        analysis.next_event(),
        Err(AnalysisError::Read(ReadError::Decoder(_)))
    ));
    assert_eq!(analysis.tracks_count, 1);
    let mut analysis = StreamAnalysis::new(ByteSource::plain(cut)).unwrap();
    assert!(matches!(
        analysis.next_event(),
        Err(AnalysisError::Read(ReadError::UnexpectedEnd))
    ));
    assert_eq!(analysis.tracks_count, 1);
}

#[test]
fn the_order_of_tracks_does_not_matter() {
    let conductor = vec![
        0x20, 0xFF, 0x51, 0x03, 0x0F, 0x42, 0x40, 0x60, 0xFF, 0x51, 0x03, 0x03, 0xD0, 0x90,
    ];
    let drums = vec![
        0x00, 0x99, 36, 100, 0x60, 36, 100, 0x60, 36, 100, 0x30, 0xFF, 0x51, 0x03, 0x07, 0xA1,
        0x20, 0x70, 0xB9, 1, 2,
    ];
    let lead = vec![0x40, 0x90, 60, 100, 0x81, 0x40, 61, 100, 0x83, 0x00, 62, 100];
    let orders: [[&Vec<u8>; 3]; 6] = [
        [&conductor, &drums, &lead],
        [&conductor, &lead, &drums],
        [&drums, &conductor, &lead],
        [&drums, &lead, &conductor],
        [&lead, &conductor, &drums],
        [&lead, &drums, &conductor],
    ];
    let mut results: Vec<(MidiStats, usize)> = Vec::new();
    for order in orders {
        let tracks: Vec<Vec<u8>> = order.iter().map(|track| track.to_vec()).collect();
        let bytes = file(96, &tracks);
        results.push(analyse(|| ByteSource::plain(&bytes)).unwrap());
    }
    assert_eq!(results[0].0.total_notes, 6);
    assert_eq!(results[0].0.total_cc_events, 1);
    for result in &results {
        assert_eq!(*result, results[0]);
    }
}

#[test]
fn the_clock_of_a_file_follows_its_tempo_changes() {
    let conductor = vec![
        0x20, 0xFF, 0x51, 0x03, 0x0F, 0x42, 0x40, 0x60, 0xFF, 0x51, 0x03, 0x03, 0xD0, 0x90,
    ];
    let drums = vec![
        0x00, 0x99, 36, 100, 0x60, 36, 100, 0x40, 0xFF, 0x51, 0x03, 0x00, 0x00, 0x07, 0x70, 36,
        100,
    ];
    let bytes = file(96, &[drums, conductor]);
    let scan = scan_stream(ByteSource::plain(&bytes)).unwrap();
    let mut analysis = StandardAnalysis::new(&bytes).unwrap();
    let mut time: u64 = 0;
    let mut times: Vec<u64> = Vec::new();
    while let Some(due) = analysis.pop_event() {
        time += due.delta_ticks as u64 * due.tempo_us;
        times.push(time);
        let expected = match scan.tempo_map.locate(due.event.tick) {
            TempoPosition::BeforeFirst => due.event.tick as u64 * 500_000,
            TempoPosition::After { idx, delta_ticks, tempo_us } => {
                let segments = &scan.segments[..=idx];
                segments.iter().map(|s| s.delta_ticks as u64 * s.tempo_us).sum::<u64>()
                    + delta_ticks as u64 * tempo_us
            }
        };
        assert_eq!(time, expected);
        analysis.apply_event(due.event).unwrap();
    }
    assert_eq!(
        times,
        vec![0, 16_000_000, 80_000_000, 112_000_000, 120_000_000, 120_000_784]
    );
}

#[test]
fn a_pass_hands_out_and_counts_every_event() {
    let bytes = sample();
    let mut analysis = StreamAnalysis::new(ByteSource::plain(&bytes)).unwrap();
    let mut ticks: Vec<u32> = Vec::new();
    while let Some(event) = analysis.next_event().unwrap() {
        let sec = ticks.len();
        ticks.push(event.abs_tick);
        analysis.record(&event, sec).unwrap();
    }
    assert_eq!(ticks, vec![0, 96, 192, 192, 192, 384]);
    assert_eq!(&analysis.tally.nps_buckets[..7], &[1, 1, 1, 0, 0, 1, 0]);
    let (stats, last_second) = analysis.finish();
    assert_eq!(stats.total_notes, 4);
    assert_eq!(stats.total_cc_events, 1);
    assert_eq!(stats.tracks_count, 2);
    assert_eq!(stats.max_nps, 1);
    assert_eq!(last_second, 5);
}
