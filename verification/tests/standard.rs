use midi_counter::byte_source::ReadError;
use midi_counter::standard::{
    find_tracks, max_track_buffer_size, parse_header, AnalysisError, MidiStats, StandardAnalysis,
};

/// A file with the given ticks per quarter note and tracks.
fn file(division: u16, tracks: &[Vec<u8>]) -> Vec<u8> {
    let mut bytes: Vec<u8> = b"MThd\x00\x00\x00\x06\x00\x01".to_vec();
    bytes.extend_from_slice(&(tracks.len() as u16).to_be_bytes());
    bytes.extend_from_slice(&division.to_be_bytes());
    for track in tracks {
        bytes.extend_from_slice(b"MTrk");
        bytes.extend_from_slice(&(track.len() as u32).to_be_bytes());
        bytes.extend_from_slice(track);
    }
    bytes
}

/// The counts of a file, with its length in seconds.
fn analyse(file: &[u8]) -> Result<(MidiStats, f64), AnalysisError> {
    let mut analysis = StandardAnalysis::new(file)?;
    let ticks_per_quarter = analysis.division as f64;
    let mut micros = 0.0f64;
    let mut window_start = 0.0f64;
    while let Some(due) = analysis.pop_event() {
        if due.delta_ticks > 0 {
            micros += due.delta_ticks as f64 * due.tempo_us as f64 / ticks_per_quarter;
        }
        if micros - window_start >= 1_000_000.0 {
            analysis.close_window();
            window_start = micros;
        }
        analysis.apply_event(due.event)?;
    }
    Ok((analysis.finish(), micros / 1_000_000.0))
}

#[test]
fn headers_are_checked() {
    let good = file(480, &[]);
    assert!(matches!(parse_header(&good), Ok(480)));
    assert!(matches!(
        parse_header(&good[..13]),
        Err(AnalysisError::Read(ReadError::UnexpectedEnd))
    ));
    let mut bad = good.clone();
    bad[3] = b'D';
    assert!(matches!(parse_header(&bad), Err(AnalysisError::MissingHeader)));
    assert!(matches!(analyse(&bad), Err(AnalysisError::MissingHeader)));
    assert!(matches!(
        analyse(&good[..4]),
        Err(AnalysisError::Read(ReadError::UnexpectedEnd))
    ));
    let (stats, secs) = analyse(&good).unwrap();
    assert_eq!(stats.tracks_count, 0);
    assert_eq!(stats.ppqn, 480);
    assert_eq!(stats.total_notes, 0);
    assert_eq!(secs, 0.0);
}

#[test]
fn tracks_are_found_behind_anything() {
    let mut bytes = file(96, &[vec![1, 2, 3]]);
    bytes.extend_from_slice(b"junk!");
    bytes.extend_from_slice(b"MTrk\x00\x00\x00\x02\x07\x08");
    bytes.extend_from_slice(b"MTr");
    assert_eq!(find_tracks(&bytes), vec![(22, 25), (38, 40)]);
    assert_eq!(find_tracks(&bytes[..10]), vec![]);
    let mut longer = file(96, &[]);
    longer.extend_from_slice(b"MTrk\x00\x00\x01\x00MTrk\x00\x00\x00\x00");
    assert_eq!(find_tracks(&longer), vec![(22, 278)]);
}

#[test]
fn tracks_do_not_overlap() {
    let nested = b"MTrk\x00\x00\x00\x00".to_vec();
    let bytes = file(96, &[nested, vec![0, 0xF1]]);
    assert_eq!(find_tracks(&bytes), vec![(22, 30), (38, 40)]);
}

#[test]
fn many_tracks_share_the_buffers() {
    assert_eq!(max_track_buffer_size(0), 1024 * 1024);
    assert_eq!(max_track_buffer_size(4096), 1024 * 1024);
    assert_eq!(max_track_buffer_size(4097), 2 * 1024 * 1024 * 1024 / 4097);
    assert_eq!(max_track_buffer_size(32768), 64 * 1024);
    assert_eq!(max_track_buffer_size(1_000_000), 64 * 1024);
}

#[test]
fn two_tracks_sound_together() {
    let first = vec![0x00, 0x90, 60, 100, 0x83, 0x60, 0x80, 60, 64];
    let second = vec![
        0x00, 0x90, 64, 90, // together with the first
        0x81, 0x70, 0xB0, 7, 127, // 240 ticks later
        0x81, 0x70, 0x90, 64, 0, // another 240 ticks later
        0x00, 0xFF, 0x2F, 0x00,
    ];
    let (stats, secs) = analyse(&file(480, &[first, second])).unwrap();
    assert_eq!(
        stats,
        MidiStats {
            ppqn: 480,
            tracks_count: 2,
            total_notes: 2,
            max_polyphony: 2,
            max_nps: 2,
            total_cc_events: 1,
        }
    );
    assert_eq!(secs, 0.5);
}

#[test]
fn tempo_changes_stretch_time() {
    let track = vec![
        0x00, 0xFF, 0x51, 0x03, 0x0F, 0x42, 0x40, // one second per quarter note
        0x00, 0x90, 60, 100, // three notes in the first second
        0x10, 61, 100,
        0x10, 62, 100,
        0x40, 63, 100, // 96 ticks, one second, after the start
        0x30, 64, 100,
        0x00, 0xFF, 0x51, 0x03, 0x07, 0xA1, 0x20, // half a second
        0x60, 0x80, 60, 0, // a quarter note later
    ];
    let (stats, secs) = analyse(&file(96, &[track])).unwrap();
    assert_eq!(stats.total_notes, 5);
    assert_eq!(stats.max_nps, 3);
    assert_eq!(stats.max_polyphony, 5);
    assert_eq!(secs, 1.0 + 0.5 + 0.5);
}

#[test]
fn events_are_due_in_order() {
    let late = vec![0x50, 0x90, 60, 1, 0x10, 61, 1];
    let early = vec![0x05, 0x90, 60, 1, 0x50, 61, 1];
    let bytes = file(96, &[late, early]);
    let mut analysis = StandardAnalysis::new(&bytes).unwrap();
    let mut seen: Vec<(u32, usize, u32)> = Vec::new();
    while let Some(due) = analysis.pop_event() {
        seen.push((due.event.tick, due.event.track_idx, due.delta_ticks));
        assert_eq!(due.tempo_us, 500_000);
        analysis.apply_event(due.event).unwrap();
    }
    assert_eq!(seen, vec![(0x05, 1, 0x05), (0x50, 0, 0x4B), (0x55, 1, 5), (0x60, 0, 0x0B)]);
    assert_eq!(analysis.finish().total_notes, 4);
}

#[test]
fn whole_tracks_are_counted_through_small_windows() {
    let mut track: Vec<u8> = Vec::new();
    for i in 0..2_000_000u32 {
        track.extend_from_slice(&[0x00, 0x90, (i % 128) as u8, 64]);
    }
    track.extend_from_slice(&[0x00, 0xB0, 1, 2]);
    let (stats, _) = analyse(&file(480, &[track])).unwrap();
    assert_eq!(stats.total_notes, 2_000_000);
    assert_eq!(stats.total_cc_events, 1);
    assert_eq!(stats.max_nps, 2_000_000);
}

#[test]
fn empty_tracks_are_counted_as_tracks() {
    let (stats, secs) = analyse(&file(480, &[vec![], vec![0x05]])).unwrap();
    assert_eq!(stats.tracks_count, 2);
    assert_eq!(stats.total_notes, 0);
    assert_eq!(secs, 5.0 * 500_000.0 / 480.0 / 1_000_000.0);
}

#[test]
fn a_track_that_ends_inside_a_note_takes_zeros() {
    let (stats, _) = analyse(&file(480, &[vec![0x00, 0x90, 60]])).unwrap();
    assert_eq!(stats.total_notes, 0);
    let (stats, _) = analyse(&file(480, &[vec![0x00, 0xB0]])).unwrap();
    assert_eq!(stats.total_cc_events, 1);
}

#[test]
fn a_track_that_ends_behind_the_file_overruns_its_buffer() {
    let mut bytes = file(480, &[]);
    bytes.extend_from_slice(b"MTrk\x00\x00\x0B\xB8\x00\x90\x3C\x64");
    assert!(matches!(analyse(&bytes), Err(AnalysisError::Overrun)));
    let mut far = file(480, &[]);
    far.extend_from_slice(&vec![0x00; 2000]);
    far.extend_from_slice(b"MTrk\x00\x00\x00\x40\x00\x90\x3C\x64");
    assert!(matches!(StandardAnalysis::new(&far), Err(AnalysisError::Overrun)));
}

#[test]
fn an_analysis_sees_no_more_events_than_bytes() {
    let noise: Vec<u8> = (0..3000u32).map(|i| (i * 37 % 127) as u8).collect();
    let bytes = file(480, &[noise.clone(), noise]);
    let mut analysis = StandardAnalysis::new(&bytes).unwrap();
    let mut events: usize = 0;
    while let Some(due) = analysis.pop_event() {
        events += 1;
        analysis.apply_event(due.event).unwrap();
    }
    assert!(events <= 2 + 6000);
    assert_eq!(analysis.finish().tracks_count, 2);
}
