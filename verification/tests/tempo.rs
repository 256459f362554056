use midi_counter::tempo_map::{TempoChange, TempoMap, TempoPosition, TempoSegment};
use midi_counter::tempo_scan::scan_track;

fn change(abs_tick: u32, tempo_us: u64) -> TempoChange {
    TempoChange { abs_tick, tempo_us }
}

fn segment(delta_ticks: u32, tempo_us: u64) -> TempoSegment {
    TempoSegment { delta_ticks, tempo_us }
}

#[test]
fn a_map_without_changes() {
    let mut map = TempoMap::new();
    assert_eq!(map.build_timeline(), vec![]);
    assert_eq!(map.locate(0), TempoPosition::BeforeFirst);
    assert_eq!(map.locate(u32::MAX), TempoPosition::BeforeFirst);
}

#[test]
fn changes_are_sorted_and_keep_their_order_at_one_tick() {
    let mut map = TempoMap::new();
    map.changes = vec![
        change(960, 1),
        change(480, 2),
        change(960, 3),
        change(0, 4),
        change(480, 5),
        change(960, 6),
    ];
    let segments = map.build_timeline();
    assert_eq!(
        map.changes,
        vec![
            change(0, 4),
            change(480, 2),
            change(480, 5),
            change(960, 1),
            change(960, 3),
            change(960, 6),
        ]
    );
    assert_eq!(
        segments,
        vec![
            segment(0, 500_000),
            segment(480, 4),
            segment(0, 2),
            segment(480, 5),
            segment(0, 1),
            segment(0, 3),
        ]
    );
}

#[test]
fn segments_add_up_to_the_ticks_of_changes() {
    let mut map = TempoMap::new();
    for i in 0..100u32 {
        map.changes.push(change((i * 37) % 101, i as u64));
    }
    let segments = map.build_timeline();
    let mut ticks: u32 = 0;
    for i in 0..100 {
        ticks += segments[i].delta_ticks;
        assert_eq!(ticks, map.changes[i].abs_tick);
    }
}

#[test]
fn ticks_are_located_among_changes() {
    let mut map = TempoMap::new();
    map.changes = vec![change(100, 1), change(200, 2), change(200, 3), change(300, 4)];
    map.build_timeline();
    assert_eq!(map.locate(99), TempoPosition::BeforeFirst);
    let after = |idx, delta_ticks, tempo_us| TempoPosition::After { idx, delta_ticks, tempo_us };
    assert_eq!(map.locate(100), after(0, 0, 1));
    assert_eq!(map.locate(199), after(0, 99, 1));
    assert_eq!(map.locate(200), after(2, 0, 3));
    assert_eq!(map.locate(250), after(2, 50, 3));
    assert_eq!(map.locate(1300), after(3, 1000, 4));
}

#[test]
fn tempo_changes_are_collected() {
    let mut changes = vec![change(7, 7)];
    let track: Vec<u8> = vec![
        0x00, 0xFF, 0x51, 0x03, 0x0F, 0x42, 0x40, // one second per quarter note
        0x60, 0x90, 60, 100, // a note
        0x00, 62, 100, // running status
        0x81, 0x00, 0xFF, 0x51, 0x03, 0x07, 0xA1, 0x20, // half a second
        0x00, 0xFF, 0x51, 0x02, 0x01, 0x02, // of the wrong length
        0x00, 0xF0, 0x02, 0x51, 0xF7, // a system message
        0x10, 0xC0, 0x05, // a program
        0x00, 0xFF, 0x51, 0x03, 0x01, 0x02, // cut short
    ];
    scan_track(&track, &mut changes);
    assert_eq!(changes, vec![change(7, 7), change(0, 1_000_000), change(0x60 + 0x80, 500_000)]);
}

#[test]
fn ticks_stop_at_the_largest() {
    let mut changes: Vec<TempoChange> = Vec::new();
    let track: Vec<u8> = vec![
        0x8F, 0xFF, 0xFF, 0xFF, 0x7F, 0xFF, 0x51, 0x03, 0x00, 0x00, 0x01,
        0x05, 0xFF, 0x51, 0x03, 0x00, 0x00, 0x02,
    ];
    scan_track(&track, &mut changes);
    assert_eq!(changes, vec![change(u32::MAX, 1), change(u32::MAX, 2)]);
}

#[test]
fn odd_ends_of_tracks_have_no_changes() {
    let ends: [&[u8]; 6] = [
        &[],
        &[0x81],
        &[0x00],
        &[0x00, 0xFF],
        &[0x00, 0xFF, 0x51, 0x81],
        &[0x00, 0xF0, 0x7F, 0x00],
    ];
    for track in ends {
        let mut changes: Vec<TempoChange> = Vec::new();
        scan_track(track, &mut changes);
        assert!(changes.is_empty());
    }
}

/// The time of a tick, in microseconds times the ticks per quarter note.
fn time_of(map: &TempoMap, segments: &[TempoSegment], tick: u32) -> u64 {
    match map.locate(tick) {
        TempoPosition::BeforeFirst => tick as u64 * 500_000,
        TempoPosition::After { idx, delta_ticks, tempo_us } => {
            let before: u64 =
                segments[..=idx].iter().map(|s| s.delta_ticks as u64 * s.tempo_us).sum();
            before + delta_ticks as u64 * tempo_us
        }
    }
}

#[test]
fn later_ticks_are_not_earlier() {
    let mut map = TempoMap::new();
    map.changes = vec![change(300, 0), change(0, 7), change(200, 1_000_000), change(200, 3)];
    let segments = map.build_timeline();
    assert_eq!(time_of(&map, &segments, 0), 0);
    assert_eq!(time_of(&map, &segments, 200), 1400);
    assert_eq!(time_of(&map, &segments, 250), 1550);
    assert_eq!(time_of(&map, &segments, 300), 1700);
    assert_eq!(time_of(&map, &segments, 400), 1700);
    let mut last: u64 = 0;
    for tick in 0..500 {
        let time = time_of(&map, &segments, tick);
        assert!(last <= time);
        last = time;
    }
}
