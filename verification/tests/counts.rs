use midi_counter::event_queue::{EventQueue, NextEvent};
use midi_counter::stream_tally::{StreamTally, SECONDS};
use midi_counter::tally::Tally;
use midi_counter::track_event::TrackEvent;
use midi_counter::track_parser::ParsedMidiEvent;
use std::cmp::Ordering;

fn event(tick: u32, track_idx: usize) -> NextEvent {
    NextEvent { tick, track_idx }
}

fn note(abs_tick: u32) -> ParsedMidiEvent {
    ParsedMidiEvent { abs_tick, is_note_on: true, is_cc: false }
}

fn control(abs_tick: u32) -> ParsedMidiEvent {
    ParsedMidiEvent { abs_tick, is_note_on: false, is_cc: true }
}

#[test]
fn earlier_events_are_greater() {
    assert_eq!(event(1, 0).cmp(&event(2, 0)), Ordering::Greater);
    assert_eq!(event(2, 0).cmp(&event(1, 5)), Ordering::Less);
    assert_eq!(event(2, 0).cmp(&event(2, 5)), Ordering::Equal);
    assert_eq!(event(1, 0).partial_cmp(&event(2, 0)), Some(Ordering::Greater));
    assert!(event(3, 0) < event(2, 0));
    assert!(event(3, 0) <= event(3, 1));
}

#[test]
fn events_come_out_in_order() {
    let mut queue = EventQueue::with_capacity(4);
    assert_eq!(queue.pop(), None);
    let mut seed: u32 = 12345;
    let mut pushed: Vec<(u32, usize)> = Vec::new();
    for track_idx in 0..500 {
        seed = seed.wrapping_mul(1_103_515_245).wrapping_add(12345);
        let tick = seed >> 24;
        pushed.push((tick, track_idx));
        queue.push(event(tick, track_idx));
    }
    let mut popped: Vec<(u32, usize)> = Vec::new();
    let mut last: u32 = 0;
    while let Some(next) = queue.pop() {
        assert!(last <= next.tick);
        last = next.tick;
        popped.push((next.tick, next.track_idx));
    }
    pushed.sort();
    popped.sort();
    assert_eq!(pushed, popped);
}

#[test]
fn ties_come_out_as_from_a_binary_heap() {
    let mut queue = EventQueue::with_capacity(8);
    for track_idx in 0..8 {
        queue.push(event(0, track_idx));
    }
    let mut order: Vec<usize> = Vec::new();
    while let Some(next) = queue.pop() {
        order.push(next.track_idx);
    }
    let mut heap: std::collections::BinaryHeap<ByTick> = std::collections::BinaryHeap::new();
    for track_idx in 0..8 {
        heap.push(ByTick { tick: 0, track_idx });
    }
    let mut expected: Vec<usize> = Vec::new();
    while let Some(next) = heap.pop() {
        expected.push(next.track_idx);
    }
    assert_eq!(order, expected);
}

struct ByTick {
    tick: u32,
    track_idx: usize,
}

impl PartialEq for ByTick {
    fn eq(&self, other: &Self) -> bool {
        self.tick == other.tick
    }
}

impl Eq for ByTick {}

impl PartialOrd for ByTick {
    fn partial_cmp(&self, other: &Self) -> Option<Ordering> {
        Some(self.cmp(other))
    }
}

impl Ord for ByTick {
    fn cmp(&self, other: &Self) -> Ordering {
        other.tick.cmp(&self.tick)
    }
}

#[test]
fn polyphony_rises_and_falls() {
    let mut tally = Tally::new();
    assert!(tally.count(TrackEvent::NoteOff));
    assert_eq!(tally.current_polyphony, 0);
    for _ in 0..3 {
        assert!(tally.count(TrackEvent::NoteOn));
    }
    assert!(tally.count(TrackEvent::NoteOff));
    assert!(tally.count(TrackEvent::NoteOn));
    assert_eq!(tally.current_polyphony, 3);
    assert_eq!(tally.max_polyphony, 3);
    assert_eq!(tally.total_notes, 4);
}

#[test]
fn the_fullest_window_is_kept() {
    let mut tally = Tally::new();
    for notes in [2, 5, 0, 3] {
        for _ in 0..notes {
            assert!(tally.count(TrackEvent::NoteOn));
        }
        assert_eq!(tally.notes_in_current_second, notes);
        tally.close_window();
        assert_eq!(tally.notes_in_current_second, 0);
    }
    assert_eq!(tally.max_nps, 5);
    assert_eq!(tally.total_notes, 10);
}

#[test]
fn tempo_and_controllers_are_kept_apart() {
    let mut tally = Tally::new();
    assert_eq!(tally.current_tempo_us, 500_000);
    assert!(tally.count(TrackEvent::Tempo(250_000)));
    assert!(tally.count(TrackEvent::ControlChange));
    assert!(tally.count(TrackEvent::Other));
    assert_eq!(tally.current_tempo_us, 250_000);
    assert_eq!(tally.total_cc_events, 1);
    assert_eq!(tally.total_notes, 0);
}

#[test]
fn full_counts_are_not_raised() {
    let full = Tally {
        total_notes: u64::MAX,
        total_cc_events: u64::MAX,
        max_polyphony: i32::MAX,
        current_polyphony: i32::MAX,
        max_nps: u64::MAX,
        ..Tally::new()
    };
    let mut tally = full;
    assert!(!tally.count(TrackEvent::NoteOn));
    assert!(!tally.count(TrackEvent::ControlChange));
    assert_eq!(tally, full);
    assert!(tally.count(TrackEvent::NoteOff));
    assert_eq!(tally.current_polyphony, i32::MAX - 1);
}

#[test]
fn buckets_count_the_notes_of_each_second() {
    let mut tally = StreamTally::new();
    assert_eq!(tally.max_nps(), 0);
    for sec in [3, 0, 3, 7, 3, 7] {
        assert!(tally.record(&note(0), sec));
    }
    assert!(tally.record(&control(0), 2));
    assert_eq!(tally.nps_buckets[3], 3);
    assert_eq!(tally.nps_buckets[7], 2);
    assert_eq!(tally.nps_buckets[2], 0);
    assert_eq!(tally.total_notes, 6);
    assert_eq!(tally.total_cc_events, 1);
    assert_eq!(tally.max_calculated_sec, 7);
    assert_eq!(tally.max_nps(), 3);
}

#[test]
fn notes_after_eight_hours_are_not_counted() {
    let mut tally = StreamTally::new();
    assert_eq!(SECONDS, 28800);
    assert!(tally.record(&note(0), SECONDS - 1));
    assert!(tally.record(&note(0), SECONDS));
    assert!(tally.record(&control(0), SECONDS));
    let silent = ParsedMidiEvent { abs_tick: 0, is_note_on: false, is_cc: false };
    assert!(tally.record(&silent, 0));
    assert_eq!(tally.total_notes, 1);
    assert_eq!(tally.total_cc_events, 1);
    assert_eq!(tally.max_calculated_sec, 28799);
}

#[test]
fn full_stream_counts_are_not_raised() {
    let mut tally = StreamTally::new();
    tally.total_cc_events = u64::MAX;
    assert!(!tally.record(&control(0), 0));
    assert_eq!(tally.total_cc_events, u64::MAX);
    assert!(tally.record(&note(0), 0));
    tally.total_notes = u64::MAX;
    tally.nps_buckets[0] = u64::MAX;
    assert!(!tally.record(&note(0), 0));
    assert!(tally.record(&note(0), SECONDS));
    assert_eq!(tally.total_notes, u64::MAX);
}

#[test]
fn where_notes_started_some_sounded() {
    let mut tally = Tally::new();
    assert!(tally.count(TrackEvent::NoteOn));
    assert_eq!((tally.max_polyphony, tally.max_nps + tally.notes_in_current_second), (1, 1));
    assert!(tally.count(TrackEvent::NoteOff));
    tally.close_window();
    assert_eq!((tally.max_polyphony, tally.max_nps + tally.notes_in_current_second), (1, 1));
}
