use midi_counter::buffered_cursor::{read_varint_buffered, BufferedTrackCursor};
use midi_counter::byte_source::ReadError;
use midi_counter::message::{classify, MessageKind};
use midi_counter::track_event::{read_event, TrackEvent};

fn numbered(len: usize) -> Vec<u8> {
    (0..len).map(|i| (i * 7 % 251) as u8).collect()
}

#[test]
fn a_small_window_reads_the_whole_track() {
    let file = numbered(5000);
    let mut cursor = BufferedTrackCursor::new(&file, 100, 4900, 2, 1024);
    assert_eq!(cursor.buffer_capacity, 1024);
    for i in 100..4900 {
        assert!(cursor.has_data());
        assert_eq!(cursor.peek_byte(), Some(file[i]));
        assert_eq!(cursor.read_byte(), Some(file[i]));
    }
    assert!(!cursor.has_data());
    assert_eq!(cursor.track_idx, 2);
}

#[test]
fn buffers_are_as_long_as_tracks_within_limits() {
    let file = numbered(5000);
    assert_eq!(BufferedTrackCursor::new(&file, 0, 10, 0, 4096).buffer_capacity, 1024);
    assert_eq!(BufferedTrackCursor::new(&file, 0, 3000, 0, 4096).buffer_capacity, 3000);
    assert_eq!(BufferedTrackCursor::new(&file, 0, 5000, 0, 4096).buffer_capacity, 4096);
    assert_eq!(BufferedTrackCursor::new(&file, 0, 5000, 0, 10).buffer_capacity, 1024);
    assert_eq!(BufferedTrackCursor::new(&file, 0, 5000, 0, usize::MAX).buffer_capacity, 5000);
}

#[test]
fn skipping_moves_through_windows() {
    let file = numbered(5000);
    let mut cursor = BufferedTrackCursor::new(&file, 0, 5000, 0, 1024);
    cursor.skip_bytes(10);
    assert_eq!(cursor.read_byte(), Some(file[10]));
    cursor.skip_bytes(3000);
    assert_eq!(cursor.read_byte(), Some(file[3011]));
    cursor.skip_bytes(4000);
    assert!(!cursor.has_data());
    assert_eq!(cursor.file_current_pos, 7012);
}

#[test]
fn past_its_track_a_cursor_reads_what_the_buffer_holds() {
    let file: [u8; 4] = [0x81, 0x82, 0x03, 0x04];
    let mut cursor = BufferedTrackCursor::new(&file, 0, 2, 0, 1024);
    assert_eq!(read_varint_buffered(&mut cursor), Some((1 << 14) | (2 << 7)));
    assert_eq!(cursor.file_current_pos, 3);
    cursor.skip_bytes(1021);
    assert_eq!(cursor.read_byte(), None);
    assert_eq!(cursor.file_current_pos, 1024);
}

#[test]
fn filling_past_the_file_fails() {
    let file: [u8; 4] = [1, 2, 3, 4];
    let mut cursor = BufferedTrackCursor::new(&file, 2, 9, 0, 1024);
    assert!(matches!(cursor.fill_buffer(), Err(ReadError::UnexpectedEnd)));
    assert_eq!(cursor.buffer_len, 0);
    assert_eq!(cursor.buffer_start_file_pos, 0);
    assert_eq!(&cursor.buffer[..4], &[3, 4, 0, 0]);
    assert_eq!(cursor.read_byte(), Some(0));
    let mut whole = BufferedTrackCursor::new(&file, 2, 4, 0, 1024);
    assert!(whole.fill_buffer().is_ok());
    assert_eq!(whole.buffer_len, 2);
}

#[test]
fn long_quantities_keep_their_low_bits() {
    let file: [u8; 6] = [0x8F, 0xFF, 0xFF, 0xFF, 0x7F, 0x00];
    let mut cursor = BufferedTrackCursor::new(&file, 0, 6, 0, 1024);
    assert_eq!(read_varint_buffered(&mut cursor), Some(0xFFFF_FFFF));
    let file: [u8; 6] = [0x90, 0x80, 0x80, 0x80, 0x05, 0x00];
    let mut cursor = BufferedTrackCursor::new(&file, 0, 6, 0, 1024);
    assert_eq!(read_varint_buffered(&mut cursor), Some(5));
    assert_eq!(cursor.file_current_pos, 5);
}

#[test]
fn status_bytes_have_kinds() {
    assert_eq!(classify(0x80), MessageKind::NoteOff);
    assert_eq!(classify(0x9F), MessageKind::NoteOn);
    assert_eq!(classify(0xA0), MessageKind::TwoData);
    assert_eq!(classify(0xB7), MessageKind::ControlChange);
    assert_eq!(classify(0xC0), MessageKind::OneData);
    assert_eq!(classify(0xDF), MessageKind::OneData);
    assert_eq!(classify(0xE3), MessageKind::TwoData);
    assert_eq!(classify(0xF0), MessageKind::SysEx);
    assert_eq!(classify(0xF7), MessageKind::SysEx);
    assert_eq!(classify(0xFF), MessageKind::Meta);
    assert_eq!(classify(0xF1), MessageKind::Unknown);
    assert_eq!(classify(0x00), MessageKind::Unknown);
}

#[test]
fn events_of_every_kind_are_read() {
    let track: Vec<u8> = vec![
        0x90, 60, 100, // a note starts
        62, 0, // running status, velocity zero
        0x80, 60, 64, // a note ends
        0xB0, 7, 127, // a controller
        0xA0, 1, 2, // aftertouch
        0xC0, 5, // a program
        0xFF, 0x51, 0x03, 0x07, 0xA1, 0x20, // a tempo
        0xFF, 0x51, 0x02, 0x01, 0x02, // a tempo of the wrong length
        0xFF, 0x01, 0x02, 0x41, 0x42, // a text
        0xF0, 0x02, 0x01, 0xF7, // a system message
        0xE0, 0x00, 0x40, // a pitch bend
        0xF1, // no meaning
    ];
    let mut cursor = BufferedTrackCursor::new(&track, 0, track.len() as u64, 0, 4096);
    let expected = [
        TrackEvent::NoteOn,
        TrackEvent::NoteOff,
        TrackEvent::NoteOff,
        TrackEvent::ControlChange,
        TrackEvent::Other,
        TrackEvent::Other,
        TrackEvent::Tempo(500_000),
        TrackEvent::Other,
        TrackEvent::Other,
        TrackEvent::Other,
        TrackEvent::Other,
        TrackEvent::Other,
    ];
    for event in expected {
        assert!(cursor.has_data());
        assert_eq!(read_event(&mut cursor), Some(event));
    }
    assert!(!cursor.has_data());
}
