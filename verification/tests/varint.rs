use midi_counter::midi_parser::{
    read_varint, read_varint_from_cursor, read_varint_unchecked, TrackCursor,
};
use midi_counter::varint::{read_u16_be, read_u24_be, read_u32_be};

/// A number written as a quantity.
fn written(v: u32) -> Vec<u8> {
    let mut bytes = vec![(v & 0x7F) as u8];
    let mut rest = v >> 7;
    while rest > 0 {
        bytes.insert(0, (rest & 0x7F) as u8 | 0x80);
        rest >>= 7;
    }
    bytes
}

#[test]
fn read_varint_takes_at_most_four_bytes() {
    let data: [u8; 6] = [0x81, 0x82, 0x83, 0x84, 0x05, 0x00];
    let mut offset: usize = 0;
    assert_eq!(read_varint(&data, &mut offset), Some((1 << 21) | (2 << 14) | (3 << 7) | 4));
    assert_eq!(offset, 4);
}

#[test]
fn read_varint_without_data_leaves_the_offset() {
    let data: [u8; 2] = [0x01, 0x02];
    let mut offset: usize = 2;
    assert_eq!(read_varint(&data, &mut offset), None);
    assert_eq!(offset, 2);
    offset = 9;
    assert_eq!(read_varint(&data, &mut offset), None);
    assert_eq!(offset, 9);
    assert_eq!(read_varint(&[], &mut 0), None);
}

#[test]
fn read_varint_ends_with_the_data() {
    let data: [u8; 2] = [0x81, 0x80];
    let mut offset: usize = 0;
    assert_eq!(read_varint(&data, &mut offset), Some(1 << 7));
    assert_eq!(offset, 2);
}

#[test]
fn written_quantities_are_read_back() {
    for v in [0u32, 1, 0x7F, 0x80, 0x2000, 0x3FFF, 0x4000, 0x1F_FFFF, 0x20_0000, 0x0FFF_FFFF] {
        let mut data = written(v);
        let len = data.len();
        data.push(0xFF);
        let mut offset: usize = 0;
        assert_eq!(read_varint(&data, &mut offset), Some(v));
        assert_eq!(offset, len);
        let mut unchecked: usize = 0;
        assert_eq!(read_varint_unchecked(&data, &mut unchecked), v);
        assert_eq!(unchecked, len);
        let mut cursor = TrackCursor::new(&data, 0);
        assert_eq!(read_varint_from_cursor(&mut cursor), v);
        assert_eq!(cursor.offset, len);
    }
}

#[test]
fn cursor_starts_at_the_front() {
    let data: [u8; 3] = [1, 2, 3];
    let cursor = TrackCursor::new(&data, 7);
    assert_eq!(cursor.data, &data);
    assert_eq!(cursor.offset, 0);
    assert_eq!(cursor.abs_tick, 0);
    assert_eq!(cursor.track_idx, 7);
    assert_eq!(cursor.last_status, 0);
    assert_eq!(cursor.end, 3);
}

#[test]
fn cursor_past_its_end_reads_zero() {
    let data: [u8; 1] = [0x7F];
    let mut cursor = TrackCursor::new(&data, 3);
    assert_eq!(read_varint_from_cursor(&mut cursor), 0x7F);
    assert_eq!(read_varint_from_cursor(&mut cursor), 0);
    assert_eq!(cursor.offset, 1);
    assert_eq!(cursor.track_idx, 3);
}

#[test]
fn cursor_stops_at_an_earlier_end() {
    let data: [u8; 4] = [0x01, 0x02, 0x03, 0x04];
    let mut cursor = TrackCursor::new(&data, 0);
    cursor.end = 1;
    assert_eq!(read_varint_from_cursor(&mut cursor), 1);
    assert_eq!(read_varint_from_cursor(&mut cursor), 0);
    assert_eq!(cursor.offset, 1);
}

#[test]
fn big_endian_numbers() {
    assert_eq!(read_u16_be(0x01, 0xE0), 480);
    assert_eq!(read_u16_be(0xFF, 0xFF), 0xFFFF);
    assert_eq!(read_u24_be(0x07, 0xA1, 0x20), 500_000);
    assert_eq!(read_u24_be(0xFF, 0xFF, 0xFF), 0xFF_FFFF);
    assert_eq!(read_u32_be(0x12, 0x34, 0x56, 0x78), 0x1234_5678);
    assert_eq!(read_u32_be(0xFF, 0xFF, 0xFF, 0xFF), 0xFFFF_FFFF);
}
