use midi_counter::report::{format_num, format_polyphony};

#[test]
fn numbers_are_grouped_by_three() {
    assert_eq!(format_num(0), "0");
    assert_eq!(format_num(7), "7");
    assert_eq!(format_num(999), "999");
    assert_eq!(format_num(1000), "1,000");
    assert_eq!(format_num(12345), "12,345");
    assert_eq!(format_num(123456), "123,456");
    assert_eq!(format_num(1234567), "1,234,567");
    assert_eq!(format_num(u64::MAX), "18,446,744,073,709,551,615");
}

#[test]
fn text_without_commas_is_the_number() {
    for n in [0u64, 10, 100, 1001, 99999, 1_000_000_007, u64::MAX] {
        assert_eq!(format_num(n).replace(',', ""), format!("{}", n));
    }
}

#[test]
fn unknown_polyphony_is_said_to_be() {
    assert_eq!(format_polyphony(1234), "1,234");
    assert_eq!(format_polyphony(1), "1");
    assert_eq!(format_polyphony(0), "N/A (Stream Mode)");
    assert_eq!(format_polyphony(-1), "N/A (Stream Mode)");
}
