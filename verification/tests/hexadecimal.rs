use snes_iris::text::hex_upper;

#[test]
fn pads_to_the_width() {
    assert_eq!(hex_upper(0x8000, 6), "008000");
    assert_eq!(hex_upper(0x2100, 4), "2100");
    assert_eq!(hex_upper(0x5, 2), "05");
    assert_eq!(hex_upper(0, 6), "000000");
    assert_eq!(hex_upper(0xABCDEF, 6), "ABCDEF");
}

#[test]
fn wide_values_keep_all_digits() {
    assert_eq!(hex_upper(0x1234567, 6), "1234567");
    assert_eq!(hex_upper(0xFFFF_FFFF, 2), "FFFFFFFF");
    assert_eq!(hex_upper(0x100, 2), "100");
}

#[test]
fn width_zero_prints_one_digit_at_least() {
    assert_eq!(hex_upper(0, 0), "0");
    assert_eq!(hex_upper(0, 1), "0");
    assert_eq!(hex_upper(0xF, 0), "F");
    assert_eq!(hex_upper(0x1F, 0), "1F");
}

#[test]
fn agrees_with_the_standard_formatter() {
    for &value in &[0u32, 9, 10, 15, 16, 255, 256, 0x7FFF, 0x8000, 0xFFFFFF, 0x1000000, u32::MAX] {
        for width in 0usize..10 {
            assert_eq!(hex_upper(value, width), format!("{:0width$X}", value, width = width));
        }
    }
}
