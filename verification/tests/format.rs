use bitruler::format::{
    byte_width, display_bytes, display_hex_digits, format_ascii, format_bin, format_hex,
    format_lines, Endian,
};

#[test]
fn formats_hex_without_leading_zeroes() {
    assert_eq!(
        format_hex(0x1234_1234_1234_1234, None, Endian::Big),
        "0x1234_1234_1234_1234"
    );
    assert_eq!(
        format_hex(0x1_2345_6789, None, Endian::Big),
        "0x1_2345_6789"
    );
    assert_eq!(format_hex(0x123_4567, None, Endian::Big), "0x123_4567");
    assert_eq!(format_hex(1, None, Endian::Big), "0x1");
    assert_eq!(format_hex(0, None, Endian::Big), "0x0");
}

#[test]
fn formats_bin_aligned_to_4_bits() {
    assert_eq!(
        format_bin(0x1234, None, Endian::Big),
        "0b0001_0010_0011_0100"
    );
    assert_eq!(format_bin(1, None, Endian::Big), "0b0001");
    assert_eq!(format_bin(0, None, Endian::Big), "0b0000");
}

#[test]
fn formats_ascii_from_bytes() {
    assert_eq!(format_ascii(0x4865_6c6c_6f, None, Endian::Big), "Hello");
    assert_eq!(format_ascii(0x41_7f, None, Endian::Big), "A.");
    assert_eq!(format_ascii(0, None, Endian::Big), ".");
}

#[test]
fn formats_display_bytes_in_little_endian() {
    assert_eq!(format_hex(0x1234_5678, None, Endian::Little), "0x7856_3412");
    assert_eq!(format_hex(0x123, None, Endian::Little), "0x2301");
    assert_eq!(
        format_bin(0x1234, None, Endian::Little),
        "0b0011_0100_0001_0010"
    );
    assert_eq!(format_ascii(0x4865_6c6c_6f, None, Endian::Little), "olleH");
}

#[test]
fn formats_all_text_area_lines() {
    assert_eq!(
        format_lines(0x1234, None, Endian::Big),
        vec![
            "HEX: 0x1234",
            "DEC: 4660",
            "OCT: 0o11064",
            "BIN: 0b0001_0010_0011_0100",
            "ASC: .4",
        ]
    );
}

#[test]
fn formats_text_area_with_fixed_hex_digits() {
    assert_eq!(format_hex(0x1234, Some(8), Endian::Big), "0x0000_1234");
    assert_eq!(
        format_bin(0x1234, Some(8), Endian::Big),
        "0b0000_0000_0000_0000_0001_0010_0011_0100"
    );
    assert_eq!(format_ascii(0x1234, Some(8), Endian::Big), "...4");
    assert_eq!(
        format_lines(0x1234, Some(8), Endian::Big),
        vec![
            "HEX: 0x0000_1234",
            "DEC: 4660",
            "OCT: 0o11064",
            "BIN: 0b0000_0000_0000_0000_0001_0010_0011_0100",
            "ASC: ...4",
        ]
    );
}

#[test]
fn display_bytes_reverse_for_little_endian() {
    assert_eq!(display_bytes(0x12_3456, None, Endian::Big), vec![0x12, 0x34, 0x56]);
    assert_eq!(display_bytes(0x12_3456, None, Endian::Little), vec![0x56, 0x34, 0x12]);
    assert_eq!(display_bytes(0x12, Some(5), Endian::Big), vec![0, 0, 0x12]);
    assert_eq!(display_bytes(u128::MAX, None, Endian::Big).len(), 16);
}

#[test]
fn display_hex_digits_pad_and_swap_bytes() {
    assert_eq!(display_hex_digits(0xabc, None, Endian::Big), "abc");
    assert_eq!(display_hex_digits(0xabc, Some(6), Endian::Big), "000abc");
    assert_eq!(display_hex_digits(0xabc, None, Endian::Little), "bc0a");
    assert_eq!(display_hex_digits(0xabc, Some(1), Endian::Big), "abc");
}

#[test]
fn byte_width_counts_significant_bytes() {
    assert_eq!(byte_width(0), 1);
    assert_eq!(byte_width(0xff), 1);
    assert_eq!(byte_width(0x100), 2);
    assert_eq!(byte_width(u128::MAX), 16);
}

#[test]
fn formats_decimal_and_octal_of_the_maximum() {
    let lines = format_lines(u128::MAX, None, Endian::Big);
    assert_eq!(lines[1], "DEC: 340282366920938463463374607431768211455");
    assert_eq!(lines[2], "OCT: 0o3777777777777777777777777777777777777777777");
    assert_eq!(format_lines(0, None, Endian::Big)[2], "OCT: 0o0");
}
