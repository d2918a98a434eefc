use remkrom::image::{Context, InputFile, PAD_BYTE};
use remkrom::parse::{parse_hex, parse_key_val, HexOpt, ParseError};

fn input(data: &[u8], offset: u64) -> InputFile {
    InputFile { data: data.to_vec(), offset }
}

#[test]
fn hex_prefixed_number() {
    assert_eq!(parse_hex("0x1A"), Ok(26));
    assert_eq!(parse_hex("0X1a"), Ok(26));
    assert_eq!(parse_hex("0xff"), Ok(255));
}

#[test]
fn decimal_number() {
    assert_eq!(parse_hex("26"), Ok(26));
    assert_eq!(parse_hex("0"), Ok(0));
    assert_eq!(parse_hex("010"), Ok(10));
}

#[test]
fn invalid_digit_is_rejected() {
    assert_eq!(parse_hex("1G"), Err(ParseError::InvalidDigit));
    assert_eq!(parse_hex("1A"), Err(ParseError::InvalidDigit));
    assert_eq!(parse_hex("0x1G"), Err(ParseError::InvalidDigit));
    assert_eq!(parse_hex("+5"), Err(ParseError::InvalidDigit));
    assert_eq!(parse_hex("x10"), Err(ParseError::InvalidDigit));
}

#[test]
fn missing_digits_are_rejected() {
    assert_eq!(parse_hex(""), Err(ParseError::Empty));
    assert_eq!(parse_hex("0x"), Err(ParseError::Empty));
}

#[test]
fn largest_numbers() {
    assert_eq!(parse_hex("18446744073709551615"), Ok(u64::MAX));
    assert_eq!(parse_hex("0xFFFFFFFFFFFFFFFF"), Ok(u64::MAX));
    assert_eq!(parse_hex("18446744073709551616"), Err(ParseError::Overflow));
    assert_eq!(parse_hex("0x10000000000000000"), Err(ParseError::Overflow));
}

#[test]
fn hex_opt_from_str() {
    let h: HexOpt = "0x10".parse().unwrap();
    assert_eq!(h.val, 16);
    assert_eq!("zz".parse::<HexOpt>(), Err(ParseError::InvalidDigit));
}

#[test]
fn pair_with_hex_offset() {
    assert_eq!(parse_key_val("foo.bin:0x10"), Ok(("foo.bin".to_string(), 16)));
    assert_eq!(parse_key_val("a.bin:4"), Ok(("a.bin".to_string(), 4)));
    assert_eq!(parse_key_val(":5"), Ok((String::new(), 5)));
}

#[test]
fn pair_splits_at_first_colon() {
    assert_eq!(parse_hex("bar:10"), Err(ParseError::InvalidDigit));
    assert_eq!(parse_key_val("foo:bar:10"), Err(ParseError::InvalidDigit));
    assert_eq!(parse_key_val("foo:10:"), Err(ParseError::InvalidDigit));
}

#[test]
fn pair_without_colon_is_rejected() {
    assert_eq!(parse_key_val("foo.bin"), Err(ParseError::MissingSeparator));
    assert_eq!(parse_key_val(""), Err(ParseError::MissingSeparator));
}

#[test]
fn pair_with_empty_offset_is_rejected() {
    assert_eq!(parse_key_val("foo.bin:"), Err(ParseError::Empty));
}

#[test]
fn new_image_is_padding() {
    let c = Context::new(16);
    assert_eq!(c.rom, vec![0xFF; 16]);
    assert_eq!(c.cursor, 0);
    assert_eq!(PAD_BYTE, 0xFF);
}

#[test]
fn new_empty_image() {
    let c = Context::new(0);
    assert!(c.rom.is_empty());
    assert_eq!(c.cursor, 0);
}

#[test]
fn empty_input_keeps_image() {
    let mut c = Context::new(8);
    c.write_file_to_image(&input(&[], 0));
    assert_eq!(c.rom, vec![0xFF; 8]);
    assert_eq!(c.cursor, 0);
}

#[test]
fn input_is_written_at_cursor() {
    let mut c = Context::new(8);
    c.write_file_to_image(&input(&[1, 2, 3], 0));
    assert_eq!(c.rom, vec![1, 2, 3, 0xFF, 0xFF, 0xFF, 0xFF, 0xFF]);
    assert_eq!(c.cursor, 3);
}

#[test]
fn offset_skips_source_bytes() {
    let mut c = Context::new(8);
    c.write_file_to_image(&input(&[1, 2, 3, 4], 2));
    assert_eq!(c.rom, vec![3, 4, 0xFF, 0xFF, 0xFF, 0xFF, 0xFF, 0xFF]);
    assert_eq!(c.cursor, 2);
}

#[test]
fn offset_past_source_end_writes_nothing() {
    let mut c = Context::new(4);
    c.write_file_to_image(&input(&[1, 2], 7));
    assert_eq!(c.rom, vec![0xFF; 4]);
    assert_eq!(c.cursor, 0);
}

#[test]
fn inputs_follow_one_another() {
    let mut c = Context::new(8);
    c.write_file_to_image(&input(&[1, 2], 0));
    c.write_file_to_image(&input(&[9, 3, 4], 1));
    assert_eq!(c.rom, vec![1, 2, 3, 4, 0xFF, 0xFF, 0xFF, 0xFF]);
    assert_eq!(c.cursor, 4);
}

#[test]
fn write_past_end_grows_image() {
    let mut c = Context::new(4);
    c.write_file_to_image(&input(&[1, 2, 3, 4, 5, 6], 0));
    assert_eq!(c.rom, vec![1, 2, 3, 4, 5, 6]);
    assert_eq!(c.cursor, 6);
    let mut d = Context::new(4);
    d.write_file_to_image(&input(&[1, 2, 3], 0));
    d.write_file_to_image(&input(&[7, 8], 0));
    assert_eq!(d.rom, vec![1, 2, 3, 7, 8]);
}

#[test]
fn run_applies_inputs_in_order() {
    let mut c = Context::new(6);
    c.run(&vec![input(&[1], 0), input(&[], 0), input(&[5, 2, 3], 1)]);
    assert_eq!(c.rom, vec![1, 2, 3, 0xFF, 0xFF, 0xFF]);
    assert_eq!(c.cursor, 3);
}

#[test]
fn end_to_end_image() {
    let length = parse_hex("0x10").unwrap();
    let (path, offset) = parse_key_val("a.bin:0x4").unwrap();
    assert_eq!(path, "a.bin");
    let mut c = Context::new(length);
    c.run(&vec![input(&[1, 2, 3, 4], offset)]);
    assert_eq!(c.rom.len(), 16);
    assert_eq!(c.rom, vec![0xFF; 16]);
}

#[test]
fn run_past_end_is_the_placed_bytes() {
    let mut c = Context::new(3);
    c.run(&vec![input(&[1, 2], 0), input(&[0, 3, 4], 1)]);
    assert_eq!(c.rom, vec![1, 2, 3, 4]);
    assert_eq!(c.cursor, 4);
}

#[test]
fn hex_opt_matches_parse_hex() {
    for text in ["0x1A", "26", "1G", "", "0x", "18446744073709551616"] {
        assert_eq!(text.parse::<HexOpt>().map(|h| h.val), parse_hex(text));
    }
}
