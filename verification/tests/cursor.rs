use binfarce::error::end_of_input;
use binfarce::parser::{parse_null_string, same_bytes, same_str, RawNumber, Stream, UnexpectedEof};
use binfarce::{ByteOrder, ParseError};

const BYTES: [u8; 8] = [0x01, 0x02, 0x03, 0x04, 0x05, 0x06, 0x07, 0x88];

#[test]
fn reads_unsigned_numbers_little_endian() {
    let mut s = Stream::new(&BYTES, ByteOrder::LittleEndian);
    assert_eq!(s.read::<u8>(), Ok(0x01));
    assert_eq!(s.read::<u16>(), Ok(0x0302));
    assert_eq!(s.read::<u32>(), Ok(0x0706_0504));
    assert_eq!(s.offset(), 7);
    let mut s = Stream::new(&BYTES, ByteOrder::LittleEndian);
    assert_eq!(s.read::<u64>(), Ok(0x8807_0605_0403_0201));
    assert!(s.at_end());
}

#[test]
fn reads_unsigned_numbers_big_endian() {
    let mut s = Stream::new(&BYTES, ByteOrder::BigEndian);
    assert_eq!(s.read::<u8>(), Ok(0x01));
    assert_eq!(s.read::<u16>(), Ok(0x0203));
    assert_eq!(s.read::<u32>(), Ok(0x0405_0607));
    let mut s = Stream::new(&BYTES, ByteOrder::BigEndian);
    assert_eq!(s.read::<u64>(), Ok(0x0102_0304_0506_0788));
}

#[test]
fn reads_signed_numbers() {
    let data = [0xff, 0x80, 0xfe, 0xff, 0xff, 0xff, 0xff, 0x7f];
    let mut s = Stream::new(&data, ByteOrder::LittleEndian);
    assert_eq!(s.read::<i8>(), Ok(-1));
    assert_eq!(s.read::<i8>(), Ok(-128));
    assert_eq!(s.read::<i16>(), Ok(-2));
    assert_eq!(s.read::<i32>(), Ok(0x7fff_ffff));
    let mut s = Stream::new(&data, ByteOrder::LittleEndian);
    assert_eq!(s.read::<i64>(), Ok(0x7fff_ffff_fffe_80ff));
    let mut s = Stream::new(&data, ByteOrder::BigEndian);
    assert_eq!(s.read::<i16>(), Ok(-128));
    assert_eq!(s.read::<i16>(), Ok(-257));
    assert_eq!(s.read::<i32>(), Ok(-129));
    let mut s = Stream::new(&data, ByteOrder::BigEndian);
    assert_eq!(s.read::<i64>(), Ok(-0x7f_0100_0000_0081));
}

#[test]
fn widths_of_the_numbers() {
    assert_eq!(<u8 as RawNumber>::size(), 1);
    assert_eq!(<i8 as RawNumber>::size(), 1);
    assert_eq!(<u16 as RawNumber>::size(), 2);
    assert_eq!(<i16 as RawNumber>::size(), 2);
    assert_eq!(<u32 as RawNumber>::size(), 4);
    assert_eq!(<i32 as RawNumber>::size(), 4);
    assert_eq!(<u64 as RawNumber>::size(), 8);
    assert_eq!(<i64 as RawNumber>::size(), 8);
}

#[test]
fn parse_does_not_move_the_cursor() {
    let mut s = Stream::new(&BYTES, ByteOrder::LittleEndian);
    assert_eq!(<u16 as RawNumber>::parse(&mut s), Some(0x0201));
    assert_eq!(s.offset(), 0);
    assert_eq!(s.skip_len(7), Ok(()));
    assert_eq!(<u16 as RawNumber>::parse(&mut s), None);
    assert_eq!(<u8 as RawNumber>::parse(&mut s), Some(0x88));
}

#[test]
fn a_failed_read_leaves_the_cursor() {
    let mut s = Stream::new(&BYTES[..3], ByteOrder::LittleEndian);
    assert_eq!(s.read::<u16>(), Ok(0x0201));
    assert_eq!(s.read::<u16>(), Err(UnexpectedEof {}));
    assert_eq!(s.read::<u32>(), Err(UnexpectedEof {}));
    assert_eq!(s.read::<u64>(), Err(UnexpectedEof {}));
    assert_eq!(s.offset(), 2);
    assert_eq!(s.remaining(), 1);
    assert_eq!(s.read::<u8>(), Ok(0x03));
    assert_eq!(s.read::<u8>(), Err(UnexpectedEof {}));
    assert!(s.at_end());
}

#[test]
fn empty_buffer_reads_nothing() {
    let mut s = Stream::new(&[], ByteOrder::BigEndian);
    assert!(s.at_end());
    assert_eq!(s.remaining(), 0);
    assert_eq!(s.read::<u8>(), Err(UnexpectedEof {}));
    assert_eq!(s.skip::<u8>(), Err(UnexpectedEof {}));
    assert_eq!(s.skip_len(0), Ok(()));
    assert_eq!(s.read_bytes(0), Ok(&[][..]));
    assert_eq!(s.read_bytes(1), Err(UnexpectedEof {}));
}

#[test]
fn new_at_wants_an_offset_inside() {
    assert!(Stream::new_at(&BYTES, 8, ByteOrder::LittleEndian).is_err());
    assert!(Stream::new_at(&BYTES, usize::MAX, ByteOrder::LittleEndian).is_err());
    assert!(Stream::new_at(&[], 0, ByteOrder::LittleEndian).is_err());
    let mut s = Stream::new_at(&BYTES, 7, ByteOrder::LittleEndian).unwrap();
    assert_eq!(s.offset(), 7);
    assert_eq!(s.remaining(), 1);
    assert_eq!(s.read::<u8>(), Ok(0x88));
}

#[test]
fn skips_are_checked() {
    let mut s = Stream::new(&BYTES, ByteOrder::LittleEndian);
    assert_eq!(s.skip::<u32>(), Ok(()));
    assert_eq!(s.offset(), 4);
    assert_eq!(s.skip_len(5), Err(UnexpectedEof {}));
    assert_eq!(s.skip_len(usize::MAX), Err(UnexpectedEof {}));
    assert_eq!(s.offset(), 4);
    assert_eq!(s.skip::<u64>(), Err(UnexpectedEof {}));
    assert_eq!(s.skip_len(4), Ok(()));
    assert_eq!(s.offset(), 8);
    assert!(s.at_end());
    assert_eq!(s.remaining(), 0);
}

#[test]
fn read_bytes_hands_out_the_next_bytes() {
    let mut s = Stream::new(&BYTES, ByteOrder::LittleEndian);
    assert_eq!(s.skip_len(2), Ok(()));
    assert_eq!(s.read_bytes(3), Ok(&BYTES[2..5]));
    assert_eq!(s.offset(), 5);
    assert_eq!(s.read_bytes(4), Err(UnexpectedEof {}));
    assert_eq!(s.read_bytes(usize::MAX), Err(UnexpectedEof {}));
    assert_eq!(s.offset(), 5);
    assert_eq!(s.read_bytes(3), Ok(&BYTES[5..8]));
}

#[test]
fn null_string_ends_at_the_first_zero() {
    let data = b"\0main\0foo\0bar";
    assert_eq!(parse_null_string(data, 1), Some("main"));
    assert_eq!(parse_null_string(data, 3), Some("in"));
    assert_eq!(parse_null_string(data, 6), Some("foo"));
}

#[test]
fn null_string_wants_a_terminator_and_a_first_byte() {
    let data = b"\0main\0foo\0bar";
    assert_eq!(parse_null_string(data, 0), None);
    assert_eq!(parse_null_string(data, 5), None);
    assert_eq!(parse_null_string(data, 10), None);
    assert_eq!(parse_null_string(data, 13), None);
    assert_eq!(parse_null_string(data, 14), None);
    assert_eq!(parse_null_string(data, usize::MAX), None);
    assert_eq!(parse_null_string(&[], 0), None);
}

#[test]
fn null_string_wants_utf8() {
    assert_eq!(parse_null_string(&[0xff, 0xfe, 0], 0), None);
    assert_eq!(parse_null_string(&[0xc3, 0], 0), None);
    assert_eq!(parse_null_string(&[0xed, 0xa0, 0x80, 0], 0), None);
    assert_eq!(parse_null_string(&[0xc3, 0xa9, 0], 0), Some("\u{e9}"));
    assert_eq!(parse_null_string(&[b'a', 0xe2, 0x82, 0xac, 0], 0), Some("a\u{20ac}"));
}

#[test]
fn bytes_and_strings_compare_by_content() {
    assert!(same_bytes(b"abc", b"abc"));
    assert!(same_bytes(b"", b""));
    assert!(!same_bytes(b"abc", b"abd"));
    assert!(!same_bytes(b"abc", b"ab"));
    assert!(same_str(".text", ".text"));
    assert!(!same_str(".text", ".data"));
    assert!(!same_str(".text", ".text2"));
}

#[test]
fn error_messages() {
    assert_eq!(UnexpectedEof {}.message(), "Unexpected end of file");
    assert_eq!(ParseError::UnexpectedEof.message(), "Unexpected end of file");
    assert_eq!(ParseError::MalformedInput.message(), "Malformed input file");
}

#[test]
fn errors_convert() {
    assert_eq!(ParseError::from(UnexpectedEof {}), ParseError::UnexpectedEof);
    let too_big = u8::try_from(300u32).unwrap_err();
    assert_eq!(ParseError::from(too_big), ParseError::MalformedInput);
    assert_eq!(end_of_input::<u8>(Err(UnexpectedEof {})), Err(ParseError::UnexpectedEof));
    assert_eq!(end_of_input(Ok::<u8, UnexpectedEof>(7)), Ok(7));
}
