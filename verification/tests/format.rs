use binfarce::{detect_format, ByteOrder, Format};

#[test]
fn empty_buffer_is_not_recognized() {
    assert_eq!(detect_format(&[]), Format::Unrecognized);
}

#[test]
fn elf_class_and_encoding_decide() {
    let le64 = [0x7f, b'E', b'L', b'F', 2, 1, 1, 0];
    assert_eq!(detect_format(&le64), Format::Elf64 { byte_order: ByteOrder::LittleEndian });
    let be32 = [0x7f, b'E', b'L', b'F', 1, 2];
    assert_eq!(detect_format(&be32), Format::Elf32 { byte_order: ByteOrder::BigEndian });
    let bad_class = [0x7f, b'E', b'L', b'F', 3, 1];
    assert_eq!(detect_format(&bad_class), Format::Unrecognized);
    let bad_encoding = [0x7f, b'E', b'L', b'F', 1, 0];
    assert_eq!(detect_format(&bad_encoding), Format::Unrecognized);
}

#[test]
fn elf_magic_without_class_is_not_recognized() {
    assert_eq!(detect_format(&[0x7f, b'E', b'L', b'F']), Format::Unrecognized);
    assert_eq!(detect_format(&[0x7f, b'E', b'L', b'F', 2]), Format::Unrecognized);
}

#[test]
fn dos_stub_is_pe() {
    assert_eq!(detect_format(b"MZ"), Format::PE);
    assert_eq!(detect_format(b"MZ\x90\x00"), Format::PE);
    assert_eq!(detect_format(b"M"), Format::Unrecognized);
}

#[test]
fn macho_magic_in_both_orders() {
    assert_eq!(detect_format(&[0xfe, 0xed, 0xfa, 0xce]), Format::Macho);
    assert_eq!(detect_format(&[0xfe, 0xed, 0xfa, 0xcf]), Format::Macho);
    assert_eq!(detect_format(&[0xce, 0xfa, 0xed, 0xfe]), Format::Macho);
    assert_eq!(detect_format(&[0xcf, 0xfa, 0xed, 0xfe, 7, 0, 0, 1]), Format::Macho);
    assert_eq!(detect_format(&[0xcf, 0xfa, 0xed]), Format::Unrecognized);
    assert_eq!(detect_format(&[0xca, 0xfe, 0xba, 0xbe]), Format::Unrecognized);
}
