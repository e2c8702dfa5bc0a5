use binfarce::macho::{self, Cmd, RawSymbol, Section};
use binfarce::symbol::SymbolData;
use binfarce::ParseError;

const LC_SEGMENT_64: u32 = 0x19;
const LC_SYMTAB: u32 = 0x2;
/// The type byte of an external symbol that is defined in a section.
const N_SECT_EXT: u8 = 0x0f;

fn name16(name: &str) -> [u8; 16] {
    let mut field = [0u8; 16];
    field[..name.len()].copy_from_slice(name.as_bytes());
    field
}

/// One section record of a segment.
struct Sect {
    section: [u8; 16],
    segment: [u8; 16],
    address: u64,
    size: u64,
    offset: u32,
}

/// One record of the symbol table.
#[derive(Clone, Copy)]
struct Nlist {
    strx: u32,
    kind: u8,
    sect: u8,
    value: u64,
}

fn text_section(address: u64, size: u64) -> Sect {
    Sect { section: name16("__text"), segment: name16("__TEXT"), address, size, offset: 0x400 }
}

/// Builds a file of one segment command with the given sections, one
/// command of another kind, and a symbol table command with the table and
/// the strings behind the commands.
fn build(sections: &[Sect], symbols: &[Nlist], strings: &[u8]) -> Vec<u8> {
    let segment_size = 72 + 80 * sections.len() as u32;
    let commands_size = segment_size + 16 + 24;
    let symbols_at = 32 + commands_size;
    let strings_at = symbols_at + 16 * symbols.len() as u32;
    let mut b: Vec<u8> = Vec::new();
    let mut u32le = |b: &mut Vec<u8>, v: u32| b.extend_from_slice(&v.to_le_bytes());
    b.extend_from_slice(&[0xcf, 0xfa, 0xed, 0xfe]);
    u32le(&mut b, 0x0100_0007); // cputype
    u32le(&mut b, 3); // cpusubtype
    u32le(&mut b, 2); // filetype
    u32le(&mut b, 3); // ncmds
    u32le(&mut b, commands_size);
    u32le(&mut b, 0x85); // flags
    u32le(&mut b, 0); // reserved
    // the segment
    u32le(&mut b, LC_SEGMENT_64);
    u32le(&mut b, segment_size);
    b.extend_from_slice(&name16("__TEXT"));
    for v in [0x1_0000_0000u64, 0x1000, 0, 0x1000] {
        b.extend_from_slice(&v.to_le_bytes());
    }
    u32le(&mut b, 7); // maxprot
    u32le(&mut b, 5); // initprot
    u32le(&mut b, sections.len() as u32);
    u32le(&mut b, 0); // flags
    for s in sections {
        b.extend_from_slice(&s.section);
        b.extend_from_slice(&s.segment);
        b.extend_from_slice(&s.address.to_le_bytes());
        b.extend_from_slice(&s.size.to_le_bytes());
        u32le(&mut b, s.offset);
        for _ in 0..7 {
            u32le(&mut b, 0);
        }
    }
    // a command that the decoder passes over
    u32le(&mut b, 0x1b);
    u32le(&mut b, 16);
    b.extend_from_slice(&[0xaa; 8]);
    // the symbol table
    u32le(&mut b, LC_SYMTAB);
    u32le(&mut b, 24);
    u32le(&mut b, symbols_at);
    u32le(&mut b, symbols.len() as u32);
    u32le(&mut b, strings_at);
    u32le(&mut b, strings.len() as u32);
    assert_eq!(b.len() as u32, symbols_at);
    for s in symbols {
        u32le(&mut b, s.strx);
        b.push(s.kind);
        b.push(s.sect);
        b.extend_from_slice(&[0, 0]);
        b.extend_from_slice(&s.value.to_le_bytes());
    }
    b.extend_from_slice(strings);
    b
}

const STRINGS: &[u8] = b"\0_main\0_foo\0_bar\0";
const MAIN: u32 = 1;
const FOO: u32 = 7;
const BAR: u32 = 12;

fn function(strx: u32, value: u64) -> Nlist {
    Nlist { strx, kind: N_SECT_EXT, sect: 1, value }
}

fn symbol(name: &str, address: u64, size: u64) -> SymbolData {
    SymbolData { name: name.to_string(), address, size }
}

#[test]
fn macho_header_and_commands() {
    let data = build(&[text_section(0x1000, 0x100)], &[], STRINGS);
    let file = macho::parse(&data).unwrap();
    let header = file.header();
    assert_eq!(header.cputype, 0x0100_0007);
    assert_eq!(header.cpusubtype, 3);
    assert_eq!(header.filetype, 2);
    assert_eq!(header.ncmds, 3);
    assert_eq!(header.sizeofcmds, 152 + 16 + 24);
    assert_eq!(header.flags, 0x85);
    let mut walk = file.commands();
    assert_eq!(walk.offset(), 32);
    assert_eq!(walk.next(), Some(Cmd { kind: LC_SEGMENT_64, offset: 40 }));
    assert_eq!(walk.offset(), 32 + 152);
    assert_eq!(walk.next(), Some(Cmd { kind: 0x1b, offset: 32 + 152 + 8 }));
    assert_eq!(walk.next(), Some(Cmd { kind: LC_SYMTAB, offset: 32 + 152 + 16 + 8 }));
    assert_eq!(walk.result(), Ok(()));
    assert_eq!(walk.next(), None);
    assert_eq!(walk.next(), None);
    assert_eq!(walk.result(), Ok(()));
    assert_eq!(walk.offset(), 32 + 152 + 16 + 24);
}

#[test]
fn macho_sections() {
    let data = build(
        &[
            text_section(0x1000, 0x100),
            Sect {
                section: name16("__const"),
                segment: name16("__TEXT"),
                address: 0x1100,
                size: 0x40,
                offset: 0x500,
            },
        ],
        &[],
        STRINGS,
    );
    let file = macho::parse(&data).unwrap();
    let sections = file.sections();
    assert_eq!(sections.len(), 2);
    assert_eq!(sections[0].segment_name, "__TEXT");
    assert_eq!(sections[0].section_name, "__text");
    assert_eq!(sections[0].address, 0x1000);
    assert_eq!(sections[0].size, 0x100);
    assert_eq!(sections[0].offset, 0x400);
    assert_eq!(sections[0].range(), Ok(0x400..0x500));
    assert_eq!(sections[1].section_name, "__const");
    let found = file.section_with_name("__TEXT", "__const").unwrap();
    assert_eq!(found.address, 0x1100);
    assert_eq!(found.range(), Ok(0x500..0x540));
    assert!(file.section_with_name("__TEXT", "__data").is_none());
    assert!(file.section_with_name("__DATA", "__text").is_none());
    assert!(file.section_with_name("__text", "__TEXT").is_none());
    assert!(file.section_with_name("a", "a").is_none());
}

#[test]
fn sections_without_a_terminated_name_are_dropped() {
    let data = build(
        &[
            Sect {
                section: *b"0123456789abcdef",
                segment: name16("__TEXT"),
                address: 1,
                size: 1,
                offset: 0,
            },
            Sect { section: name16(""), segment: name16("__TEXT"), address: 2, size: 1, offset: 0 },
            Sect {
                section: name16("__text"),
                segment: [0xff; 16],
                address: 3,
                size: 1,
                offset: 0,
            },
            text_section(0x1000, 0x100),
        ],
        &[],
        STRINGS,
    );
    let file = macho::parse(&data).unwrap();
    let sections = file.sections();
    assert_eq!(sections.len(), 1);
    assert_eq!(sections[0].address, 0x1000);
}

#[test]
fn macho_range_guards_against_overflow() {
    let section = Section {
        segment_name: "__TEXT",
        section_name: "__text",
        address: 0,
        offset: 0x10,
        size: u64::MAX,
    };
    assert_eq!(section.range(), Err(ParseError::MalformedInput));
    let section = Section { size: u64::MAX - 0x10, ..section };
    assert_eq!(section.range(), Ok(0x10..usize::MAX));
    let section = Section { size: u64::MAX - 0x0f, ..section };
    assert_eq!(section.range(), Err(ParseError::MalformedInput));
}

#[test]
fn sizes_of_strictly_increasing_symbols() {
    let symbols = [function(MAIN, 0x1000), function(FOO, 0x1010), function(BAR, 0x1040)];
    let data = build(&[text_section(0x1000, 0x100)], &symbols, STRINGS);
    let file = macho::parse(&data).unwrap();
    assert_eq!(
        file.symbols(),
        Ok((
            vec![
                symbol("_main", 0x1000, 0x10),
                symbol("_foo", 0x1010, 0x30),
                symbol("_bar", 0x1040, 0xc0),
            ],
            0x100
        ))
    );
}

#[test]
fn symbols_come_out_in_address_order() {
    let symbols = [function(BAR, 0x1040), function(MAIN, 0x1000), function(FOO, 0x1010)];
    let data = build(&[text_section(0x1000, 0x100)], &symbols, STRINGS);
    let file = macho::parse(&data).unwrap();
    assert_eq!(
        file.symbols(),
        Ok((
            vec![
                symbol("_main", 0x1000, 0x10),
                symbol("_foo", 0x1010, 0x30),
                symbol("_bar", 0x1040, 0xc0),
            ],
            0x100
        ))
    );
}

#[test]
fn a_shared_address_is_measured_against_the_next_distinct_one() {
    // Two raw symbols at 0x1010, of which one is a function.
    let symbols = [
        function(MAIN, 0x1000),
        Nlist { strx: BAR, kind: 0x0f, sect: 2, value: 0x1010 },
        function(FOO, 0x1010),
        function(BAR, 0x1040),
    ];
    let data = build(&[text_section(0x1000, 0x100)], &symbols, STRINGS);
    let file = macho::parse(&data).unwrap();
    assert_eq!(
        file.symbols(),
        Ok((
            vec![
                symbol("_main", 0x1000, 0x10),
                symbol("_foo", 0x1010, 0x30),
                symbol("_bar", 0x1040, 0xc0),
            ],
            0x100
        ))
    );
}

#[test]
fn functions_that_share_an_address_share_the_size() {
    let symbols = [function(FOO, 0x1010), function(MAIN, 0x1010), function(BAR, 0x1040)];
    let data = build(&[text_section(0x1000, 0x100)], &symbols, STRINGS);
    let file = macho::parse(&data).unwrap();
    assert_eq!(
        file.symbols(),
        Ok((
            vec![
                symbol("_foo", 0x1010, 0x30),
                symbol("_main", 0x1010, 0x30),
                symbol("_bar", 0x1040, 0xc0),
            ],
            0x100
        ))
    );
}

#[test]
fn symbols_that_are_no_functions_of_the_first_section_are_passed_over() {
    let symbols = [
        // without a value
        function(MAIN, 0),
        // without a name
        function(0, 0x1008),
        // undefined
        Nlist { strx: FOO, kind: 0x01, sect: 1, value: 0x1010 },
        // of another section
        Nlist { strx: FOO, kind: 0x0f, sect: 2, value: 0x1018 },
        // a name outside the strings
        function(400, 0x1020),
        function(BAR, 0x1028),
    ];
    let data = build(&[text_section(0x1000, 0x100)], &symbols, STRINGS);
    let file = macho::parse(&data).unwrap();
    assert_eq!(file.symbols(), Ok((vec![symbol("_bar", 0x1028, 0xd8)], 0x100)));
}

#[test]
fn a_symbol_at_or_past_the_end_has_no_size() {
    let symbols = [function(MAIN, 0x1000), function(FOO, 0x1100), function(BAR, 0x2000)];
    let data = build(&[text_section(0x1000, 0x100)], &symbols, STRINGS);
    let file = macho::parse(&data).unwrap();
    assert_eq!(
        file.symbols(),
        Ok((vec![symbol("_main", 0x1000, 0x100), symbol("_foo", 0x1100, 0xf00)], 0x100))
    );
}

#[test]
fn a_file_without_a_symbol_table_has_no_symbols() {
    let mut data = build(&[text_section(0x1000, 0x100)], &[], STRINGS);
    // Turn the symbol table command into a command of another kind.
    let at = 32 + 152 + 16;
    data[at..at + 4].copy_from_slice(&0x1bu32.to_le_bytes());
    let file = macho::parse(&data).unwrap();
    assert_eq!(file.symbols(), Ok((vec![], 0)));
}

#[test]
fn symbols_want_text_as_the_first_section() {
    let other = Sect {
        section: name16("__const"),
        segment: name16("__TEXT"),
        address: 0x1100,
        size: 0x40,
        offset: 0x500,
    };
    let symbols = [function(MAIN, 0x1000)];
    let data = build(&[other, text_section(0x1000, 0x100)], &symbols, STRINGS);
    let file = macho::parse(&data).unwrap();
    assert_eq!(file.symbols(), Err(ParseError::MalformedInput));
    let data = build(&[], &symbols, STRINGS);
    let file = macho::parse(&data).unwrap();
    assert_eq!(file.symbols(), Err(ParseError::MalformedInput));
    let wrong_segment = Sect {
        section: name16("__text"),
        segment: name16("__DATA"),
        address: 0x1000,
        size: 0x100,
        offset: 0,
    };
    let data = build(&[wrong_segment], &symbols, STRINGS);
    let file = macho::parse(&data).unwrap();
    assert_eq!(file.symbols(), Err(ParseError::MalformedInput));
}

#[test]
fn symbols_want_a_text_section_that_is_not_empty() {
    let data = build(&[text_section(0x1000, 0)], &[function(MAIN, 0x1000)], STRINGS);
    let file = macho::parse(&data).unwrap();
    assert_eq!(file.symbols(), Err(ParseError::MalformedInput));
}

#[test]
fn a_text_section_that_ends_past_all_addresses_is_malformed() {
    let data = build(&[text_section(u64::MAX, 1)], &[function(MAIN, 0x1000)], STRINGS);
    let file = macho::parse(&data).unwrap();
    assert_eq!(file.symbols(), Err(ParseError::MalformedInput));
    let data = build(&[text_section(u64::MAX - 1, 1)], &[function(MAIN, 0x1000)], STRINGS);
    let file = macho::parse(&data).unwrap();
    assert_eq!(file.symbols(), Ok((vec![symbol("_main", 0x1000, u64::MAX - 0x1000)], 1)));
}

#[test]
fn macho_a_symbol_table_outside_the_file_is_cut_short() {
    let symbols = [function(MAIN, 0x1000), function(FOO, 0x1010)];
    let data = build(&[text_section(0x1000, 0x100)], &symbols, STRINGS);
    // Without the strings and the last byte of the table.
    let cut = &data[..data.len() - STRINGS.len() - 1];
    let file = macho::parse(cut).unwrap();
    assert_eq!(file.symbols(), Err(ParseError::UnexpectedEof));
    // Without the last byte of the strings.
    let cut = &data[..data.len() - 1];
    let file = macho::parse(cut).unwrap();
    assert_eq!(file.symbols(), Err(ParseError::UnexpectedEof));
    // More symbols than the table holds.
    let mut more = data.clone();
    let at = 32 + 152 + 16 + 12;
    more[at..at + 4].copy_from_slice(&100u32.to_le_bytes());
    let file = macho::parse(&more).unwrap();
    assert_eq!(file.symbols(), Err(ParseError::UnexpectedEof));
}

#[test]
fn macho_short_buffers_are_cut_short() {
    assert_eq!(macho::parse(&[]).err(), Some(ParseError::UnexpectedEof));
    let data = build(&[text_section(0x1000, 0x100)], &[], STRINGS);
    for len in [1, 4, 16, 31] {
        assert_eq!(macho::parse(&data[..len]).err(), Some(ParseError::UnexpectedEof));
    }
}

#[test]
fn truncated_commands_are_cut_short() {
    let data = build(&[text_section(0x1000, 0x100)], &[], STRINGS);
    // The header alone, with three commands to come.
    assert_eq!(macho::parse(&data[..32]).err(), Some(ParseError::UnexpectedEof));
    assert_eq!(macho::parse(&data[..39]).err(), Some(ParseError::UnexpectedEof));
    // The segment command in part.
    assert_eq!(macho::parse(&data[..100]).err(), Some(ParseError::UnexpectedEof));
    // All but the last byte of the last command.
    assert_eq!(macho::parse(&data[..32 + 152 + 16 + 23]).err(), Some(ParseError::UnexpectedEof));
    assert!(macho::parse(&data[..32 + 152 + 16 + 24]).is_ok());
}

#[test]
fn a_command_shorter_than_its_header_is_malformed() {
    let mut data = build(&[text_section(0x1000, 0x100)], &[], STRINGS);
    let at = 32 + 152 + 4;
    data[at..at + 4].copy_from_slice(&7u32.to_le_bytes());
    assert_eq!(macho::parse(&data).err(), Some(ParseError::MalformedInput));
    data[at..at + 4].copy_from_slice(&0u32.to_le_bytes());
    assert_eq!(macho::parse(&data).err(), Some(ParseError::MalformedInput));
}

#[test]
fn a_segment_with_too_many_sections_is_cut_short() {
    let mut data = build(&[text_section(0x1000, 0x100)], &[], b"");
    // Three sections where the file has room for one and a half.
    let at = 32 + 8 + 56;
    data[at..at + 4].copy_from_slice(&3u32.to_le_bytes());
    assert_eq!(macho::parse(&data).err(), Some(ParseError::UnexpectedEof));
}

#[test]
fn the_walk_remembers_why_it_ended() {
    let mut data = build(&[text_section(0x1000, 0x100)], &[], STRINGS);
    let at = 32 + 152 + 4;
    data[at..at + 4].copy_from_slice(&4u32.to_le_bytes());
    // The file itself is refused; a walk over a sound file that is cut
    // short later is what the handle offers.
    assert!(macho::parse(&data).is_err());
    let data = build(&[text_section(0x1000, 0x100)], &[], STRINGS);
    let file = macho::parse(&data).unwrap();
    let mut walk = file.commands();
    let mut kinds = Vec::new();
    while let Some(command) = walk.next() {
        kinds.push(command.kind);
    }
    assert_eq!(kinds, vec![LC_SEGMENT_64, 0x1b, LC_SYMTAB]);
    assert_eq!(walk.result(), Ok(()));
}

#[test]
fn raw_symbols_are_read_in_table_order() {
    let mut table = Vec::new();
    for (strx, kind, sect, value) in [(1u32, 0x0fu8, 1u8, 0x30u64), (2, 0x0e, 1, 0), (3, 1, 0, 0x10)]
    {
        table.extend_from_slice(&strx.to_le_bytes());
        table.push(kind);
        table.push(sect);
        table.extend_from_slice(&[0, 0]);
        table.extend_from_slice(&value.to_le_bytes());
    }
    assert_eq!(
        macho::read_raw_symbols(&table, 3),
        Ok(vec![
            RawSymbol { string_index: 1, kind: 0x0f, section: 1, address: 0x30 },
            RawSymbol { string_index: 3, kind: 1, section: 0, address: 0x10 },
        ])
    );
    assert_eq!(macho::read_raw_symbols(&table, 0), Ok(vec![]));
    assert_eq!(macho::read_raw_symbols(&table, 4), Err(ParseError::UnexpectedEof));
    assert_eq!(macho::read_raw_symbols(&table[..47], 3), Err(ParseError::UnexpectedEof));
}

#[test]
fn macho_garbage_is_decoded_or_refused() {
    let mut seed: u32 = 0x9e37_79b9;
    for len in 0..300usize {
        let mut data = vec![0xcf, 0xfa, 0xed, 0xfe];
        for _ in 0..len {
            seed = seed.wrapping_mul(1664525).wrapping_add(1013904223);
            // Small numbers keep the walk inside the file more often.
            data.push(((seed >> 24) as u8) % 40);
        }
        if let Ok(file) = macho::parse(&data) {
            let _ = file.symbols();
            let _ = file.header();
            if let Some(section) = file.section_with_name("a", "a") {
                let _ = section.range();
            }
            let mut walk = file.commands();
            while walk.next().is_some() {}
            let _ = walk.result();
        }
    }
}
