use binfarce::symbol::SymbolData;
use binfarce::{elf32, elf64, ByteOrder, ParseError};

struct Writer {
    bytes: Vec<u8>,
    order: ByteOrder,
}

impl Writer {
    fn u8(&mut self, v: u8) {
        self.bytes.push(v);
    }

    fn u16(&mut self, v: u16) {
        match self.order {
            ByteOrder::LittleEndian => self.bytes.extend_from_slice(&v.to_le_bytes()),
            ByteOrder::BigEndian => self.bytes.extend_from_slice(&v.to_be_bytes()),
        }
    }

    fn u32(&mut self, v: u32) {
        match self.order {
            ByteOrder::LittleEndian => self.bytes.extend_from_slice(&v.to_le_bytes()),
            ByteOrder::BigEndian => self.bytes.extend_from_slice(&v.to_be_bytes()),
        }
    }

    fn u64(&mut self, v: u64) {
        match self.order {
            ByteOrder::LittleEndian => self.bytes.extend_from_slice(&v.to_le_bytes()),
            ByteOrder::BigEndian => self.bytes.extend_from_slice(&v.to_be_bytes()),
        }
    }

    fn word(&mut self, wide: bool, v: u64) {
        if wide {
            self.u64(v)
        } else {
            self.u32(v as u32)
        }
    }
}

const SECTION_NAMES: &[u8] = b"\0.text\0.symtab\0.strtab\0.shstrtab\0";
const NAME_TEXT: u32 = 1;
const NAME_SYMTAB: u32 = 7;
const NAME_STRTAB: u32 = 15;
const NAME_SHSTRTAB: u32 = 23;

/// One record of a symbol table.
struct Sym {
    name: u32,
    info: u8,
    shndx: u16,
    value: u64,
    size: u64,
}

/// What the file to build holds.
struct Plan {
    wide: bool,
    order: ByteOrder,
    text_size: u64,
    strings: Vec<u8>,
    symbols: Vec<Sym>,
    /// The kind of the section that the symbol table is linked to.
    linked_kind: u32,
    /// The kind of the symbol table section.
    symtab_kind: u32,
    text_name: u32,
}

fn plan(wide: bool, order: ByteOrder) -> Plan {
    Plan {
        wide,
        order,
        text_size: 0x40,
        strings: b"\0main\0helper\0".to_vec(),
        symbols: vec![
            Sym { name: 0, info: 0, shndx: 0, value: 0, size: 0 },
            Sym { name: 1, info: 0x12, shndx: 1, value: 0x1000, size: 0x20 },
        ],
        linked_kind: 3,
        symtab_kind: 2,
        text_name: NAME_TEXT,
    }
}

/// Builds a file of five sections: the null section, `.text`, `.symtab`,
/// `.strtab` and `.shstrtab`, with the section header table at the end.
fn build(p: &Plan) -> Vec<u8> {
    let header_size: u64 = if p.wide { 64 } else { 52 };
    let symbol_size: u64 = if p.wide { 24 } else { 16 };
    let text_at = header_size;
    let symtab_at = text_at + p.text_size;
    let symtab_size = symbol_size * p.symbols.len() as u64;
    let strtab_at = symtab_at + symtab_size;
    let shstrtab_at = strtab_at + p.strings.len() as u64;
    let table_at = shstrtab_at + SECTION_NAMES.len() as u64;

    let mut w = Writer { bytes: Vec::new(), order: p.order };
    w.bytes.extend_from_slice(&[0x7f, b'E', b'L', b'F']);
    w.u8(if p.wide { 2 } else { 1 });
    w.u8(if p.order == ByteOrder::LittleEndian { 1 } else { 2 });
    w.u8(1);
    w.bytes.extend_from_slice(&[0; 9]);
    w.u16(2); // type
    w.u16(0x3e); // machine
    w.u32(1); // version
    w.word(p.wide, 0x1000); // entry
    w.word(p.wide, 0); // phoff
    w.word(p.wide, table_at); // shoff
    w.u32(0); // flags
    w.u16(header_size as u16); // ehsize
    w.u16(0); // phentsize
    w.u16(0); // phnum
    w.u16(if p.wide { 64 } else { 40 }); // shentsize
    w.u16(5); // shnum
    w.u16(4); // shstrndx
    assert_eq!(w.bytes.len() as u64, header_size);

    w.bytes.extend(std::iter::repeat(0x90).take(p.text_size as usize));
    for s in &p.symbols {
        w.u32(s.name);
        if p.wide {
            w.u8(s.info);
            w.u8(0);
            w.u16(s.shndx);
            w.u64(s.value);
            w.u64(s.size);
        } else {
            w.u32(s.value as u32);
            w.u32(s.size as u32);
            w.u8(s.info);
            w.u8(0);
            w.u16(s.shndx);
        }
    }
    w.bytes.extend_from_slice(&p.strings);
    w.bytes.extend_from_slice(SECTION_NAMES);
    assert_eq!(w.bytes.len() as u64, table_at);

    // name, kind, offset, size, link, entry size
    let sections: [(u32, u32, u64, u64, u32, u64); 5] = [
        (0, 0, 0, 0, 0, 0),
        (p.text_name, 1, text_at, p.text_size, 0, 0),
        (NAME_SYMTAB, p.symtab_kind, symtab_at, symtab_size, 3, symbol_size),
        (NAME_STRTAB, p.linked_kind, strtab_at, p.strings.len() as u64, 0, 0),
        (NAME_SHSTRTAB, 3, shstrtab_at, SECTION_NAMES.len() as u64, 0, 0),
    ];
    for (name, kind, offset, size, link, entry_size) in sections {
        w.u32(name);
        w.u32(kind);
        w.word(p.wide, 0); // flags
        w.word(p.wide, 0); // addr
        w.word(p.wide, offset);
        w.word(p.wide, size);
        w.u32(link);
        w.u32(0); // info
        w.word(p.wide, 1); // addralign
        w.word(p.wide, entry_size);
    }
    w.bytes
}

fn main_symbol() -> SymbolData {
    SymbolData { name: "main".to_string(), address: 0x1000, size: 0x20 }
}

#[test]
fn elf64_round_trip() {
    let data = build(&plan(true, ByteOrder::LittleEndian));
    let file = elf64::parse(&data, ByteOrder::LittleEndian).unwrap();
    assert_eq!(file.symbols(), Ok((vec![main_symbol()], 0x40)));
}

#[test]
fn elf64_round_trip_big_endian() {
    let data = build(&plan(true, ByteOrder::BigEndian));
    let file = elf64::parse(&data, ByteOrder::BigEndian).unwrap();
    assert_eq!(file.symbols(), Ok((vec![main_symbol()], 0x40)));
}

#[test]
fn elf32_round_trip() {
    for order in [ByteOrder::LittleEndian, ByteOrder::BigEndian] {
        let data = build(&plan(false, order));
        let file = elf32::parse(&data, order).unwrap();
        assert_eq!(file.symbols(), Ok((vec![main_symbol()], 0x40)));
    }
}

#[test]
fn elf64_header_fields() {
    let data = build(&plan(true, ByteOrder::LittleEndian));
    let header = elf64::parse(&data, ByteOrder::LittleEndian).unwrap().header();
    assert_eq!(header.elf_type, 2);
    assert_eq!(header.machine, 0x3e);
    assert_eq!(header.version, 1);
    assert_eq!(header.entry, 0x1000);
    assert_eq!(header.phoff, 0);
    assert_eq!(header.shoff, data.len() as u64 - 5 * 64);
    assert_eq!(header.ehsize, 64);
    assert_eq!(header.shentsize, 64);
    assert_eq!(header.shnum, 5);
    assert_eq!(header.shstrndx, 4);
}

#[test]
fn elf32_header_fields() {
    let data = build(&plan(false, ByteOrder::BigEndian));
    let header = elf32::parse(&data, ByteOrder::BigEndian).unwrap().header();
    assert_eq!(header.elf_type, 2);
    assert_eq!(header.machine, 0x3e);
    assert_eq!(header.entry, 0x1000);
    assert_eq!(header.shoff, data.len() as u32 - 5 * 40);
    assert_eq!(header.ehsize, 52);
    assert_eq!(header.shentsize, 40);
    assert_eq!(header.shnum, 5);
    assert_eq!(header.shstrndx, 4);
}

#[test]
fn elf64_sections_in_file_order() {
    let data = build(&plan(true, ByteOrder::LittleEndian));
    let sections = elf64::parse(&data, ByteOrder::LittleEndian).unwrap().sections();
    assert_eq!(sections.len(), 5);
    let names: Vec<u32> = sections.iter().map(|s| s.name).collect();
    assert_eq!(names, vec![0, NAME_TEXT, NAME_SYMTAB, NAME_STRTAB, NAME_SHSTRTAB]);
    let indices: Vec<u16> = sections.iter().map(|s| s.index).collect();
    assert_eq!(indices, vec![0, 1, 2, 3, 4]);
    let kinds: Vec<u32> = sections.iter().map(|s| s.kind).collect();
    assert_eq!(kinds, vec![0, 1, 2, 3, 3]);
    assert_eq!(sections[1].offset, 64);
    assert_eq!(sections[1].size, 0x40);
    assert_eq!(sections[1].entries, 0);
    assert_eq!(sections[2].offset, 64 + 0x40);
    assert_eq!(sections[2].size, 48);
    assert_eq!(sections[2].link, 3);
    assert_eq!(sections[2].entries, 2);
    assert_eq!(sections[2].range(), Ok(0x80..0xb0));
}

#[test]
fn elf32_sections_in_file_order() {
    let data = build(&plan(false, ByteOrder::LittleEndian));
    let sections = elf32::parse(&data, ByteOrder::LittleEndian).unwrap().sections();
    assert_eq!(sections.len(), 5);
    assert_eq!(sections[2].offset, 52 + 0x40);
    assert_eq!(sections[2].size, 32);
    assert_eq!(sections[2].link, 3);
    assert_eq!(sections[2].entries, 2);
    assert_eq!(sections[4].index, 4);
    assert_eq!(sections[4].name, NAME_SHSTRTAB);
}

#[test]
fn sections_are_found_by_name() {
    let data = build(&plan(true, ByteOrder::LittleEndian));
    let file = elf64::parse(&data, ByteOrder::LittleEndian).unwrap();
    assert_eq!(file.section_with_name(".text").map(|s| s.index), Some(1));
    assert_eq!(file.section_with_name(".symtab").map(|s| s.index), Some(2));
    assert_eq!(file.section_with_name(".strtab").map(|s| s.index), Some(3));
    assert_eq!(file.section_with_name(".shstrtab").map(|s| s.index), Some(4));
    let data = build(&plan(false, ByteOrder::BigEndian));
    let file = elf32::parse(&data, ByteOrder::BigEndian).unwrap();
    assert_eq!(file.section_with_name(".strtab").map(|s| s.index), Some(3));
}

#[test]
fn absent_names_are_not_found() {
    let data = build(&plan(true, ByteOrder::LittleEndian));
    let file = elf64::parse(&data, ByteOrder::LittleEndian).unwrap();
    assert_eq!(file.section_with_name(".data"), None);
    assert_eq!(file.section_with_name(""), None);
    assert_eq!(file.section_with_name(".tex"), None);
    assert_eq!(file.section_with_name("text"), None);
    assert_eq!(file.section_with_name(".text\0"), None);
}

#[test]
fn no_name_is_found_without_a_name_table() {
    let mut data = build(&plan(true, ByteOrder::LittleEndian));
    // shstrndx points past the sections.
    data[62] = 9;
    let file = elf64::parse(&data, ByteOrder::LittleEndian).unwrap();
    assert_eq!(file.section_with_name(".text"), None);
    assert_eq!(file.symbols(), Err(ParseError::MalformedInput));
}

#[test]
fn elf_short_buffers_are_cut_short() {
    for order in [ByteOrder::LittleEndian, ByteOrder::BigEndian] {
        assert_eq!(elf64::parse(&[], order).err(), Some(ParseError::UnexpectedEof));
        assert_eq!(elf32::parse(&[], order).err(), Some(ParseError::UnexpectedEof));
        let data = build(&plan(true, order));
        assert_eq!(elf64::parse(&data[..16], order).err(), Some(ParseError::UnexpectedEof));
        assert_eq!(elf64::parse(&data[..63], order).err(), Some(ParseError::UnexpectedEof));
        let data = build(&plan(false, order));
        assert_eq!(elf32::parse(&data[..51], order).err(), Some(ParseError::UnexpectedEof));
    }
}

#[test]
fn section_table_outside_the_file_is_cut_short() {
    let data = build(&plan(true, ByteOrder::LittleEndian));
    // The header alone: the table starts past the end.
    assert_eq!(
        elf64::parse(&data[..64], ByteOrder::LittleEndian).err(),
        Some(ParseError::UnexpectedEof)
    );
    let data = build(&plan(false, ByteOrder::LittleEndian));
    assert_eq!(
        elf32::parse(&data[..52], ByteOrder::LittleEndian).err(),
        Some(ParseError::UnexpectedEof)
    );
}

#[test]
fn a_truncated_section_table_gives_fewer_sections() {
    let data = build(&plan(true, ByteOrder::LittleEndian));
    let cut = &data[..data.len() - 64 - 1];
    let file = elf64::parse(cut, ByteOrder::LittleEndian).unwrap();
    assert_eq!(file.header().shnum, 5);
    assert_eq!(file.sections().len(), 3);
    let data = build(&plan(false, ByteOrder::LittleEndian));
    let cut = &data[..data.len() - 1];
    let file = elf32::parse(cut, ByteOrder::LittleEndian).unwrap();
    assert_eq!(file.sections().len(), 4);
}

#[test]
fn elf_range_guards_against_overflow() {
    let section = elf64::Section {
        index: 0,
        name: 0,
        kind: 1,
        link: 0,
        offset: u64::MAX,
        size: 1,
        entries: 0,
    };
    assert_eq!(section.range(), Err(ParseError::MalformedInput));
    let section = elf64::Section { offset: 1, size: u64::MAX, ..section };
    assert_eq!(section.range(), Err(ParseError::MalformedInput));
    let section = elf64::Section { offset: 16, size: 8, ..section };
    assert_eq!(section.range(), Ok(16..24));
    let section = elf64::Section { offset: 16, size: 0, ..section };
    assert_eq!(section.range(), Ok(16..16));
    let narrow = elf32::Section {
        index: 0,
        name: 0,
        kind: 1,
        link: 0,
        offset: 0x10,
        size: 0x20,
        entries: 0,
    };
    assert_eq!(narrow.range(), Ok(0x10..0x30));
}

#[test]
fn symbols_want_a_text_section() {
    let mut p = plan(true, ByteOrder::LittleEndian);
    p.text_name = NAME_STRTAB;
    let data = build(&p);
    let file = elf64::parse(&data, ByteOrder::LittleEndian).unwrap();
    assert_eq!(file.symbols(), Err(ParseError::MalformedInput));
}

#[test]
fn symbols_want_a_symbol_table() {
    let mut p = plan(true, ByteOrder::LittleEndian);
    p.symtab_kind = 11;
    let data = build(&p);
    let file = elf64::parse(&data, ByteOrder::LittleEndian).unwrap();
    assert_eq!(file.symbols(), Err(ParseError::MalformedInput));
    let mut p = plan(false, ByteOrder::LittleEndian);
    p.symtab_kind = 11;
    let data = build(&p);
    let file = elf32::parse(&data, ByteOrder::LittleEndian).unwrap();
    assert_eq!(file.symbols(), Err(ParseError::MalformedInput));
}

#[test]
fn symbols_want_a_linked_string_table() {
    let mut p = plan(true, ByteOrder::LittleEndian);
    p.linked_kind = 1;
    let data = build(&p);
    let file = elf64::parse(&data, ByteOrder::LittleEndian).unwrap();
    assert_eq!(file.symbols(), Err(ParseError::MalformedInput));
}

#[test]
fn elf_a_symbol_table_outside_the_file_is_cut_short() {
    let data = build(&plan(true, ByteOrder::LittleEndian));
    let mut moved = data.clone();
    // The size of `.symtab`, in its section header.
    let at = data.len() - 3 * 64 + 32;
    moved[at..at + 8].copy_from_slice(&(data.len() as u64).to_le_bytes());
    let file = elf64::parse(&moved, ByteOrder::LittleEndian).unwrap();
    assert_eq!(file.symbols(), Err(ParseError::UnexpectedEof));
    moved[at..at + 8].copy_from_slice(&u64::MAX.to_le_bytes());
    let file = elf64::parse(&moved, ByteOrder::LittleEndian).unwrap();
    assert_eq!(file.symbols(), Err(ParseError::MalformedInput));
}

#[test]
fn a_record_in_part_cuts_the_symbol_table_short() {
    let data = build(&plan(true, ByteOrder::LittleEndian));
    let mut moved = data.clone();
    let at = data.len() - 3 * 64 + 32;
    moved[at..at + 8].copy_from_slice(&47u64.to_le_bytes());
    let file = elf64::parse(&moved, ByteOrder::LittleEndian).unwrap();
    assert_eq!(file.symbols(), Err(ParseError::UnexpectedEof));
}

#[test]
fn symbols_that_are_no_functions_of_text_are_passed_over() {
    let mut p = plan(true, ByteOrder::LittleEndian);
    p.symbols = vec![
        Sym { name: 0, info: 0, shndx: 0, value: 0, size: 0 },
        // an object, not a function
        Sym { name: 1, info: 0x11, shndx: 1, value: 0x1000, size: 8 },
        // a function of another section
        Sym { name: 1, info: 0x12, shndx: 2, value: 0x1008, size: 8 },
        // without a size
        Sym { name: 1, info: 0x12, shndx: 1, value: 0x1010, size: 0 },
        // without a name
        Sym { name: 0, info: 0x12, shndx: 1, value: 0x1018, size: 8 },
        // a name outside the string table
        Sym { name: 500, info: 0x12, shndx: 1, value: 0x1020, size: 8 },
        // a name that is empty
        Sym { name: 5, info: 0x12, shndx: 1, value: 0x1028, size: 8 },
        // a local function
        Sym { name: 6, info: 0x02, shndx: 1, value: 0x1030, size: 0x10 },
        Sym { name: 1, info: 0x12, shndx: 1, value: 0x1000, size: 0x20 },
    ];
    let data = build(&p);
    let file = elf64::parse(&data, ByteOrder::LittleEndian).unwrap();
    let helper = SymbolData { name: "helper".to_string(), address: 0x1030, size: 0x10 };
    assert_eq!(file.symbols(), Ok((vec![helper, main_symbol()], 0x40)));
}

#[test]
fn names_that_are_not_utf8_are_passed_over() {
    let mut p = plan(false, ByteOrder::LittleEndian);
    p.strings = vec![0, 0xff, 0xfe, 0, b'o', b'k', 0];
    p.symbols = vec![
        Sym { name: 1, info: 0x12, shndx: 1, value: 0x10, size: 4 },
        Sym { name: 4, info: 0x12, shndx: 1, value: 0x20, size: 4 },
    ];
    let data = build(&p);
    let file = elf32::parse(&data, ByteOrder::LittleEndian).unwrap();
    let ok = SymbolData { name: "ok".to_string(), address: 0x20, size: 4 };
    assert_eq!(file.symbols(), Ok((vec![ok], 0x40)));
}

#[test]
fn elf_garbage_is_decoded_or_refused() {
    let mut seed: u32 = 0x1234_5678;
    for len in 0..300usize {
        let mut data = Vec::with_capacity(len);
        for _ in 0..len {
            seed = seed.wrapping_mul(1664525).wrapping_add(1013904223);
            data.push((seed >> 24) as u8);
        }
        for order in [ByteOrder::LittleEndian, ByteOrder::BigEndian] {
            if let Ok(file) = elf64::parse(&data, order) {
                let _ = file.symbols();
                let _ = file.section_with_name(".text");
                for s in file.sections() {
                    let _ = s.range();
                }
            }
            if let Ok(file) = elf32::parse(&data, order) {
                let _ = file.symbols();
                let _ = file.section_with_name(".text");
                for s in file.sections() {
                    let _ = s.range();
                }
            }
        }
    }
}
