//! The decoder for 32-bit ELF files, in either byte order.
//!
//! The decoder reads the file header and the section header table. Section
//! names are looked up in the string table that the header names, and the
//! function symbols of `.text` are read from the first symbol table, with
//! their names from the string table that it is linked to.

use std::ops::Range;
use vstd::prelude::*;
use vstd::slice::slice_subrange;
use vstd::string::StringSliceAdditionalSpecFns;
use vstd::utf8::decode_utf8;
use crate::ByteOrder;
use crate::error::{end_of_input, ParseError};
use crate::parser::{
    null_string,
    parse_null_string,
    same_str,
    value_at,
    Stream,
    UnexpectedEof,
};
use crate::symbol::{symbols_view, Symbol, SymbolData};

verus! {

/// The kind of a section that holds a symbol table.
pub const SYMBOL_TABLE: u32 = 2;

/// The kind of a section that holds a string table.
pub const STRING_TABLE: u32 = 3;

/// The kind of a symbol that is a function.
pub const STT_FUNC: u8 = 2;

/// The size of the identification bytes that the file starts with.
pub const SIZEOF_IDENT: usize = 16;

/// The size of the file header after the identification bytes.
pub const RAW_ELF_HEADER_SIZE: usize = 36;

/// The size of one record of the section header table.
pub const RAW_SECTION_HEADER_SIZE: usize = 40;

/// The size of one record of a symbol table.
pub const RAW_SYMBOL_SIZE: usize = 16;

/// The fields of the file header that follow the identification bytes.
#[derive(Debug, Clone, Copy, PartialEq, Eq, Structural)]
pub struct Elf64Header {
    pub elf_type: u16,
    pub machine: u16,
    pub version: u32,
    pub entry: u32,
    pub phoff: u32,
    pub shoff: u32,
    pub flags: u32,
    pub ehsize: u16,
    pub phentsize: u16,
    pub phnum: u16,
    pub shentsize: u16,
    pub shnum: u16,
    pub shstrndx: u16,
}

/// A record of the section header table.
#[derive(Debug, Clone, Copy, PartialEq, Eq, Structural)]
pub struct Section {
    /// The position of the record in the table.
    pub index: u16,
    /// Where the name starts in the table of section names.
    pub name: u32,
    pub kind: u32,
    /// The position of the section that this one is linked to.
    pub link: usize,
    /// Where the section starts in the file.
    pub offset: u32,
    /// How many bytes of the file the section takes.
    pub size: u32,
    /// How many records the section holds.
    pub entries: usize,
}

impl Section {
    /// The bytes of the file that the section takes, or `MalformedInput`
    /// where the end of the section is no address of this machine.
    pub fn range(&self) -> (r: Result<Range<usize>, ParseError>)
        ensures
            match r {
                Ok(range) => range.start == self.offset && range.end == self.offset + self.size,
                Err(e) => e == ParseError::MalformedInput && self.offset + self.size > usize::MAX,
            },
    {
        let start = self.offset as usize;
        if self.size as usize > usize::MAX - start {
            return Err(ParseError::MalformedInput);
        }
        Ok(start..start + self.size as usize)
    }
}

/// The mathematical content of an [`Elf64`].
pub struct ElfView {
    pub data: Seq<u8>,
    pub order: ByteOrder,
    pub header: Elf64Header,
    pub sections: Seq<Section>,
}

/// A decoded ELF file: its header and its sections.
#[derive(Debug)]
pub struct Elf64<'a> {
    data: &'a [u8],
    byte_order: ByteOrder,
    header: Elf64Header,
    sections: Vec<Section>,
}

impl<'a> View for Elf64<'a> {
    type V = ElfView;

    closed spec fn view(&self) -> ElfView {
        ElfView {
            data: self.data@,
            order: self.byte_order,
            header: self.header,
            sections: self.sections@,
        }
    }
}

/// The header of the file `data`.
pub open spec fn header_of(data: Seq<u8>, order: ByteOrder) -> Elf64Header {
    Elf64Header {
        elf_type: value_at::<u16>(data, 16, order),
        machine: value_at::<u16>(data, 18, order),
        version: value_at::<u32>(data, 20, order),
        entry: value_at::<u32>(data, 24, order),
        phoff: value_at::<u32>(data, 28, order),
        shoff: value_at::<u32>(data, 32, order),
        flags: value_at::<u32>(data, 36, order),
        ehsize: value_at::<u16>(data, 40, order),
        phentsize: value_at::<u16>(data, 42, order),
        phnum: value_at::<u16>(data, 44, order),
        shentsize: value_at::<u16>(data, 46, order),
        shnum: value_at::<u16>(data, 48, order),
        shstrndx: value_at::<u16>(data, 50, order),
    }
}

/// How many records of `entry_size` bytes a section of `size` bytes holds:
/// none where the records have no size.
pub open spec fn entries_of(size: u32, entry_size: u32) -> int {
    if entry_size == 0 {
        0
    } else {
        size as int / entry_size as int
    }
}

/// The section whose record starts at `at` and is the `index`-th of the
/// table.
pub open spec fn section_at(data: Seq<u8>, at: int, index: int, order: ByteOrder) -> Section {
    Section {
        index: index as u16,
        name: value_at::<u32>(data, at, order),
        kind: value_at::<u32>(data, at + 4, order),
        link: value_at::<u32>(data, at + 24, order) as usize,
        offset: value_at::<u32>(data, at + 16, order),
        size: value_at::<u32>(data, at + 20, order),
        entries: entries_of(
            value_at::<u32>(data, at + 20, order),
            value_at::<u32>(data, at + 36, order),
        ) as usize,
    }
}

/// `found` in front of what `rest` holds.
pub open spec fn after<A>(found: Seq<A>, rest: Result<Seq<A>, ParseError>) -> Result<
    Seq<A>,
    ParseError,
> {
    match rest {
        Ok(more) => Ok(found + more),
        Err(e) => Err(e),
    }
}

/// The sections from the `index`-th on, whose record starts at `at`, of a
/// table of `count` records. The table ends early where the file has no
/// room for another record.
pub open spec fn sections_from(data: Seq<u8>, at: int, index: int, count: int, order: ByteOrder)
    -> Result<Seq<Section>, ParseError>
    decreases count - index,
{
    if index >= count || at + RAW_SECTION_HEADER_SIZE > data.len() {
        Ok(Seq::empty())
    } else {
        after(
            seq![section_at(data, at, index, order)],
            sections_from(data, at + RAW_SECTION_HEADER_SIZE, index + 1, count, order),
        )
    }
}

/// The sections of the table that `header` describes. The table must start
/// inside the file.
pub open spec fn section_table(data: Seq<u8>, order: ByteOrder, header: Elf64Header) -> Result<
    Seq<Section>,
    ParseError,
> {
    if header.shoff >= data.len() {
        Err(ParseError::UnexpectedEof)
    } else {
        sections_from(data, header.shoff as int, 0, header.shnum as int, order)
    }
}

/// What decoding the file `data` gives.
pub open spec fn decoded(data: Seq<u8>, order: ByteOrder) -> Result<ElfView, ParseError> {
    let header = header_of(data, order);
    if data.len() < SIZEOF_IDENT + RAW_ELF_HEADER_SIZE {
        Err(ParseError::UnexpectedEof)
    } else {
        match section_table(data, order, header) {
            Err(e) => Err(e),
            Ok(sections) => Ok(ElfView { data, order, header, sections }),
        }
    }
}

/// The bytes of the file that a section takes, where they lie in the file.
pub open spec fn contents(data: Seq<u8>, section: Section) -> Option<Seq<u8>> {
    if section.offset + section.size <= usize::MAX && section.offset + section.size <= data.len() {
        Some(data.subrange(section.offset as int, section.offset + section.size))
    } else {
        None
    }
}

/// The table of section names: the contents of the section that the header
/// names.
pub open spec fn name_table(file: ElfView) -> Option<Seq<u8>> {
    if file.header.shstrndx < file.sections.len() {
        contents(file.data, file.sections[file.header.shstrndx as int])
    } else {
        None
    }
}

/// The first section, from position `from` on, whose name in the table
/// `names` is `name`.
pub open spec fn first_named(sections: Seq<Section>, names: Seq<u8>, name: Seq<u8>, from: int)
    -> Option<Section>
    decreases sections.len() - from,
{
    if from < 0 || from >= sections.len() {
        None
    } else if null_string(names, sections[from].name as int) == Some(name) {
        Some(sections[from])
    } else {
        first_named(sections, names, name, from + 1)
    }
}

/// The first section of the file with the name `name`.
pub open spec fn section_named(file: ElfView, name: Seq<u8>) -> Option<Section> {
    match name_table(file) {
        Some(names) => first_named(file.sections, names, name, 0),
        None => None,
    }
}

/// The first section of `kind`, from position `from` on.
pub open spec fn first_of_kind(sections: Seq<Section>, kind: u32, from: int) -> Option<Section>
    decreases sections.len() - from,
{
    if from < 0 || from >= sections.len() {
        None
    } else if sections[from].kind == kind {
        Some(sections[from])
    } else {
        first_of_kind(sections, kind, from + 1)
    }
}

/// A record of a symbol table, without the field that is not read.
#[derive(Debug, Clone, Copy, PartialEq, Eq, Structural)]
pub struct SymbolRecord {
    /// Where the name starts in the string table.
    pub name_offset: u32,
    pub info: u8,
    /// The index of the section that the symbol belongs to.
    pub shndx: u16,
    pub value: u32,
    pub size: u32,
}

/// The symbol record that starts at `at`.
pub open spec fn record_at(table: Seq<u8>, at: int, order: ByteOrder) -> SymbolRecord {
    SymbolRecord {
        name_offset: value_at::<u32>(table, at, order),
        info: table[at + 12],
        shndx: value_at::<u16>(table, at + 14, order),
        value: value_at::<u32>(table, at + 4, order),
        size: value_at::<u32>(table, at + 8, order),
    }
}

/// Whether a record is a function with a size and a name that belongs to
/// the section with the index `text_index`.
pub open spec fn is_text_function(record: SymbolRecord, text_index: u16) -> bool {
    &&& record.shndx == text_index
    &&& record.size != 0
    &&& record.name_offset != 0
    &&& record.info & 0xf == STT_FUNC
}

/// What the symbol record at `at` adds to the function symbols: itself, if
/// it belongs to the section with the index `text_index`, has a size and a
/// name and is a function, and if the string table holds its name; else
/// nothing.
pub open spec fn symbol_at(
    table: Seq<u8>,
    at: int,
    strings: Seq<u8>,
    text_index: u16,
    order: ByteOrder,
) -> Seq<Symbol> {
    let record = record_at(table, at, order);
    if is_text_function(record, text_index) {
        match null_string(strings, record.name_offset as int) {
            Some(name) => seq![
                Symbol {
                    name: decode_utf8(name),
                    address: record.value as u64,
                    size: record.size as u64,
                },
            ],
            None => Seq::empty(),
        }
    } else {
        Seq::empty()
    }
}

/// The function symbols of the records of `table` from `at` on, in the
/// order of the table. A record that the table holds only in part cuts the
/// table short.
pub open spec fn symbols_from(
    table: Seq<u8>,
    at: int,
    strings: Seq<u8>,
    text_index: u16,
    order: ByteOrder,
) -> Result<Seq<Symbol>, ParseError>
    decreases table.len() - at,
{
    if at < 0 || at >= table.len() {
        Ok(Seq::empty())
    } else if at + RAW_SYMBOL_SIZE > table.len() {
        Err(ParseError::UnexpectedEof)
    } else {
        after(
            symbol_at(table, at, strings, text_index, order),
            symbols_from(table, at + RAW_SYMBOL_SIZE, strings, text_index, order),
        )
    }
}

/// The bytes of the file that a section takes, or why they cannot be had.
pub open spec fn contents_or_error(data: Seq<u8>, section: Section) -> Result<Seq<u8>, ParseError> {
    if section.offset + section.size > usize::MAX {
        Err(ParseError::MalformedInput)
    } else if section.offset + section.size > data.len() {
        Err(ParseError::UnexpectedEof)
    } else {
        Ok(data.subrange(section.offset as int, section.offset + section.size))
    }
}

/// The function symbols of `.text` and the size of `.text`, as a decoded
/// file gives them. The file must have a section `.text` and a symbol table
/// that is linked to a string table.
pub open spec fn symbols_of(file: ElfView) -> Result<(Seq<Symbol>, u64), ParseError> {
    match (
        section_named(file, ".text".spec_bytes()),
        first_of_kind(file.sections, SYMBOL_TABLE, 0),
    ) {
        (Some(text), Some(table)) => if table.link >= file.sections.len()
            || file.sections[table.link as int].kind != STRING_TABLE {
            Err(ParseError::MalformedInput)
        } else {
            match contents_or_error(file.data, file.sections[table.link as int]) {
                Err(e) => Err(e),
                Ok(strings) => match contents_or_error(file.data, table) {
                    Err(e) => Err(e),
                    Ok(records) => match symbols_from(records, 0, strings, text.index, file.order) {
                        Err(e) => Err(e),
                        Ok(list) => Ok((list, text.size as u64)),
                    },
                },
            }
        },
        _ => Err(ParseError::MalformedInput),
    }
}

/// A file too short for its header is cut short, whatever it holds.
pub proof fn lemma_short_file_is_cut_short(data: Seq<u8>, order: ByteOrder)
    requires
        data.len() < SIZEOF_IDENT + RAW_ELF_HEADER_SIZE,
    ensures
        decoded(data, order) == Err::<ElfView, ParseError>(ParseError::UnexpectedEof),
{
}

/// Where `count - index` records from `at` on lie in the file and can be
/// decoded, there is one section for each, in the order of the records.
pub proof fn lemma_sections_from(data: Seq<u8>, at: int, index: int, count: int, order: ByteOrder)
    requires
        0 <= index <= count,
        0 <= at,
        at + RAW_SECTION_HEADER_SIZE * (count - index) <= data.len(),
        sections_from(data, at, index, count, order) is Ok,
    ensures
        sections_from(data, at, index, count, order)->Ok_0.len() == count - index,
        forall|k: int|
            0 <= k < count - index ==> (#[trigger] sections_from(
                data,
                at,
                index,
                count,
                order,
            )->Ok_0[k]) == section_at(data, at + RAW_SECTION_HEADER_SIZE * k, index + k, order),
    decreases count - index,
{
    if index < count {
        lemma_sections_from(data, at + RAW_SECTION_HEADER_SIZE, index + 1, count, order);
        let rest = sections_from(data, at + RAW_SECTION_HEADER_SIZE, index + 1, count, order)->Ok_0;
        let all = sections_from(data, at, index, count, order)->Ok_0;
        assert(all =~= seq![section_at(data, at, index, order)] + rest);
        assert forall|k: int| 0 <= k < count - index implies (#[trigger] all[k]) == section_at(
            data,
            at + RAW_SECTION_HEADER_SIZE * k,
            index + k,
            order,
        ) by {
            if k > 0 {
                assert(all[k] == rest[k - 1]);
            }
        }
    }
}

/// The sections of a decoded file whose section header table lies in the
/// file: as many as the header says, each read from its record, in the
/// order of the table.
pub proof fn lemma_sections_in_file_order(data: Seq<u8>, order: ByteOrder, file: ElfView)
    requires
        decoded(data, order) == Ok::<ElfView, ParseError>(file),
        file.header.shoff + RAW_SECTION_HEADER_SIZE * file.header.shnum <= data.len(),
    ensures
        file.sections.len() == file.header.shnum,
        forall|i: int|
            0 <= i < file.header.shnum ==> (#[trigger] file.sections[i]) == section_at(
                data,
                file.header.shoff + RAW_SECTION_HEADER_SIZE * i,
                i,
                order,
            ),
{
    let header = header_of(data, order);
    lemma_sections_from(data, header.shoff as int, 0, header.shnum as int, order);
}

/// No section is found under a name that the table of section names gives
/// to none of the sections.
pub proof fn lemma_absent_name_is_not_found(file: ElfView, name: Seq<u8>)
    requires
        name_table(file) matches Some(names) ==> forall|i: int|
            0 <= i < file.sections.len() ==> null_string(names, (#[trigger] file.sections[i]).name
                as int) != Some(name),
    ensures
        section_named(file, name) is None,
{
    match name_table(file) {
        Some(names) => {
            lemma_first_named_none(file.sections, names, name, 0);
        },
        None => {},
    }
}

/// A search that meets no section with the name finds none.
pub proof fn lemma_first_named_none(
    sections: Seq<Section>,
    names: Seq<u8>,
    name: Seq<u8>,
    from: int,
)
    requires
        0 <= from,
        forall|i: int|
            from <= i < sections.len() ==> null_string(names, (#[trigger] sections[i]).name as int)
                != Some(name),
    ensures
        first_named(sections, names, name, from) is None,
    decreases sections.len() - from,
{
    if from < sections.len() {
        assert(null_string(names, sections[from].name as int) != Some(name));
        lemma_first_named_none(sections, names, name, from + 1);
    }
}

/// Reads the file header of `data`.
pub fn parse_elf_header(data: &[u8], byte_order: ByteOrder) -> (r: Result<
    Elf64Header,
    UnexpectedEof,
>)
    ensures
        match r {
            Ok(header) => data@.len() >= SIZEOF_IDENT + RAW_ELF_HEADER_SIZE && header == header_of(
                data@,
                byte_order,
            ),
            Err(_) => data@.len() < SIZEOF_IDENT + RAW_ELF_HEADER_SIZE,
        },
{
    if data.len() < SIZEOF_IDENT + RAW_ELF_HEADER_SIZE {
        return Err(UnexpectedEof {  });
    }
    let mut s = Stream::new_at(data, SIZEOF_IDENT, byte_order)?;
    let elf_type = s.read::<u16>()?;
    let machine = s.read::<u16>()?;
    let version = s.read::<u32>()?;
    let entry = s.read::<u32>()?;
    let phoff = s.read::<u32>()?;
    let shoff = s.read::<u32>()?;
    let flags = s.read::<u32>()?;
    let ehsize = s.read::<u16>()?;
    let phentsize = s.read::<u16>()?;
    let phnum = s.read::<u16>()?;
    let shentsize = s.read::<u16>()?;
    let shnum = s.read::<u16>()?;
    let shstrndx = s.read::<u16>()?;
    Ok(
        Elf64Header {
            elf_type,
            machine,
            version,
            entry,
            phoff,
            shoff,
            flags,
            ehsize,
            phentsize,
            phnum,
            shentsize,
            shnum,
            shstrndx,
        },
    )
}

/// Reads the section header table that `header` describes.
pub fn parse_elf_sections(data: &[u8], byte_order: ByteOrder, header: &Elf64Header) -> (r: Result<
    Vec<Section>,
    ParseError,
>)
    ensures
        match r {
            Ok(list) => section_table(data@, byte_order, *header) == Ok::<Seq<Section>, ParseError>(
                list@,
            ),
            Err(e) => section_table(data@, byte_order, *header) == Err::<Seq<Section>, ParseError>(
                e,
            ),
        },
{
    let count = header.shnum;
    let total = data.len();
    let section_offset = header.shoff as usize;
    let mut s = end_of_input(Stream::new_at(data, section_offset, byte_order))?;
    // A file may claim any number of sections: space is set aside for a
    // thousand or so, and the list grows as sections are found.
    let mut sections: Vec<Section> = Vec::with_capacity(
        if count < 1024 {
            count as usize
        } else {
            1024
        },
    );
    let ghost whole = section_table(data@, byte_order, *header);
    let mut index: u16 = 0;
    proof {
        match whole {
            Ok(more) => {
                assert(Seq::<Section>::empty() + more =~= more);
            },
            Err(_) => {},
        }
    }
    while index < count && s.remaining() >= RAW_SECTION_HEADER_SIZE
        invariant
            index <= count,
            s@.data == data@,
            s@.order == byte_order,
            s@.wf(),
            sections@.len() == index,
            whole == section_table(data@, byte_order, *header),
            after(
                sections@,
                sections_from(data@, s@.offset as int, index as int, count as int, byte_order),
            ) == whole,
        decreases count - index,
    {
        let ghost at = s@.offset as int;
        let ghost before = sections@;
        let name = end_of_input(s.read::<u32>())?;
        let kind = end_of_input(s.read::<u32>())?;
        end_of_input(s.skip::<u32>())?;  // flags
        end_of_input(s.skip::<u32>())?;  // addr
        let offset = end_of_input(s.read::<u32>())?;
        let size = end_of_input(s.read::<u32>())?;
        let link = end_of_input(s.read::<u32>())? as usize;
        end_of_input(s.skip::<u32>())?;  // info
        end_of_input(s.skip::<u32>())?;  // addralign
        let entry_size = end_of_input(s.read::<u32>())?;
        let entries = if entry_size == 0 {
            0
        } else {
            size / entry_size
        };
        sections.push(
            Section { index, name, kind, link, offset, size, entries: entries as usize },
        );
        index = index + 1;
        proof {
            let found = seq![section_at(data@, at, index - 1, byte_order)];
            assert(sections@ =~= before + found);
            match sections_from(data@, s@.offset as int, index as int, count as int, byte_order) {
                Ok(more) => {
                    assert((before + found) + more =~= before + (found + more));
                },
                Err(_) => {},
            }
        }
    }
    proof {
        assert(sections@ + Seq::<Section>::empty() =~= sections@);
    }
    Ok(sections)
}

impl<'a> Elf64<'a> {
    #[verifier::type_invariant]
    spec fn is_decoded(self) -> bool {
        decoded(self.data@, self.byte_order) == Ok::<ElfView, ParseError>(self@)
    }
}

/// Decodes an ELF file whose numbers are stored in `byte_order`: its header
/// and its section header table.
pub fn parse(data: &[u8], byte_order: ByteOrder) -> (r: Result<Elf64, ParseError>)
    ensures
        match r {
            Ok(file) => decoded(data@, byte_order) == Ok::<ElfView, ParseError>(file@),
            Err(e) => decoded(data@, byte_order) == Err::<ElfView, ParseError>(e),
        },
{
    let header = end_of_input(parse_elf_header(data, byte_order))?;
    let sections = parse_elf_sections(data, byte_order, &header)?;
    Ok(Elf64 { data, byte_order, header, sections })
}

/// Hands out the bytes of the file that a section takes.
fn section_data<'a>(data: &'a [u8], section: &Section) -> (r: Result<&'a [u8], ParseError>)
    ensures
        match r {
            Ok(bytes) => contents_or_error(data@, *section) == Ok::<Seq<u8>, ParseError>(bytes@),
            Err(e) => contents_or_error(data@, *section) == Err::<Seq<u8>, ParseError>(e),
        },
{
    let range = section.range()?;
    if range.end > data.len() {
        return Err(ParseError::UnexpectedEof);
    }
    Ok(slice_subrange(data, range.start, range.end))
}

/// Reads the symbol record under the cursor.
pub fn read_record(s: &mut Stream) -> (r: Result<SymbolRecord, ParseError>)
    ensures
        match r {
            Ok(record) => old(s)@.has(RAW_SYMBOL_SIZE as nat) && final(s)@ == old(s)@.advance(
                RAW_SYMBOL_SIZE as nat,
            ) && record == record_at(old(s)@.data, old(s)@.offset as int, old(s)@.order),
            Err(e) => e == ParseError::UnexpectedEof && !old(s)@.has(RAW_SYMBOL_SIZE as nat)
                && final(s)@ == old(s)@,
        },
        final(s)@.wf(),
{
    if s.remaining() < RAW_SYMBOL_SIZE {
        return Err(ParseError::UnexpectedEof);
    }
    let ghost at = s@.offset as int;
    let ghost table = s@.data;
    // Note: the order of fields in 32 and 64 bit ELF is different.
    let name_offset = end_of_input(s.read::<u32>())?;
    let value = end_of_input(s.read::<u32>())?;
    let size = end_of_input(s.read::<u32>())?;
    let info = end_of_input(s.read::<u8>())?;
    end_of_input(s.skip::<u8>())?;  // other
    let shndx = end_of_input(s.read::<u16>())?;
    assert(table.subrange(at + 12, at + 12 + 1)[0] == table[at + 12]);
    Ok(SymbolRecord { name_offset, info, shndx, value, size })
}

/// Whether a record is a function with a size and a name that belongs to
/// the section with the index `text_index`.
fn check_text_function(record: &SymbolRecord, text_index: u16) -> (b: bool)
    ensures
        b == is_text_function(*record, text_index),
{
    record.shndx == text_index && record.size != 0 && record.name_offset != 0 && record.info & 0xf
        == STT_FUNC
}

/// Reads the function symbols of the section with the index of
/// `text_section` from the records that follow the cursor, with their names
/// from `strings`. `count` is how many records are expected.
pub fn parse_symbols(s: Stream, count: usize, strings: &[u8], text_section: Section) -> (r: Result<
    Vec<SymbolData>,
    ParseError,
>)
    ensures
        match r {
            Ok(list) => symbols_from(
                s@.data,
                s@.offset as int,
                strings@,
                text_section.index,
                s@.order,
            ) == Ok::<Seq<Symbol>, ParseError>(symbols_view(list@)),
            Err(e) => symbols_from(
                s@.data,
                s@.offset as int,
                strings@,
                text_section.index,
                s@.order,
            ) == Err::<Seq<Symbol>, ParseError>(e),
        },
{
    let mut cursor = s;
    let mut symbols: Vec<SymbolData> = Vec::with_capacity(
        if count < 1024 {
            count
        } else {
            1024
        },
    );
    let ghost table = s@.data;
    let ghost order = s@.order;
    let start = cursor.offset();
    let ghost whole = symbols_from(table, start as int, strings@, text_section.index, order);
    proof {
        assert(symbols_view(symbols@) =~= Seq::empty());
        match whole {
            Ok(more) => {
                assert(Seq::<Symbol>::empty() + more =~= more);
            },
            Err(_) => {},
        }
    }
    while !cursor.at_end()
        invariant
            s@.data == table,
            s@.order == order,
            s@.offset == start,
            cursor@.data == table,
            cursor@.order == order,
            cursor@.wf(),
            whole == symbols_from(table, start as int, strings@, text_section.index, order),
            after(
                symbols_view(symbols@),
                symbols_from(table, cursor@.offset as int, strings@, text_section.index, order),
            ) == whole,
        decreases cursor@.data.len() - cursor@.offset,
    {
        let ghost at = cursor@.offset as int;
        let ghost before = symbols_view(symbols@);
        let record = read_record(&mut cursor)?;
        // Symbols of other sections, symbols without a size or a name and
        // symbols that are no functions are passed over.
        if check_text_function(&record, text_section.index) {
            match parse_null_string(strings, record.name_offset as usize) {
                Some(name) => {
                    let owned = name.to_owned();
                    proof {
                        vstd::utf8::encode_utf8_decode_utf8(name@);
                    }
                    symbols.push(
                        SymbolData {
                            name: owned,
                            address: record.value as u64,
                            size: record.size as u64,
                        },
                    );
                },
                None => {},
            }
        }
        proof {
            let found = symbol_at(table, at, strings@, text_section.index, order);
            assert(symbols_view(symbols@) =~= before + found);
            match symbols_from(table, cursor@.offset as int, strings@, text_section.index, order) {
                Ok(more) => {
                    assert((before + found) + more =~= before + (found + more));
                },
                Err(_) => {},
            }
        }
    }
    proof {
        assert(symbols_view(symbols@) + Seq::<Symbol>::empty() =~= symbols_view(symbols@));
    }
    Ok(symbols)
}

impl<'a> Elf64<'a> {
    /// The file header.
    pub fn header(&self) -> (header: Elf64Header)
        ensures
            header == self@.header,
            decoded(self@.data, self@.order) == Ok::<ElfView, ParseError>(self@),
    {
        proof {
            use_type_invariant(self);
        }
        self.header
    }

    /// The sections, in the order of the section header table.
    pub fn sections(&self) -> (list: Vec<Section>)
        ensures
            list@ == self@.sections,
    {
        let mut list: Vec<Section> = Vec::with_capacity(self.sections.len());
        let mut i: usize = 0;
        while i < self.sections.len()
            invariant
                i <= self.sections@.len(),
                list@ == self.sections@.take(i as int),
            decreases self.sections@.len() - i,
        {
            list.push(self.sections[i]);
            assert(list@ =~= self.sections@.take(i + 1));
            i = i + 1;
        }
        assert(list@ =~= self.sections@);
        list
    }

    /// The first section with the name `name`. There is none where the
    /// header names no table of section names that lies in the file.
    pub fn section_with_name(&self, name: &str) -> (r: Option<Section>)
        ensures
            r == section_named(self@, name.spec_bytes()),
    {
        let index = self.header.shstrndx as usize;
        if index >= self.sections.len() {
            return None;
        }
        let names = match section_data(self.data, &self.sections[index]) {
            Ok(bytes) => bytes,
            Err(_) => {
                return None;
            },
        };
        let mut i: usize = 0;
        while i < self.sections.len()
            invariant
                i <= self.sections@.len(),
                name_table(self@) == Some(names@),
                first_named(self@.sections, names@, name.spec_bytes(), 0) == first_named(
                    self@.sections,
                    names@,
                    name.spec_bytes(),
                    i as int,
                ),
            decreases self.sections@.len() - i,
        {
            let section = self.sections[i];
            match parse_null_string(names, section.name as usize) {
                Some(found) => {
                    if same_str(found, name) {
                        return Some(section);
                    }
                },
                None => {},
            }
            i = i + 1;
        }
        None
    }

    /// The function symbols of `.text`, in the order of the symbol table,
    /// and the size of `.text`.
    pub fn symbols(&self) -> (r: Result<(Vec<SymbolData>, u64), ParseError>)
        ensures
            match r {
                Ok((list, text_size)) => symbols_of(self@) == Ok::<(Seq<Symbol>, u64), ParseError>(
                    (symbols_view(list@), text_size),
                ),
                Err(e) => symbols_of(self@) == Err::<(Seq<Symbol>, u64), ParseError>(e),
            },
    {
        let text_section = match self.section_with_name(".text") {
            Some(section) => section,
            None => {
                return Err(ParseError::MalformedInput);
            },
        };
        let mut k: usize = 0;
        while k < self.sections.len() && self.sections[k].kind != SYMBOL_TABLE
            invariant
                k <= self.sections@.len(),
                first_of_kind(self@.sections, SYMBOL_TABLE, 0) == first_of_kind(
                    self@.sections,
                    SYMBOL_TABLE,
                    k as int,
                ),
            decreases self.sections@.len() - k,
        {
            k = k + 1;
        }
        if k == self.sections.len() {
            return Err(ParseError::MalformedInput);
        }
        let symbols_section = self.sections[k];
        if symbols_section.link >= self.sections.len() {
            return Err(ParseError::MalformedInput);
        }
        let linked_section = self.sections[symbols_section.link];
        if linked_section.kind != STRING_TABLE {
            return Err(ParseError::MalformedInput);
        }
        let strings = section_data(self.data, &linked_section)?;
        let records = section_data(self.data, &symbols_section)?;
        let s = Stream::new(records, self.byte_order);
        let symbols = parse_symbols(s, symbols_section.entries, strings, text_section)?;
        Ok((symbols, text_section.size as u64))
    }
}

} // verus!
