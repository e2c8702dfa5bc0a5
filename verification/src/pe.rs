//! The PE/COFF decoder.
//!
//! A PE file starts with a DOS stub whose word at `0x3c` points to the PE
//! header. The decoder follows that pointer, reads the COFF header, looks
//! through the section table for `.text`, and takes from the COFF symbol
//! table the external function symbols that lie in that section. COFF stores
//! no symbol sizes: they are inferred from the addresses.

use vstd::prelude::*;
use vstd::slice::slice_subrange;
use vstd::string::StringSliceAdditionalSpecFns;
use vstd::utf8::{decode_utf8, valid_utf8};
use crate::ByteOrder;
use crate::error::{end_of_input, ParseError};
use crate::parser::{
    null_string,
    parse_null_string,
    terminator,
    value_at,
    Stream,
    UnexpectedEof,
};
use crate::sizes::{
    addresses,
    distance_among,
    in_address_order,
    size_among,
    sort_by_address,
    sorted_by_address,
    strictly_increasing,
    Addressed,
};
use crate::symbol::{symbols_view, Symbol, SymbolData};

verus! {

/// Where the pointer to the PE header stands.
pub const PE_POINTER_OFFSET: usize = 0x3c;

/// The size of one record of the COFF symbol table.
pub const COFF_SYMBOL_SIZE: usize = 18;

/// The storage class of an external symbol.
pub const IMAGE_SYM_CLASS_EXTERNAL: u8 = 2;

/// How far the derived type stands to the left in a symbol's type word.
pub const IMAGE_SYM_DTYPE_SHIFT: u16 = 4;

/// The derived type of a function.
pub const IMAGE_SYM_DTYPE_FUNCTION: u16 = 2;

/// The size of the signature `PE\0\0`.
pub const SIZEOF_PE_MAGIC: usize = 4;

/// The size of the COFF header that follows the signature.
pub const SIZEOF_COFF_HEADER: usize = 20;

/// The size of one record of the section table.
pub const SIZEOF_SECTION_HEADER: usize = 40;

/// The fields of the COFF header.
#[derive(Debug, Copy, Clone, PartialEq, Eq, Structural)]
pub struct PeHeader {
    pub machine: u16,
    pub number_of_sections: u16,
    pub time_date_stamp: u32,
    pub pointer_to_symbol_table: u32,
    pub number_of_symbols: u32,
    pub size_of_optional_header: u16,
    pub characteristics: u16,
}

/// What the section table says of `.text`: the size of its raw data and its
/// place in the table, counted from zero. Both are zero where the table has
/// no such section.
#[derive(Debug, Copy, Clone, PartialEq, Eq, Structural)]
pub struct TextSection {
    pub size: u32,
    pub index: u16,
}

/// A symbol that passed the filters: its name, as bytes, and its value.
pub struct CoffEntry {
    pub name: Seq<u8>,
    pub address: u32,
}

/// A symbol that passed the filters, with its name still in the buffer.
#[derive(Debug, Copy, Clone)]
pub struct CoffSymbol<'a> {
    pub name: &'a str,
    pub address: u32,
}

impl<'a> View for CoffSymbol<'a> {
    type V = CoffEntry;

    open spec fn view(&self) -> CoffEntry {
        CoffEntry { name: self.name.spec_bytes(), address: self.address }
    }
}

/// The place of a symbol in address order: its address, and its position in
/// the list of the symbols kept.
#[derive(Debug, Copy, Clone, PartialEq, Eq, Structural)]
pub struct Slot {
    pub address: u64,
    pub index: usize,
}

impl Addressed for Slot {
    open spec fn address_of(&self) -> u64 {
        self.address
    }

    fn address(&self) -> u64 {
        self.address
    }
}

/// The little-endian `u16` at `at`.
pub open spec fn le16(data: Seq<u8>, at: int) -> u16 {
    value_at::<u16>(data, at, ByteOrder::LittleEndian)
}

/// The little-endian `u32` at `at`.
pub open spec fn le32(data: Seq<u8>, at: int) -> u32 {
    value_at::<u32>(data, at, ByteOrder::LittleEndian)
}

/// The header whose signature starts at `at`.
pub open spec fn header_at(data: Seq<u8>, at: int, order: ByteOrder) -> PeHeader {
    PeHeader {
        machine: value_at::<u16>(data, at + 4, order),
        number_of_sections: value_at::<u16>(data, at + 6, order),
        time_date_stamp: value_at::<u32>(data, at + 8, order),
        pointer_to_symbol_table: value_at::<u32>(data, at + 12, order),
        number_of_symbols: value_at::<u32>(data, at + 16, order),
        size_of_optional_header: value_at::<u16>(data, at + 20, order),
        characteristics: value_at::<u16>(data, at + 22, order),
    }
}

/// The bytes of `.text`.
pub open spec fn dot_text() -> Seq<u8> {
    seq![0x2eu8, 0x74u8, 0x65u8, 0x78u8, 0x74u8]
}

/// The bytes of an eight-byte name field up to its first zero byte.
pub open spec fn short_name(field: Seq<u8>) -> Seq<u8> {
    field.subrange(0, terminator(field, 0))
}

/// What the section table, `count` records from `table` on, says of
/// `.text`, looking from record `i` on. The first record of that name
/// decides. A record that does not lie in the buffer is an error, unless
/// `.text` was found before it.
pub open spec fn text_section_from(data: Seq<u8>, table: int, i: int, count: int) -> Result<
    TextSection,
    ParseError,
>
    decreases count - i,
{
    let record = table + SIZEOF_SECTION_HEADER * i;
    if i >= count {
        Ok(TextSection { size: 0, index: 0 })
    } else if record + SIZEOF_SECTION_HEADER > data.len() {
        Err(ParseError::UnexpectedEof)
    } else if short_name(data.subrange(record, record + 8)) == dot_text() {
        Ok(TextSection { size: le32(data, record + 16), index: i as u16 })
    } else {
        text_section_from(data, table, i + 1, count)
    }
}

/// The name of a symbol: the eight-byte field itself up to its first zero
/// byte, or, where the field starts with four zero bytes, the string of the
/// string table at the offset that its other four bytes spell. `None` where
/// the name is not UTF-8 or the string table holds no string there.
pub open spec fn symbol_name(field: Seq<u8>, data: Seq<u8>, strings: int) -> Option<Seq<u8>> {
    if field[0] == 0 && field[1] == 0 && field[2] == 0 && field[3] == 0 {
        null_string(data, strings + le32(field, 4))
    } else if valid_utf8(short_name(field)) {
        Some(short_name(field))
    } else {
        None
    }
}

/// Whether the record at `at` is an external function symbol of the section
/// with the index `text_index`.
pub open spec fn is_text_function(table: Seq<u8>, at: int, text_index: u16) -> bool {
    &&& (le16(table, at + 14) >> IMAGE_SYM_DTYPE_SHIFT) == IMAGE_SYM_DTYPE_FUNCTION
    &&& table[at + 16] == IMAGE_SYM_CLASS_EXTERNAL
    &&& value_at::<i16>(table, at + 12, ByteOrder::LittleEndian) - 1 == text_index
}

/// What the record at `at` adds to the symbols kept: itself, if it is an
/// external function symbol of `.text` with a name, else nothing.
pub open spec fn kept_at(table: Seq<u8>, data: Seq<u8>, strings: int, text_index: u16, at: int)
    -> Seq<CoffEntry> {
    if is_text_function(table, at, text_index) {
        match symbol_name(table.subrange(at, at + 8), data, strings) {
            Some(name) => seq![CoffEntry { name, address: le32(table, at + 8) }],
            None => Seq::empty(),
        }
    } else {
        Seq::empty()
    }
}

/// The symbols kept from the records of `table` from `at` on, in the order
/// of the table. The auxiliary records that follow a symbol are passed over;
/// where they do not lie in the table, the table is cut short.
pub open spec fn kept_from(table: Seq<u8>, data: Seq<u8>, strings: int, text_index: u16, at: int)
    -> Result<Seq<CoffEntry>, ParseError>
    decreases table.len() - at,
{
    if at < 0 || at >= table.len() {
        Ok(Seq::empty())
    } else if at + COFF_SYMBOL_SIZE > table.len() {
        Err(ParseError::UnexpectedEof)
    } else {
        let next = at + COFF_SYMBOL_SIZE + COFF_SYMBOL_SIZE * table[at + 17];
        if next > table.len() {
            Err(ParseError::UnexpectedEof)
        } else {
            match kept_from(table, data, strings, text_index, next) {
                Ok(rest) => Ok(kept_at(table, data, strings, text_index, at) + rest),
                Err(e) => Err(e),
            }
        }
    }
}

/// `found` in front of what `rest` holds.
pub open spec fn after<A>(found: Seq<A>, rest: Result<Seq<A>, ParseError>) -> Result<
    Seq<A>,
    ParseError,
> {
    match rest {
        Ok(more) => Ok(found + more),
        Err(e) => Err(e),
    }
}

/// The addresses of the symbols kept.
pub open spec fn entry_addresses(kept: Seq<CoffEntry>) -> Seq<u64> {
    Seq::new(kept.len(), |i: int| kept[i].address as u64)
}

/// One slot for each address, in the order of the addresses.
pub open spec fn slots(list: Seq<u64>) -> Seq<Slot> {
    Seq::new(list.len(), |i: int| Slot { address: list[i], index: i as usize })
}

/// The symbols kept, in address order and with their sizes. Symbols that
/// share an address stay in the order of the table. The end of `.text`
/// counts as one more address when the sizes are taken.
pub open spec fn arranged(kept: Seq<CoffEntry>, text_size: u64) -> Seq<Symbol> {
    let order = sorted_by_address(slots(entry_addresses(kept)));
    Seq::new(
        kept.len(),
        |j: int|
            Symbol {
                name: decode_utf8(kept[order[j].index as int].name),
                address: order[j].address,
                size: size_among(entry_addresses(kept), text_size, order[j].address),
            },
    )
}

/// The function symbols of `.text` and the size of `.text`, as the file
/// `data` gives them.
pub open spec fn coff_symbols(data: Seq<u8>) -> Result<(Seq<Symbol>, u64), ParseError> {
    if data.len() < PE_POINTER_OFFSET + 4 {
        Err(ParseError::UnexpectedEof)
    } else {
        let pe = le32(data, PE_POINTER_OFFSET as int) as int;
        let header = header_at(data, pe, ByteOrder::LittleEndian);
        let sections = pe + SIZEOF_PE_MAGIC + SIZEOF_COFF_HEADER + header.size_of_optional_header;
        let table = header.pointer_to_symbol_table as int;
        let strings = table + COFF_SYMBOL_SIZE * header.number_of_symbols;
        if pe + SIZEOF_PE_MAGIC + SIZEOF_COFF_HEADER > data.len() || sections >= data.len() {
            Err(ParseError::UnexpectedEof)
        } else {
            match text_section_from(data, sections, 0, header.number_of_sections as int) {
                Err(e) => Err(e),
                Ok(text) => if table >= data.len() || strings > data.len() {
                    Err(ParseError::UnexpectedEof)
                } else {
                    match kept_from(data.subrange(table, strings), data, strings, text.index, 0) {
                        Err(e) => Err(e),
                        Ok(kept) => Ok((arranged(kept, text.size as u64), text.size as u64)),
                    }
                },
            }
        }
    }
}

/// The symbols come out in address order, one for each symbol kept, and the
/// size of each is the distance from its address to the next greater address
/// among those of the symbols kept and the size of `.text`; it is zero where
/// there is no greater one.
pub proof fn lemma_arranged_in_address_order(kept: Seq<CoffEntry>, text_size: u64)
    ensures
        arranged(kept, text_size).len() == kept.len(),
        forall|i: int, j: int|
            0 <= i <= j < kept.len() ==> arranged(kept, text_size)[i].address <= arranged(
                kept,
                text_size,
            )[j].address,
        forall|j: int|
            0 <= j < kept.len() ==> (#[trigger] arranged(kept, text_size)[j]).size == size_among(
                entry_addresses(kept),
                text_size,
                arranged(kept, text_size)[j].address,
            ),
{
    let order = sorted_by_address(slots(entry_addresses(kept)));
    crate::sizes::lemma_sorted_by_address(slots(entry_addresses(kept)));
    assert forall|i: int, j: int| 0 <= i <= j < kept.len() implies arranged(
        kept,
        text_size,
    )[i].address <= arranged(kept, text_size)[j].address by {
        assert(order[i].address_of() <= order[j].address_of());
    }
}

/// Where the addresses of the symbols kept strictly increase and `.text`
/// ends after the last of them, the symbols come out in the order of the
/// table, and the size of each is the distance to the address of the symbol
/// that follows it; that of the last is the distance to the end of `.text`.
pub proof fn lemma_sizes_of_increasing_symbols(kept: Seq<CoffEntry>, text_size: u64, i: int)
    requires
        strictly_increasing(entry_addresses(kept)),
        0 <= i < kept.len() <= usize::MAX,
        entry_addresses(kept).last() < text_size,
    ensures
        arranged(kept, text_size)[i] == (Symbol {
            name: decode_utf8(kept[i].name),
            address: kept[i].address as u64,
            size: if i + 1 < kept.len() {
                (kept[i + 1].address - kept[i].address) as u64
            } else {
                (text_size - kept[i].address) as u64
            },
        }),
{
    let all = entry_addresses(kept);
    let unsorted = slots(all);
    assert(in_address_order(unsorted)) by {
        assert forall|m: int, n: int| 0 <= m <= n < unsorted.len() implies unsorted[m].address_of()
            <= unsorted[n].address_of() by {
            if m < n {
                assert(all[m] < all[n]);
            }
        }
    }
    crate::sizes::lemma_sorted_already(unsorted);
    crate::sizes::lemma_sizes_of_increasing_addresses(all, text_size, i);
    assert(unsorted[i].index == i);
    assert(all[i] == kept[i].address);
    if i + 1 < kept.len() {
        assert(all[i + 1] == kept[i + 1].address);
    }
}

/// A file too short to hold the pointer to its PE header is cut short,
/// whatever it holds.
pub proof fn lemma_short_file_is_cut_short(data: Seq<u8>)
    requires
        data.len() < PE_POINTER_OFFSET + 4,
    ensures
        coff_symbols(data) == Err::<(Seq<Symbol>, u64), ParseError>(ParseError::UnexpectedEof),
{
}

/// Reads the COFF header that starts, with its signature, at the cursor.
pub fn parse_pe_header(s: &mut Stream) -> (r: Result<PeHeader, UnexpectedEof>)
    ensures
        match r {
            Ok(header) => old(s)@.has(24) && final(s)@ == old(s)@.advance(24) && header
                == header_at(old(s)@.data, old(s)@.offset as int, old(s)@.order),
            Err(_) => !old(s)@.has(24) && final(s)@ == old(s)@,
        },
        final(s)@.wf(),
{
    if s.remaining() < SIZEOF_PE_MAGIC + SIZEOF_COFF_HEADER {
        return Err(UnexpectedEof {  });
    }
    s.skip::<u32>()?;
    let machine = s.read::<u16>()?;
    let number_of_sections = s.read::<u16>()?;
    let time_date_stamp = s.read::<u32>()?;
    let pointer_to_symbol_table = s.read::<u32>()?;
    let number_of_symbols = s.read::<u32>()?;
    let size_of_optional_header = s.read::<u16>()?;
    let characteristics = s.read::<u16>()?;
    Ok(
        PeHeader {
            machine,
            number_of_sections,
            time_date_stamp,
            pointer_to_symbol_table,
            number_of_symbols,
            size_of_optional_header,
            characteristics,
        },
    )
}

/// The length of an eight-byte name field up to its first zero byte.
fn short_name_len(field: &[u8]) -> (len: usize)
    requires
        field@.len() == 8,
    ensures
        len == terminator(field@, 0),
        len <= 8,
{
    let mut len: usize = 0;
    while len < 8 && field[len] != 0
        invariant
            len <= 8,
            field@.len() == 8,
            terminator(field@, 0) == terminator(field@, len as int),
        decreases 8 - len,
    {
        len = len + 1;
    }
    len
}

/// Whether an eight-byte name field spells `.text`.
fn is_dot_text(field: &[u8]) -> (b: bool)
    requires
        field@.len() == 8,
    ensures
        b == (short_name(field@) == dot_text()),
{
    let len = short_name_len(field);
    let b = len == 5 && field[0] == 0x2e && field[1] == 0x74 && field[2] == 0x65 && field[3] == 0x78
        && field[4] == 0x74;
    proof {
        let name = short_name(field@);
        if b {
            assert(name =~= dot_text());
        } else if len == 5 {
            assert(name[0] == field@[0] && name[1] == field@[1] && name[2] == field@[2] && name[3]
                == field@[3] && name[4] == field@[4]);
        } else {
            assert(name.len() != dot_text().len());
        }
    }
    b
}

/// Looks through the `count` records of the section table at `table` for
/// the first section named `.text`.
pub fn find_text_section(data: &[u8], table: usize, count: u16) -> (r: Result<
    TextSection,
    ParseError,
>)
    ensures
        r == text_section_from(data@, table as int, 0, count as int),
{
    if count == 0 {
        return Ok(TextSection { size: 0, index: 0 });
    }
    let mut s = end_of_input(Stream::new_at(data, table, ByteOrder::LittleEndian))?;
    let mut i: u16 = 0;
    while i < count
        invariant
            i <= count,
            s@.data == data@,
            s@.order == ByteOrder::LittleEndian,
            s@.offset == table + SIZEOF_SECTION_HEADER * i,
            s@.wf(),
            text_section_from(data@, table as int, 0, count as int) == text_section_from(
                data@,
                table as int,
                i as int,
                count as int,
            ),
        decreases count - i,
    {
        let name = end_of_input(s.read_bytes(8))?;
        end_of_input(s.skip_len(8))?;
        let size = end_of_input(s.read::<u32>())?;
        end_of_input(s.skip_len(20))?;
        if is_dot_text(name) {
            return Ok(TextSection { size, index: i });
        }
        i = i + 1;
    }
    Ok(TextSection { size: 0, index: 0 })
}

/// Resolves the name of a symbol from its eight-byte name field.
fn resolve_name<'a>(field: &'a [u8], data: &'a [u8], strings: usize) -> (r: Option<&'a str>)
    requires
        field@.len() == 8,
    ensures
        match r {
            Some(name) => symbol_name(field@, data@, strings as int) == Some(name.spec_bytes()),
            None => symbol_name(field@, data@, strings as int) is None,
        },
{
    if field[0] == 0 && field[1] == 0 && field[2] == 0 && field[3] == 0 {
        // The name is in the string table, at the offset that the other
        // four bytes spell.
        let mut s = Stream::new(field, ByteOrder::LittleEndian);
        let offset = match (s.skip_len(4), s.read::<u32>()) {
            (Ok(_), Ok(offset)) => offset,
            _ => {
                return None;
            },
        };
        proof {
            vstd::slice::axiom_spec_len(data);
        }
        match strings.checked_add(offset as usize) {
            Some(start) => parse_null_string(data, start),
            None => None,
        }
    } else {
        let len = short_name_len(field);
        match core::str::from_utf8(slice_subrange(field, 0, len)) {
            Ok(name) => Some(name),
            Err(_) => None,
        }
    }
}

/// The contents of a list of kept symbols.
pub open spec fn entries(list: Seq<CoffSymbol>) -> Seq<CoffEntry> {
    list.map_values(|k: CoffSymbol| k@)
}

/// Walks the symbol table and keeps the external function symbols of the
/// section with the index `text_index`. `strings` is where the string table
/// starts in `data`.
pub fn read_symbols<'a>(table: &'a [u8], data: &'a [u8], strings: usize, text_index: u16) -> (r:
    Result<Vec<CoffSymbol<'a>>, ParseError>)
    ensures
        match r {
            Ok(kept) => kept_from(table@, data@, strings as int, text_index, 0) == Ok::<
                Seq<CoffEntry>,
                ParseError,
            >(entries(kept@)),
            Err(e) => kept_from(table@, data@, strings as int, text_index, 0) == Err::<
                Seq<CoffEntry>,
                ParseError,
            >(e),
        },
{
    let mut kept: Vec<CoffSymbol<'a>> = Vec::new();
    let mut s = Stream::new(table, ByteOrder::LittleEndian);
    let ghost whole = kept_from(table@, data@, strings as int, text_index, 0);
    assert(entries(kept@) =~= Seq::empty());
    assert(after(entries(kept@), whole) == whole) by {
        match whole {
            Ok(more) => {
                assert(Seq::<CoffEntry>::empty() + more =~= more);
            },
            Err(_) => {},
        }
    }
    while !s.at_end()
        invariant
            s@.data == table@,
            s@.order == ByteOrder::LittleEndian,
            s@.wf(),
            whole == kept_from(table@, data@, strings as int, text_index, 0),
            after(
                entries(kept@),
                kept_from(table@, data@, strings as int, text_index, s@.offset as int),
            ) == whole,
        decreases s@.data.len() - s@.offset,
    {
        let ghost at = s@.offset as int;
        let ghost before = entries(kept@);
        let name = end_of_input(s.read_bytes(8))?;
        let value = end_of_input(s.read::<u32>())?;
        let section_number = end_of_input(s.read::<i16>())?;
        let kind = end_of_input(s.read::<u16>())?;
        let storage_class = end_of_input(s.read::<u8>())?;
        let aux = end_of_input(s.read::<u8>())?;
        assert(table@.subrange(at + 16, at + 16 + 1)[0] == table@[at + 16]);
        assert(table@.subrange(at + 17, at + 17 + 1)[0] == table@[at + 17]);
        end_of_input(s.skip_len(aux as usize * COFF_SYMBOL_SIZE))?;
        if (kind >> IMAGE_SYM_DTYPE_SHIFT) == IMAGE_SYM_DTYPE_FUNCTION && storage_class
            == IMAGE_SYM_CLASS_EXTERNAL && section_number as i32 - 1 == text_index as i32 {
            match resolve_name(name, data, strings) {
                Some(name) => {
                    kept.push(CoffSymbol { name, address: value });
                },
                None => {},
            }
        }
        proof {
            let found = kept_at(table@, data@, strings as int, text_index, at);
            let rest = kept_from(table@, data@, strings as int, text_index, s@.offset as int);
            assert(entries(kept@) =~= before + found);
            match rest {
                Ok(more) => {
                    assert((before + found) + more =~= before + (found + more));
                },
                Err(_) => {},
            }
        }
    }
    proof {
        assert(entries(kept@) + Seq::<CoffEntry>::empty() =~= entries(kept@));
    }
    Ok(kept)
}

/// Brings the symbols kept into address order and gives each its size.
pub fn arrange(kept: &Vec<CoffSymbol>, text_size: u32) -> (out: Vec<SymbolData>)
    ensures
        symbols_view(out@) == arranged(entries(kept@), text_size as u64),
{
    let count = kept.len();
    let ghost list = entry_addresses(entries(kept@));
    let mut order: Vec<Slot> = Vec::with_capacity(count);
    let mut i: usize = 0;
    while i < count
        invariant
            i <= count,
            count == kept@.len(),
            list == entry_addresses(entries(kept@)),
            order@ == slots(list).take(i as int),
        decreases count - i,
    {
        order.push(Slot { address: kept[i].address as u64, index: i });
        assert(order@ =~= slots(list).take(i + 1));
        i = i + 1;
    }
    assert(order@ =~= slots(list));
    sort_by_address(&mut order);
    proof {
        crate::sizes::lemma_sorted_same_items(order@, slots(list));
        crate::sizes::lemma_sorted_same_addresses(order@, slots(list));
        assert(addresses(slots(list)) =~= list);
    }
    let mut out: Vec<SymbolData> = Vec::with_capacity(count);
    let mut j: usize = 0;
    while j < count
        invariant
            j <= count,
            count == kept@.len(),
            order@.len() == count,
            list == entry_addresses(entries(kept@)),
            order@ == sorted_by_address(slots(list)),
            in_address_order(order@),
            forall|x: u64| addresses(order@).contains(x) <==> list.contains(x),
            forall|m: int| 0 <= m < order@.len() ==> slots(list).contains(#[trigger] order@[m]),
            out@.len() == j,
            symbols_view(out@) == arranged(entries(kept@), text_size as u64).take(j as int),
        decreases count - j,
    {
        let slot = order[j];
        proof {
            assert(slots(list).contains(order@[j as int]));
            let m = choose|m: int| 0 <= m < slots(list).len() && slots(list)[m] == slot;
            assert(slot.index == m);
            crate::sizes::lemma_sizes_same_members(
                addresses(order@),
                list,
                text_size as u64,
                slot.address,
            );
        }
        let symbol = kept[slot.index];
        let size = distance_among(&order, j, text_size as u64);
        let name = symbol.name.to_owned();
        proof {
            vstd::utf8::encode_utf8_decode_utf8(symbol.name@);
        }
        let item = SymbolData { name, address: slot.address, size };
        let ghost all = arranged(entries(kept@), text_size as u64);
        let ghost before = out@;
        assert(item@.name == all[j as int].name);
        assert(item@.size == all[j as int].size);
        assert(item@ == all[j as int]);
        out.push(item);
        assert forall|m: int| 0 <= m < j + 1 implies symbols_view(out@)[m] == all.take(j + 1)[m] by {
            if m < j {
                assert(symbols_view(before)[m] == all.take(j as int)[m]);
            }
        }
        assert(symbols_view(out@) =~= all.take(j + 1));
        j = j + 1;
    }
    assert(symbols_view(out@) =~= arranged(entries(kept@), text_size as u64));
    out
}

/// Decodes a PE file: the external function symbols of `.text`, in address
/// order and with inferred sizes, and the size of `.text`.
pub fn parse(data: &[u8]) -> (r: Result<(Vec<SymbolData>, u64), ParseError>)
    ensures
        match r {
            Ok((list, text_size)) => coff_symbols(data@) == Ok::<(Seq<Symbol>, u64), ParseError>(
                (symbols_view(list@), text_size),
            ),
            Err(e) => coff_symbols(data@) == Err::<(Seq<Symbol>, u64), ParseError>(e),
        },
{
    let mut s = end_of_input(Stream::new_at(data, PE_POINTER_OFFSET, ByteOrder::LittleEndian))?;
    let pe_pointer = end_of_input(s.read::<u32>())? as usize;
    let mut s = end_of_input(Stream::new_at(data, pe_pointer, ByteOrder::LittleEndian))?;
    let header = end_of_input(parse_pe_header(&mut s))?;
    let total = data.len();
    let sections = match s.offset().checked_add(header.size_of_optional_header as usize) {
        Some(at) => at,
        None => {
            return Err(ParseError::UnexpectedEof);
        },
    };
    if sections >= total {
        return Err(ParseError::UnexpectedEof);
    }
    let text = find_text_section(data, sections, header.number_of_sections)?;
    let mut s = end_of_input(
        Stream::new_at(data, header.pointer_to_symbol_table as usize, ByteOrder::LittleEndian),
    )?;
    let table_len = match (header.number_of_symbols as usize).checked_mul(COFF_SYMBOL_SIZE) {
        Some(len) => len,
        None => {
            return Err(ParseError::UnexpectedEof);
        },
    };
    let table = end_of_input(s.read_bytes(table_len))?;
    let strings = s.offset();
    let kept = read_symbols(table, data, strings, text.index)?;
    let list = arrange(&kept, text.size);
    Ok((list, text.size as u64))
}

} // verus!
