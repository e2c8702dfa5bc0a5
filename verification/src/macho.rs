//! The Mach-O decoder, for 64-bit little-endian files.
//!
//! A Mach-O file is a header followed by load commands. The decoder lists
//! the commands, takes the sections from the `LC_SEGMENT_64` commands, and
//! reads the function symbols of the first section from the table that the
//! `LC_SYMTAB` command points to. Mach-O stores no symbol sizes: they are
//! inferred from the addresses.

use std::ops::Range;
use vstd::prelude::*;
use vstd::slice::slice_subrange;
use vstd::string::StringSliceAdditionalSpecFns;
use vstd::utf8::decode_utf8;
use crate::ByteOrder;
use crate::error::{end_of_input, ParseError};
use crate::parser::{
    null_string,
    parse_null_string,
    same_str,
    value_at,
    Cursor,
    Stream,
    UnexpectedEof,
};
use crate::sizes::{
    addresses,
    at_address,
    distance_before,
    in_address_order,
    size_before,
    sort_by_address,
    sorted_by_address,
    strictly_increasing,
    Addressed,
};
use crate::symbol::{symbols_view, Symbol, SymbolData};

verus! {

/// The load command that points to the symbol table.
pub const LC_SYMTAB: u32 = 0x2;

/// The load command that describes a 64-bit segment.
pub const LC_SEGMENT_64: u32 = 0x19;

/// The bits of a symbol's type byte that say what kind of symbol it is.
pub const N_TYPE: u8 = 0x0E;

/// The type bits of an indirect symbol.
pub const INDIRECT: u8 = 0xA;

/// The type bits of a symbol that is defined in a section.
pub const SECTION: u8 = 0xE;

/// The size of the file header.
pub const SIZEOF_HEADER: usize = 32;

/// The size of what a load command starts with: its kind and its size.
pub const SIZEOF_COMMAND_HEADER: usize = 8;

/// The size of what the body of a segment command starts with.
pub const SIZEOF_SEGMENT_HEADER: usize = 64;

/// The size of one section record of a segment command.
pub const SIZEOF_SECTION: usize = 80;

/// The size of one record of the symbol table.
pub const SIZEOF_SYMBOL: usize = 16;

/// A load command: its kind, and where its body starts in the file.
#[derive(Debug, Clone, Copy, PartialEq, Eq, Structural)]
pub struct Cmd {
    pub kind: u32,
    pub offset: usize,
}

/// A section of a segment.
#[derive(Debug, Clone, Copy)]
pub struct Section<'a> {
    pub segment_name: &'a str,
    pub section_name: &'a str,
    pub address: u64,
    pub offset: u32,
    pub size: u64,
}

/// The mathematical content of a [`Section`], with the names as bytes.
pub struct SectionView {
    pub segment_name: Seq<u8>,
    pub section_name: Seq<u8>,
    pub address: u64,
    pub offset: u32,
    pub size: u64,
}

impl<'a> View for Section<'a> {
    type V = SectionView;

    open spec fn view(&self) -> SectionView {
        SectionView {
            segment_name: self.segment_name.spec_bytes(),
            section_name: self.section_name.spec_bytes(),
            address: self.address,
            offset: self.offset,
            size: self.size,
        }
    }
}

impl<'a> Section<'a> {
    /// The bytes of the file that the section takes, or `MalformedInput`
    /// where the end of the section is no address of this machine.
    pub fn range(&self) -> (r: Result<Range<usize>, ParseError>)
        ensures
            match r {
                Ok(range) => range.start == self.offset && range.end == self.offset + self.size,
                Err(e) => e == ParseError::MalformedInput && self.offset + self.size > usize::MAX,
            },
    {
        let start = self.offset as usize;
        if self.size > (usize::MAX - start) as u64 {
            return Err(ParseError::MalformedInput);
        }
        Ok(start..start + self.size as usize)
    }
}

/// The fields of the file header.
#[derive(Debug, Clone, Copy, PartialEq, Eq, Structural)]
pub struct MachoHeader {
    pub cputype: u32,
    pub cpusubtype: u32,
    /// type of file - exec, dylib, ...
    pub filetype: u32,
    /// number of load commands
    pub ncmds: u32,
    /// size of load command region
    pub sizeofcmds: u32,
    pub flags: u32,
}

/// The mathematical content of a [`Macho`].
pub struct MachoView {
    pub data: Seq<u8>,
    pub header: MachoHeader,
    pub commands: Seq<Cmd>,
    pub sections: Seq<SectionView>,
}

/// A decoded Mach-O file: its header, its load commands and its sections.
#[derive(Debug)]
pub struct Macho<'a> {
    data: &'a [u8],
    header: MachoHeader,
    commands: Vec<Cmd>,
    sections: Vec<Section<'a>>,
}

/// The contents of a list of sections.
pub open spec fn section_views(list: Seq<Section>) -> Seq<SectionView> {
    list.map_values(|s: Section| s@)
}

impl<'a> View for Macho<'a> {
    type V = MachoView;

    closed spec fn view(&self) -> MachoView {
        MachoView {
            data: self.data@,
            header: self.header,
            commands: self.commands@,
            sections: section_views(self.sections@),
        }
    }
}

/// The little-endian `u32` at `at`.
pub open spec fn le32(data: Seq<u8>, at: int) -> u32 {
    value_at::<u32>(data, at, ByteOrder::LittleEndian)
}

/// The little-endian `u64` at `at`.
pub open spec fn le64(data: Seq<u8>, at: int) -> u64 {
    value_at::<u64>(data, at, ByteOrder::LittleEndian)
}

/// The header that starts, with its magic number, at `at`.
pub open spec fn header_at(data: Seq<u8>, at: int, order: ByteOrder) -> MachoHeader {
    MachoHeader {
        cputype: value_at::<u32>(data, at + 4, order),
        cpusubtype: value_at::<u32>(data, at + 8, order),
        filetype: value_at::<u32>(data, at + 12, order),
        ncmds: value_at::<u32>(data, at + 16, order),
        sizeofcmds: value_at::<u32>(data, at + 20, order),
        flags: value_at::<u32>(data, at + 24, order),
    }
}

/// `found` in front of what `rest` holds.
pub open spec fn after<A>(found: Seq<A>, rest: Result<Seq<A>, ParseError>) -> Result<
    Seq<A>,
    ParseError,
> {
    match rest {
        Ok(more) => Ok(found + more),
        Err(e) => Err(e),
    }
}

/// The next `count` load commands, the first of which starts at `at`. A
/// command that says it is shorter than its own first eight bytes is
/// malformed; one that does not lie in the file cuts the file short.
pub open spec fn commands_from(data: Seq<u8>, at: int, count: int) -> Result<Seq<Cmd>, ParseError>
    decreases count,
{
    if count <= 0 {
        Ok(Seq::empty())
    } else if at + SIZEOF_COMMAND_HEADER > data.len() {
        Err(ParseError::UnexpectedEof)
    } else if le32(data, at + 4) < SIZEOF_COMMAND_HEADER {
        Err(ParseError::MalformedInput)
    } else if at + le32(data, at + 4) > data.len() {
        Err(ParseError::UnexpectedEof)
    } else {
        after(
            seq![Cmd { kind: le32(data, at), offset: (at + SIZEOF_COMMAND_HEADER) as usize }],
            commands_from(data, at + le32(data, at + 4), count - 1),
        )
    }
}

/// What the section record at `at` adds to the sections: itself, if both of
/// its names are zero-terminated strings, else nothing.
pub open spec fn section_at(data: Seq<u8>, at: int) -> Seq<SectionView> {
    match (
        null_string(data.subrange(at + 16, at + 32), 0),
        null_string(data.subrange(at, at + 16), 0),
    ) {
        (Some(segment_name), Some(section_name)) => seq![
            SectionView {
                segment_name,
                section_name,
                address: le64(data, at + 32),
                offset: le32(data, at + 48),
                size: le64(data, at + 40),
            },
        ],
        _ => Seq::empty(),
    }
}

/// The sections of the next `count` section records, the first of which
/// starts at `at`.
pub open spec fn sections_from(data: Seq<u8>, at: int, count: int) -> Result<
    Seq<SectionView>,
    ParseError,
>
    decreases count,
{
    if count <= 0 {
        Ok(Seq::empty())
    } else if at + SIZEOF_SECTION > data.len() {
        Err(ParseError::UnexpectedEof)
    } else {
        after(section_at(data, at), sections_from(data, at + SIZEOF_SECTION, count - 1))
    }
}

/// The sections of the segment command whose body starts at `body`.
pub open spec fn segment_sections(data: Seq<u8>, body: int) -> Result<
    Seq<SectionView>,
    ParseError,
> {
    if body + SIZEOF_SEGMENT_HEADER > data.len() {
        Err(ParseError::UnexpectedEof)
    } else {
        sections_from(data, body + SIZEOF_SEGMENT_HEADER, le32(data, body + 56) as int)
    }
}

/// The sections of the segment commands among `commands`, from the command
/// at position `from` on.
pub open spec fn sections_of(data: Seq<u8>, commands: Seq<Cmd>, from: int) -> Result<
    Seq<SectionView>,
    ParseError,
>
    decreases commands.len() - from,
{
    if from < 0 || from >= commands.len() {
        Ok(Seq::empty())
    } else if commands[from].kind == LC_SEGMENT_64 {
        match segment_sections(data, commands[from].offset as int) {
            Ok(found) => after(found, sections_of(data, commands, from + 1)),
            Err(e) => Err(e),
        }
    } else {
        sections_of(data, commands, from + 1)
    }
}

/// What decoding the file `data` gives.
pub open spec fn decoded(data: Seq<u8>) -> Result<MachoView, ParseError> {
    if data.len() < SIZEOF_HEADER {
        Err(ParseError::UnexpectedEof)
    } else {
        let header = header_at(data, 0, ByteOrder::LittleEndian);
        match commands_from(data, SIZEOF_HEADER as int, header.ncmds as int) {
            Err(e) => Err(e),
            Ok(commands) => match sections_of(data, commands, 0) {
                Err(e) => Err(e),
                Ok(sections) => Ok(MachoView { data, header, commands, sections }),
            },
        }
    }
}

/// A file too short for its header is cut short, whatever it holds.
pub proof fn lemma_short_file_is_cut_short(data: Seq<u8>)
    requires
        data.len() < SIZEOF_HEADER,
    ensures
        decoded(data) == Err::<MachoView, ParseError>(ParseError::UnexpectedEof),
{
}

/// Reads the file header that starts, with its magic number, at the cursor.
pub fn parse_macho_header(s: &mut Stream) -> (r: Result<MachoHeader, UnexpectedEof>)
    ensures
        match r {
            Ok(header) => old(s)@.has(32) && final(s)@ == old(s)@.advance(32) && header
                == header_at(old(s)@.data, old(s)@.offset as int, old(s)@.order),
            Err(_) => !old(s)@.has(32) && final(s)@ == old(s)@,
        },
        final(s)@.wf(),
{
    if s.remaining() < SIZEOF_HEADER {
        return Err(UnexpectedEof {  });
    }
    s.skip::<u32>()?;
    let cputype = s.read::<u32>()?;
    let cpusubtype = s.read::<u32>()?;
    let filetype = s.read::<u32>()?;
    let ncmds = s.read::<u32>()?;
    let sizeofcmds = s.read::<u32>()?;
    let flags = s.read::<u32>()?;
    s.skip::<u32>()?;
    Ok(MachoHeader { cputype, cpusubtype, filetype, ncmds, sizeofcmds, flags })
}

/// Lists the `count` load commands of which the first starts at `at`.
pub fn read_commands(data: &[u8], at: usize, count: u32) -> (r: Result<Vec<Cmd>, ParseError>)
    ensures
        match r {
            Ok(list) => commands_from(data@, at as int, count as int) == Ok::<Seq<Cmd>, ParseError>(
                list@,
            ),
            Err(e) => commands_from(data@, at as int, count as int) == Err::<Seq<Cmd>, ParseError>(
                e,
            ),
        },
{
    // A file may claim any number of commands: space is set aside for a
    // thousand or so, and the list grows as commands are found.
    let mut commands: Vec<Cmd> = Vec::with_capacity(
        if count < 1024 {
            count as usize
        } else {
            1024
        },
    );
    if count == 0 {
        return Ok(commands);
    }
    let mut s = end_of_input(Stream::new_at(data, at, ByteOrder::LittleEndian))?;
    let ghost whole = commands_from(data@, at as int, count as int);
    let mut i: u32 = 0;
    proof {
        match whole {
            Ok(more) => {
                assert(Seq::<Cmd>::empty() + more =~= more);
            },
            Err(_) => {},
        }
    }
    while i < count
        invariant
            i <= count,
            s@.data == data@,
            s@.order == ByteOrder::LittleEndian,
            s@.wf(),
            whole == commands_from(data@, at as int, count as int),
            after(commands@, commands_from(data@, s@.offset as int, count - i)) == whole,
        decreases count - i,
    {
        let ghost here = s@.offset as int;
        let ghost before = commands@;
        let kind = end_of_input(s.read::<u32>())?;
        let size = end_of_input(s.read::<u32>())?;
        commands.push(Cmd { kind, offset: s.offset() });
        // The size is that of the whole command, its first eight bytes
        // included.
        if (size as usize) < SIZEOF_COMMAND_HEADER {
            return Err(ParseError::MalformedInput);
        }
        end_of_input(s.skip_len(size as usize - SIZEOF_COMMAND_HEADER))?;
        i = i + 1;
        proof {
            let found = seq![Cmd { kind, offset: (here + SIZEOF_COMMAND_HEADER) as usize }];
            assert(commands@ =~= before + found);
            match commands_from(data@, s@.offset as int, count - i) {
                Ok(more) => {
                    assert((before + found) + more =~= before + (found + more));
                },
                Err(_) => {},
            }
        }
    }
    proof {
        assert(commands@ + Seq::<Cmd>::empty() =~= commands@);
    }
    Ok(commands)
}

/// Reads the sections of the segment command whose body starts at `body`
/// and adds them to `sections`.
pub fn read_segment_sections<'a>(data: &'a [u8], body: usize, sections: &mut Vec<Section<'a>>) -> (r:
    Result<(), ParseError>)
    ensures
        match r {
            Ok(_) => after(section_views(old(sections)@), segment_sections(data@, body as int))
                == Ok::<Seq<SectionView>, ParseError>(section_views(final(sections)@)),
            Err(e) => segment_sections(data@, body as int) == Err::<Seq<SectionView>, ParseError>(
                e,
            ),
        },
{
    let mut s = end_of_input(Stream::new_at(data, body, ByteOrder::LittleEndian))?;
    end_of_input(s.skip_len(16))?;  // segname
    end_of_input(s.skip::<u64>())?;  // vmaddr
    end_of_input(s.skip::<u64>())?;  // vmsize
    end_of_input(s.skip::<u64>())?;  // fileoff
    end_of_input(s.skip::<u64>())?;  // filesize
    end_of_input(s.skip::<u32>())?;  // maxprot
    end_of_input(s.skip::<u32>())?;  // initprot
    let count = end_of_input(s.read::<u32>())?;
    end_of_input(s.skip::<u32>())?;  // flags
    let ghost whole = segment_sections(data@, body as int);
    let ghost first = section_views(sections@);
    let ghost added = Seq::<SectionView>::empty();
    let mut i: u32 = 0;
    proof {
        match whole {
            Ok(more) => {
                assert(Seq::<SectionView>::empty() + more =~= more);
            },
            Err(_) => {},
        }
        assert(first + added =~= first);
    }
    while i < count
        invariant
            i <= count,
            s@.data == data@,
            s@.order == ByteOrder::LittleEndian,
            s@.wf(),
            first == section_views(old(sections)@),
            section_views(sections@) == first + added,
            whole == segment_sections(data@, body as int),
            after(added, sections_from(data@, s@.offset as int, count - i)) == whole,
        decreases count - i,
    {
        let ghost at = s@.offset as int;
        let ghost before = section_views(sections@);
        let section_name = parse_null_string(end_of_input(s.read_bytes(16))?, 0);
        let segment_name = parse_null_string(end_of_input(s.read_bytes(16))?, 0);
        let address = end_of_input(s.read::<u64>())?;
        let size = end_of_input(s.read::<u64>())?;
        let offset = end_of_input(s.read::<u32>())?;
        end_of_input(s.skip::<u32>())?;  // align
        end_of_input(s.skip::<u32>())?;  // reloff
        end_of_input(s.skip::<u32>())?;  // nreloc
        end_of_input(s.skip::<u32>())?;  // flags
        end_of_input(s.skip_len(12))?;  // padding
        match (segment_name, section_name) {
            (Some(segment), Some(section)) => {
                sections.push(
                    Section { segment_name: segment, section_name: section, address, offset, size },
                );
            },
            _ => {},
        }
        i = i + 1;
        proof {
            let found = section_at(data@, at);
            assert(section_views(sections@) =~= before + found);
            assert((first + added) + found =~= first + (added + found));
            match sections_from(data@, s@.offset as int, count - i) {
                Ok(more) => {
                    assert((added + found) + more =~= added + (found + more));
                },
                Err(_) => {},
            }
            added = added + found;
        }
    }
    proof {
        assert(added + Seq::<SectionView>::empty() =~= added);
    }
    Ok(())
}

/// Reads the sections of all the segment commands among `commands`.
pub fn read_sections<'a>(data: &'a [u8], commands: &Vec<Cmd>) -> (r: Result<
    Vec<Section<'a>>,
    ParseError,
>)
    ensures
        match r {
            Ok(list) => sections_of(data@, commands@, 0) == Ok::<Seq<SectionView>, ParseError>(
                section_views(list@),
            ),
            Err(e) => sections_of(data@, commands@, 0) == Err::<Seq<SectionView>, ParseError>(e),
        },
{
    let mut sections: Vec<Section<'a>> = Vec::new();
    let ghost whole = sections_of(data@, commands@, 0);
    let mut k: usize = 0;
    proof {
        assert(section_views(sections@) =~= Seq::empty());
        match whole {
            Ok(more) => {
                assert(Seq::<SectionView>::empty() + more =~= more);
            },
            Err(_) => {},
        }
    }
    while k < commands.len()
        invariant
            k <= commands@.len(),
            whole == sections_of(data@, commands@, 0),
            after(section_views(sections@), sections_of(data@, commands@, k as int)) == whole,
        decreases commands@.len() - k,
    {
        let ghost before = section_views(sections@);
        if commands[k].kind == LC_SEGMENT_64 {
            read_segment_sections(data, commands[k].offset, &mut sections)?;
            proof {
                let found = segment_sections(data@, commands@[k as int].offset as int)->Ok_0;
                match sections_of(data@, commands@, k + 1) {
                    Ok(more) => {
                        assert((before + found) + more =~= before + (found + more));
                    },
                    Err(_) => {},
                }
            }
        }
        k = k + 1;
    }
    proof {
        assert(section_views(sections@) + Seq::<SectionView>::empty() =~= section_views(
            sections@,
        ));
    }
    Ok(sections)
}

impl<'a> Macho<'a> {
    #[verifier::type_invariant]
    spec fn is_decoded(self) -> bool {
        decoded(self.data@) == Ok::<MachoView, ParseError>(self@)
    }
}

/// Decodes a Mach-O file: its header, its load commands and the sections of
/// its segments.
pub fn parse(data: &[u8]) -> (r: Result<Macho, ParseError>)
    ensures
        match r {
            Ok(file) => decoded(data@) == Ok::<MachoView, ParseError>(file@),
            Err(e) => decoded(data@) == Err::<MachoView, ParseError>(e),
        },
{
    let mut s = Stream::new(data, ByteOrder::LittleEndian);
    let header = end_of_input(parse_macho_header(&mut s))?;
    let commands = read_commands(data, s.offset(), header.ncmds)?;
    let sections = read_sections(data, &commands)?;
    Ok(Macho { data, header, commands, sections })
}

/// A walk over load commands that hands out one command at a time and
/// remembers why it ended.
pub struct MachoCommandsIterator<'a> {
    stream: Stream<'a>,
    number_of_commands: u32,
    commands_already_read: u32,
    result: Result<(), ParseError>,
}

/// The mathematical content of a [`MachoCommandsIterator`].
pub struct CommandWalk {
    /// Where the next command starts.
    pub cursor: Cursor,
    /// How many commands are still to come.
    pub left: nat,
    /// Whether the walk is sound so far.
    pub result: Result<(), ParseError>,
}

impl<'a> View for MachoCommandsIterator<'a> {
    type V = CommandWalk;

    closed spec fn view(&self) -> CommandWalk {
        CommandWalk {
            cursor: self.stream@,
            left: if self.commands_already_read < self.number_of_commands {
                (self.number_of_commands - self.commands_already_read) as nat
            } else {
                0
            },
            result: self.result,
        }
    }
}

/// One step of a walk: the walk after it, and the command that it hands out.
/// A walk with no command left, or one that has failed, stays as it is and
/// hands out nothing. A command whose first eight bytes do not lie in the
/// file ends the walk with `UnexpectedEof`. A command is also handed out
/// where its size is wrong: the walk then fails, with `MalformedInput` where
/// the size is below eight, with `UnexpectedEof` where the command does not
/// lie in the file.
pub open spec fn next_command(walk: CommandWalk) -> (CommandWalk, Option<Cmd>) {
    let at = walk.cursor.offset as int;
    let size = value_at::<u32>(walk.cursor.data, at + 4, walk.cursor.order);
    let command = Cmd {
        kind: value_at::<u32>(walk.cursor.data, at, walk.cursor.order),
        offset: (at + SIZEOF_COMMAND_HEADER) as usize,
    };
    let body = walk.cursor.advance(SIZEOF_COMMAND_HEADER as nat);
    if walk.left == 0 || walk.result is Err {
        (walk, None)
    } else if !walk.cursor.has(SIZEOF_COMMAND_HEADER as nat) {
        (
            CommandWalk {
                cursor: walk.cursor,
                left: walk.left,
                result: Err(ParseError::UnexpectedEof),
            },
            None,
        )
    } else if size < SIZEOF_COMMAND_HEADER {
        (
            CommandWalk {
                cursor: body,
                left: (walk.left - 1) as nat,
                result: Err(ParseError::MalformedInput),
            },
            Some(command),
        )
    } else if !body.has((size - SIZEOF_COMMAND_HEADER) as nat) {
        (
            CommandWalk {
                cursor: body,
                left: (walk.left - 1) as nat,
                result: Err(ParseError::UnexpectedEof),
            },
            Some(command),
        )
    } else {
        (
            CommandWalk {
                cursor: body.advance((size - SIZEOF_COMMAND_HEADER) as nat),
                left: (walk.left - 1) as nat,
                result: Ok(()),
            },
            Some(command),
        )
    }
}

impl<'a> MachoCommandsIterator<'a> {
    /// Hands out the next command and moves on to the one after it.
    pub fn next(&mut self) -> (item: Option<Cmd>)
        ensures
            (final(self)@, item) == next_command(old(self)@),
    {
        if !(self.commands_already_read < self.number_of_commands) {
            return None;
        }
        match self.result {
            Ok(_) => {},
            Err(_) => {
                return None;
            },
        }
        if self.stream.remaining() < SIZEOF_COMMAND_HEADER {
            self.result = Err(ParseError::UnexpectedEof);
            return None;
        }
        let kind = match self.stream.read::<u32>() {
            Ok(v) => v,
            Err(_) => {
                return None;
            },
        };
        let size = match self.stream.read::<u32>() {
            Ok(v) => v,
            Err(_) => {
                return None;
            },
        };
        let item = Cmd { kind, offset: self.stream.offset() };
        self.commands_already_read = self.commands_already_read + 1;
        // The size is that of the whole command, its first eight bytes
        // included. Where it makes no sense, or where the file ends before
        // the command does, the walk ends here.
        if (size as usize) < SIZEOF_COMMAND_HEADER {
            self.result = Err(ParseError::MalformedInput);
        } else {
            match self.stream.skip_len(size as usize - SIZEOF_COMMAND_HEADER) {
                Ok(_) => {},
                Err(_) => {
                    self.result = Err(ParseError::UnexpectedEof);
                },
            }
        }
        proof {
            let unit = old(self).result->Ok_0;
            assert(unit == ());
            assert(old(self).result == Ok::<(), ParseError>(unit));
        }
        Some(item)
    }

    /// Where the next command starts.
    pub fn offset(&self) -> (n: usize)
        ensures
            n == self@.cursor.offset,
    {
        self.stream.offset()
    }

    /// Whether the walk is sound so far, and if not, why it ended.
    pub fn result(&self) -> (r: Result<(), ParseError>)
        ensures
            r == self@.result,
    {
        self.result
    }
}

/// A record of the symbol table whose value is not zero.
#[derive(Clone, Copy, Debug, PartialEq, Eq, Structural)]
pub struct RawSymbol {
    pub string_index: u32,
    pub kind: u8,
    pub section: u8,
    pub address: u64,
}

impl Addressed for RawSymbol {
    open spec fn address_of(&self) -> u64 {
        self.address
    }

    fn address(&self) -> u64 {
        self.address
    }
}

/// What the record at `at` adds to the raw symbols: itself, unless its
/// value is zero.
pub open spec fn raw_at(table: Seq<u8>, at: int) -> Seq<RawSymbol> {
    if le64(table, at + 8) == 0 {
        Seq::empty()
    } else {
        seq![
            RawSymbol {
                string_index: le32(table, at),
                kind: table[at + 4],
                section: table[at + 5],
                address: le64(table, at + 8),
            },
        ]
    }
}

/// The raw symbols of the next `count` records, the first of which starts at
/// `at`.
pub open spec fn raw_from(table: Seq<u8>, at: int, count: int) -> Result<Seq<RawSymbol>, ParseError>
    decreases count,
{
    if count <= 0 {
        Ok(Seq::empty())
    } else if at + SIZEOF_SYMBOL > table.len() {
        Err(ParseError::UnexpectedEof)
    } else {
        after(raw_at(table, at), raw_from(table, at + SIZEOF_SYMBOL, count - 1))
    }
}

/// Whether a raw symbol has a name, is defined in a section and not
/// indirect, and lies in the first section.
pub open spec fn is_function(symbol: RawSymbol) -> bool {
    &&& symbol.string_index != 0
    &&& (symbol.kind & N_TYPE) & INDIRECT != 0
    &&& (symbol.kind & N_TYPE) & SECTION != 0
    &&& symbol.section == 1
}

/// What a raw symbol adds to the function symbols: itself with its name and
/// its size, if it is a function of the first section whose size can be
/// told and whose name the string table holds, else nothing. `all` are the
/// addresses of all the raw symbols, `end` is where the first section ends.
pub open spec fn symbol_of(symbol: RawSymbol, strings: Seq<u8>, all: Seq<u64>, end: u64) -> Seq<
    Symbol,
> {
    if is_function(symbol) {
        match (
            size_before(all, end, symbol.address),
            null_string(strings, symbol.string_index as int),
        ) {
            (Some(size), Some(name)) => seq![
                Symbol { name: decode_utf8(name), address: symbol.address, size },
            ],
            _ => Seq::empty(),
        }
    } else {
        Seq::empty()
    }
}

/// The function symbols that the raw symbols `ordered` give, in the order
/// of `ordered`.
pub open spec fn listed(ordered: Seq<RawSymbol>, strings: Seq<u8>, all: Seq<u64>, end: u64) -> Seq<
    Symbol,
>
    decreases ordered.len(),
{
    if ordered.len() == 0 {
        Seq::empty()
    } else {
        listed(ordered.drop_last(), strings, all, end) + symbol_of(
            ordered.last(),
            strings,
            all,
            end,
        )
    }
}

/// The function symbols of a symbol table of `count` records, in address
/// order and with their sizes. Symbols that share an address stay in the
/// order of the table. The first section starts at `address` and takes
/// `size` bytes.
pub open spec fn function_symbols(
    table: Seq<u8>,
    count: int,
    strings: Seq<u8>,
    address: u64,
    size: u64,
) -> Result<Seq<Symbol>, ParseError> {
    match raw_from(table, 0, count) {
        Err(e) => Err(e),
        Ok(raw) => if address + size > u64::MAX {
            Err(ParseError::MalformedInput)
        } else {
            Ok(listed(sorted_by_address(raw), strings, addresses(raw), (address + size) as u64))
        },
    }
}

/// Whether a raw symbol has a name, is defined in a section and not
/// indirect, and lies in the first section.
fn check_function(symbol: &RawSymbol) -> (b: bool)
    ensures
        b == is_function(*symbol),
{
    let sub_type = symbol.kind & N_TYPE;
    symbol.string_index != 0 && sub_type & INDIRECT != 0 && sub_type & SECTION != 0
        && symbol.section == 1
}

/// Reads the `count` records of the symbol table `data` and keeps those
/// whose value is not zero.
pub fn read_raw_symbols(data: &[u8], count: u32) -> (r: Result<Vec<RawSymbol>, ParseError>)
    ensures
        match r {
            Ok(raw) => raw_from(data@, 0, count as int) == Ok::<Seq<RawSymbol>, ParseError>(raw@),
            Err(e) => raw_from(data@, 0, count as int) == Err::<Seq<RawSymbol>, ParseError>(e),
        },
{
    let mut raw: Vec<RawSymbol> = Vec::with_capacity(
        if count < 1024 {
            count as usize
        } else {
            1024
        },
    );
    let mut s = Stream::new(data, ByteOrder::LittleEndian);
    let ghost whole = raw_from(data@, 0, count as int);
    let mut i: u32 = 0;
    proof {
        match whole {
            Ok(more) => {
                assert(Seq::<RawSymbol>::empty() + more =~= more);
            },
            Err(_) => {},
        }
    }
    while i < count
        invariant
            i <= count,
            s@.data == data@,
            s@.order == ByteOrder::LittleEndian,
            s@.wf(),
            whole == raw_from(data@, 0, count as int),
            after(raw@, raw_from(data@, s@.offset as int, count - i)) == whole,
        decreases count - i,
    {
        let ghost at = s@.offset as int;
        let ghost before = raw@;
        let string_index = end_of_input(s.read::<u32>())?;
        let kind = end_of_input(s.read::<u8>())?;
        let section = end_of_input(s.read::<u8>())?;
        end_of_input(s.skip::<u16>())?;  // description
        let value = end_of_input(s.read::<u64>())?;
        assert(data@.subrange(at + 4, at + 4 + 1)[0] == data@[at + 4]);
        assert(data@.subrange(at + 5, at + 5 + 1)[0] == data@[at + 5]);
        if value != 0 {
            raw.push(RawSymbol { string_index, kind, section, address: value });
        }
        i = i + 1;
        proof {
            let found = raw_at(data@, at);
            assert(raw@ =~= before + found);
            match raw_from(data@, s@.offset as int, count - i) {
                Ok(more) => {
                    assert((before + found) + more =~= before + (found + more));
                },
                Err(_) => {},
            }
        }
    }
    proof {
        assert(raw@ + Seq::<RawSymbol>::empty() =~= raw@);
    }
    Ok(raw)
}

/// Reads the function symbols of the first section from the symbol table
/// `data`, which has `count` records, and the string table `strings`.
pub fn parse_symbols(data: &[u8], count: u32, strings: &[u8], text_section: Section) -> (r: Result<
    Vec<SymbolData>,
    ParseError,
>)
    ensures
        match r {
            Ok(list) => function_symbols(
                data@,
                count as int,
                strings@,
                text_section.address,
                text_section.size,
            ) == Ok::<Seq<Symbol>, ParseError>(symbols_view(list@)),
            Err(e) => function_symbols(
                data@,
                count as int,
                strings@,
                text_section.address,
                text_section.size,
            ) == Err::<Seq<Symbol>, ParseError>(e),
        },
{
    let mut raw = read_raw_symbols(data, count)?;
    let ghost unordered = raw@;
    // The sizes are the distances between the addresses.
    sort_by_address(&mut raw);
    // The end of the first section bounds the last symbol.
    let end = match text_section.address.checked_add(text_section.size) {
        Some(end) => end,
        None => {
            return Err(ParseError::MalformedInput);
        },
    };
    proof {
        crate::sizes::lemma_sorted_same_addresses(raw@, unordered);
    }
    let ghost all = addresses(unordered);
    let total = raw.len();
    let mut symbols: Vec<SymbolData> = Vec::new();
    let mut i: usize = 0;
    assert(symbols_view(symbols@) =~= Seq::empty());
    assert(raw@.take(0) =~= Seq::empty());
    while i < total
        invariant
            i <= total,
            total == raw@.len(),
            raw@ == sorted_by_address(unordered),
            in_address_order(raw@),
            all == addresses(unordered),
            forall|x: u64| addresses(raw@).contains(x) <==> all.contains(x),
            symbols_view(symbols@) == listed(raw@.take(i as int), strings@, all, end),
        decreases total - i,
    {
        let symbol = raw[i];
        let ghost before = symbols_view(symbols@);
        proof {
            crate::sizes::lemma_sizes_same_members(addresses(raw@), all, end, symbol.address);
        }
        if check_function(&symbol) {
            // The next symbol may lie at the same address: the size is the
            // distance to the next address that differs.
            match distance_before(&raw, i, end) {
                Some(size) => match parse_null_string(strings, symbol.string_index as usize) {
                    Some(name) => {
                        let owned = name.to_owned();
                        proof {
                            vstd::utf8::encode_utf8_decode_utf8(name@);
                        }
                        symbols.push(SymbolData { name: owned, address: symbol.address, size });
                    },
                    None => {},
                },
                None => {},
            }
        }
        i = i + 1;
        assert(symbols_view(symbols@) =~= before + symbol_of(symbol, strings@, all, end));
        assert(raw@.take(i as int).drop_last() =~= raw@.take(i - 1));
    }
    assert(raw@.take(total as int) =~= raw@);
    Ok(symbols)
}

/// Where the addresses of the raw symbols strictly increase and the first
/// section ends after the last of them, the symbols come out in the order
/// of the table, and the size of each is the distance to the address of the
/// raw symbol that follows it; that of the last is the distance to the end
/// of the section.
pub proof fn lemma_sizes_of_increasing_symbols(
    raw: Seq<RawSymbol>,
    strings: Seq<u8>,
    end: u64,
    i: int,
)
    requires
        strictly_increasing(addresses(raw)),
        0 <= i < raw.len(),
        addresses(raw).last() < end,
    ensures
        sorted_by_address(raw) == raw,
        symbol_of(raw[i], strings, addresses(raw), end) == (if is_function(raw[i]) && null_string(
            strings,
            raw[i].string_index as int,
        ) is Some {
            seq![
                Symbol {
                    name: decode_utf8(null_string(strings, raw[i].string_index as int)->Some_0),
                    address: raw[i].address,
                    size: if i + 1 < raw.len() {
                        (raw[i + 1].address - raw[i].address) as u64
                    } else {
                        (end - raw[i].address) as u64
                    },
                },
            ]
        } else {
            Seq::empty()
        }),
{
    let all = addresses(raw);
    assert(in_address_order(raw)) by {
        assert forall|m: int, n: int| 0 <= m <= n < raw.len() implies raw[m].address_of()
            <= raw[n].address_of() by {
            if m < n {
                assert(all[m] < all[n]);
            }
        }
    }
    crate::sizes::lemma_sorted_already(raw);
    crate::sizes::lemma_sizes_of_increasing_addresses(all, end, i);
    assert(all[i] == raw[i].address);
    if i + 1 < raw.len() {
        assert(all[i + 1] == raw[i + 1].address);
    }
}

/// Being a symbol at address `a`.
pub open spec fn symbol_at_address(a: u64) -> spec_fn(Symbol) -> bool {
    |s: Symbol| s.address == a
}

/// The symbols that come out at an address are those that the raw symbols
/// at that address give, taken in the order of `ordered`.
pub proof fn lemma_listed_at_address(
    ordered: Seq<RawSymbol>,
    strings: Seq<u8>,
    all: Seq<u64>,
    end: u64,
    a: u64,
)
    ensures
        listed(ordered, strings, all, end).filter(symbol_at_address(a)) == listed(
            ordered.filter(at_address::<RawSymbol>(a)),
            strings,
            all,
            end,
        ),
    decreases ordered.len(),
{
    reveal(Seq::filter);
    if ordered.len() > 0 {
        let front = ordered.drop_last();
        let last = ordered.last();
        let found = symbol_of(last, strings, all, end);
        lemma_listed_at_address(front, strings, all, end, a);
        Seq::filter_distributes_over_add(
            listed(front, strings, all, end),
            found,
            symbol_at_address(a),
        );
        assert(found.filter(symbol_at_address(a)) =~= (if last.address == a {
            found
        } else {
            Seq::empty()
        })) by {
            let none = Seq::<Symbol>::empty();
            assert(none.filter(symbol_at_address(a)) =~= none);
            if found.len() > 0 {
                assert(found =~= none.push(found[0]));
                none.lemma_filter_push(found[0], symbol_at_address(a));
                assert(found[0].address == last.address);
            }
        }
        assert(ordered =~= front.push(last));
        front.lemma_filter_push(last, at_address::<RawSymbol>(a));
        if last.address == a {
            let kept = front.filter(at_address::<RawSymbol>(a));
            assert(kept.push(last).drop_last() =~= kept);
        } else {
            assert(listed(front, strings, all, end).filter(symbol_at_address(a)) + Seq::<
                Symbol,
            >::empty() =~= listed(front, strings, all, end).filter(symbol_at_address(a)));
        }
    }
}

/// The symbols that a table gives at an address are those that its raw
/// symbols at that address give, in the order of the table: sorting moves no
/// symbol past another at the same address, and drops or adds none.
pub proof fn lemma_symbols_at_address(raw: Seq<RawSymbol>, strings: Seq<u8>, end: u64, a: u64)
    ensures
        listed(sorted_by_address(raw), strings, addresses(raw), end).filter(symbol_at_address(a))
            == listed(raw.filter(at_address::<RawSymbol>(a)), strings, addresses(raw), end),
{
    let ordered = sorted_by_address(raw);
    crate::sizes::lemma_sorted_by_address(raw);
    lemma_listed_at_address(ordered, strings, addresses(raw), end, a);
    assert(ordered.filter(at_address::<RawSymbol>(a)) == raw.filter(at_address::<RawSymbol>(a)));
}

/// Raw symbols of which at most one gives a symbol give at most one symbol.
pub proof fn lemma_at_most_one_listed(
    ordered: Seq<RawSymbol>,
    strings: Seq<u8>,
    all: Seq<u64>,
    end: u64,
)
    requires
        forall|i: int, j: int|
            0 <= i < j < ordered.len() ==> symbol_of(#[trigger] ordered[i], strings, all, end).len()
                == 0 || symbol_of(#[trigger] ordered[j], strings, all, end).len() == 0,
    ensures
        listed(ordered, strings, all, end).len() <= 1,
        listed(ordered, strings, all, end).len() == 1 <==> exists|i: int|
            0 <= i < ordered.len() && symbol_of(#[trigger] ordered[i], strings, all, end).len() == 1,
    decreases ordered.len(),
{
    if ordered.len() > 0 {
        let front = ordered.drop_last();
        let last = ordered.last();
        assert forall|i: int, j: int| 0 <= i < j < front.len() implies symbol_of(
            #[trigger] front[i],
            strings,
            all,
            end,
        ).len() == 0 || symbol_of(#[trigger] front[j], strings, all, end).len() == 0 by {
            assert(front[i] == ordered[i] && front[j] == ordered[j]);
        }
        lemma_at_most_one_listed(front, strings, all, end);
        if listed(front, strings, all, end).len() == 1 {
            let i = choose|i: int|
                0 <= i < front.len() && symbol_of(#[trigger] front[i], strings, all, end).len()
                    == 1;
            assert(front[i] == ordered[i]);
            assert(last == ordered[ordered.len() - 1]);
            assert(symbol_of(ordered[i], strings, all, end).len() == 0 || symbol_of(
                ordered[ordered.len() - 1],
                strings,
                all,
                end,
            ).len() == 0);
            assert(symbol_of(ordered[i], strings, all, end).len() == 1);
        } else {
            assert forall|i: int| 0 <= i < front.len() implies symbol_of(
                #[trigger] front[i],
                strings,
                all,
                end,
            ).len() != 1 by {}
            if symbol_of(last, strings, all, end).len() == 1 {
                assert(symbol_of(ordered[ordered.len() - 1], strings, all, end).len() == 1);
            } else {
                assert forall|i: int| 0 <= i < ordered.len() implies symbol_of(
                    #[trigger] ordered[i],
                    strings,
                    all,
                    end,
                ).len() != 1 by {
                    if i < front.len() {
                        assert(front[i] == ordered[i]);
                    }
                }
            }
        }
    }
}

/// Where, of the raw symbols that share the address `a`, at most one is a
/// function of the first section with a name and a size, at most one symbol
/// comes out at `a`; and its size is not zero.
pub proof fn lemma_one_symbol_at_shared_address(
    raw: Seq<RawSymbol>,
    strings: Seq<u8>,
    end: u64,
    a: u64,
)
    requires
        forall|i: int, j: int|
            0 <= i < j < raw.filter(at_address::<RawSymbol>(a)).len() ==> symbol_of(
                #[trigger] raw.filter(at_address::<RawSymbol>(a))[i],
                strings,
                addresses(raw),
                end,
            ).len() == 0 || symbol_of(
                #[trigger] raw.filter(at_address::<RawSymbol>(a))[j],
                strings,
                addresses(raw),
                end,
            ).len() == 0,
    ensures
        listed(sorted_by_address(raw), strings, addresses(raw), end).filter(
            symbol_at_address(a),
        ).len() <= 1,
        forall|k: int|
            0 <= k < listed(sorted_by_address(raw), strings, addresses(raw), end).len() ==> (
            #[trigger] listed(sorted_by_address(raw), strings, addresses(raw), end)[k]).size > 0,
{
    lemma_symbols_at_address(raw, strings, end, a);
    lemma_at_most_one_listed(raw.filter(at_address::<RawSymbol>(a)), strings, addresses(raw), end);
    lemma_listed_sizes(sorted_by_address(raw), strings, addresses(raw), end);
}

/// No symbol comes out with the size zero.
pub proof fn lemma_listed_sizes(ordered: Seq<RawSymbol>, strings: Seq<u8>, all: Seq<u64>, end: u64)
    ensures
        forall|k: int|
            0 <= k < listed(ordered, strings, all, end).len() ==> (#[trigger] listed(
                ordered,
                strings,
                all,
                end,
            )[k]).size > 0,
    decreases ordered.len(),
{
    if ordered.len() > 0 {
        let front = listed(ordered.drop_last(), strings, all, end);
        let found = symbol_of(ordered.last(), strings, all, end);
        lemma_listed_sizes(ordered.drop_last(), strings, all, end);
        crate::sizes::lemma_size_reaches_the_next_address(all, end, ordered.last().address);
        assert forall|k: int| 0 <= k < (front + found).len() implies (#[trigger] (front
            + found)[k]).size > 0 by {
            if k < front.len() {
                assert((front + found)[k] == front[k]);
            } else {
                assert((front + found)[k] == found[k - front.len()]);
            }
        }
    }
}

/// Whether a section has these names.
pub open spec fn is_named(section: SectionView, segment_name: Seq<u8>, section_name: Seq<u8>)
    -> bool {
    section.segment_name == segment_name && section.section_name == section_name
}

/// The position of the first section, from `from` on, with these names.
pub open spec fn first_named(
    sections: Seq<SectionView>,
    segment_name: Seq<u8>,
    section_name: Seq<u8>,
    from: int,
) -> Option<int>
    decreases sections.len() - from,
{
    if from < 0 || from >= sections.len() {
        None
    } else if is_named(sections[from], segment_name, section_name) {
        Some(from)
    } else {
        first_named(sections, segment_name, section_name, from + 1)
    }
}

/// The first command of `kind`, from position `from` on.
pub open spec fn first_of_kind(commands: Seq<Cmd>, kind: u32, from: int) -> Option<Cmd>
    decreases commands.len() - from,
{
    if from < 0 || from >= commands.len() {
        None
    } else if commands[from].kind == kind {
        Some(commands[from])
    } else {
        first_of_kind(commands, kind, from + 1)
    }
}

/// Whether the first section is `__text` of the segment `__TEXT`.
pub open spec fn starts_with_text(sections: Seq<SectionView>) -> bool {
    sections.len() > 0 && is_named(sections[0], "__TEXT".spec_bytes(), "__text".spec_bytes())
}

/// The function symbols of the first section and the size of that section,
/// as a decoded file gives them. The first section must be `__text` of
/// `__TEXT` and not empty. A file without a symbol table has no symbols.
pub open spec fn symbols_of(file: MachoView) -> Result<(Seq<Symbol>, u64), ParseError> {
    if !starts_with_text(file.sections) || file.sections[0].size == 0 {
        Err(ParseError::MalformedInput)
    } else {
        match first_of_kind(file.commands, LC_SYMTAB, 0) {
            None => Ok((Seq::empty(), 0)),
            Some(command) => {
                let data = file.data;
                let body = command.offset as int;
                let symbols_offset = le32(data, body) as int;
                let number_of_symbols = le32(data, body + 4) as int;
                let strings_offset = le32(data, body + 8) as int;
                let strings_size = le32(data, body + 12) as int;
                if body + 16 > data.len() || strings_offset + strings_size > data.len()
                    || symbols_offset > data.len() {
                    Err(ParseError::UnexpectedEof)
                } else {
                    match function_symbols(
                        data.subrange(symbols_offset, data.len() as int),
                        number_of_symbols,
                        data.subrange(strings_offset, strings_offset + strings_size),
                        file.sections[0].address,
                        file.sections[0].size,
                    ) {
                        Err(e) => Err(e),
                        Ok(list) => Ok((list, file.sections[0].size)),
                    }
                }
            },
        }
    }
}

impl<'a> Macho<'a> {
    /// The file header.
    pub fn header(&self) -> (header: MachoHeader)
        ensures
            header == self@.header,
            decoded(self@.data) == Ok::<MachoView, ParseError>(self@),
    {
        proof {
            use_type_invariant(self);
        }
        self.header
    }

    /// The sections of all segments, in the order of the file.
    pub fn sections(&self) -> (list: Vec<Section<'a>>)
        ensures
            section_views(list@) == self@.sections,
    {
        let mut list: Vec<Section<'a>> = Vec::with_capacity(self.sections.len());
        let mut i: usize = 0;
        while i < self.sections.len()
            invariant
                i <= self.sections@.len(),
                list@ == self.sections@.take(i as int),
            decreases self.sections@.len() - i,
        {
            list.push(self.sections[i]);
            assert(list@ =~= self.sections@.take(i + 1));
            i = i + 1;
        }
        assert(list@ =~= self.sections@);
        list
    }

    /// The first section with these names.
    pub fn section_with_name(&self, segment_name: &str, section_name: &str) -> (r: Option<
        Section<'a>,
    >)
        ensures
            match r {
                Some(section) => first_named(
                    self@.sections,
                    segment_name.spec_bytes(),
                    section_name.spec_bytes(),
                    0,
                ) matches Some(i) && section@ == self@.sections[i],
                None => first_named(
                    self@.sections,
                    segment_name.spec_bytes(),
                    section_name.spec_bytes(),
                    0,
                ) is None,
            },
    {
        let mut i: usize = 0;
        while i < self.sections.len()
            invariant
                i <= self.sections@.len(),
                first_named(
                    self@.sections,
                    segment_name.spec_bytes(),
                    section_name.spec_bytes(),
                    0,
                ) == first_named(
                    self@.sections,
                    segment_name.spec_bytes(),
                    section_name.spec_bytes(),
                    i as int,
                ),
            decreases self.sections@.len() - i,
        {
            let section = self.sections[i];
            if same_str(section.segment_name, segment_name) && same_str(
                section.section_name,
                section_name,
            ) {
                return Some(section);
            }
            i = i + 1;
        }
        None
    }

    /// A walk over the load commands of the file, from the first one on.
    pub fn commands(&self) -> (walk: MachoCommandsIterator<'a>)
        ensures
            walk@ == (CommandWalk {
                cursor: Cursor {
                    data: self@.data,
                    offset: SIZEOF_HEADER as nat,
                    order: ByteOrder::LittleEndian,
                },
                left: self@.header.ncmds as nat,
                result: Ok(()),
            }),
    {
        proof {
            use_type_invariant(self);
        }
        let mut s = Stream::new(self.data, ByteOrder::LittleEndian);
        let _ = parse_macho_header(&mut s);  // skip the header
        MachoCommandsIterator {
            stream: s,
            number_of_commands: self.header.ncmds,
            commands_already_read: 0,
            result: Ok(()),
        }
    }

    /// The function symbols of the first section, in address order and with
    /// inferred sizes, and the size of that section.
    pub fn symbols(&self) -> (r: Result<(Vec<SymbolData>, u64), ParseError>)
        ensures
            match r {
                Ok((list, text_size)) => symbols_of(self@) == Ok::<(Seq<Symbol>, u64), ParseError>(
                    (symbols_view(list@), text_size),
                ),
                Err(e) => symbols_of(self@) == Err::<(Seq<Symbol>, u64), ParseError>(e),
            },
    {
        if self.sections.len() == 0 {
            return Err(ParseError::MalformedInput);
        }
        let text_section = self.sections[0];
        if !(same_str(text_section.segment_name, "__TEXT") && same_str(
            text_section.section_name,
            "__text",
        )) {
            return Err(ParseError::MalformedInput);
        }
        if text_section.size == 0 {
            return Err(ParseError::MalformedInput);
        }
        let mut k: usize = 0;
        while k < self.commands.len() && self.commands[k].kind != LC_SYMTAB
            invariant
                k <= self.commands@.len(),
                first_of_kind(self@.commands, LC_SYMTAB, 0) == first_of_kind(
                    self@.commands,
                    LC_SYMTAB,
                    k as int,
                ),
            decreases self.commands@.len() - k,
        {
            k = k + 1;
        }
        if k == self.commands.len() {
            let none: Vec<SymbolData> = Vec::new();
            assert(symbols_view(none@) =~= Seq::empty());
            return Ok((none, 0));
        }
        let data = self.data;
        let mut s = end_of_input(
            Stream::new_at(data, self.commands[k].offset, ByteOrder::LittleEndian),
        )?;
        let symbols_offset = end_of_input(s.read::<u32>())? as usize;
        let number_of_symbols = end_of_input(s.read::<u32>())?;
        let strings_offset = end_of_input(s.read::<u32>())? as usize;
        let strings_size = end_of_input(s.read::<u32>())? as usize;
        let total = data.len();
        if strings_offset > total || strings_size > total - strings_offset {
            return Err(ParseError::UnexpectedEof);
        }
        if symbols_offset > total {
            return Err(ParseError::UnexpectedEof);
        }
        let strings = slice_subrange(data, strings_offset, strings_offset + strings_size);
        let symbols_data = slice_subrange(data, symbols_offset, total);
        let list = parse_symbols(symbols_data, number_of_symbols, strings, text_section)?;
        Ok((list, text_section.size))
    }
}

} // verus!
