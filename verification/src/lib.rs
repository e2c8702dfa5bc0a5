//! Decoders for compiled-binary container formats: ELF (32- and 64-bit),
//! Mach-O and PE/COFF. Every decoder works on an untrusted byte buffer and
//! answers with the section layout and the function symbols it found, or
//! with a typed error.

use vstd::prelude::*;

pub mod elf32;
pub mod elf64;
pub mod error;
pub mod macho;
pub mod parser;
pub mod pe;
pub mod sizes;
pub mod symbol;

pub use crate::error::ParseError;

verus! {

/// The order in which the bytes of a multi-byte integer are stored.
#[derive(Clone, Copy, PartialEq, Eq, Debug, Structural)]
pub enum ByteOrder {
    LittleEndian,
    BigEndian,
}

/// The container format of a file, as its first bytes tell it.
#[derive(Clone, Copy, PartialEq, Eq, Debug, Structural)]
pub enum Format {
    Elf32 { byte_order: ByteOrder },
    Elf64 { byte_order: ByteOrder },
    Macho,
    PE,
    Unrecognized,
}

/// What ELF files start with.
pub open spec fn elf_magic() -> Seq<u8> {
    seq![0x7fu8, 0x45u8, 0x4cu8, 0x46u8]
}

/// What the DOS stub of a PE file starts with: `MZ`.
pub open spec fn dos_magic() -> Seq<u8> {
    seq![0x4du8, 0x5au8]
}

/// Whether `data` starts with the bytes `magic`.
pub open spec fn starts_with(data: Seq<u8>, magic: Seq<u8>) -> bool {
    data.len() >= magic.len() && data.subrange(0, magic.len() as int) == magic
}

/// Whether four bytes are a Mach-O magic number: that of a 32-bit or of a
/// 64-bit file, in either byte order.
pub open spec fn is_macho_magic(magic: Seq<u8>) -> bool {
    ||| magic == seq![0xfeu8, 0xedu8, 0xfau8, 0xceu8]
    ||| magic == seq![0xfeu8, 0xedu8, 0xfau8, 0xcfu8]
    ||| magic == seq![0xceu8, 0xfau8, 0xedu8, 0xfeu8]
    ||| magic == seq![0xcfu8, 0xfau8, 0xedu8, 0xfeu8]
}

/// The format of an ELF file, from the class byte and the data encoding byte
/// that follow the magic number.
pub open spec fn elf_format(class: u8, encoding: u8) -> Format {
    if encoding != 1 && encoding != 2 {
        Format::Unrecognized
    } else {
        let byte_order = if encoding == 1 {
            ByteOrder::LittleEndian
        } else {
            ByteOrder::BigEndian
        };
        if class == 1 {
            Format::Elf32 { byte_order }
        } else if class == 2 {
            Format::Elf64 { byte_order }
        } else {
            Format::Unrecognized
        }
    }
}

/// The format that the first bytes of `data` tell.
pub open spec fn format_of(data: Seq<u8>) -> Format {
    if starts_with(data, elf_magic()) {
        if data.len() >= 6 {
            elf_format(data[4], data[5])
        } else {
            Format::Unrecognized
        }
    } else if starts_with(data, dos_magic()) {
        Format::PE
    } else if data.len() >= 4 && is_macho_magic(data.subrange(0, 4)) {
        Format::Macho
    } else {
        Format::Unrecognized
    }
}

/// Tells the format of a file from its first bytes. No byte past the end of
/// `data` is read: a buffer too short for a magic number is not recognized.
pub fn detect_format(data: &[u8]) -> (format: Format)
    ensures
        format == format_of(data@),
{
    let len = data.len();
    if len >= 4 && data[0] == 0x7f && data[1] == 0x45 && data[2] == 0x4c && data[3] == 0x46 {
        assert(data@.subrange(0, 4) =~= elf_magic());
        if len < 6 {
            return Format::Unrecognized;
        }
        let byte_order = match data[5] {
            1 => ByteOrder::LittleEndian,
            2 => ByteOrder::BigEndian,
            _ => {
                return Format::Unrecognized;
            },
        };
        return match data[4] {
            1 => Format::Elf32 { byte_order },
            2 => Format::Elf64 { byte_order },
            _ => Format::Unrecognized,
        };
    }
    proof {
        if len >= 4 {
            let head = data@.subrange(0, 4);
            assert(head[0] == data@[0] && head[1] == data@[1] && head[2] == data@[2] && head[3]
                == data@[3]);
        }
    }
    if len >= 2 && data[0] == 0x4d && data[1] == 0x5a {
        assert(data@.subrange(0, 2) =~= dos_magic());
        return Format::PE;
    }
    proof {
        if len >= 2 {
            let head = data@.subrange(0, 2);
            assert(head[0] == data@[0] && head[1] == data@[1]);
        }
    }
    if len < 4 {
        return Format::Unrecognized;
    }
    let a = data[0];
    let b = data[1];
    let c = data[2];
    let d = data[3];
    let macho = (a == 0xfe && b == 0xed && c == 0xfa && (d == 0xce || d == 0xcf)) || ((a == 0xce
        || a == 0xcf) && b == 0xfa && c == 0xed && d == 0xfe);
    proof {
        let head = data@.subrange(0, 4);
        if macho {
            assert(head =~= seq![a, b, c, d]);
        }
    }
    if macho {
        Format::Macho
    } else {
        Format::Unrecognized
    }
}

} // verus!
