//! A forward-only cursor over an immutable byte buffer.
//!
//! Every decoder of this crate reads its input through [`Stream`]: fixed-width
//! integers in a chosen byte order, checked skips and checked sub-slices. No
//! operation moves the cursor past the end of the buffer, and none panics.

use vstd::prelude::*;
use vstd::slice::slice_subrange;
use vstd::string::StringSliceAdditionalSpecFns;
use vstd::utf8::valid_utf8;
use crate::ByteOrder;

verus! {

/// A read, a skip or a seek ran past the end of the buffer.
#[derive(Debug, Copy, Clone, PartialEq, Eq, Structural)]
pub struct UnexpectedEof {}

impl UnexpectedEof {
    /// The fixed text that describes this error.
    pub fn message(&self) -> (text: String)
        ensures
            text@ == "Unexpected end of file"@,
    {
        "Unexpected end of file".to_owned()
    }
}

/// The bytes of `bytes` with the least significant one first.
pub open spec fn least_first(bytes: Seq<u8>, order: ByteOrder) -> Seq<u8> {
    match order {
        ByteOrder::LittleEndian => bytes,
        ByteOrder::BigEndian => bytes.reverse(),
    }
}

/// The number that two bytes spell, least significant byte first.
pub open spec fn value_of_2(b: Seq<u8>) -> int {
    b[0] + 0x100 * b[1]
}

/// The number that four bytes spell, least significant byte first.
pub open spec fn value_of_4(b: Seq<u8>) -> int {
    b[0] + 0x100 * b[1] + 0x1_0000 * b[2] + 0x100_0000 * b[3]
}

/// The number that eight bytes spell, least significant byte first.
pub open spec fn value_of_8(b: Seq<u8>) -> int {
    b[0] + 0x100 * b[1] + 0x1_0000 * b[2] + 0x100_0000 * b[3] + 0x1_0000_0000 * b[4]
        + 0x100_0000_0000 * b[5] + 0x1_0000_0000_0000 * b[6] + 0x100_0000_0000_0000 * b[7]
}

/// The two's complement reading of `value`, an unsigned number below
/// `2 * half`.
pub open spec fn signed(value: int, half: int) -> int {
    if value < half {
        value
    } else {
        value - 2 * half
    }
}

/// The `T` that the bytes of `data` from `at` on spell.
pub open spec fn value_at<T: RawNumber>(data: Seq<u8>, at: int, order: ByteOrder) -> T {
    T::decode(data.subrange(at, at + T::width()), order)
}

/// What reading a `T` at `at` gives: its value, or `None` where fewer than
/// `T::width()` bytes are left.
pub open spec fn number_at<T: RawNumber>(data: Seq<u8>, at: int, order: ByteOrder) -> Option<T> {
    if 0 <= at && at + T::width() <= data.len() {
        Some(value_at::<T>(data, at, order))
    } else {
        None
    }
}

/// A fixed-width integer that can be decoded from bytes in either byte order.
pub trait RawNumber: Sized {
    /// The number of bytes that one value takes.
    spec fn width() -> nat;

    /// The value that `width()` bytes spell in the given byte order.
    spec fn decode(bytes: Seq<u8>, order: ByteOrder) -> Self;

    /// The number of bytes that one value takes.
    fn size() -> (n: usize)
        ensures
            n == Self::width(),
    ;

    /// Decodes the value under the cursor without moving the cursor.
    fn parse(s: &mut Stream) -> (r: Option<Self>)
        ensures
            *final(s) == *old(s),
            r == (if old(s)@.has(Self::width()) {
                Some(Self::decode(old(s)@.next(Self::width()), old(s)@.order))
            } else {
                None
            }),
    ;
}

/// The mathematical content of a [`Stream`].
pub struct Cursor {
    /// The whole buffer.
    pub data: Seq<u8>,
    /// The index of the next byte to read.
    pub offset: nat,
    /// The byte order of the numbers read.
    pub order: ByteOrder,
}

impl Cursor {
    /// The cursor lies inside the buffer or at its end.
    pub open spec fn wf(self) -> bool {
        self.offset <= self.data.len()
    }

    /// At least `n` more bytes can be read.
    pub open spec fn has(self, n: nat) -> bool {
        self.offset + n <= self.data.len()
    }

    /// The same cursor, `n` bytes further on.
    pub open spec fn advance(self, n: nat) -> Cursor {
        Cursor { data: self.data, offset: self.offset + n, order: self.order }
    }

    /// The next `n` bytes.
    pub open spec fn next(self, n: nat) -> Seq<u8> {
        self.data.subrange(self.offset as int, (self.offset + n) as int)
    }
}

/// A read pointer over a borrowed buffer. It only moves forward and never
/// leaves the buffer.
#[derive(Clone, Copy)]
pub struct Stream<'a> {
    data: &'a [u8],
    offset: usize,
    byte_order: ByteOrder,
}

impl<'a> View for Stream<'a> {
    type V = Cursor;

    closed spec fn view(&self) -> Cursor {
        Cursor { data: self.data@, offset: self.offset as nat, order: self.byte_order }
    }
}

impl<'a> Stream<'a> {
    #[verifier::type_invariant]
    spec fn inside(self) -> bool {
        self.offset <= self.data@.len()
    }

    /// A cursor at the start of `data`.
    #[inline]
    pub fn new(data: &'a [u8], byte_order: ByteOrder) -> (s: Self)
        ensures
            s@ == (Cursor { data: data@, offset: 0, order: byte_order }),
    {
        Stream { data, offset: 0, byte_order }
    }

    /// A cursor at `offset`, which must lie before the end of `data`.
    #[inline]
    pub fn new_at(data: &'a [u8], offset: usize, byte_order: ByteOrder) -> (r: Result<
        Self,
        UnexpectedEof,
    >)
        ensures
            match r {
                Ok(s) => offset < data@.len() && s@ == (Cursor {
                    data: data@,
                    offset: offset as nat,
                    order: byte_order,
                }),
                Err(_) => offset >= data@.len(),
            },
    {
        if offset < data.len() {
            Ok(Stream { data, offset, byte_order })
        } else {
            Err(UnexpectedEof {  })
        }
    }

    /// Whether every byte has been read.
    #[inline]
    pub fn at_end(&self) -> (b: bool)
        ensures
            b == (self@.offset == self@.data.len()),
            self@.wf(),
    {
        proof {
            use_type_invariant(self);
        }
        self.offset >= self.data.len()
    }

    /// The index of the next byte to read.
    #[inline]
    pub fn offset(&self) -> (n: usize)
        ensures
            n == self@.offset,
            self@.wf(),
    {
        proof {
            use_type_invariant(self);
        }
        self.offset
    }

    /// Moves over one `T` without decoding it.
    #[inline]
    pub fn skip<T: RawNumber>(&mut self) -> (r: Result<(), UnexpectedEof>)
        ensures
            match r {
                Ok(_) => old(self)@.has(T::width()) && final(self)@ == old(self)@.advance(
                    T::width(),
                ),
                Err(_) => !old(self)@.has(T::width()) && final(self)@ == old(self)@,
            },
            final(self)@.wf(),
    {
        self.skip_len(T::size())
    }

    /// Moves `len` bytes forward, unless that would leave the buffer.
    #[inline]
    pub fn skip_len(&mut self, len: usize) -> (r: Result<(), UnexpectedEof>)
        ensures
            match r {
                Ok(_) => old(self)@.has(len as nat) && final(self)@ == old(self)@.advance(
                    len as nat,
                ),
                Err(_) => !old(self)@.has(len as nat) && final(self)@ == old(self)@,
            },
            final(self)@.wf(),
    {
        proof {
            use_type_invariant(&*self);
        }
        if len <= self.data.len() - self.offset {
            self.offset = self.offset + len;
            Ok(())
        } else {
            Err(UnexpectedEof {  })
        }
    }

    /// Decodes one `T` in the cursor's byte order and moves past it.
    #[inline]
    pub fn read<T: RawNumber>(&mut self) -> (r: Result<T, UnexpectedEof>)
        ensures
            match r {
                Ok(v) => number_at::<T>(old(self)@.data, old(self)@.offset as int, old(self)@.order)
                    == Some(v) && final(self)@ == old(self)@.advance(T::width()),
                Err(_) => !old(self)@.has(T::width()) && final(self)@ == old(self)@,
            },
            final(self)@.wf(),
    {
        proof {
            use_type_invariant(&*self);
        }
        match T::parse(self) {
            Some(v) => {
                proof {
                    vstd::slice::axiom_spec_len(self.data);
                }
                self.offset = self.offset + T::size();
                Ok(v)
            },
            None => Err(UnexpectedEof {  }),
        }
    }

    /// Hands out the next `len` bytes and moves past them.
    #[inline]
    pub fn read_bytes(&mut self, len: usize) -> (r: Result<&'a [u8], UnexpectedEof>)
        ensures
            match r {
                Ok(bytes) => old(self)@.has(len as nat) && bytes@ == old(self)@.next(len as nat)
                    && final(self)@ == old(self)@.advance(len as nat),
                Err(_) => !old(self)@.has(len as nat) && final(self)@ == old(self)@,
            },
            final(self)@.wf(),
    {
        proof {
            use_type_invariant(&*self);
        }
        if len <= self.data.len() - self.offset {
            let start = self.offset;
            self.offset = start + len;
            Ok(slice_subrange(self.data, start, start + len))
        } else {
            Err(UnexpectedEof {  })
        }
    }

    /// The number of bytes not yet read.
    #[inline]
    pub fn remaining(&self) -> (n: usize)
        ensures
            n == self@.data.len() - self@.offset,
            self@.wf(),
    {
        proof {
            use_type_invariant(self);
        }
        self.data.len() - self.offset
    }
}

impl RawNumber for u8 {
    open spec fn width() -> nat {
        1
    }

    open spec fn decode(bytes: Seq<u8>, order: ByteOrder) -> u8 {
        bytes[0]
    }

    #[inline]
    fn size() -> usize {
        1
    }

    #[inline]
    fn parse(s: &mut Stream) -> Option<u8> {
        proof {
            use_type_invariant(&*s);
        }
        if s.offset < s.data.len() {
            Some(s.data[s.offset])
        } else {
            None
        }
    }
}

impl RawNumber for i8 {
    open spec fn width() -> nat {
        1
    }

    open spec fn decode(bytes: Seq<u8>, order: ByteOrder) -> i8 {
        signed(bytes[0] as int, 0x80) as i8
    }

    #[inline]
    fn size() -> usize {
        1
    }

    #[inline]
    fn parse(s: &mut Stream) -> Option<i8> {
        match u8::parse(s) {
            Some(x) => Some(
                if x < 0x80 {
                    x as i8
                } else {
                    (x as i16 - 0x100) as i8
                },
            ),
            None => None,
        }
    }
}

impl RawNumber for u16 {
    open spec fn width() -> nat {
        2
    }

    open spec fn decode(bytes: Seq<u8>, order: ByteOrder) -> u16 {
        value_of_2(least_first(bytes, order)) as u16
    }

    #[inline]
    fn size() -> usize {
        2
    }

    #[inline]
    fn parse(s: &mut Stream) -> Option<u16> {
        proof {
            use_type_invariant(&*s);
        }
        if s.data.len() - s.offset < 2 {
            return None;
        }
        let at = s.offset;
        let b0 = s.data[at] as u16;
        let b1 = s.data[at + 1] as u16;
        Some(
            match s.byte_order {
                ByteOrder::LittleEndian => b0 + 0x100 * b1,
                ByteOrder::BigEndian => b1 + 0x100 * b0,
            },
        )
    }
}

impl RawNumber for i16 {
    open spec fn width() -> nat {
        2
    }

    open spec fn decode(bytes: Seq<u8>, order: ByteOrder) -> i16 {
        signed(value_of_2(least_first(bytes, order)), 0x8000) as i16
    }

    #[inline]
    fn size() -> usize {
        2
    }

    #[inline]
    fn parse(s: &mut Stream) -> Option<i16> {
        match u16::parse(s) {
            Some(x) => Some(
                if x < 0x8000 {
                    x as i16
                } else {
                    (x as i32 - 0x1_0000) as i16
                },
            ),
            None => None,
        }
    }
}

impl RawNumber for u32 {
    open spec fn width() -> nat {
        4
    }

    open spec fn decode(bytes: Seq<u8>, order: ByteOrder) -> u32 {
        value_of_4(least_first(bytes, order)) as u32
    }

    #[inline]
    fn size() -> usize {
        4
    }

    #[inline]
    fn parse(s: &mut Stream) -> Option<u32> {
        proof {
            use_type_invariant(&*s);
        }
        if s.data.len() - s.offset < 4 {
            return None;
        }
        let at = s.offset;
        let b0 = s.data[at] as u32;
        let b1 = s.data[at + 1] as u32;
        let b2 = s.data[at + 2] as u32;
        let b3 = s.data[at + 3] as u32;
        Some(
            match s.byte_order {
                ByteOrder::LittleEndian => b0 + 0x100 * b1 + 0x1_0000 * b2 + 0x100_0000 * b3,
                ByteOrder::BigEndian => b3 + 0x100 * b2 + 0x1_0000 * b1 + 0x100_0000 * b0,
            },
        )
    }
}

impl RawNumber for i32 {
    open spec fn width() -> nat {
        4
    }

    open spec fn decode(bytes: Seq<u8>, order: ByteOrder) -> i32 {
        signed(value_of_4(least_first(bytes, order)), 0x8000_0000) as i32
    }

    #[inline]
    fn size() -> usize {
        4
    }

    #[inline]
    fn parse(s: &mut Stream) -> Option<i32> {
        match u32::parse(s) {
            Some(x) => Some(
                if x < 0x8000_0000 {
                    x as i32
                } else {
                    (x as i64 - 0x1_0000_0000) as i32
                },
            ),
            None => None,
        }
    }
}

impl RawNumber for u64 {
    open spec fn width() -> nat {
        8
    }

    open spec fn decode(bytes: Seq<u8>, order: ByteOrder) -> u64 {
        value_of_8(least_first(bytes, order)) as u64
    }

    #[inline]
    fn size() -> usize {
        8
    }

    #[inline]
    fn parse(s: &mut Stream) -> Option<u64> {
        proof {
            use_type_invariant(&*s);
        }
        if s.data.len() - s.offset < 8 {
            return None;
        }
        let at = s.offset;
        let b0 = s.data[at] as u64;
        let b1 = s.data[at + 1] as u64;
        let b2 = s.data[at + 2] as u64;
        let b3 = s.data[at + 3] as u64;
        let b4 = s.data[at + 4] as u64;
        let b5 = s.data[at + 5] as u64;
        let b6 = s.data[at + 6] as u64;
        let b7 = s.data[at + 7] as u64;
        Some(
            match s.byte_order {
                ByteOrder::LittleEndian => b0 + 0x100 * b1 + 0x1_0000 * b2 + 0x100_0000 * b3
                    + 0x1_0000_0000 * b4 + 0x100_0000_0000 * b5 + 0x1_0000_0000_0000 * b6
                    + 0x100_0000_0000_0000 * b7,
                ByteOrder::BigEndian => b7 + 0x100 * b6 + 0x1_0000 * b5 + 0x100_0000 * b4
                    + 0x1_0000_0000 * b3 + 0x100_0000_0000 * b2 + 0x1_0000_0000_0000 * b1
                    + 0x100_0000_0000_0000 * b0,
            },
        )
    }
}

impl RawNumber for i64 {
    open spec fn width() -> nat {
        8
    }

    open spec fn decode(bytes: Seq<u8>, order: ByteOrder) -> i64 {
        signed(value_of_8(least_first(bytes, order)), 0x8000_0000_0000_0000) as i64
    }

    #[inline]
    fn size() -> usize {
        8
    }

    #[inline]
    fn parse(s: &mut Stream) -> Option<i64> {
        match u64::parse(s) {
            Some(x) => Some(
                if x < 0x8000_0000_0000_0000 {
                    x as i64
                } else {
                    (x as i128 - 0x1_0000_0000_0000_0000) as i64
                },
            ),
            None => None,
        }
    }
}

/// `core::str::Utf8Error`, the error of a failed UTF-8 check. Nothing is
/// known of what it holds.
#[verifier::external_type_specification]
#[verifier::external_body]
pub struct ExUtf8Error(core::str::Utf8Error);

/// `core::str::from_utf8` accepts exactly the byte sequences that are
/// well-formed UTF-8, and the string it hands back is made of the very bytes
/// it was given.
pub assume_specification<'a>[ core::str::from_utf8 ](v: &'a [u8]) -> (r: Result<
    &'a str,
    core::str::Utf8Error,
>)
    ensures
        r is Ok <==> valid_utf8(v@),
        r is Ok ==> r->Ok_0.spec_bytes() == v@,
;

/// The index of the first zero byte of `data` at or after `from`, or
/// `data.len()` where there is none.
pub open spec fn terminator(data: Seq<u8>, from: int) -> int
    decreases data.len() - from,
{
    if 0 <= from < data.len() && data[from] != 0 {
        terminator(data, from + 1)
    } else {
        from
    }
}

/// The bytes of the zero-terminated string that starts at `start`: they end
/// before the first zero byte, which must exist, and are neither empty nor
/// ill-formed UTF-8.
pub open spec fn null_string(data: Seq<u8>, start: int) -> Option<Seq<u8>> {
    let end = terminator(data, start);
    if 0 <= start < end < data.len() && valid_utf8(data.subrange(start, end)) {
        Some(data.subrange(start, end))
    } else {
        None
    }
}

/// Two strings with the same bytes are the same string, and the other way
/// round.
pub proof fn lemma_bytes_tell_strings_apart(a: &str, b: &str)
    ensures
        (a.spec_bytes() == b.spec_bytes()) <==> (a@ == b@),
{
    vstd::utf8::encode_utf8_decode_utf8(a@);
    vstd::utf8::encode_utf8_decode_utf8(b@);
}

/// Whether two byte slices hold the same bytes.
pub fn same_bytes(a: &[u8], b: &[u8]) -> (same: bool)
    ensures
        same == (a@ == b@),
{
    if a.len() != b.len() {
        return false;
    }
    let mut i: usize = 0;
    while i < a.len()
        invariant
            a@.len() == b@.len(),
            i <= a@.len(),
            forall|j: int| 0 <= j < i ==> a@[j] == b@[j],
        decreases a@.len() - i,
    {
        if a[i] != b[i] {
            return false;
        }
        i = i + 1;
    }
    assert(a@ =~= b@);
    true
}

/// Whether two strings are the same.
pub fn same_str(a: &str, b: &str) -> (same: bool)
    ensures
        same == (a@ == b@),
        same == (a.spec_bytes() == b.spec_bytes()),
{
    proof {
        lemma_bytes_tell_strings_apart(a, b);
    }
    same_bytes(a.as_bytes(), b.as_bytes())
}

/// Reads the zero-terminated string that starts at `start`. The answer is
/// `None` where `start` lies outside `data`, where no zero byte follows, and
/// where the string is empty or not UTF-8.
pub fn parse_null_string(data: &[u8], start: usize) -> (r: Option<&str>)
    ensures
        match r {
            Some(s) => null_string(data@, start as int) == Some(s.spec_bytes()),
            None => null_string(data@, start as int) is None,
        },
{
    if start >= data.len() {
        return None;
    }
    let mut end: usize = start;
    while end < data.len() && data[end] != 0
        invariant
            start <= end <= data@.len(),
            terminator(data@, start as int) == terminator(data@, end as int),
        decreases data@.len() - end,
    {
        end = end + 1;
    }
    if end == data.len() || end == start {
        return None;
    }
    match core::str::from_utf8(slice_subrange(data, start, end)) {
        Ok(s) => Some(s),
        Err(_) => None,
    }
}

} // verus!
