//! The decoder: reads CBOR data items from a byte slice.
use vstd::prelude::*;
use vstd::utf8::valid_utf8;
use vstd::string::StringSliceAdditionalSpecFns;
use crate::data::{Int, Tag, Type};
use crate::decode::error::{Error, ErrorView, end_of_input};
use crate::decode::reads::{Read, byte_type, datatype_at, read_byte, read_bytes, argument, mismatch, read_uint, read_sint, read_u8, read_u16, read_u32, read_u64, read_i8, read_i16, read_i32, read_i64, read_usize, read_isize, read_int, read_fixed, read_bool, read_simple, is_char, read_char, read_len, read_array, read_map, read_tag, read_chunk, read_bytes_item, read_str_item};

verus! {

/// Reads CBOR data items from a byte slice, from a position on.
#[derive(Debug)]
pub struct Decoder<'b> {
    buf: &'b [u8],
    pos: usize,
}

/// The result of a decoding step, as a value.
pub open spec fn result_view<T>(r: Result<T, Error>) -> Result<T, ErrorView> {
    match r {
        Ok(v) => Ok(v),
        Err(e) => Err(e@),
    }
}

/// Whether a decoder went from `before` to `after` as the read `expected` says,
/// and returned what it says.
pub open spec fn reads_as<'b, T>(before: Decoder<'b>, after: Decoder<'b>, r: Result<T, Error>, expected: Read<T>) -> bool {
    &&& after.source() == before.source()
    &&& after.pos() == expected.1
    &&& result_view(r) == expected.0
}

/// As [`reads_as`], for a read whose value is seen as the bytes it stands for.
pub open spec fn reads_bytes_as<'b>(before: Decoder<'b>, after: Decoder<'b>, r: Result<&'b [u8], Error>, expected: Read<Seq<u8>>) -> bool {
    &&& after.source() == before.source()
    &&& after.pos() == expected.1
    &&& match r {
        Ok(v) => expected.0 == Ok::<Seq<u8>, ErrorView>(v@),
        Err(e) => expected.0 == Err::<Seq<u8>, ErrorView>(e@),
    }
}

/// As [`reads_as`], for a read of a text string, seen as its UTF-8 bytes.
pub open spec fn reads_str_as<'b>(before: Decoder<'b>, after: Decoder<'b>, r: Result<&'b str, Error>, expected: Read<Seq<u8>>) -> bool {
    &&& after.source() == before.source()
    &&& after.pos() == expected.1
    &&& match r {
        Ok(v) => expected.0 == Ok::<Seq<u8>, ErrorView>(v.spec_bytes()),
        Err(e) => expected.0 == Err::<Seq<u8>, ErrorView>(e@),
    }
}

/// A `&str` with the given UTF-8 bytes (`core::str::from_utf8`), if they are UTF-8.
#[verifier::external_body]
pub(crate) fn str_from_utf8(b: &[u8]) -> (r: Option<&str>)
    ensures
        r is Some <==> valid_utf8(b@),
        r matches Some(s) ==> s.spec_bytes() == b@,
{
    core::str::from_utf8(b).ok()
}

/// The character with code point `n` (`char::from_u32`), if there is one.
#[verifier::external_body]
fn char_from_u32(n: u32) -> (r: Option<char>)
    ensures
        r is Some <==> is_char(n),
        r matches Some(c) ==> c == n as char,
{
    char::from_u32(n)
}

impl<'b> Decoder<'b> {
    /// The input.
    pub closed spec fn source(&self) -> Seq<u8> {
        self.buf@
    }

    /// The position of the next read.
    pub closed spec fn pos(&self) -> int {
        self.pos as int
    }

    /// A decoder at the start of `bytes`.
    pub fn new(bytes: &'b [u8]) -> (d: Self)
        ensures
            d.source() == bytes@,
            d.pos() == 0,
    {
        Decoder { buf: bytes, pos: 0 }
    }

    /// The input.
    pub fn input(&self) -> (b: &'b [u8])
        ensures
            b@ == self.source(),
    {
        self.buf
    }

    /// The position of the next read.
    pub fn position(&self) -> (p: usize)
        ensures
            p == self.pos(),
    {
        self.pos
    }

    /// Moves the position of the next read.
    pub fn set_position(&mut self, pos: usize)
        ensures
            final(self).source() == old(self).source(),
            final(self).pos() == pos,
    {
        self.pos = pos;
    }

    /// The byte at the position of the next read, which stays where it is.
    pub(crate) fn current(&self) -> (r: Result<u8, Error>)
        ensures
            result_view(r) == read_byte(self.source(), self.pos()).0,
    {
        if self.pos < self.buf.len() {
            Ok(self.buf[self.pos])
        } else {
            Err(Error::end_of_input())
        }
    }

    /// Reads one byte.
    pub(crate) fn read(&mut self) -> (r: Result<u8, Error>)
        ensures
            reads_as(*old(self), *final(self), r, read_byte(old(self).source(), old(self).pos())),
    {
        if self.pos < self.buf.len() {
            let b = self.buf[self.pos];
            self.pos = self.pos + 1;
            Ok(b)
        } else {
            Err(Error::end_of_input())
        }
    }

    /// Reads `n` bytes.
    pub(crate) fn read_slice(&mut self, n: usize) -> (r: Result<&'b [u8], Error>)
        ensures
            reads_bytes_as(*old(self), *final(self), r, read_bytes(old(self).source(), old(self).pos(), n as int)),
    {
        if self.pos <= self.buf.len() && n <= self.buf.len() - self.pos {
            let s = &self.buf[self.pos..self.pos + n];
            self.pos = self.pos + n;
            Ok(s)
        } else {
            Err(Error::end_of_input())
        }
    }

    /// The type of the data item whose initial byte `b` was just read.
    fn type_of(&self, b: u8) -> (r: Result<Type, Error>)
        ensures
            result_view(r) == byte_type(self.source(), b, self.pos()),
    {
        if b <= 0x18 {
            Ok(Type::U8)
        } else if b == 0x19 {
            Ok(Type::U16)
        } else if b == 0x1a {
            Ok(Type::U32)
        } else if b == 0x1b {
            Ok(Type::U64)
        } else if 0x20 <= b && b <= 0x37 {
            Ok(Type::I8)
        } else if 0x38 <= b && b <= 0x3b {
            match self.current() {
                Err(e) => Err(e),
                Ok(c) => {
                    let hi = c >= 0x80;
                    Ok(
                        if b == 0x38 {
                            if hi { Type::I16 } else { Type::I8 }
                        } else if b == 0x39 {
                            if hi { Type::I32 } else { Type::I16 }
                        } else if b == 0x3a {
                            if hi { Type::I64 } else { Type::I32 }
                        } else {
                            if hi { Type::Int } else { Type::I64 }
                        },
                    )
                },
            }
        } else if 0x40 <= b && b <= 0x5b {
            Ok(Type::Bytes)
        } else if b == 0x5f {
            Ok(Type::BytesIndef)
        } else if 0x60 <= b && b <= 0x7b {
            Ok(Type::String)
        } else if b == 0x7f {
            Ok(Type::StringIndef)
        } else if 0x80 <= b && b <= 0x9b {
            Ok(Type::Array)
        } else if b == 0x9f {
            Ok(Type::ArrayIndef)
        } else if 0xa0 <= b && b <= 0xbb {
            Ok(Type::Mapping)
        } else if b == 0xbf {
            Ok(Type::MapIndef)
        } else if 0xc0 <= b && b <= 0xdb {
            Ok(Type::Tag)
        } else if 0xe0 <= b && b <= 0xf3 {
            Ok(Type::Simple)
        } else if b == 0xf4 || b == 0xf5 {
            Ok(Type::Bool)
        } else if b == 0xf6 {
            Ok(Type::Null)
        } else if b == 0xf7 {
            Ok(Type::Undefined)
        } else if b == 0xf8 {
            Ok(Type::Simple)
        } else if b == 0xf9 {
            Ok(Type::F16)
        } else if b == 0xfa {
            Ok(Type::F32)
        } else if b == 0xfb {
            Ok(Type::F64)
        } else if b == 0xff {
            Ok(Type::Break)
        } else {
            Ok(Type::Unknown(b))
        }
    }

    /// The type of the next data item, which is not read.
    pub fn datatype(&self) -> (r: Result<Type, Error>)
        ensures
            result_view(r) == datatype_at(self.source(), self.pos()),
    {
        if self.pos < self.buf.len() {
            let d = Decoder { buf: self.buf, pos: self.pos + 1 };
            d.type_of(self.buf[self.pos])
        } else {
            Err(Error::end_of_input())
        }
    }

    /// The failure of a read that found initial byte `b` at `p`, just read.
    fn mismatch<T>(&self, p: usize, b: u8, expect: &str) -> (r: Result<T, Error>)
        requires
            self.pos() == p + 1,
        ensures
            result_view(r) == mismatch::<T>(self.source(), p as int, b, expect@).0,
    {
        match self.type_of(b) {
            Err(e) => Err(e),
            Ok(t) => Err(Error::type_mismatch(t).at(p).with_message(expect)),
        }
    }

    /// Reads the argument that additional information `info` announces.
    pub(crate) fn argument(&mut self, info: u8) -> (r: Result<u64, Error>)
        requires
            info <= 0x1b,
        ensures
            reads_as(*old(self), *final(self), r, argument(old(self).source(), old(self).pos(), info)),
    {
        if info <= 0x17 {
            Ok(info as u64)
        } else if info == 0x18 {
            match self.read() {
                Ok(b) => Ok(b as u64),
                Err(e) => Err(e),
            }
        } else if info == 0x19 {
            match self.read_slice(2) {
                Ok(s) => Ok((((s[0] as u16) << 8u16) | (s[1] as u16)) as u64),
                Err(e) => Err(e),
            }
        } else if info == 0x1a {
            match self.read_slice(4) {
                Ok(s) => Ok(
                    (((s[0] as u32) << 24u32) | ((s[1] as u32) << 16u32) | ((s[2] as u32) << 8u32) | (s[3] as u32)) as u64,
                ),
                Err(e) => Err(e),
            }
        } else {
            match self.read_slice(8) {
                Ok(s) => {
                    let n = ((s[0] as u64) << 56u64) | ((s[1] as u64) << 48u64) | ((s[2] as u64) << 40u64)
                        | ((s[3] as u64) << 32u64) | ((s[4] as u64) << 24u64) | ((s[5] as u64) << 16u64)
                        | ((s[6] as u64) << 8u64) | (s[7] as u64);
                    assert(s@ == old(self).source().subrange(old(self).pos(), old(self).pos() + 8));
                    Ok(n)
                },
                Err(e) => Err(e),
            }
        }
    }

    /// Reads an unsigned integer that is to be at most `max`.
    fn uint(&mut self, max: u64, expect: &str, m16: &str, m32: &str, m64: &str) -> (r: Result<u64, Error>)
        ensures
            reads_as(*old(self), *final(self), r, read_uint(old(self).source(), old(self).pos(), max, expect@, m16@, m32@, m64@)),
    {
        let p = self.pos;
        let b = match self.read() {
            Ok(b) => b,
            Err(e) => return Err(e),
        };
        if b <= 0x1b {
            match self.argument(b) {
                Err(e) => Err(e),
                Ok(n) => if n <= max {
                    Ok(n)
                } else {
                    let m = if b == 0x19 {
                        m16
                    } else if b == 0x1a {
                        m32
                    } else {
                        m64
                    };
                    Err(Error::overflow(n).at(p).with_message(m))
                },
            }
        } else {
            self.mismatch(p, b, expect)
        }
    }

    /// Reads an integer whose argument is to be at most `max`, as its sign and argument.
    fn sint(&mut self, max: u64, expect: &str, m8: &str, m16: &str, m32: &str, m64: &str) -> (r: Result<(bool, u64), Error>)
        ensures
            reads_as(*old(self), *final(self), r, read_sint(old(self).source(), old(self).pos(), max, expect@, m8@, m16@, m32@, m64@)),
    {
        let p = self.pos;
        let b = match self.read() {
            Ok(b) => b,
            Err(e) => return Err(e),
        };
        if b <= 0x1b || (0x20 <= b && b <= 0x3b) {
            let neg = b >= 0x20;
            let info = if neg { b - 0x20 } else { b };
            match self.argument(info) {
                Err(e) => Err(e),
                Ok(n) => if n <= max {
                    Ok((neg, n))
                } else {
                    let m = if info == 0x18 {
                        m8
                    } else if info == 0x19 {
                        m16
                    } else if info == 0x1a {
                        m32
                    } else {
                        m64
                    };
                    Err(Error::overflow(n).at(p).with_message(m))
                },
            }
        } else {
            self.mismatch(p, b, expect)
        }
    }

    /// Reads an unsigned integer into a `u8`.
    pub fn u8(&mut self) -> (r: Result<u8, Error>)
        ensures
            reads_as(*old(self), *final(self), r, read_u8(old(self).source(), old(self).pos())),
    {
        match self.uint(0xff, "expected u8", "when converting u16 to u8", "when converting u32 to u8", "when converting u64 to u8") {
            Ok(n) => Ok(n as u8),
            Err(e) => Err(e),
        }
    }

    /// Reads an unsigned integer into a `u16`.
    pub fn u16(&mut self) -> (r: Result<u16, Error>)
        ensures
            reads_as(*old(self), *final(self), r, read_u16(old(self).source(), old(self).pos())),
    {
        match self.uint(0xffff, "expected u16", "when converting u16 to u16", "when converting u32 to u16", "when converting u64 to u16") {
            Ok(n) => Ok(n as u16),
            Err(e) => Err(e),
        }
    }

    /// Reads an unsigned integer into a `u32`.
    pub fn u32(&mut self) -> (r: Result<u32, Error>)
        ensures
            reads_as(*old(self), *final(self), r, read_u32(old(self).source(), old(self).pos())),
    {
        match self.uint(0xffff_ffff, "expected u32", "when converting u16 to u32", "when converting u32 to u32", "when converting u64 to u32") {
            Ok(n) => Ok(n as u32),
            Err(e) => Err(e),
        }
    }

    /// Reads an unsigned integer into a `u64`.
    pub fn u64(&mut self) -> (r: Result<u64, Error>)
        ensures
            reads_as(*old(self), *final(self), r, read_u64(old(self).source(), old(self).pos())),
    {
        match self.uint(0xffff_ffff_ffff_ffff, "expected u64", "when converting u16 to u64", "when converting u32 to u64", "when converting u64 to u64") {
            Ok(n) => Ok(n),
            Err(e) => Err(e),
        }
    }

    /// Reads an integer into an `i8`.
    pub fn i8(&mut self) -> (r: Result<i8, Error>)
        ensures
            reads_as(*old(self), *final(self), r, read_i8(old(self).source(), old(self).pos())),
    {
        match self.sint(0x7f, "expected i8", "when converting u8 to i8", "when converting u16 to i8", "when converting u32 to i8", "when converting u64 to i8") {
            Ok((neg, n)) => if neg {
                Ok(-1 - n as i8)
            } else {
                Ok(n as i8)
            },
            Err(e) => Err(e),
        }
    }

    /// Reads an integer into an `i16`.
    pub fn i16(&mut self) -> (r: Result<i16, Error>)
        ensures
            reads_as(*old(self), *final(self), r, read_i16(old(self).source(), old(self).pos())),
    {
        match self.sint(0x7fff, "expected i16", "when converting u8 to i16", "when converting u16 to i16", "when converting u32 to i16", "when converting u64 to i16") {
            Ok((neg, n)) => if neg {
                Ok(-1 - n as i16)
            } else {
                Ok(n as i16)
            },
            Err(e) => Err(e),
        }
    }

    /// Reads an integer into an `i32`.
    pub fn i32(&mut self) -> (r: Result<i32, Error>)
        ensures
            reads_as(*old(self), *final(self), r, read_i32(old(self).source(), old(self).pos())),
    {
        match self.sint(0x7fff_ffff, "expected i32", "when converting u8 to i32", "when converting u16 to i32", "when converting u32 to i32", "when converting u64 to i32") {
            Ok((neg, n)) => if neg {
                Ok(-1 - n as i32)
            } else {
                Ok(n as i32)
            },
            Err(e) => Err(e),
        }
    }

    /// Reads an integer into an `i64`.
    pub fn i64(&mut self) -> (r: Result<i64, Error>)
        ensures
            reads_as(*old(self), *final(self), r, read_i64(old(self).source(), old(self).pos())),
    {
        match self.sint(0x7fff_ffff_ffff_ffff, "expected i64", "when converting u8 to i64", "when converting u16 to i64", "when converting u32 to i64", "when converting u64 to i64") {
            Ok((neg, n)) => if neg {
                Ok(-1 - n as i64)
            } else {
                Ok(n as i64)
            },
            Err(e) => Err(e),
        }
    }

    /// Reads an unsigned integer into a `usize`.
    pub fn usize(&mut self) -> (r: Result<usize, Error>)
        ensures
            reads_as(*old(self), *final(self), r, read_usize(old(self).source(), old(self).pos())),
    {
        let p = self.pos;
        match self.u64() {
            Err(e) => Err(e),
            Ok(n) => if n <= usize::MAX as u64 {
                Ok(n as usize)
            } else {
                Err(Error::overflow(n).at(p).with_message("when converting u64 to usize"))
            },
        }
    }

    /// Reads an integer into an `isize`.
    pub fn isize(&mut self) -> (r: Result<isize, Error>)
        ensures
            reads_as(*old(self), *final(self), r, read_isize(old(self).source(), old(self).pos())),
    {
        let p = self.pos;
        match self.i64() {
            Err(e) => Err(e),
            Ok(n) => if isize::MIN as i64 <= n && n <= isize::MAX as i64 {
                Ok(n as isize)
            } else {
                let a: u64 = if n < 0 { (-1 - n) as u64 } else { n as u64 };
                Err(Error::overflow(a).at(p).with_message("when converting i64 to isize"))
            },
        }
    }

    /// Reads an integer in the whole range CBOR can represent.
    pub fn integer(&mut self) -> (r: Result<Int, Error>)
        ensures
            final(self).source() == old(self).source(),
            final(self).pos() == read_int(old(self).source(), old(self).pos()).1,
            match r {
                Ok(i) => read_int(old(self).source(), old(self).pos()).0 == Ok::<(bool, u64), ErrorView>((i.is_neg(), i.arg())),
                Err(e) => read_int(old(self).source(), old(self).pos()).0 == Err::<(bool, u64), ErrorView>(e@),
            },
    {
        match self.sint(0xffff_ffff_ffff_ffff, "expected int", "", "", "", "") {
            Ok((neg, n)) => Ok(Int::from_parts(neg, n)),
            Err(e) => Err(e),
        }
    }

    /// Reads a data item that is the single byte `b`.
    fn fixed(&mut self, b: u8, expect: &str) -> (r: Result<(), Error>)
        ensures
            reads_as(*old(self), *final(self), r, read_fixed(old(self).source(), old(self).pos(), b, expect@)),
    {
        let p = self.pos;
        match self.read() {
            Err(e) => Err(e),
            Ok(c) => if c == b {
                Ok(())
            } else {
                self.mismatch(p, c, expect)
            },
        }
    }

    /// Reads a boolean.
    pub fn bool(&mut self) -> (r: Result<bool, Error>)
        ensures
            reads_as(*old(self), *final(self), r, read_bool(old(self).source(), old(self).pos())),
    {
        let p = self.pos;
        match self.read() {
            Err(e) => Err(e),
            Ok(c) => if c == 0xf4 {
                Ok(false)
            } else if c == 0xf5 {
                Ok(true)
            } else {
                self.mismatch(p, c, "expected bool")
            },
        }
    }

    /// Reads `null`.
    pub fn null(&mut self) -> (r: Result<(), Error>)
        ensures
            reads_as(*old(self), *final(self), r, read_fixed(old(self).source(), old(self).pos(), 0xf6, "expected null"@)),
    {
        self.fixed(0xf6, "expected null")
    }

    /// Reads `undefined`.
    pub fn undefined(&mut self) -> (r: Result<(), Error>)
        ensures
            reads_as(*old(self), *final(self), r, read_fixed(old(self).source(), old(self).pos(), 0xf7, "expected undefined"@)),
    {
        self.fixed(0xf7, "expected undefined")
    }

    /// Reads a simple value.
    pub fn simple(&mut self) -> (r: Result<u8, Error>)
        ensures
            reads_as(*old(self), *final(self), r, read_simple(old(self).source(), old(self).pos())),
    {
        let p = self.pos;
        match self.read() {
            Err(e) => Err(e),
            Ok(c) => if 0xe0 <= c && c <= 0xf3 {
                Ok(c - 0xe0)
            } else if c == 0xf8 {
                self.read()
            } else {
                self.mismatch(p, c, "expected simple value")
            },
        }
    }

    /// Reads a character, encoded as the unsigned integer of its code point.
    pub fn char(&mut self) -> (r: Result<char, Error>)
        ensures
            reads_as(*old(self), *final(self), r, read_char(old(self).source(), old(self).pos())),
    {
        let p = self.pos;
        match self.u32() {
            Err(e) => Err(e),
            Ok(n) => match char_from_u32(n) {
                Some(c) => Ok(c),
                None => Err(Error::invalid_char(n).at(p)),
            },
        }
    }

    /// Reads the head of an item whose initial byte lies in `lo ..= lo + 0x1b`,
    /// or is `indef`, the initial byte of its form of indefinite length.
    pub(crate) fn len_head(&mut self, lo: u8, indef: Option<u8>, expect: &str) -> (r: Result<Option<u64>, Error>)
        requires
            lo <= 0xe0,
        ensures
            reads_as(*old(self), *final(self), r, read_len(old(self).source(), old(self).pos(), lo, indef, expect@)),
    {
        let p = self.pos;
        match self.read() {
            Err(e) => Err(e),
            Ok(c) => if indef == Some(c) {
                Ok(None)
            } else if lo <= c && c <= lo + 0x1b {
                match self.argument(c - lo) {
                    Ok(n) => Ok(Some(n)),
                    Err(e) => Err(e),
                }
            } else {
                self.mismatch(p, c, expect)
            },
        }
    }

    /// Reads the head of an array: its length, or `None` for indefinite length.
    pub fn array(&mut self) -> (r: Result<Option<u64>, Error>)
        ensures
            reads_as(*old(self), *final(self), r, read_array(old(self).source(), old(self).pos())),
    {
        self.len_head(0x80, Some(0x9f), "expected array")
    }

    /// Reads the head of a map: its number of pairs, or `None` for indefinite length.
    pub fn map(&mut self) -> (r: Result<Option<u64>, Error>)
        ensures
            reads_as(*old(self), *final(self), r, read_map(old(self).source(), old(self).pos())),
    {
        self.len_head(0xa0, Some(0xbf), "expected map")
    }

    /// Reads a tag.
    pub fn tag(&mut self) -> (r: Result<Tag, Error>)
        ensures
            final(self).source() == old(self).source(),
            final(self).pos() == read_tag(old(self).source(), old(self).pos()).1,
            match r {
                Ok(t) => read_tag(old(self).source(), old(self).pos()).0 == Ok::<u64, ErrorView>(t.num()),
                Err(e) => read_tag(old(self).source(), old(self).pos()).0 == Err::<u64, ErrorView>(e@),
            },
    {
        match self.len_head(0xc0, None, "expected tag") {
            Ok(Some(n)) => Ok(Tag::new(n)),
            Ok(None) => Ok(Tag::new(0)),
            Err(e) => Err(e),
        }
    }

    /// Reads a string of definite length whose initial byte lies in `lo ..= lo + 0x1b`.
    fn chunk(&mut self, lo: u8, expect: &str) -> (r: Result<&'b [u8], Error>)
        requires
            lo <= 0xe0,
        ensures
            reads_bytes_as(*old(self), *final(self), r, read_chunk(old(self).source(), old(self).pos(), lo, expect@)),
    {
        let p = self.pos;
        match self.read() {
            Err(e) => Err(e),
            Ok(c) => if lo <= c && c <= lo + 0x1b {
                match self.argument(c - lo) {
                    Err(e) => Err(e),
                    Ok(n) => if n > usize::MAX as u64 {
                        Err(Error::overflow(n).at(p).with_message("when converting u64 to usize"))
                    } else {
                        self.read_slice(n as usize)
                    },
                }
            } else {
                self.mismatch(p, c, expect)
            },
        }
    }

    /// Reads a byte string of definite length.
    pub fn bytes(&mut self) -> (r: Result<&'b [u8], Error>)
        ensures
            reads_bytes_as(*old(self), *final(self), r, read_bytes_item(old(self).source(), old(self).pos())),
    {
        self.chunk(0x40, "expected bytes (definite length)")
    }

    /// Reads a text string of definite length.
    pub fn str(&mut self) -> (r: Result<&'b str, Error>)
        ensures
            reads_str_as(*old(self), *final(self), r, read_str_item(old(self).source(), old(self).pos())),
    {
        let p = self.pos;
        match self.chunk(0x60, "expected text (definite length)") {
            Err(e) => Err(e),
            Ok(b) => match str_from_utf8(b) {
                Some(s) => Ok(s),
                None => Err(Error::utf8().at(p)),
            },
        }
    }
}

} // verus!
