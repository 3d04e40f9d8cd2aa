//! What reading a data item from a position of the input yields: the result,
//! and the position at which the decoder stands afterwards.
use vstd::prelude::*;
use vstd::utf8::valid_utf8;
use crate::data::{Int, Tag, Type};
use crate::decode::error::{ErrorKind, ErrorView, end_of_input, error_at};
use crate::model::{u16_of, u32_of, u64_of};

verus! {

/// A result of reading, and the position after it.
pub type Read<T> = (Result<T, ErrorView>, int);

/// The type of the data item whose initial byte is `b`; for the negative
/// integers with an argument of one or more bytes it depends on the first
/// argument byte, at `q`.
pub open spec fn byte_type(s: Seq<u8>, b: u8, q: int) -> Result<Type, ErrorView> {
    if b <= 0x18 {
        Ok(Type::U8)
    } else if b == 0x19 {
        Ok(Type::U16)
    } else if b == 0x1a {
        Ok(Type::U32)
    } else if b == 0x1b {
        Ok(Type::U64)
    } else if 0x20 <= b <= 0x37 {
        Ok(Type::I8)
    } else if 0x38 <= b <= 0x3b {
        if 0 <= q < s.len() {
            let hi = s[q] >= 0x80;
            Ok(
                if b == 0x38 {
                    if hi { Type::I16 } else { Type::I8 }
                } else if b == 0x39 {
                    if hi { Type::I32 } else { Type::I16 }
                } else if b == 0x3a {
                    if hi { Type::I64 } else { Type::I32 }
                } else {
                    if hi { Type::Int } else { Type::I64 }
                },
            )
        } else {
            Err(end_of_input())
        }
    } else if 0x40 <= b <= 0x5b {
        Ok(Type::Bytes)
    } else if b == 0x5f {
        Ok(Type::BytesIndef)
    } else if 0x60 <= b <= 0x7b {
        Ok(Type::String)
    } else if b == 0x7f {
        Ok(Type::StringIndef)
    } else if 0x80 <= b <= 0x9b {
        Ok(Type::Array)
    } else if b == 0x9f {
        Ok(Type::ArrayIndef)
    } else if 0xa0 <= b <= 0xbb {
        Ok(Type::Mapping)
    } else if b == 0xbf {
        Ok(Type::MapIndef)
    } else if 0xc0 <= b <= 0xdb {
        Ok(Type::Tag)
    } else if 0xe0 <= b <= 0xf3 {
        Ok(Type::Simple)
    } else if b == 0xf4 || b == 0xf5 {
        Ok(Type::Bool)
    } else if b == 0xf6 {
        Ok(Type::Null)
    } else if b == 0xf7 {
        Ok(Type::Undefined)
    } else if b == 0xf8 {
        Ok(Type::Simple)
    } else if b == 0xf9 {
        Ok(Type::F16)
    } else if b == 0xfa {
        Ok(Type::F32)
    } else if b == 0xfb {
        Ok(Type::F64)
    } else if b == 0xff {
        Ok(Type::Break)
    } else {
        Ok(Type::Unknown(b))
    }
}

/// The type of the data item at `p`.
pub open spec fn datatype_at(s: Seq<u8>, p: int) -> Result<Type, ErrorView> {
    if 0 <= p < s.len() {
        byte_type(s, s[p], p + 1)
    } else {
        Err(end_of_input())
    }
}

/// Reading one byte.
pub open spec fn read_byte(s: Seq<u8>, p: int) -> Read<u8> {
    if 0 <= p < s.len() {
        (Ok(s[p]), p + 1)
    } else {
        (Err(end_of_input()), p)
    }
}

/// Reading `n` bytes.
pub open spec fn read_bytes(s: Seq<u8>, p: int, n: int) -> Read<Seq<u8>> {
    if 0 <= p && p + n <= s.len() {
        (Ok(s.subrange(p, p + n)), p + n)
    } else {
        (Err(end_of_input()), p)
    }
}

/// Reading the argument that additional information `info` (at most 27)
/// announces, its bytes starting at `q`.
pub open spec fn argument(s: Seq<u8>, q: int, info: u8) -> Read<u64> {
    if info <= 0x17 {
        (Ok(info as u64), q)
    } else if 0 <= q && q + arg_size(info) <= s.len() {
        (Ok(arg_value(s, q, info)), q + arg_size(info))
    } else {
        (Err(end_of_input()), q)
    }
}

/// How many bytes the argument of additional information `info` takes.
pub open spec fn arg_size(info: u8) -> int {
    if info <= 0x17 {
        0
    } else if info == 0x18 {
        1
    } else if info == 0x19 {
        2
    } else if info == 0x1a {
        4
    } else {
        8
    }
}

/// The value of the argument of additional information `info` whose bytes start at `q`.
pub open spec fn arg_value(s: Seq<u8>, q: int, info: u8) -> u64 {
    if info <= 0x17 {
        info as u64
    } else if info == 0x18 {
        s[q] as u64
    } else if info == 0x19 {
        u16_of(s[q], s[q + 1]) as u64
    } else if info == 0x1a {
        u32_of(s[q], s[q + 1], s[q + 2], s[q + 3]) as u64
    } else {
        u64_of(s.subrange(q, q + 8))
    }
}

/// The failure of a read that found initial byte `b` at `p` where it
/// expected another type: a type mismatch naming the type found.
pub open spec fn mismatch<T>(s: Seq<u8>, p: int, b: u8, m: Seq<char>) -> Read<T> {
    (
        match byte_type(s, b, p + 1) {
            Err(e) => Err(e),
            Ok(t) => Err(error_at(ErrorKind::TypeMismatch(t), p, m)),
        },
        p + 1,
    )
}

/// Reading an unsigned integer that is to be at most `max`; `m16`, `m32`
/// and `m64` are the messages of an overflow from an argument of 2, 4 and 8 bytes.
pub open spec fn read_uint(
    s: Seq<u8>,
    p: int,
    max: u64,
    expect: Seq<char>,
    m16: Seq<char>,
    m32: Seq<char>,
    m64: Seq<char>,
) -> Read<u64> {
    if !(0 <= p < s.len()) {
        (Err(end_of_input()), p)
    } else if s[p] <= 0x1b {
        let (r, e) = argument(s, p + 1, s[p]);
        match r {
            Err(x) => (Err(x), e),
            Ok(n) => if n <= max {
                (Ok(n), e)
            } else {
                (
                    Err(
                        error_at(
                            ErrorKind::Overflow(n),
                            p,
                            if s[p] == 0x19 {
                                m16
                            } else if s[p] == 0x1a {
                                m32
                            } else {
                                m64
                            },
                        ),
                    ),
                    e,
                )
            },
        }
    } else {
        mismatch(s, p, s[p], expect)
    }
}

/// Reading an integer whose argument is to be at most `max`, as its sign (`true`:
/// negative, standing for `-1 - n`) and argument `n`; `m8` to `m64` are the
/// messages of an overflow from an argument of 1 to 8 bytes.
pub open spec fn read_sint(
    s: Seq<u8>,
    p: int,
    max: u64,
    expect: Seq<char>,
    m8: Seq<char>,
    m16: Seq<char>,
    m32: Seq<char>,
    m64: Seq<char>,
) -> Read<(bool, u64)> {
    if !(0 <= p < s.len()) {
        (Err(end_of_input()), p)
    } else if s[p] <= 0x1b || 0x20 <= s[p] <= 0x3b {
        let neg = s[p] >= 0x20;
        let info = if neg { (s[p] - 0x20) as u8 } else { s[p] };
        let (r, e) = argument(s, p + 1, info);
        match r {
            Err(x) => (Err(x), e),
            Ok(n) => if n <= max {
                (Ok((neg, n)), e)
            } else {
                (
                    Err(
                        error_at(
                            ErrorKind::Overflow(n),
                            p,
                            if info == 0x18 {
                                m8
                            } else if info == 0x19 {
                                m16
                            } else if info == 0x1a {
                                m32
                            } else {
                                m64
                            },
                        ),
                    ),
                    e,
                )
            },
        }
    } else {
        mismatch(s, p, s[p], expect)
    }
}

/// Reading a `u8`.
pub open spec fn read_u8(s: Seq<u8>, p: int) -> Read<u8> {
    let (r, e) = read_uint(s, p, 0xff, "expected u8"@, "when converting u16 to u8"@, "when converting u32 to u8"@, "when converting u64 to u8"@);
    (match r { Ok(n) => Ok(n as u8), Err(x) => Err(x) }, e)
}

/// Reading a `u16`.
pub open spec fn read_u16(s: Seq<u8>, p: int) -> Read<u16> {
    let (r, e) = read_uint(s, p, 0xffff, "expected u16"@, "when converting u16 to u16"@, "when converting u32 to u16"@, "when converting u64 to u16"@);
    (match r { Ok(n) => Ok(n as u16), Err(x) => Err(x) }, e)
}

/// Reading a `u32`.
pub open spec fn read_u32(s: Seq<u8>, p: int) -> Read<u32> {
    let (r, e) = read_uint(s, p, 0xffff_ffff, "expected u32"@, "when converting u16 to u32"@, "when converting u32 to u32"@, "when converting u64 to u32"@);
    (match r { Ok(n) => Ok(n as u32), Err(x) => Err(x) }, e)
}

/// Reading a `u64`.
pub open spec fn read_u64(s: Seq<u8>, p: int) -> Read<u64> {
    read_uint(s, p, 0xffff_ffff_ffff_ffff, "expected u64"@, "when converting u16 to u64"@, "when converting u32 to u64"@, "when converting u64 to u64"@)
}

/// Reading a `usize`.
pub open spec fn read_usize(s: Seq<u8>, p: int) -> Read<usize> {
    let (r, e) = read_u64(s, p);
    (
        match r {
            Err(x) => Err(x),
            Ok(n) => if n <= usize::MAX {
                Ok(n as usize)
            } else {
                Err(error_at(ErrorKind::Overflow(n), p, "when converting u64 to usize"@))
            },
        },
        e,
    )
}

/// The value of a sign and an argument.
pub open spec fn signed_value(neg: bool, n: u64) -> int {
    if neg {
        -1 - n
    } else {
        n as int
    }
}

/// Reading an `i8`.
pub open spec fn read_i8(s: Seq<u8>, p: int) -> Read<i8> {
    let (r, e) = read_sint(s, p, 0x7f, "expected i8"@, "when converting u8 to i8"@, "when converting u16 to i8"@, "when converting u32 to i8"@, "when converting u64 to i8"@);
    (match r { Ok((neg, n)) => Ok(signed_value(neg, n) as i8), Err(x) => Err(x) }, e)
}

/// Reading an `i16`.
pub open spec fn read_i16(s: Seq<u8>, p: int) -> Read<i16> {
    let (r, e) = read_sint(s, p, 0x7fff, "expected i16"@, "when converting u8 to i16"@, "when converting u16 to i16"@, "when converting u32 to i16"@, "when converting u64 to i16"@);
    (match r { Ok((neg, n)) => Ok(signed_value(neg, n) as i16), Err(x) => Err(x) }, e)
}

/// Reading an `i32`.
pub open spec fn read_i32(s: Seq<u8>, p: int) -> Read<i32> {
    let (r, e) = read_sint(s, p, 0x7fff_ffff, "expected i32"@, "when converting u8 to i32"@, "when converting u16 to i32"@, "when converting u32 to i32"@, "when converting u64 to i32"@);
    (match r { Ok((neg, n)) => Ok(signed_value(neg, n) as i32), Err(x) => Err(x) }, e)
}

/// Reading an `i64`.
pub open spec fn read_i64(s: Seq<u8>, p: int) -> Read<i64> {
    let (r, e) = read_sint(s, p, 0x7fff_ffff_ffff_ffff, "expected i64"@, "when converting u8 to i64"@, "when converting u16 to i64"@, "when converting u32 to i64"@, "when converting u64 to i64"@);
    (match r { Ok((neg, n)) => Ok(signed_value(neg, n) as i64), Err(x) => Err(x) }, e)
}

/// Reading an `isize`.
pub open spec fn read_isize(s: Seq<u8>, p: int) -> Read<isize> {
    let (r, e) = read_i64(s, p);
    (
        match r {
            Err(x) => Err(x),
            Ok(n) => if isize::MIN <= n <= isize::MAX {
                Ok(n as isize)
            } else {
                Err(error_at(ErrorKind::Overflow((if n < 0 { -1 - n } else { n as int }) as u64), p, "when converting i64 to isize"@))
            },
        },
        e,
    )
}

/// Reading an integer in the whole range CBOR can represent, as its sign and argument.
pub open spec fn read_int(s: Seq<u8>, p: int) -> Read<(bool, u64)> {
    read_sint(s, p, 0xffff_ffff_ffff_ffff, "expected int"@, Seq::empty(), Seq::empty(), Seq::empty(), Seq::empty())
}

/// Reading a data item that is a single given byte, such as `null`.
pub open spec fn read_fixed(s: Seq<u8>, p: int, b: u8, expect: Seq<char>) -> Read<()> {
    if !(0 <= p < s.len()) {
        (Err(end_of_input()), p)
    } else if s[p] == b {
        (Ok(()), p + 1)
    } else {
        mismatch(s, p, s[p], expect)
    }
}

/// Reading a boolean.
pub open spec fn read_bool(s: Seq<u8>, p: int) -> Read<bool> {
    if !(0 <= p < s.len()) {
        (Err(end_of_input()), p)
    } else if s[p] == 0xf4 {
        (Ok(false), p + 1)
    } else if s[p] == 0xf5 {
        (Ok(true), p + 1)
    } else {
        mismatch(s, p, s[p], "expected bool"@)
    }
}

/// Reading a simple value.
pub open spec fn read_simple(s: Seq<u8>, p: int) -> Read<u8> {
    if !(0 <= p < s.len()) {
        (Err(end_of_input()), p)
    } else if 0xe0 <= s[p] <= 0xf3 {
        (Ok((s[p] - 0xe0) as u8), p + 1)
    } else if s[p] == 0xf8 {
        read_byte(s, p + 1)
    } else {
        mismatch(s, p, s[p], "expected simple value"@)
    }
}

/// Whether `n` is the code point of a character.
pub open spec fn is_char(n: u32) -> bool {
    n <= 0xd7ff || (0xe000 <= n <= 0x10ffff)
}

/// Reading a character.
pub open spec fn read_char(s: Seq<u8>, p: int) -> Read<char> {
    let (r, e) = read_u32(s, p);
    (
        match r {
            Err(x) => Err(x),
            Ok(n) => if is_char(n) {
                Ok(n as char)
            } else {
                Err(error_at(ErrorKind::InvalidChar(n), p, Seq::empty()))
            },
        },
        e,
    )
}

/// Reading the head of a data item whose initial byte lies in `lo ..= lo + 0x1b`,
/// as its argument; `indef`, if given, is the initial byte of the item's form of
/// indefinite length, which reads as `None`.
pub open spec fn read_len(s: Seq<u8>, p: int, lo: u8, indef: Option<u8>, expect: Seq<char>) -> Read<Option<u64>> {
    if !(0 <= p < s.len()) {
        (Err(end_of_input()), p)
    } else if indef == Some(s[p]) {
        (Ok(None), p + 1)
    } else if lo <= s[p] <= lo + 0x1b {
        let (r, e) = argument(s, p + 1, (s[p] - lo) as u8);
        (match r { Ok(n) => Ok(Some(n)), Err(x) => Err(x) }, e)
    } else {
        mismatch(s, p, s[p], expect)
    }
}

/// Reading the head of an array.
pub open spec fn read_array(s: Seq<u8>, p: int) -> Read<Option<u64>> {
    read_len(s, p, 0x80, Some(0x9fu8), "expected array"@)
}

/// Reading the head of a map.
pub open spec fn read_map(s: Seq<u8>, p: int) -> Read<Option<u64>> {
    read_len(s, p, 0xa0, Some(0xbfu8), "expected map"@)
}

/// Reading a tag.
pub open spec fn read_tag(s: Seq<u8>, p: int) -> Read<u64> {
    let (r, e) = read_len(s, p, 0xc0, None, "expected tag"@);
    (match r { Ok(Some(n)) => Ok(n), Ok(None) => Ok(0), Err(x) => Err(x) }, e)
}

/// Reading a string of definite length whose initial byte lies in
/// `lo ..= lo + 0x1b`, as its bytes.
pub open spec fn read_chunk(s: Seq<u8>, p: int, lo: u8, expect: Seq<char>) -> Read<Seq<u8>> {
    if !(0 <= p < s.len()) {
        (Err(end_of_input()), p)
    } else if lo <= s[p] <= lo + 0x1b {
        let (r, e) = argument(s, p + 1, (s[p] - lo) as u8);
        match r {
            Err(x) => (Err(x), e),
            Ok(n) => if n > usize::MAX {
                (Err(error_at(ErrorKind::Overflow(n), p, "when converting u64 to usize"@)), e)
            } else {
                read_bytes(s, e, n as int)
            },
        }
    } else {
        mismatch(s, p, s[p], expect)
    }
}

/// Reading a byte string of definite length.
pub open spec fn read_bytes_item(s: Seq<u8>, p: int) -> Read<Seq<u8>> {
    read_chunk(s, p, 0x40, "expected bytes (definite length)"@)
}

/// Reading a text string of definite length, as its UTF-8 bytes.
pub open spec fn read_str_item(s: Seq<u8>, p: int) -> Read<Seq<u8>> {
    let (r, e) = read_chunk(s, p, 0x60, "expected text (definite length)"@);
    (
        match r {
            Err(x) => Err(x),
            Ok(b) => if valid_utf8(b) {
                Ok(b)
            } else {
                Err(error_at(ErrorKind::Utf8, p, Seq::empty()))
            },
        },
        e,
    )
}

/// Reading the head of a string that is to be read in chunks: `None` for
/// indefinite length, or the length of its only chunk.
pub open spec fn read_chunks_head(s: Seq<u8>, p: int, lo: u8, indef: u8, expect: Seq<char>) -> Read<Option<usize>> {
    let (r, e) = read_len(s, p, lo, Some(indef), expect);
    (
        match r {
            Err(x) => Err(x),
            Ok(None) => Ok(None),
            Ok(Some(n)) => if n > usize::MAX {
                Err(error_at(ErrorKind::Overflow(n), p, "when converting u64 to usize"@))
            } else {
                Ok(Some(n as usize))
            },
        },
        e,
    )
}

/// What the next step of reading a string in chunks yields, and where it leaves
/// the decoder and the count of chunks, from position `p` with `len` as
/// announced by the head (`None`: indefinite length; `Some(0)`: done).
/// For text, `utf8` says that each chunk must be UTF-8.
pub open spec fn next_chunk(s: Seq<u8>, p: int, len: Option<usize>, utf8: bool) -> (Option<Result<Seq<u8>, ErrorView>>, int, Option<usize>) {
    match len {
        None => match read_byte(s, p).0 {
            Err(x) => (Some(Err(x)), p, None),
            Ok(b) => if b == 0xff {
                (None, p + 1, Some(0usize))
            } else {
                let item = if utf8 { read_str_item(s, p) } else { read_bytes_item(s, p) };
                (Some(item.0), item.1, None)
            },
        },
        Some(n) => if n == 0 {
            (None, p, Some(0usize))
        } else {
            let (r, e) = read_bytes(s, p, n as int);
            (
                Some(
                    match r {
                        Err(x) => Err(x),
                        Ok(b) => if !utf8 || valid_utf8(b) {
                            Ok(b)
                        } else {
                            Err(error_at(ErrorKind::Utf8, p, Seq::empty()))
                        },
                    },
                ),
                e,
                Some(0usize),
            )
        },
    }
}

/// A read of an argument that succeeds ends within the input, at or after `q`.
pub proof fn lemma_argument_bounds(s: Seq<u8>, q: int, info: u8)
    requires
        0 <= q <= s.len(),
    ensures
        argument(s, q, info).0 is Ok ==> q <= argument(s, q, info).1 <= s.len(),
{
}

/// A read of an unsigned integer that succeeds ends within the input, past `p`.
pub proof fn lemma_read_uint_progress(s: Seq<u8>, p: int)
    ensures
        forall|max: u64, expect: Seq<char>, m16: Seq<char>, m32: Seq<char>, m64: Seq<char>|
            (#[trigger] read_uint(s, p, max, expect, m16, m32, m64)).0 is Ok
                ==> p < read_uint(s, p, max, expect, m16, m32, m64).1 <= s.len(),
{
    if 0 <= p < s.len() && s[p] <= 0x1b {
        lemma_argument_bounds(s, p + 1, s[p]);
    }
}

/// A read of a signed integer that succeeds ends within the input, past `p`.
pub proof fn lemma_read_sint_progress(s: Seq<u8>, p: int)
    ensures
        forall|max: u64, expect: Seq<char>, m8: Seq<char>, m16: Seq<char>, m32: Seq<char>, m64: Seq<char>|
            (#[trigger] read_sint(s, p, max, expect, m8, m16, m32, m64)).0 is Ok
                ==> p < read_sint(s, p, max, expect, m8, m16, m32, m64).1 <= s.len(),
{
    if 0 <= p < s.len() && (s[p] <= 0x1b || 0x20 <= s[p] <= 0x3b) {
        let neg = s[p] >= 0x20;
        let info = if neg { (s[p] - 0x20) as u8 } else { s[p] };
        lemma_argument_bounds(s, p + 1, info);
    }
}

/// A read of the head of an item that succeeds ends within the input, past `p`.
pub proof fn lemma_read_len_progress(s: Seq<u8>, p: int)
    ensures
        forall|lo: u8, indef: Option<u8>, expect: Seq<char>|
            (#[trigger] read_len(s, p, lo, indef, expect)).0 is Ok ==> p < read_len(s, p, lo, indef, expect).1 <= s.len(),
{
    assert forall|lo: u8, indef: Option<u8>, expect: Seq<char>|
        (#[trigger] read_len(s, p, lo, indef, expect)).0 is Ok implies p < read_len(s, p, lo, indef, expect).1 <= s.len() by {
        if 0 <= p < s.len() && indef != Some(s[p]) && lo <= s[p] <= lo + 0x1b {
            lemma_argument_bounds(s, p + 1, (s[p] - lo) as u8);
        }
    }
}

/// A read of a string of definite length that succeeds ends within the input, past `p`.
pub proof fn lemma_read_chunk_progress(s: Seq<u8>, p: int)
    ensures
        forall|lo: u8, expect: Seq<char>|
            (#[trigger] read_chunk(s, p, lo, expect)).0 is Ok ==> p < read_chunk(s, p, lo, expect).1 <= s.len(),
{
    assert forall|lo: u8, expect: Seq<char>|
        (#[trigger] read_chunk(s, p, lo, expect)).0 is Ok implies p < read_chunk(s, p, lo, expect).1 <= s.len() by {
        if 0 <= p < s.len() && lo <= s[p] <= lo + 0x1b {
            lemma_argument_bounds(s, p + 1, (s[p] - lo) as u8);
        }
    }
}

} // verus!
