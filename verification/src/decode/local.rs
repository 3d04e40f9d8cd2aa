//! Decoding that reads only the bytes of the item: bytes after it change
//! nothing.
use vstd::prelude::*;
use crate::data::{Int, Tag, Tagged};
use crate::decode::{Decode, decodes_entry};
use crate::decode::items::{reads_items, items_end, after_len, stop};
use crate::decode::reads::{argument, read_uint, read_sint, read_bool, read_len, read_chunk, read_str_item, datatype_at, read_byte, read_u8, read_u16, read_u32, read_u64, read_usize, read_i8, read_i16, read_i32, read_i64, read_isize, read_int, read_char, read_tag, read_array};

verus! {

/// An argument that was read whole reads the same with bytes after the input.
pub proof fn lemma_argument_local(s: Seq<u8>, t: Seq<u8>, q: int, info: u8)
    requires
        info <= 0x1b,
        argument(s, q, info).0 is Ok,
    ensures
        argument(s + t, q, info) == argument(s, q, info),
{
    if info > 0x17 {
        assert(forall|i: int| q <= i < s.len() ==> (s + t)[i] == s[i]);
        if info == 0x1b {
            assert((s + t).subrange(q, q + 8) =~= s.subrange(q, q + 8));
        }
    }
}

/// An unsigned integer that was read reads the same with bytes after the input.
pub proof fn lemma_uint_local(s: Seq<u8>, t: Seq<u8>, p: int, max: u64, expect: Seq<char>, m16: Seq<char>, m32: Seq<char>, m64: Seq<char>)
    requires
        read_uint(s, p, max, expect, m16, m32, m64).0 is Ok,
    ensures
        read_uint(s + t, p, max, expect, m16, m32, m64) == read_uint(s, p, max, expect, m16, m32, m64),
{
    assert((s + t)[p] == s[p]);
    lemma_argument_local(s, t, p + 1, s[p]);
}

/// A signed integer that was read reads the same with bytes after the input.
pub proof fn lemma_sint_local(s: Seq<u8>, t: Seq<u8>, p: int, max: u64, expect: Seq<char>, m8: Seq<char>, m16: Seq<char>, m32: Seq<char>, m64: Seq<char>)
    requires
        read_sint(s, p, max, expect, m8, m16, m32, m64).0 is Ok,
    ensures
        read_sint(s + t, p, max, expect, m8, m16, m32, m64) == read_sint(s, p, max, expect, m8, m16, m32, m64),
{
    assert((s + t)[p] == s[p]);
    let info = if s[p] >= 0x20 { (s[p] - 0x20) as u8 } else { s[p] };
    lemma_argument_local(s, t, p + 1, info);
}

/// A boolean that was read reads the same with bytes after the input.
pub proof fn lemma_bool_local(s: Seq<u8>, t: Seq<u8>, p: int)
    requires
        read_bool(s, p).0 is Ok,
    ensures
        read_bool(s + t, p) == read_bool(s, p),
{
    assert((s + t)[p] == s[p]);
}

/// The head of an array, a map or a tag that was read reads the same with
/// bytes after the input.
pub proof fn lemma_len_local(s: Seq<u8>, t: Seq<u8>, p: int, lo: u8, indef: Option<u8>, expect: Seq<char>)
    requires
        lo as int + 0x1b <= 0xff,
        read_len(s, p, lo, indef, expect).0 is Ok,
    ensures
        read_len(s + t, p, lo, indef, expect) == read_len(s, p, lo, indef, expect),
{
    assert((s + t)[p] == s[p]);
    if indef != Some(s[p]) {
        lemma_argument_local(s, t, p + 1, (s[p] - lo) as u8);
    }
}

/// A string of definite length that was read reads the same with bytes
/// after the input.
pub proof fn lemma_chunk_local(s: Seq<u8>, t: Seq<u8>, p: int, lo: u8, expect: Seq<char>)
    requires
        lo as int + 0x1b <= 0xff,
        read_chunk(s, p, lo, expect).0 is Ok,
    ensures
        read_chunk(s + t, p, lo, expect) == read_chunk(s, p, lo, expect),
{
    assert((s + t)[p] == s[p]);
    lemma_argument_local(s, t, p + 1, (s[p] - lo) as u8);
    let e = argument(s, p + 1, (s[p] - lo) as u8).1;
    let n = argument(s, p + 1, (s[p] - lo) as u8).0->Ok_0;
    assert((s + t).subrange(e, e + n) =~= s.subrange(e, e + n));
}

/// A text string that was read reads the same with bytes after the input.
pub proof fn lemma_str_local(s: Seq<u8>, t: Seq<u8>, p: int)
    requires
        read_str_item(s, p).0 is Ok,
    ensures
        read_str_item(s + t, p) == read_str_item(s, p),
{
    lemma_chunk_local(s, t, p, 0x60, "expected text (definite length)"@);
}

/// The type of an item that was found is found the same with bytes after
/// the input.
pub proof fn lemma_datatype_local(s: Seq<u8>, t: Seq<u8>, p: int)
    requires
        datatype_at(s, p) is Ok,
    ensures
        datatype_at(s + t, p) == datatype_at(s, p),
{
    assert((s + t)[p] == s[p]);
    if p + 1 < s.len() {
        assert((s + t)[p + 1] == s[p + 1]);
    }
}

/// A byte that was read reads the same with bytes after the input.
pub proof fn lemma_byte_local(s: Seq<u8>, t: Seq<u8>, p: int)
    requires
        read_byte(s, p).0 is Ok,
    ensures
        read_byte(s + t, p) == read_byte(s, p),
{
    assert((s + t)[p] == s[p]);
}

/// Every item of a fixed kind that was read at `p` reads the same with bytes
/// `t` after the input.
pub proof fn lemma_reads_local(s: Seq<u8>, t: Seq<u8>, p: int)
    ensures
        read_u8(s, p).0 is Ok ==> read_u8(s + t, p) == read_u8(s, p),
        read_u16(s, p).0 is Ok ==> read_u16(s + t, p) == read_u16(s, p),
        read_u32(s, p).0 is Ok ==> read_u32(s + t, p) == read_u32(s, p),
        read_u64(s, p).0 is Ok ==> read_u64(s + t, p) == read_u64(s, p),
        read_usize(s, p).0 is Ok ==> read_usize(s + t, p) == read_usize(s, p),
        read_i8(s, p).0 is Ok ==> read_i8(s + t, p) == read_i8(s, p),
        read_i16(s, p).0 is Ok ==> read_i16(s + t, p) == read_i16(s, p),
        read_i32(s, p).0 is Ok ==> read_i32(s + t, p) == read_i32(s, p),
        read_i64(s, p).0 is Ok ==> read_i64(s + t, p) == read_i64(s, p),
        read_isize(s, p).0 is Ok ==> read_isize(s + t, p) == read_isize(s, p),
        read_int(s, p).0 is Ok ==> read_int(s + t, p) == read_int(s, p),
        read_char(s, p).0 is Ok ==> read_char(s + t, p) == read_char(s, p),
        read_bool(s, p).0 is Ok ==> read_bool(s + t, p) == read_bool(s, p),
        read_tag(s, p).0 is Ok ==> read_tag(s + t, p) == read_tag(s, p),
        read_array(s, p).0 is Ok ==> read_array(s + t, p) == read_array(s, p),
        read_str_item(s, p).0 is Ok ==> read_str_item(s + t, p) == read_str_item(s, p),
        datatype_at(s, p) is Ok ==> datatype_at(s + t, p) == datatype_at(s, p),
        read_byte(s, p).0 is Ok ==> read_byte(s + t, p) == read_byte(s, p),
{
    if read_uint(s, p, 0xff, "expected u8"@, "when converting u16 to u8"@, "when converting u32 to u8"@, "when converting u64 to u8"@).0 is Ok {
        lemma_uint_local(s, t, p, 0xff, "expected u8"@, "when converting u16 to u8"@, "when converting u32 to u8"@, "when converting u64 to u8"@);
    }
    if read_uint(s, p, 0xffff, "expected u16"@, "when converting u16 to u16"@, "when converting u32 to u16"@, "when converting u64 to u16"@).0 is Ok {
        lemma_uint_local(s, t, p, 0xffff, "expected u16"@, "when converting u16 to u16"@, "when converting u32 to u16"@, "when converting u64 to u16"@);
    }
    if read_uint(s, p, 0xffff_ffff, "expected u32"@, "when converting u16 to u32"@, "when converting u32 to u32"@, "when converting u64 to u32"@).0 is Ok {
        lemma_uint_local(s, t, p, 0xffff_ffff, "expected u32"@, "when converting u16 to u32"@, "when converting u32 to u32"@, "when converting u64 to u32"@);
    }
    if read_uint(s, p, 0xffff_ffff_ffff_ffff, "expected u64"@, "when converting u16 to u64"@, "when converting u32 to u64"@, "when converting u64 to u64"@).0 is Ok {
        lemma_uint_local(s, t, p, 0xffff_ffff_ffff_ffff, "expected u64"@, "when converting u16 to u64"@, "when converting u32 to u64"@, "when converting u64 to u64"@);
    }
    if read_sint(s, p, 0x7f, "expected i8"@, "when converting u8 to i8"@, "when converting u16 to i8"@, "when converting u32 to i8"@, "when converting u64 to i8"@).0 is Ok {
        lemma_sint_local(s, t, p, 0x7f, "expected i8"@, "when converting u8 to i8"@, "when converting u16 to i8"@, "when converting u32 to i8"@, "when converting u64 to i8"@);
    }
    if read_sint(s, p, 0x7fff, "expected i16"@, "when converting u8 to i16"@, "when converting u16 to i16"@, "when converting u32 to i16"@, "when converting u64 to i16"@).0 is Ok {
        lemma_sint_local(s, t, p, 0x7fff, "expected i16"@, "when converting u8 to i16"@, "when converting u16 to i16"@, "when converting u32 to i16"@, "when converting u64 to i16"@);
    }
    if read_sint(s, p, 0x7fff_ffff, "expected i32"@, "when converting u8 to i32"@, "when converting u16 to i32"@, "when converting u32 to i32"@, "when converting u64 to i32"@).0 is Ok {
        lemma_sint_local(s, t, p, 0x7fff_ffff, "expected i32"@, "when converting u8 to i32"@, "when converting u16 to i32"@, "when converting u32 to i32"@, "when converting u64 to i32"@);
    }
    if read_sint(s, p, 0x7fff_ffff_ffff_ffff, "expected i64"@, "when converting u8 to i64"@, "when converting u16 to i64"@, "when converting u32 to i64"@, "when converting u64 to i64"@).0 is Ok {
        lemma_sint_local(s, t, p, 0x7fff_ffff_ffff_ffff, "expected i64"@, "when converting u8 to i64"@, "when converting u16 to i64"@, "when converting u32 to i64"@, "when converting u64 to i64"@);
    }
    if read_sint(s, p, 0xffff_ffff_ffff_ffff, "expected int"@, Seq::empty(), Seq::empty(), Seq::empty(), Seq::empty()).0 is Ok {
        lemma_sint_local(s, t, p, 0xffff_ffff_ffff_ffff, "expected int"@, Seq::empty(), Seq::empty(), Seq::empty(), Seq::empty());
    }
    if read_bool(s, p).0 is Ok {
        lemma_bool_local(s, t, p);
    }
    if read_len(s, p, 0xc0, None, "expected tag"@).0 is Ok {
        lemma_len_local(s, t, p, 0xc0, None, "expected tag"@);
    }
    if read_len(s, p, 0x80, Some(0x9fu8), "expected array"@).0 is Ok {
        lemma_len_local(s, t, p, 0x80, Some(0x9fu8), "expected array"@);
    }
    if read_str_item(s, p).0 is Ok {
        lemma_str_local(s, t, p);
    }
    if datatype_at(s, p) is Ok {
        lemma_datatype_local(s, t, p);
    }
    if read_byte(s, p).0 is Ok {
        lemma_byte_local(s, t, p);
    }
}

/// Whether a `T` that decodes from a position of an input decodes the same,
/// ending at the same position, whatever bytes follow the input.
pub open spec fn decodes_locally<'b, C, T: Decode<'b, C>>() -> bool {
    forall|input: Seq<u8>, t: Seq<u8>, pos: int, v: T, end: int|
        T::decodes(input, pos, Ok(v), end) ==> #[trigger] T::decodes(input + t, pos, Ok(v), end)
}

/// Numbers, `bool`, `char`, [`Int`], [`Tag`], `()` and `PhantomData` read
/// only the bytes of their item.
pub proof fn lemma_local_scalars<'b, C, P>()
    ensures
        decodes_locally::<'b, C, bool>(),
        decodes_locally::<'b, C, u8>(),
        decodes_locally::<'b, C, u16>(),
        decodes_locally::<'b, C, u32>(),
        decodes_locally::<'b, C, u64>(),
        decodes_locally::<'b, C, usize>(),
        decodes_locally::<'b, C, i8>(),
        decodes_locally::<'b, C, i16>(),
        decodes_locally::<'b, C, i32>(),
        decodes_locally::<'b, C, i64>(),
        decodes_locally::<'b, C, isize>(),
        decodes_locally::<'b, C, char>(),
        decodes_locally::<'b, C, Int>(),
        decodes_locally::<'b, C, Tag>(),
        decodes_locally::<'b, C, ()>(),
        decodes_locally::<'b, C, core::marker::PhantomData<P>>(),
{
    assert forall|input: Seq<u8>, t: Seq<u8>, pos: int, v: bool, end: int|
        <bool as Decode<'b, C>>::decodes(input, pos, Ok(v), end) implies #[trigger] <bool as Decode<'b, C>>::decodes(input + t, pos, Ok(v), end) by {
        lemma_reads_local(input, t, pos);
    }
    assert forall|input: Seq<u8>, t: Seq<u8>, pos: int, v: u8, end: int|
        <u8 as Decode<'b, C>>::decodes(input, pos, Ok(v), end) implies #[trigger] <u8 as Decode<'b, C>>::decodes(input + t, pos, Ok(v), end) by {
        lemma_reads_local(input, t, pos);
    }
    assert forall|input: Seq<u8>, t: Seq<u8>, pos: int, v: u16, end: int|
        <u16 as Decode<'b, C>>::decodes(input, pos, Ok(v), end) implies #[trigger] <u16 as Decode<'b, C>>::decodes(input + t, pos, Ok(v), end) by {
        lemma_reads_local(input, t, pos);
    }
    assert forall|input: Seq<u8>, t: Seq<u8>, pos: int, v: u32, end: int|
        <u32 as Decode<'b, C>>::decodes(input, pos, Ok(v), end) implies #[trigger] <u32 as Decode<'b, C>>::decodes(input + t, pos, Ok(v), end) by {
        lemma_reads_local(input, t, pos);
    }
    assert forall|input: Seq<u8>, t: Seq<u8>, pos: int, v: u64, end: int|
        <u64 as Decode<'b, C>>::decodes(input, pos, Ok(v), end) implies #[trigger] <u64 as Decode<'b, C>>::decodes(input + t, pos, Ok(v), end) by {
        lemma_reads_local(input, t, pos);
    }
    assert forall|input: Seq<u8>, t: Seq<u8>, pos: int, v: usize, end: int|
        <usize as Decode<'b, C>>::decodes(input, pos, Ok(v), end) implies #[trigger] <usize as Decode<'b, C>>::decodes(input + t, pos, Ok(v), end) by {
        lemma_reads_local(input, t, pos);
    }
    assert forall|input: Seq<u8>, t: Seq<u8>, pos: int, v: i8, end: int|
        <i8 as Decode<'b, C>>::decodes(input, pos, Ok(v), end) implies #[trigger] <i8 as Decode<'b, C>>::decodes(input + t, pos, Ok(v), end) by {
        lemma_reads_local(input, t, pos);
    }
    assert forall|input: Seq<u8>, t: Seq<u8>, pos: int, v: i16, end: int|
        <i16 as Decode<'b, C>>::decodes(input, pos, Ok(v), end) implies #[trigger] <i16 as Decode<'b, C>>::decodes(input + t, pos, Ok(v), end) by {
        lemma_reads_local(input, t, pos);
    }
    assert forall|input: Seq<u8>, t: Seq<u8>, pos: int, v: i32, end: int|
        <i32 as Decode<'b, C>>::decodes(input, pos, Ok(v), end) implies #[trigger] <i32 as Decode<'b, C>>::decodes(input + t, pos, Ok(v), end) by {
        lemma_reads_local(input, t, pos);
    }
    assert forall|input: Seq<u8>, t: Seq<u8>, pos: int, v: i64, end: int|
        <i64 as Decode<'b, C>>::decodes(input, pos, Ok(v), end) implies #[trigger] <i64 as Decode<'b, C>>::decodes(input + t, pos, Ok(v), end) by {
        lemma_reads_local(input, t, pos);
    }
    assert forall|input: Seq<u8>, t: Seq<u8>, pos: int, v: isize, end: int|
        <isize as Decode<'b, C>>::decodes(input, pos, Ok(v), end) implies #[trigger] <isize as Decode<'b, C>>::decodes(input + t, pos, Ok(v), end) by {
        lemma_reads_local(input, t, pos);
    }
    assert forall|input: Seq<u8>, t: Seq<u8>, pos: int, v: char, end: int|
        <char as Decode<'b, C>>::decodes(input, pos, Ok(v), end) implies #[trigger] <char as Decode<'b, C>>::decodes(input + t, pos, Ok(v), end) by {
        lemma_reads_local(input, t, pos);
    }
    assert forall|input: Seq<u8>, t: Seq<u8>, pos: int, v: Int, end: int|
        <Int as Decode<'b, C>>::decodes(input, pos, Ok(v), end) implies #[trigger] <Int as Decode<'b, C>>::decodes(input + t, pos, Ok(v), end) by {
        lemma_reads_local(input, t, pos);
    }
    assert forall|input: Seq<u8>, t: Seq<u8>, pos: int, v: Tag, end: int|
        <Tag as Decode<'b, C>>::decodes(input, pos, Ok(v), end) implies #[trigger] <Tag as Decode<'b, C>>::decodes(input + t, pos, Ok(v), end) by {
        lemma_reads_local(input, t, pos);
    }
    assert forall|input: Seq<u8>, t: Seq<u8>, pos: int, v: (), end: int|
        <() as Decode<'b, C>>::decodes(input, pos, Ok(v), end) implies #[trigger] <() as Decode<'b, C>>::decodes(input + t, pos, Ok(v), end) by {
        lemma_reads_local(input, t, pos);
    }
    assert forall|input: Seq<u8>, t: Seq<u8>, pos: int, v: core::marker::PhantomData<P>, end: int|
        <core::marker::PhantomData<P> as Decode<'b, C>>::decodes(input, pos, Ok(v), end) implies #[trigger] <core::marker::PhantomData<P> as Decode<'b, C>>::decodes(input + t, pos, Ok(v), end) by {
        lemma_reads_local(input, t, pos);
    }
}

/// Text strings read only the bytes of their item.
pub proof fn lemma_local_text<'b, C>()
    ensures
        decodes_locally::<'b, C, String>(),
        decodes_locally::<'b, C, &'b str>(),
        decodes_locally::<'b, C, std::borrow::Cow<'b, str>>(),
        decodes_locally::<'b, C, Box<str>>(),
{
    assert forall|input: Seq<u8>, t: Seq<u8>, pos: int, v: Box<str>, end: int|
        <Box<str> as Decode<'b, C>>::decodes(input, pos, Ok(v), end) implies #[trigger] <Box<str> as Decode<'b, C>>::decodes(input + t, pos, Ok(v), end) by {
        lemma_reads_local(input, t, pos);
    }
    assert forall|input: Seq<u8>, t: Seq<u8>, pos: int, v: std::borrow::Cow<'b, str>, end: int|
        <std::borrow::Cow<'b, str> as Decode<'b, C>>::decodes(input, pos, Ok(v), end) implies #[trigger] <std::borrow::Cow<'b, str> as Decode<'b, C>>::decodes(input + t, pos, Ok(v), end) by {
        lemma_reads_local(input, t, pos);
    }
    assert forall|input: Seq<u8>, t: Seq<u8>, pos: int, v: String, end: int|
        <String as Decode<'b, C>>::decodes(input, pos, Ok(v), end) implies #[trigger] <String as Decode<'b, C>>::decodes(input + t, pos, Ok(v), end) by {
        lemma_reads_local(input, t, pos);
    }
    assert forall|input: Seq<u8>, t: Seq<u8>, pos: int, v: &'b str, end: int|
        <&'b str as Decode<'b, C>>::decodes(input, pos, Ok(v), end) implies #[trigger] <&'b str as Decode<'b, C>>::decodes(input + t, pos, Ok(v), end) by {
        lemma_reads_local(input, t, pos);
    }
}

/// `Box<T>`, `Option<T>`, `Result<T, E>` and `Tagged<N, T>` read only the
/// bytes of their item where their parts do.
pub proof fn lemma_local_wrappers<'b, C, const N: u64, T: Decode<'b, C>, E: Decode<'b, C>>()
    requires
        decodes_locally::<'b, C, T>(),
        decodes_locally::<'b, C, E>(),
    ensures
        decodes_locally::<'b, C, Box<T>>(),
        decodes_locally::<'b, C, Option<T>>(),
        decodes_locally::<'b, C, Result<T, E>>(),
        decodes_locally::<'b, C, Tagged<N, T>>(),
{
    assert forall|input: Seq<u8>, t: Seq<u8>, pos: int, v: Box<T>, end: int|
        <Box<T> as Decode<'b, C>>::decodes(input, pos, Ok(v), end) implies #[trigger] <Box<T> as Decode<'b, C>>::decodes(input + t, pos, Ok(v), end) by {
        assert(T::decodes(input + t, pos, Ok(*v), end));
    }
    assert forall|input: Seq<u8>, t: Seq<u8>, pos: int, v: Option<T>, end: int|
        <Option<T> as Decode<'b, C>>::decodes(input, pos, Ok(v), end) implies #[trigger] <Option<T> as Decode<'b, C>>::decodes(input + t, pos, Ok(v), end) by {
        lemma_reads_local(input, t, pos);
        if let Some(x) = v {
            if crate::decode::reads::datatype_at(input, pos) != Ok::<crate::data::Type, crate::decode::error::ErrorView>(crate::data::Type::Null) {
                assert(T::decodes(input + t, pos, Ok(x), end));
            }
        }
    }
    assert forall|input: Seq<u8>, t: Seq<u8>, pos: int, v: Result<T, E>, end: int|
        <Result<T, E> as Decode<'b, C>>::decodes(input, pos, Ok(v), end) implies #[trigger] <Result<T, E> as Decode<'b, C>>::decodes(input + t, pos, Ok(v), end) by {
        lemma_reads_local(input, t, pos);
        let e1 = crate::decode::reads::read_array(input, pos).1;
        lemma_reads_local(input, t, e1);
        let e2 = crate::decode::reads::read_u32(input, e1).1;
        match v {
            Ok(x) => assert(T::decodes(input + t, e2, Ok(x), end)),
            Err(x) => assert(E::decodes(input + t, e2, Ok(x), end)),
        }
    }
    assert forall|input: Seq<u8>, t: Seq<u8>, pos: int, v: Tagged<N, T>, end: int|
        <Tagged<N, T> as Decode<'b, C>>::decodes(input, pos, Ok(v), end) implies #[trigger] <Tagged<N, T> as Decode<'b, C>>::decodes(input + t, pos, Ok(v), end) by {
        lemma_reads_local(input, t, pos);
        let e1 = crate::decode::reads::read_tag(input, pos).1;
        assert(T::decodes(input + t, e1, Ok(v.inner()), end));
    }
}

/// Pairs and triples read only the bytes of their item where their items do.
pub proof fn lemma_local_tuples<'b, C, A: Decode<'b, C>, B: Decode<'b, C>, D: Decode<'b, C>>()
    requires
        decodes_locally::<'b, C, A>(),
        decodes_locally::<'b, C, B>(),
        decodes_locally::<'b, C, D>(),
    ensures
        decodes_locally::<'b, C, (A, B)>(),
        decodes_locally::<'b, C, (A, B, D)>(),
{
    assert forall|input: Seq<u8>, t: Seq<u8>, pos: int, v: (A, B), end: int|
        <(A, B) as Decode<'b, C>>::decodes(input, pos, Ok(v), end) implies #[trigger] <(A, B) as Decode<'b, C>>::decodes(input + t, pos, Ok(v), end) by {
        lemma_reads_local(input, t, pos);
        let h = crate::decode::reads::read_array(input, pos).1;
        let e = choose|e: int| #[trigger] A::decodes(input, h, Ok(v.0), e) && B::decodes(input, e, Ok(v.1), end);
        assert(A::decodes(input + t, h, Ok(v.0), e) && B::decodes(input + t, e, Ok(v.1), end));
        assert(decodes_entry::<'b, C, A, B>(input + t, h, Ok(v), end));
    }
    assert forall|input: Seq<u8>, t: Seq<u8>, pos: int, v: (A, B, D), end: int|
        <(A, B, D) as Decode<'b, C>>::decodes(input, pos, Ok(v), end) implies #[trigger] <(A, B, D) as Decode<'b, C>>::decodes(input + t, pos, Ok(v), end) by {
        lemma_reads_local(input, t, pos);
        let h = crate::decode::reads::read_array(input, pos).1;
        let (e2, e3) = choose|e2: int, e3: int| #[trigger] A::decodes(input, h, Ok(v.0), e2) && #[trigger] B::decodes(input, e2, Ok(v.1), e3) && D::decodes(input, e3, Ok(v.2), end);
        assert(A::decodes(input + t, h, Ok(v.0), e2) && B::decodes(input + t, e2, Ok(v.1), e3) && D::decodes(input + t, e3, Ok(v.2), end));
        crate::decode::lemma_triple_ok::<'b, C, A, B, D>(input + t, pos, e2, e3, end, v.0, v.1, v.2);
        assert(v == (v.0, v.1, v.2));
    }
}

/// Items that were read from an input are read the same with bytes after it.
pub(crate) proof fn lemma_reads_items_local<'b, C, T: Decode<'b, C>>(input: Seq<u8>, t: Seq<u8>, pos: int, len: Option<u64>, items: Seq<T>, ends: Seq<int>)
    requires
        decodes_locally::<'b, C, T>(),
        reads_items::<'b, C, T>(input, pos, len, items, ends),
    ensures
        reads_items::<'b, C, T>(input + t, pos, len, items, ends),
    decreases items.len(),
{
    if items.len() > 0 {
        lemma_reads_items_local::<'b, C, T>(input, t, pos, len, items.drop_last(), ends.drop_last());
        let m = stop(pos, ends.drop_last());
        assert(T::decodes(input + t, m, Ok(items.last()), ends.last()));
        if 0 <= m < input.len() {
            assert((input + t)[m] == input[m]);
        }
    }
}

/// Vectors and arrays read only the bytes of their item where their items do.
pub proof fn lemma_local_sequences<'b, C, T: Decode<'b, C>, const N: usize>()
    requires
        decodes_locally::<'b, C, T>(),
    ensures
        decodes_locally::<'b, C, Vec<T>>(),
        decodes_locally::<'b, C, [T; N]>(),
{
    assert forall|input: Seq<u8>, t: Seq<u8>, pos: int, v: Vec<T>, end: int|
        <Vec<T> as Decode<'b, C>>::decodes(input, pos, Ok(v), end) implies #[trigger] <Vec<T> as Decode<'b, C>>::decodes(input + t, pos, Ok(v), end) by {
        lemma_reads_local(input, t, pos);
        let head = crate::decode::reads::read_array(input, pos);
        let len = head.0->Ok_0;
        let ends = choose|ends: Seq<int>| #[trigger] reads_items::<'b, C, T>(input, head.1, len, v@, ends)
            && items_end(input, stop(head.1, ends), after_len(len, v@.len() as int), end);
        lemma_reads_items_local::<'b, C, T>(input, t, head.1, len, v@, ends);
        let q = stop(head.1, ends);
        if 0 <= q < input.len() {
            assert((input + t)[q] == input[q]);
        }
        crate::decode::items::lemma_items_ok::<'b, C, T>(input + t, pos, len, v@, ends, end);
    }
    assert forall|input: Seq<u8>, t: Seq<u8>, pos: int, v: [T; N], end: int|
        <[T; N] as Decode<'b, C>>::decodes(input, pos, Ok(v), end) implies #[trigger] <[T; N] as Decode<'b, C>>::decodes(input + t, pos, Ok(v), end) by {
        lemma_reads_local(input, t, pos);
        let head = crate::decode::reads::read_array(input, pos);
        let len = head.0->Ok_0;
        let ends = choose|ends: Seq<int>| #[trigger] reads_items::<'b, C, T>(input, head.1, len, v@, ends)
            && items_end(input, stop(head.1, ends), after_len(len, N as int), end);
        lemma_reads_items_local::<'b, C, T>(input, t, head.1, len, v@, ends);
        let q = stop(head.1, ends);
        if 0 <= q < input.len() {
            assert((input + t)[q] == input[q]);
        }
        crate::decode::items::lemma_exactly_ok::<'b, C, T>(input + t, pos, N as int, len, v@, ends, end);
    }
}

} // verus!
