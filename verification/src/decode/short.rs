//! Decoding an input that was cut short: an item that does not fit in
//! what is left fails for want of input, and one that fits decodes as before.
use vstd::prelude::*;
use crate::data::{Int, Tag, Tagged};
use crate::decode::{Decode, decodes_entry, decodes_triple};
use crate::decode::unique::{decodes_uniquely, lemma_reads_at, lemma_reads_prefix, lemma_unique_items};
use crate::decode::local::{decodes_locally, lemma_reads_items_local};
use crate::decode::items::{reads_items, items_end, item_fails, after_len, stop, decodes_items, lemma_items_ok};
use crate::decode::error::{ErrorView, end_of_input};
use crate::decode::reads::{argument, arg_size, read_uint, read_sint, read_bool, read_len, read_chunk, read_bytes, read_str_item, datatype_at, read_byte, read_u8, read_u16, read_u32, read_u64, read_usize, read_i8, read_i16, read_i32, read_i64, read_isize, read_int, read_char, read_tag, read_array, lemma_read_uint_progress, lemma_read_sint_progress, lemma_read_len_progress, lemma_read_chunk_progress};

verus! {

/// Whether a result is the failure for want of input.
pub open spec fn is_short<T>(r: Result<T, ErrorView>) -> bool {
    r == Err::<T, ErrorView>(end_of_input())
}

/// An argument read from `q` on: cut at or after its end, the input gives it
/// the same; cut within it, the read fails for want of input.
pub proof fn lemma_argument_cut(s: Seq<u8>, k: int, q: int, info: u8)
    requires
        0 <= k <= s.len(),
        info <= 0x1b,
        argument(s, q, info).0 is Ok,
    ensures
        argument(s, q, info).1 <= k ==> argument(s.take(k), q, info) == argument(s, q, info),
        q <= k < argument(s, q, info).1 ==> argument(s.take(k), q, info).0 == Err::<u64, ErrorView>(end_of_input()),
{
    if info > 0x17 && argument(s, q, info).1 <= k {
        assert(forall|i: int| q <= i < k ==> s.take(k)[i] == s[i]);
        if info == 0x1b {
            assert(s.take(k).subrange(q, q + 8) =~= s.subrange(q, q + 8));
        }
    }
}

/// An unsigned integer read at `p`, with the input cut at `k`.
pub proof fn lemma_uint_cut(s: Seq<u8>, k: int, p: int, max: u64, expect: Seq<char>, m16: Seq<char>, m32: Seq<char>, m64: Seq<char>)
    requires
        0 <= k <= s.len(),
        read_uint(s, p, max, expect, m16, m32, m64).0 is Ok,
    ensures
        read_uint(s, p, max, expect, m16, m32, m64).1 <= k ==> read_uint(s.take(k), p, max, expect, m16, m32, m64) == read_uint(s, p, max, expect, m16, m32, m64),
        k < read_uint(s, p, max, expect, m16, m32, m64).1 ==> read_uint(s.take(k), p, max, expect, m16, m32, m64).0 == Err::<u64, ErrorView>(end_of_input()),
{
    lemma_read_uint_progress(s, p);
    if p < k {
        assert(s.take(k)[p] == s[p]);
        lemma_argument_cut(s, k, p + 1, s[p]);
    }
}

/// A signed integer read at `p`, with the input cut at `k`.
pub proof fn lemma_sint_cut(s: Seq<u8>, k: int, p: int, max: u64, expect: Seq<char>, m8: Seq<char>, m16: Seq<char>, m32: Seq<char>, m64: Seq<char>)
    requires
        0 <= k <= s.len(),
        read_sint(s, p, max, expect, m8, m16, m32, m64).0 is Ok,
    ensures
        read_sint(s, p, max, expect, m8, m16, m32, m64).1 <= k ==> read_sint(s.take(k), p, max, expect, m8, m16, m32, m64) == read_sint(s, p, max, expect, m8, m16, m32, m64),
        k < read_sint(s, p, max, expect, m8, m16, m32, m64).1 ==> read_sint(s.take(k), p, max, expect, m8, m16, m32, m64).0 == Err::<(bool, u64), ErrorView>(end_of_input()),
{
    lemma_read_sint_progress(s, p);
    if p < k {
        assert(s.take(k)[p] == s[p]);
        let info = if s[p] >= 0x20 { (s[p] - 0x20) as u8 } else { s[p] };
        lemma_argument_cut(s, k, p + 1, info);
    }
}

/// The head of an array, a map or a tag read at `p`, with the input cut at `k`.
pub proof fn lemma_len_cut(s: Seq<u8>, k: int, p: int, lo: u8, indef: Option<u8>, expect: Seq<char>)
    requires
        0 <= k <= s.len(),
        lo as int + 0x1b <= 0xff,
        read_len(s, p, lo, indef, expect).0 is Ok,
    ensures
        read_len(s, p, lo, indef, expect).1 <= k ==> read_len(s.take(k), p, lo, indef, expect) == read_len(s, p, lo, indef, expect),
        k < read_len(s, p, lo, indef, expect).1 ==> read_len(s.take(k), p, lo, indef, expect).0 == Err::<Option<u64>, ErrorView>(end_of_input()),
{
    lemma_read_len_progress(s, p);
    if p < k {
        assert(s.take(k)[p] == s[p]);
        if indef != Some(s[p]) {
            lemma_argument_cut(s, k, p + 1, (s[p] - lo) as u8);
        }
    }
}

/// A string of definite length read at `p`, with the input cut at `k`.
pub proof fn lemma_chunk_cut(s: Seq<u8>, k: int, p: int, lo: u8, expect: Seq<char>)
    requires
        0 <= k <= s.len(),
        lo as int + 0x1b <= 0xff,
        read_chunk(s, p, lo, expect).0 is Ok,
    ensures
        read_chunk(s, p, lo, expect).1 <= k ==> read_chunk(s.take(k), p, lo, expect) == read_chunk(s, p, lo, expect),
        k < read_chunk(s, p, lo, expect).1 ==> read_chunk(s.take(k), p, lo, expect).0 == Err::<Seq<u8>, ErrorView>(end_of_input()),
{
    lemma_read_chunk_progress(s, p);
    if p < k {
        assert(s.take(k)[p] == s[p]);
        let info = (s[p] - lo) as u8;
        lemma_argument_cut(s, k, p + 1, info);
        let e = argument(s, p + 1, info).1;
        let n = argument(s, p + 1, info).0->Ok_0;
        if e + n <= k {
            assert(s.take(k).subrange(e, e + n) =~= s.subrange(e, e + n));
        }
    }
}

/// Every item of a fixed kind read at `p`, with the input cut at `k`: where
/// the item ends by `k` it reads the same, and where it does not, the read
/// fails for want of input.
pub proof fn lemma_reads_cut(s: Seq<u8>, k: int, p: int)
    requires
        0 <= k <= s.len(),
    ensures
        read_u8(s, p).0 is Ok && read_u8(s, p).1 <= k ==> read_u8(s.take(k), p) == read_u8(s, p),
        read_u8(s, p).0 is Ok && k < read_u8(s, p).1 ==> is_short(read_u8(s.take(k), p).0),
        read_u16(s, p).0 is Ok && read_u16(s, p).1 <= k ==> read_u16(s.take(k), p) == read_u16(s, p),
        read_u16(s, p).0 is Ok && k < read_u16(s, p).1 ==> is_short(read_u16(s.take(k), p).0),
        read_u32(s, p).0 is Ok && read_u32(s, p).1 <= k ==> read_u32(s.take(k), p) == read_u32(s, p),
        read_u32(s, p).0 is Ok && k < read_u32(s, p).1 ==> is_short(read_u32(s.take(k), p).0),
        read_u64(s, p).0 is Ok && read_u64(s, p).1 <= k ==> read_u64(s.take(k), p) == read_u64(s, p),
        read_u64(s, p).0 is Ok && k < read_u64(s, p).1 ==> is_short(read_u64(s.take(k), p).0),
        read_usize(s, p).0 is Ok && read_usize(s, p).1 <= k ==> read_usize(s.take(k), p) == read_usize(s, p),
        read_usize(s, p).0 is Ok && k < read_usize(s, p).1 ==> is_short(read_usize(s.take(k), p).0),
        read_i8(s, p).0 is Ok && read_i8(s, p).1 <= k ==> read_i8(s.take(k), p) == read_i8(s, p),
        read_i8(s, p).0 is Ok && k < read_i8(s, p).1 ==> is_short(read_i8(s.take(k), p).0),
        read_i16(s, p).0 is Ok && read_i16(s, p).1 <= k ==> read_i16(s.take(k), p) == read_i16(s, p),
        read_i16(s, p).0 is Ok && k < read_i16(s, p).1 ==> is_short(read_i16(s.take(k), p).0),
        read_i32(s, p).0 is Ok && read_i32(s, p).1 <= k ==> read_i32(s.take(k), p) == read_i32(s, p),
        read_i32(s, p).0 is Ok && k < read_i32(s, p).1 ==> is_short(read_i32(s.take(k), p).0),
        read_i64(s, p).0 is Ok && read_i64(s, p).1 <= k ==> read_i64(s.take(k), p) == read_i64(s, p),
        read_i64(s, p).0 is Ok && k < read_i64(s, p).1 ==> is_short(read_i64(s.take(k), p).0),
        read_isize(s, p).0 is Ok && read_isize(s, p).1 <= k ==> read_isize(s.take(k), p) == read_isize(s, p),
        read_isize(s, p).0 is Ok && k < read_isize(s, p).1 ==> is_short(read_isize(s.take(k), p).0),
        read_int(s, p).0 is Ok && read_int(s, p).1 <= k ==> read_int(s.take(k), p) == read_int(s, p),
        read_int(s, p).0 is Ok && k < read_int(s, p).1 ==> is_short(read_int(s.take(k), p).0),
        read_char(s, p).0 is Ok && read_char(s, p).1 <= k ==> read_char(s.take(k), p) == read_char(s, p),
        read_char(s, p).0 is Ok && k < read_char(s, p).1 ==> is_short(read_char(s.take(k), p).0),
        read_bool(s, p).0 is Ok && read_bool(s, p).1 <= k ==> read_bool(s.take(k), p) == read_bool(s, p),
        read_bool(s, p).0 is Ok && k < read_bool(s, p).1 ==> is_short(read_bool(s.take(k), p).0),
        read_tag(s, p).0 is Ok && read_tag(s, p).1 <= k ==> read_tag(s.take(k), p) == read_tag(s, p),
        read_tag(s, p).0 is Ok && k < read_tag(s, p).1 ==> is_short(read_tag(s.take(k), p).0),
        read_array(s, p).0 is Ok && read_array(s, p).1 <= k ==> read_array(s.take(k), p) == read_array(s, p),
        read_array(s, p).0 is Ok && k < read_array(s, p).1 ==> is_short(read_array(s.take(k), p).0),
        read_str_item(s, p).0 is Ok && read_str_item(s, p).1 <= k ==> read_str_item(s.take(k), p) == read_str_item(s, p),
        read_str_item(s, p).0 is Ok && k < read_str_item(s, p).1 ==> is_short(read_str_item(s.take(k), p).0),
        read_byte(s, p).0 is Ok && read_byte(s, p).1 <= k ==> read_byte(s.take(k), p) == read_byte(s, p),
        read_byte(s, p).0 is Ok && k < read_byte(s, p).1 ==> is_short(read_byte(s.take(k), p).0),
{
    if read_uint(s, p, 0xff, "expected u8"@, "when converting u16 to u8"@, "when converting u32 to u8"@, "when converting u64 to u8"@).0 is Ok {
        lemma_uint_cut(s, k, p, 0xff, "expected u8"@, "when converting u16 to u8"@, "when converting u32 to u8"@, "when converting u64 to u8"@);
    }
    if read_uint(s, p, 0xffff, "expected u16"@, "when converting u16 to u16"@, "when converting u32 to u16"@, "when converting u64 to u16"@).0 is Ok {
        lemma_uint_cut(s, k, p, 0xffff, "expected u16"@, "when converting u16 to u16"@, "when converting u32 to u16"@, "when converting u64 to u16"@);
    }
    if read_uint(s, p, 0xffff_ffff, "expected u32"@, "when converting u16 to u32"@, "when converting u32 to u32"@, "when converting u64 to u32"@).0 is Ok {
        lemma_uint_cut(s, k, p, 0xffff_ffff, "expected u32"@, "when converting u16 to u32"@, "when converting u32 to u32"@, "when converting u64 to u32"@);
    }
    if read_uint(s, p, 0xffff_ffff_ffff_ffff, "expected u64"@, "when converting u16 to u64"@, "when converting u32 to u64"@, "when converting u64 to u64"@).0 is Ok {
        lemma_uint_cut(s, k, p, 0xffff_ffff_ffff_ffff, "expected u64"@, "when converting u16 to u64"@, "when converting u32 to u64"@, "when converting u64 to u64"@);
    }
    if read_sint(s, p, 0x7f, "expected i8"@, "when converting u8 to i8"@, "when converting u16 to i8"@, "when converting u32 to i8"@, "when converting u64 to i8"@).0 is Ok {
        lemma_sint_cut(s, k, p, 0x7f, "expected i8"@, "when converting u8 to i8"@, "when converting u16 to i8"@, "when converting u32 to i8"@, "when converting u64 to i8"@);
    }
    if read_sint(s, p, 0x7fff, "expected i16"@, "when converting u8 to i16"@, "when converting u16 to i16"@, "when converting u32 to i16"@, "when converting u64 to i16"@).0 is Ok {
        lemma_sint_cut(s, k, p, 0x7fff, "expected i16"@, "when converting u8 to i16"@, "when converting u16 to i16"@, "when converting u32 to i16"@, "when converting u64 to i16"@);
    }
    if read_sint(s, p, 0x7fff_ffff, "expected i32"@, "when converting u8 to i32"@, "when converting u16 to i32"@, "when converting u32 to i32"@, "when converting u64 to i32"@).0 is Ok {
        lemma_sint_cut(s, k, p, 0x7fff_ffff, "expected i32"@, "when converting u8 to i32"@, "when converting u16 to i32"@, "when converting u32 to i32"@, "when converting u64 to i32"@);
    }
    if read_sint(s, p, 0x7fff_ffff_ffff_ffff, "expected i64"@, "when converting u8 to i64"@, "when converting u16 to i64"@, "when converting u32 to i64"@, "when converting u64 to i64"@).0 is Ok {
        lemma_sint_cut(s, k, p, 0x7fff_ffff_ffff_ffff, "expected i64"@, "when converting u8 to i64"@, "when converting u16 to i64"@, "when converting u32 to i64"@, "when converting u64 to i64"@);
    }
    if read_sint(s, p, 0xffff_ffff_ffff_ffff, "expected int"@, Seq::empty(), Seq::empty(), Seq::empty(), Seq::empty()).0 is Ok {
        lemma_sint_cut(s, k, p, 0xffff_ffff_ffff_ffff, "expected int"@, Seq::empty(), Seq::empty(), Seq::empty(), Seq::empty());
    }
    if read_bool(s, p).0 is Ok && p < k {
        assert(s.take(k)[p] == s[p]);
    }
    if read_len(s, p, 0xc0, None, "expected tag"@).0 is Ok {
        lemma_len_cut(s, k, p, 0xc0, None, "expected tag"@);
    }
    if read_len(s, p, 0x80, Some(0x9fu8), "expected array"@).0 is Ok {
        lemma_len_cut(s, k, p, 0x80, Some(0x9fu8), "expected array"@);
    }
    if read_chunk(s, p, 0x60, "expected text (definite length)"@).0 is Ok {
        lemma_chunk_cut(s, k, p, 0x60, "expected text (definite length)"@);
    }
    if read_byte(s, p).0 is Ok && p < k {
        assert(s.take(k)[p] == s[p]);
    }
}

/// Whether a `T` that decodes from an input decodes the same from the input
/// cut anywhere after the item.
pub open spec fn decodes_within<'b, C, T: Decode<'b, C>>() -> bool {
    forall|input: Seq<u8>, pos: int, v: T, end: int, k: int|
        T::decodes(input, pos, Ok(v), end) && end <= k <= input.len() ==> #[trigger] T::decodes(input.take(k), pos, Ok(v), end)
}

/// Whether decoding a `T` from an input cut before the end of an item that
/// decodes from the whole input fails for want of input.
pub open spec fn fails_short<'b, C, T: Decode<'b, C>>() -> bool {
    forall|input: Seq<u8>, pos: int, v: T, end: int, k: int, r: Result<T, ErrorView>, e: int|
        #![trigger T::decodes(input.take(k), pos, r, e), T::decodes(input, pos, Ok(v), end)]
        T::decodes(input, pos, Ok(v), end) && 0 <= k < end && k <= input.len() && T::decodes(input.take(k), pos, r, e) ==> is_short(r)
}

/// Numbers, `bool`, `char`, [`Int`], [`Tag`], `()`, `PhantomData` and texts
/// decode the same from an input cut after the item, and fail for want of
/// input from one cut within it.
pub proof fn lemma_short_scalars<'b, C, P>()
    ensures
        decodes_within::<'b, C, bool>(),
        fails_short::<'b, C, bool>(),
        decodes_within::<'b, C, u8>(),
        fails_short::<'b, C, u8>(),
        decodes_within::<'b, C, u16>(),
        fails_short::<'b, C, u16>(),
        decodes_within::<'b, C, u32>(),
        fails_short::<'b, C, u32>(),
        decodes_within::<'b, C, u64>(),
        fails_short::<'b, C, u64>(),
        decodes_within::<'b, C, usize>(),
        fails_short::<'b, C, usize>(),
        decodes_within::<'b, C, i8>(),
        fails_short::<'b, C, i8>(),
        decodes_within::<'b, C, i16>(),
        fails_short::<'b, C, i16>(),
        decodes_within::<'b, C, i32>(),
        fails_short::<'b, C, i32>(),
        decodes_within::<'b, C, i64>(),
        fails_short::<'b, C, i64>(),
        decodes_within::<'b, C, isize>(),
        fails_short::<'b, C, isize>(),
        decodes_within::<'b, C, char>(),
        fails_short::<'b, C, char>(),
        decodes_within::<'b, C, Int>(),
        fails_short::<'b, C, Int>(),
        decodes_within::<'b, C, Tag>(),
        fails_short::<'b, C, Tag>(),
        decodes_within::<'b, C, ()>(),
        fails_short::<'b, C, ()>(),
        decodes_within::<'b, C, core::marker::PhantomData<P>>(),
        fails_short::<'b, C, core::marker::PhantomData<P>>(),
        decodes_within::<'b, C, String>(),
        fails_short::<'b, C, String>(),
        decodes_within::<'b, C, &'b str>(),
        fails_short::<'b, C, &'b str>(),
        decodes_within::<'b, C, Box<str>>(),
        fails_short::<'b, C, Box<str>>(),
        decodes_within::<'b, C, std::borrow::Cow<'b, str>>(),
        fails_short::<'b, C, std::borrow::Cow<'b, str>>(),
{
    assert forall|input: Seq<u8>, pos: int, v: bool, end: int, k: int|
        <bool as Decode<'b, C>>::decodes(input, pos, Ok(v), end) && end <= k <= input.len()
        implies #[trigger] <bool as Decode<'b, C>>::decodes(input.take(k), pos, Ok(v), end) by {
        lemma_reads_cut(input, k, pos);
    }
    assert forall|input: Seq<u8>, pos: int, v: bool, end: int, k: int, r: Result<bool, ErrorView>, e: int|
        #![trigger <bool as Decode<'b, C>>::decodes(input.take(k), pos, r, e), <bool as Decode<'b, C>>::decodes(input, pos, Ok(v), end)]
        <bool as Decode<'b, C>>::decodes(input, pos, Ok(v), end) && 0 <= k < end && k <= input.len()
            && <bool as Decode<'b, C>>::decodes(input.take(k), pos, r, e)
        implies is_short(r) by {
        lemma_reads_cut(input, k, pos);
    }
    assert forall|input: Seq<u8>, pos: int, v: u8, end: int, k: int|
        <u8 as Decode<'b, C>>::decodes(input, pos, Ok(v), end) && end <= k <= input.len()
        implies #[trigger] <u8 as Decode<'b, C>>::decodes(input.take(k), pos, Ok(v), end) by {
        lemma_reads_cut(input, k, pos);
    }
    assert forall|input: Seq<u8>, pos: int, v: u8, end: int, k: int, r: Result<u8, ErrorView>, e: int|
        #![trigger <u8 as Decode<'b, C>>::decodes(input.take(k), pos, r, e), <u8 as Decode<'b, C>>::decodes(input, pos, Ok(v), end)]
        <u8 as Decode<'b, C>>::decodes(input, pos, Ok(v), end) && 0 <= k < end && k <= input.len()
            && <u8 as Decode<'b, C>>::decodes(input.take(k), pos, r, e)
        implies is_short(r) by {
        lemma_reads_cut(input, k, pos);
    }
    assert forall|input: Seq<u8>, pos: int, v: u16, end: int, k: int|
        <u16 as Decode<'b, C>>::decodes(input, pos, Ok(v), end) && end <= k <= input.len()
        implies #[trigger] <u16 as Decode<'b, C>>::decodes(input.take(k), pos, Ok(v), end) by {
        lemma_reads_cut(input, k, pos);
    }
    assert forall|input: Seq<u8>, pos: int, v: u16, end: int, k: int, r: Result<u16, ErrorView>, e: int|
        #![trigger <u16 as Decode<'b, C>>::decodes(input.take(k), pos, r, e), <u16 as Decode<'b, C>>::decodes(input, pos, Ok(v), end)]
        <u16 as Decode<'b, C>>::decodes(input, pos, Ok(v), end) && 0 <= k < end && k <= input.len()
            && <u16 as Decode<'b, C>>::decodes(input.take(k), pos, r, e)
        implies is_short(r) by {
        lemma_reads_cut(input, k, pos);
    }
    assert forall|input: Seq<u8>, pos: int, v: u32, end: int, k: int|
        <u32 as Decode<'b, C>>::decodes(input, pos, Ok(v), end) && end <= k <= input.len()
        implies #[trigger] <u32 as Decode<'b, C>>::decodes(input.take(k), pos, Ok(v), end) by {
        lemma_reads_cut(input, k, pos);
    }
    assert forall|input: Seq<u8>, pos: int, v: u32, end: int, k: int, r: Result<u32, ErrorView>, e: int|
        #![trigger <u32 as Decode<'b, C>>::decodes(input.take(k), pos, r, e), <u32 as Decode<'b, C>>::decodes(input, pos, Ok(v), end)]
        <u32 as Decode<'b, C>>::decodes(input, pos, Ok(v), end) && 0 <= k < end && k <= input.len()
            && <u32 as Decode<'b, C>>::decodes(input.take(k), pos, r, e)
        implies is_short(r) by {
        lemma_reads_cut(input, k, pos);
    }
    assert forall|input: Seq<u8>, pos: int, v: u64, end: int, k: int|
        <u64 as Decode<'b, C>>::decodes(input, pos, Ok(v), end) && end <= k <= input.len()
        implies #[trigger] <u64 as Decode<'b, C>>::decodes(input.take(k), pos, Ok(v), end) by {
        lemma_reads_cut(input, k, pos);
    }
    assert forall|input: Seq<u8>, pos: int, v: u64, end: int, k: int, r: Result<u64, ErrorView>, e: int|
        #![trigger <u64 as Decode<'b, C>>::decodes(input.take(k), pos, r, e), <u64 as Decode<'b, C>>::decodes(input, pos, Ok(v), end)]
        <u64 as Decode<'b, C>>::decodes(input, pos, Ok(v), end) && 0 <= k < end && k <= input.len()
            && <u64 as Decode<'b, C>>::decodes(input.take(k), pos, r, e)
        implies is_short(r) by {
        lemma_reads_cut(input, k, pos);
    }
    assert forall|input: Seq<u8>, pos: int, v: usize, end: int, k: int|
        <usize as Decode<'b, C>>::decodes(input, pos, Ok(v), end) && end <= k <= input.len()
        implies #[trigger] <usize as Decode<'b, C>>::decodes(input.take(k), pos, Ok(v), end) by {
        lemma_reads_cut(input, k, pos);
    }
    assert forall|input: Seq<u8>, pos: int, v: usize, end: int, k: int, r: Result<usize, ErrorView>, e: int|
        #![trigger <usize as Decode<'b, C>>::decodes(input.take(k), pos, r, e), <usize as Decode<'b, C>>::decodes(input, pos, Ok(v), end)]
        <usize as Decode<'b, C>>::decodes(input, pos, Ok(v), end) && 0 <= k < end && k <= input.len()
            && <usize as Decode<'b, C>>::decodes(input.take(k), pos, r, e)
        implies is_short(r) by {
        lemma_reads_cut(input, k, pos);
    }
    assert forall|input: Seq<u8>, pos: int, v: i8, end: int, k: int|
        <i8 as Decode<'b, C>>::decodes(input, pos, Ok(v), end) && end <= k <= input.len()
        implies #[trigger] <i8 as Decode<'b, C>>::decodes(input.take(k), pos, Ok(v), end) by {
        lemma_reads_cut(input, k, pos);
    }
    assert forall|input: Seq<u8>, pos: int, v: i8, end: int, k: int, r: Result<i8, ErrorView>, e: int|
        #![trigger <i8 as Decode<'b, C>>::decodes(input.take(k), pos, r, e), <i8 as Decode<'b, C>>::decodes(input, pos, Ok(v), end)]
        <i8 as Decode<'b, C>>::decodes(input, pos, Ok(v), end) && 0 <= k < end && k <= input.len()
            && <i8 as Decode<'b, C>>::decodes(input.take(k), pos, r, e)
        implies is_short(r) by {
        lemma_reads_cut(input, k, pos);
    }
    assert forall|input: Seq<u8>, pos: int, v: i16, end: int, k: int|
        <i16 as Decode<'b, C>>::decodes(input, pos, Ok(v), end) && end <= k <= input.len()
        implies #[trigger] <i16 as Decode<'b, C>>::decodes(input.take(k), pos, Ok(v), end) by {
        lemma_reads_cut(input, k, pos);
    }
    assert forall|input: Seq<u8>, pos: int, v: i16, end: int, k: int, r: Result<i16, ErrorView>, e: int|
        #![trigger <i16 as Decode<'b, C>>::decodes(input.take(k), pos, r, e), <i16 as Decode<'b, C>>::decodes(input, pos, Ok(v), end)]
        <i16 as Decode<'b, C>>::decodes(input, pos, Ok(v), end) && 0 <= k < end && k <= input.len()
            && <i16 as Decode<'b, C>>::decodes(input.take(k), pos, r, e)
        implies is_short(r) by {
        lemma_reads_cut(input, k, pos);
    }
    assert forall|input: Seq<u8>, pos: int, v: i32, end: int, k: int|
        <i32 as Decode<'b, C>>::decodes(input, pos, Ok(v), end) && end <= k <= input.len()
        implies #[trigger] <i32 as Decode<'b, C>>::decodes(input.take(k), pos, Ok(v), end) by {
        lemma_reads_cut(input, k, pos);
    }
    assert forall|input: Seq<u8>, pos: int, v: i32, end: int, k: int, r: Result<i32, ErrorView>, e: int|
        #![trigger <i32 as Decode<'b, C>>::decodes(input.take(k), pos, r, e), <i32 as Decode<'b, C>>::decodes(input, pos, Ok(v), end)]
        <i32 as Decode<'b, C>>::decodes(input, pos, Ok(v), end) && 0 <= k < end && k <= input.len()
            && <i32 as Decode<'b, C>>::decodes(input.take(k), pos, r, e)
        implies is_short(r) by {
        lemma_reads_cut(input, k, pos);
    }
    assert forall|input: Seq<u8>, pos: int, v: i64, end: int, k: int|
        <i64 as Decode<'b, C>>::decodes(input, pos, Ok(v), end) && end <= k <= input.len()
        implies #[trigger] <i64 as Decode<'b, C>>::decodes(input.take(k), pos, Ok(v), end) by {
        lemma_reads_cut(input, k, pos);
    }
    assert forall|input: Seq<u8>, pos: int, v: i64, end: int, k: int, r: Result<i64, ErrorView>, e: int|
        #![trigger <i64 as Decode<'b, C>>::decodes(input.take(k), pos, r, e), <i64 as Decode<'b, C>>::decodes(input, pos, Ok(v), end)]
        <i64 as Decode<'b, C>>::decodes(input, pos, Ok(v), end) && 0 <= k < end && k <= input.len()
            && <i64 as Decode<'b, C>>::decodes(input.take(k), pos, r, e)
        implies is_short(r) by {
        lemma_reads_cut(input, k, pos);
    }
    assert forall|input: Seq<u8>, pos: int, v: isize, end: int, k: int|
        <isize as Decode<'b, C>>::decodes(input, pos, Ok(v), end) && end <= k <= input.len()
        implies #[trigger] <isize as Decode<'b, C>>::decodes(input.take(k), pos, Ok(v), end) by {
        lemma_reads_cut(input, k, pos);
    }
    assert forall|input: Seq<u8>, pos: int, v: isize, end: int, k: int, r: Result<isize, ErrorView>, e: int|
        #![trigger <isize as Decode<'b, C>>::decodes(input.take(k), pos, r, e), <isize as Decode<'b, C>>::decodes(input, pos, Ok(v), end)]
        <isize as Decode<'b, C>>::decodes(input, pos, Ok(v), end) && 0 <= k < end && k <= input.len()
            && <isize as Decode<'b, C>>::decodes(input.take(k), pos, r, e)
        implies is_short(r) by {
        lemma_reads_cut(input, k, pos);
    }
    assert forall|input: Seq<u8>, pos: int, v: char, end: int, k: int|
        <char as Decode<'b, C>>::decodes(input, pos, Ok(v), end) && end <= k <= input.len()
        implies #[trigger] <char as Decode<'b, C>>::decodes(input.take(k), pos, Ok(v), end) by {
        lemma_reads_cut(input, k, pos);
    }
    assert forall|input: Seq<u8>, pos: int, v: char, end: int, k: int, r: Result<char, ErrorView>, e: int|
        #![trigger <char as Decode<'b, C>>::decodes(input.take(k), pos, r, e), <char as Decode<'b, C>>::decodes(input, pos, Ok(v), end)]
        <char as Decode<'b, C>>::decodes(input, pos, Ok(v), end) && 0 <= k < end && k <= input.len()
            && <char as Decode<'b, C>>::decodes(input.take(k), pos, r, e)
        implies is_short(r) by {
        lemma_reads_cut(input, k, pos);
    }
    assert forall|input: Seq<u8>, pos: int, v: Int, end: int, k: int|
        <Int as Decode<'b, C>>::decodes(input, pos, Ok(v), end) && end <= k <= input.len()
        implies #[trigger] <Int as Decode<'b, C>>::decodes(input.take(k), pos, Ok(v), end) by {
        lemma_reads_cut(input, k, pos);
    }
    assert forall|input: Seq<u8>, pos: int, v: Int, end: int, k: int, r: Result<Int, ErrorView>, e: int|
        #![trigger <Int as Decode<'b, C>>::decodes(input.take(k), pos, r, e), <Int as Decode<'b, C>>::decodes(input, pos, Ok(v), end)]
        <Int as Decode<'b, C>>::decodes(input, pos, Ok(v), end) && 0 <= k < end && k <= input.len()
            && <Int as Decode<'b, C>>::decodes(input.take(k), pos, r, e)
        implies is_short(r) by {
        lemma_reads_cut(input, k, pos);
    }
    assert forall|input: Seq<u8>, pos: int, v: Tag, end: int, k: int|
        <Tag as Decode<'b, C>>::decodes(input, pos, Ok(v), end) && end <= k <= input.len()
        implies #[trigger] <Tag as Decode<'b, C>>::decodes(input.take(k), pos, Ok(v), end) by {
        lemma_reads_cut(input, k, pos);
    }
    assert forall|input: Seq<u8>, pos: int, v: Tag, end: int, k: int, r: Result<Tag, ErrorView>, e: int|
        #![trigger <Tag as Decode<'b, C>>::decodes(input.take(k), pos, r, e), <Tag as Decode<'b, C>>::decodes(input, pos, Ok(v), end)]
        <Tag as Decode<'b, C>>::decodes(input, pos, Ok(v), end) && 0 <= k < end && k <= input.len()
            && <Tag as Decode<'b, C>>::decodes(input.take(k), pos, r, e)
        implies is_short(r) by {
        lemma_reads_cut(input, k, pos);
    }
    assert forall|input: Seq<u8>, pos: int, v: (), end: int, k: int|
        <() as Decode<'b, C>>::decodes(input, pos, Ok(v), end) && end <= k <= input.len()
        implies #[trigger] <() as Decode<'b, C>>::decodes(input.take(k), pos, Ok(v), end) by {
        lemma_reads_cut(input, k, pos);
    }
    assert forall|input: Seq<u8>, pos: int, v: (), end: int, k: int, r: Result<(), ErrorView>, e: int|
        #![trigger <() as Decode<'b, C>>::decodes(input.take(k), pos, r, e), <() as Decode<'b, C>>::decodes(input, pos, Ok(v), end)]
        <() as Decode<'b, C>>::decodes(input, pos, Ok(v), end) && 0 <= k < end && k <= input.len()
            && <() as Decode<'b, C>>::decodes(input.take(k), pos, r, e)
        implies is_short(r) by {
        lemma_reads_cut(input, k, pos);
    }
    assert forall|input: Seq<u8>, pos: int, v: core::marker::PhantomData<P>, end: int, k: int|
        <core::marker::PhantomData<P> as Decode<'b, C>>::decodes(input, pos, Ok(v), end) && end <= k <= input.len()
        implies #[trigger] <core::marker::PhantomData<P> as Decode<'b, C>>::decodes(input.take(k), pos, Ok(v), end) by {
        lemma_reads_cut(input, k, pos);
    }
    assert forall|input: Seq<u8>, pos: int, v: core::marker::PhantomData<P>, end: int, k: int, r: Result<core::marker::PhantomData<P>, ErrorView>, e: int|
        #![trigger <core::marker::PhantomData<P> as Decode<'b, C>>::decodes(input.take(k), pos, r, e), <core::marker::PhantomData<P> as Decode<'b, C>>::decodes(input, pos, Ok(v), end)]
        <core::marker::PhantomData<P> as Decode<'b, C>>::decodes(input, pos, Ok(v), end) && 0 <= k < end && k <= input.len()
            && <core::marker::PhantomData<P> as Decode<'b, C>>::decodes(input.take(k), pos, r, e)
        implies is_short(r) by {
        lemma_reads_cut(input, k, pos);
    }
    assert forall|input: Seq<u8>, pos: int, v: String, end: int, k: int|
        <String as Decode<'b, C>>::decodes(input, pos, Ok(v), end) && end <= k <= input.len()
        implies #[trigger] <String as Decode<'b, C>>::decodes(input.take(k), pos, Ok(v), end) by {
        lemma_reads_cut(input, k, pos);
    }
    assert forall|input: Seq<u8>, pos: int, v: String, end: int, k: int, r: Result<String, ErrorView>, e: int|
        #![trigger <String as Decode<'b, C>>::decodes(input.take(k), pos, r, e), <String as Decode<'b, C>>::decodes(input, pos, Ok(v), end)]
        <String as Decode<'b, C>>::decodes(input, pos, Ok(v), end) && 0 <= k < end && k <= input.len()
            && <String as Decode<'b, C>>::decodes(input.take(k), pos, r, e)
        implies is_short(r) by {
        lemma_reads_cut(input, k, pos);
    }
    assert forall|input: Seq<u8>, pos: int, v: &'b str, end: int, k: int|
        <&'b str as Decode<'b, C>>::decodes(input, pos, Ok(v), end) && end <= k <= input.len()
        implies #[trigger] <&'b str as Decode<'b, C>>::decodes(input.take(k), pos, Ok(v), end) by {
        lemma_reads_cut(input, k, pos);
    }
    assert forall|input: Seq<u8>, pos: int, v: &'b str, end: int, k: int, r: Result<&'b str, ErrorView>, e: int|
        #![trigger <&'b str as Decode<'b, C>>::decodes(input.take(k), pos, r, e), <&'b str as Decode<'b, C>>::decodes(input, pos, Ok(v), end)]
        <&'b str as Decode<'b, C>>::decodes(input, pos, Ok(v), end) && 0 <= k < end && k <= input.len()
            && <&'b str as Decode<'b, C>>::decodes(input.take(k), pos, r, e)
        implies is_short(r) by {
        lemma_reads_cut(input, k, pos);
    }
    assert forall|input: Seq<u8>, pos: int, v: Box<str>, end: int, k: int|
        <Box<str> as Decode<'b, C>>::decodes(input, pos, Ok(v), end) && end <= k <= input.len()
        implies #[trigger] <Box<str> as Decode<'b, C>>::decodes(input.take(k), pos, Ok(v), end) by {
        lemma_reads_cut(input, k, pos);
    }
    assert forall|input: Seq<u8>, pos: int, v: Box<str>, end: int, k: int, r: Result<Box<str>, ErrorView>, e: int|
        #![trigger <Box<str> as Decode<'b, C>>::decodes(input.take(k), pos, r, e), <Box<str> as Decode<'b, C>>::decodes(input, pos, Ok(v), end)]
        <Box<str> as Decode<'b, C>>::decodes(input, pos, Ok(v), end) && 0 <= k < end && k <= input.len()
            && <Box<str> as Decode<'b, C>>::decodes(input.take(k), pos, r, e)
        implies is_short(r) by {
        lemma_reads_cut(input, k, pos);
    }
    assert forall|input: Seq<u8>, pos: int, v: std::borrow::Cow<'b, str>, end: int, k: int|
        <std::borrow::Cow<'b, str> as Decode<'b, C>>::decodes(input, pos, Ok(v), end) && end <= k <= input.len()
        implies #[trigger] <std::borrow::Cow<'b, str> as Decode<'b, C>>::decodes(input.take(k), pos, Ok(v), end) by {
        lemma_reads_cut(input, k, pos);
    }
    assert forall|input: Seq<u8>, pos: int, v: std::borrow::Cow<'b, str>, end: int, k: int, r: Result<std::borrow::Cow<'b, str>, ErrorView>, e: int|
        #![trigger <std::borrow::Cow<'b, str> as Decode<'b, C>>::decodes(input.take(k), pos, r, e), <std::borrow::Cow<'b, str> as Decode<'b, C>>::decodes(input, pos, Ok(v), end)]
        <std::borrow::Cow<'b, str> as Decode<'b, C>>::decodes(input, pos, Ok(v), end) && 0 <= k < end && k <= input.len()
            && <std::borrow::Cow<'b, str> as Decode<'b, C>>::decodes(input.take(k), pos, r, e)
        implies is_short(r) by {
        lemma_reads_cut(input, k, pos);
    }
}

/// `Box<T>`, `Result<T, E>` and `Tagged<N, T>` decode the same from an input
/// cut after the item, and fail for want of input from one cut within it,
/// where their parts do.
pub proof fn lemma_short_wrappers<'b, C, const N: u64, T: Decode<'b, C>, E: Decode<'b, C>>()
    requires
        decodes_within::<'b, C, T>(),
        fails_short::<'b, C, T>(),
        decodes_within::<'b, C, E>(),
        fails_short::<'b, C, E>(),
    ensures
        decodes_within::<'b, C, Box<T>>(),
        fails_short::<'b, C, Box<T>>(),
        decodes_within::<'b, C, Tagged<N, T>>(),
        fails_short::<'b, C, Tagged<N, T>>(),
        decodes_within::<'b, C, Result<T, E>>(),
        fails_short::<'b, C, Result<T, E>>(),
{
    assert forall|input: Seq<u8>, pos: int, v: Box<T>, end: int, k: int|
        <Box<T> as Decode<'b, C>>::decodes(input, pos, Ok(v), end) && end <= k <= input.len()
        implies #[trigger] <Box<T> as Decode<'b, C>>::decodes(input.take(k), pos, Ok(v), end) by {
        assert(T::decodes(input.take(k), pos, Ok(*v), end));
    }
    assert forall|input: Seq<u8>, pos: int, v: Box<T>, end: int, k: int, r: Result<Box<T>, ErrorView>, e: int|
        #![trigger <Box<T> as Decode<'b, C>>::decodes(input.take(k), pos, r, e), <Box<T> as Decode<'b, C>>::decodes(input, pos, Ok(v), end)]
        <Box<T> as Decode<'b, C>>::decodes(input, pos, Ok(v), end) && 0 <= k < end && k <= input.len()
            && <Box<T> as Decode<'b, C>>::decodes(input.take(k), pos, r, e)
        implies is_short(r) by {
        let u: Result<T, ErrorView> = match r { Ok(b) => Ok(*b), Err(x) => Err(x) };
        assert(T::decodes(input, pos, Ok(*v), end) && T::decodes(input.take(k), pos, u, e));
    }
    assert forall|input: Seq<u8>, pos: int, v: Tagged<N, T>, end: int, k: int|
        <Tagged<N, T> as Decode<'b, C>>::decodes(input, pos, Ok(v), end) && end <= k <= input.len()
        implies #[trigger] <Tagged<N, T> as Decode<'b, C>>::decodes(input.take(k), pos, Ok(v), end) by {
        crate::decode::reads::lemma_read_len_progress(input, pos);
        let e1 = crate::decode::reads::read_tag(input, pos).1;
        T::lemma_progress(input, e1, v.inner(), end);
        assert(0 <= pos);
        lemma_reads_cut(input, k, pos);
        assert(T::decodes(input.take(k), e1, Ok(v.inner()), end));
    }
    assert forall|input: Seq<u8>, pos: int, v: Tagged<N, T>, end: int, k: int, r: Result<Tagged<N, T>, ErrorView>, e: int|
        #![trigger <Tagged<N, T> as Decode<'b, C>>::decodes(input.take(k), pos, r, e), <Tagged<N, T> as Decode<'b, C>>::decodes(input, pos, Ok(v), end)]
        <Tagged<N, T> as Decode<'b, C>>::decodes(input, pos, Ok(v), end) && 0 <= k < end && k <= input.len()
            && <Tagged<N, T> as Decode<'b, C>>::decodes(input.take(k), pos, r, e)
        implies is_short(r) by {
        lemma_reads_cut(input, k, pos);
        let e1 = crate::decode::reads::read_tag(input, pos).1;
        assert(T::decodes(input, e1, Ok(v.inner()), end));
        if e1 <= k {
            let u: Result<T, ErrorView> = match r { Ok(t) => Ok(t.inner()), Err(x) => Err(x) };
            assert(T::decodes(input.take(k), e1, u, e));
        }
    }
    assert forall|input: Seq<u8>, pos: int, v: Result<T, E>, end: int, k: int|
        <Result<T, E> as Decode<'b, C>>::decodes(input, pos, Ok(v), end) && end <= k <= input.len()
        implies #[trigger] <Result<T, E> as Decode<'b, C>>::decodes(input.take(k), pos, Ok(v), end) by {
        crate::decode::reads::lemma_read_len_progress(input, pos);
        let e1 = crate::decode::reads::read_array(input, pos).1;
        crate::decode::reads::lemma_read_uint_progress(input, e1);
        let e2 = crate::decode::reads::read_u32(input, e1).1;
        match v {
            Ok(x) => T::lemma_progress(input, e2, x, end),
            Err(x) => E::lemma_progress(input, e2, x, end),
        }
        assert(0 <= pos);
        lemma_reads_cut(input, k, pos);
        lemma_reads_cut(input, k, e1);
        match v {
            Ok(x) => assert(T::decodes(input.take(k), e2, Ok(x), end)),
            Err(x) => assert(E::decodes(input.take(k), e2, Ok(x), end)),
        }
    }
    assert forall|input: Seq<u8>, pos: int, v: Result<T, E>, end: int, k: int, r: Result<Result<T, E>, ErrorView>, e: int|
        #![trigger <Result<T, E> as Decode<'b, C>>::decodes(input.take(k), pos, r, e), <Result<T, E> as Decode<'b, C>>::decodes(input, pos, Ok(v), end)]
        <Result<T, E> as Decode<'b, C>>::decodes(input, pos, Ok(v), end) && 0 <= k < end && k <= input.len()
            && <Result<T, E> as Decode<'b, C>>::decodes(input.take(k), pos, r, e)
        implies is_short(r) by {
        lemma_reads_cut(input, k, pos);
        let e1 = crate::decode::reads::read_array(input, pos).1;
        lemma_reads_cut(input, k, e1);
        let e2 = crate::decode::reads::read_u32(input, e1).1;
        crate::decode::reads::lemma_read_len_progress(input, pos);
        crate::decode::reads::lemma_read_uint_progress(input, e1);
        if e2 <= k {
            match v {
                Ok(x) => {
                    let u: Result<T, ErrorView> = match r { Ok(Ok(y)) => Ok(y), Ok(Err(_)) => Err(arbitrary()), Err(x) => Err(x) };
                    assert(T::decodes(input, e2, Ok(x), end));
                    if r is Ok {
                        assert(T::decodes(input.take(k), e2, u, e));
                    } else {
                        assert(T::decodes(input.take(k), e2, u, e));
                    }
                },
                Err(x) => {
                    let u: Result<E, ErrorView> = match r { Ok(Err(y)) => Ok(y), Ok(Ok(_)) => Err(arbitrary()), Err(x) => Err(x) };
                    assert(E::decodes(input, e2, Ok(x), end));
                    assert(E::decodes(input.take(k), e2, u, e));
                },
            }
        }
    }
}

/// An item of type `A` followed by one of type `B`, decoded from the input
/// cut at `k`: as before where both end by `k`, for want of input where they
/// do not.
proof fn lemma_entry_cut<'b, C, A: Decode<'b, C>, B: Decode<'b, C>>(
    input: Seq<u8>,
    h: int,
    k: int,
    a: A,
    b: B,
    ea: int,
    end: int,
    r: Result<(A, B), ErrorView>,
    e: int,
)
    requires
        decodes_within::<'b, C, A>(),
        fails_short::<'b, C, A>(),
        decodes_within::<'b, C, B>(),
        fails_short::<'b, C, B>(),
        decodes_uniquely::<'b, C, A>(),
        0 <= k <= input.len(),
        A::decodes(input, h, Ok(a), ea),
        B::decodes(input, ea, Ok(b), end),
    ensures
        end <= k ==> decodes_entry::<'b, C, A, B>(input.take(k), h, Ok((a, b)), end),
        k < end && decodes_entry::<'b, C, A, B>(input.take(k), h, r, e) ==> is_short(r),
{
    let s = input.take(k);
    A::lemma_progress(input, h, a, ea);
    B::lemma_progress(input, ea, b, end);
    if end <= k {
        assert(A::decodes(s, h, Ok(a), ea) && B::decodes(s, ea, Ok(b), end));
        crate::decode::lemma_entry_ok::<'b, C, A, B>(s, h, ea, end, a, b);
    }
    if k < end && decodes_entry::<'b, C, A, B>(s, h, r, e) {
        if k < ea {
            match r {
                Ok((x, y)) => {
                    let f = choose|f: int| #[trigger] A::decodes(s, h, Ok(x), f) && B::decodes(s, f, Ok(y), e);
                    assert(A::decodes(s, h, Ok(x), f) && A::decodes(input, h, Ok(a), ea));
                },
                Err(x) => {
                    if !A::decodes(s, h, Err(x), e) {
                        let (f, a2) = choose|f: int, a2: A| #[trigger] A::decodes(s, h, Ok(a2), f) && B::decodes(s, f, Err(x), e);
                        assert(A::decodes(s, h, Ok(a2), f) && A::decodes(input, h, Ok(a), ea));
                    } else {
                        assert(A::decodes(s, h, Err(x), e) && A::decodes(input, h, Ok(a), ea));
                    }
                },
            }
        } else {
            assert(A::decodes(s, h, Ok(a), ea));
            match r {
                Ok((x, y)) => {
                    let f = choose|f: int| #[trigger] A::decodes(s, h, Ok(x), f) && B::decodes(s, f, Ok(y), e);
                    assert(A::decodes(s, h, Ok(x), f));
                    assert(B::decodes(s, ea, Ok(y), e) && B::decodes(input, ea, Ok(b), end));
                },
                Err(x) => {
                    if A::decodes(s, h, Err(x), e) {
                    } else {
                        let (f, a2) = choose|f: int, a2: A| #[trigger] A::decodes(s, h, Ok(a2), f) && B::decodes(s, f, Err(x), e);
                        assert(A::decodes(s, h, Ok(a2), f));
                        assert(B::decodes(s, ea, Err(x), e) && B::decodes(input, ea, Ok(b), end));
                    }
                },
            }
        }
    }
}

/// Pairs decode the same from an input cut after the item, and fail for want
/// of input from one cut within it, where their items do and the first has
/// one outcome.
pub proof fn lemma_short_pair<'b, C, A: Decode<'b, C>, B: Decode<'b, C>>()
    requires
        decodes_within::<'b, C, A>(),
        fails_short::<'b, C, A>(),
        decodes_within::<'b, C, B>(),
        fails_short::<'b, C, B>(),
        decodes_uniquely::<'b, C, A>(),
    ensures
        decodes_within::<'b, C, (A, B)>(),
        fails_short::<'b, C, (A, B)>(),
{
    assert forall|input: Seq<u8>, pos: int, v: (A, B), end: int, k: int|
        <(A, B) as Decode<'b, C>>::decodes(input, pos, Ok(v), end) && end <= k <= input.len()
        implies #[trigger] <(A, B) as Decode<'b, C>>::decodes(input.take(k), pos, Ok(v), end) by {
        crate::decode::reads::lemma_read_len_progress(input, pos);
        let h = crate::decode::reads::read_array(input, pos).1;
        let ea = choose|f: int| #[trigger] A::decodes(input, h, Ok(v.0), f) && B::decodes(input, f, Ok(v.1), end);
        assert(A::decodes(input, h, Ok(v.0), ea));
        A::lemma_progress(input, h, v.0, ea);
        B::lemma_progress(input, ea, v.1, end);
        assert(crate::decode::reads::read_array(input, pos).0 is Ok);
        assert(0 <= pos);
        lemma_reads_cut(input, k, pos);
        lemma_entry_cut::<'b, C, A, B>(input, h, k, v.0, v.1, ea, end, Ok(v), end);
        assert(v == (v.0, v.1));
    }
    assert forall|input: Seq<u8>, pos: int, v: (A, B), end: int, k: int, r: Result<(A, B), ErrorView>, e: int|
        #![trigger <(A, B) as Decode<'b, C>>::decodes(input.take(k), pos, r, e), <(A, B) as Decode<'b, C>>::decodes(input, pos, Ok(v), end)]
        <(A, B) as Decode<'b, C>>::decodes(input, pos, Ok(v), end) && 0 <= k < end && k <= input.len()
            && <(A, B) as Decode<'b, C>>::decodes(input.take(k), pos, r, e)
        implies is_short(r) by {
        let h = crate::decode::reads::read_array(input, pos).1;
        let ea = choose|f: int| #[trigger] A::decodes(input, h, Ok(v.0), f) && B::decodes(input, f, Ok(v.1), end);
        assert(A::decodes(input, h, Ok(v.0), ea));
        lemma_reads_cut(input, k, pos);
        lemma_entry_cut::<'b, C, A, B>(input, h, k, v.0, v.1, ea, end, r, e);
    }
}

/// A triple's three items decoded from the input cut at `k`: as before where
/// they end by `k`, for want of input where they do not.
proof fn lemma_triple_cut<'b, C, A: Decode<'b, C>, B: Decode<'b, C>, D: Decode<'b, C>>(
    input: Seq<u8>,
    pos: int,
    k: int,
    a: A,
    b: B,
    c: D,
    e2: int,
    e3: int,
    end: int,
    r: Result<(A, B, D), ErrorView>,
    e: int,
)
    requires
        decodes_within::<'b, C, A>(),
        fails_short::<'b, C, A>(),
        decodes_within::<'b, C, B>(),
        fails_short::<'b, C, B>(),
        decodes_within::<'b, C, D>(),
        fails_short::<'b, C, D>(),
        decodes_uniquely::<'b, C, A>(),
        decodes_uniquely::<'b, C, B>(),
        0 <= k <= input.len(),
        crate::decode::reads::read_array(input, pos).0 == Ok::<Option<u64>, ErrorView>(Some(3u64)),
        crate::decode::reads::read_array(input, pos).1 <= k,
        A::decodes(input, crate::decode::reads::read_array(input, pos).1, Ok(a), e2),
        B::decodes(input, e2, Ok(b), e3),
        D::decodes(input, e3, Ok(c), end),
    ensures
        end <= k ==> decodes_triple::<'b, C, A, B, D>(input.take(k), pos, Ok((a, b, c)), end),
        k < end && decodes_triple::<'b, C, A, B, D>(input.take(k), pos, r, e) ==> is_short(r),
{
    let s = input.take(k);
    let h = crate::decode::reads::read_array(input, pos).1;
    lemma_reads_cut(input, k, pos);
    A::lemma_progress(input, h, a, e2);
    B::lemma_progress(input, e2, b, e3);
    D::lemma_progress(input, e3, c, end);
    if end <= k {
        assert(A::decodes(s, h, Ok(a), e2) && B::decodes(s, e2, Ok(b), e3) && D::decodes(s, e3, Ok(c), end));
        crate::decode::lemma_triple_ok::<'b, C, A, B, D>(s, pos, e2, e3, end, a, b, c);
    }
    if k < end && decodes_triple::<'b, C, A, B, D>(s, pos, r, e) {
        if e2 <= k {
            assert(A::decodes(s, h, Ok(a), e2));
        }
        if e3 <= k {
            assert(B::decodes(s, e2, Ok(b), e3));
        }
        match r {
            Ok((x, y, z)) => {
                let (f, g) = choose|f: int, g: int| #[trigger] A::decodes(s, h, Ok(x), f) && #[trigger] B::decodes(s, f, Ok(y), g) && D::decodes(s, g, Ok(z), e);
                assert(A::decodes(s, h, Ok(x), f) && A::decodes(input, h, Ok(a), e2));
                if e2 <= k {
                    assert(B::decodes(s, e2, Ok(y), g) && B::decodes(input, e2, Ok(b), e3));
                    if e3 <= k {
                        assert(D::decodes(s, e3, Ok(z), e) && D::decodes(input, e3, Ok(c), end));
                    }
                }
            },
            Err(x) => {
                if A::decodes(s, h, Err(x), e) {
                    assert(A::decodes(input, h, Ok(a), e2));
                } else if exists|f: int, a2: A| #[trigger] A::decodes(s, h, Ok(a2), f) && B::decodes(s, f, Err(x), e) {
                    let (f, a2) = choose|f: int, a2: A| #[trigger] A::decodes(s, h, Ok(a2), f) && B::decodes(s, f, Err(x), e);
                    assert(A::decodes(s, h, Ok(a2), f) && A::decodes(input, h, Ok(a), e2));
                    if e2 <= k {
                        assert(B::decodes(s, e2, Err(x), e) && B::decodes(input, e2, Ok(b), e3));
                    }
                } else {
                    let (f, g, a2, b2) = choose|f: int, g: int, a2: A, b2: B| #[trigger] A::decodes(s, h, Ok(a2), f) && #[trigger] B::decodes(s, f, Ok(b2), g) && D::decodes(s, g, Err(x), e);
                    assert(A::decodes(s, h, Ok(a2), f) && A::decodes(input, h, Ok(a), e2));
                    if e2 <= k {
                        assert(B::decodes(s, e2, Ok(b2), g) && B::decodes(input, e2, Ok(b), e3));
                        if e3 <= k {
                            assert(D::decodes(s, e3, Err(x), e) && D::decodes(input, e3, Ok(c), end));
                        }
                    }
                }
            },
        }
    }
}

/// Triples decode the same from an input cut after the item, and fail for
/// want of input from one cut within it, where their items do and the first
/// two have one outcome.
pub proof fn lemma_short_triple<'b, C, A: Decode<'b, C>, B: Decode<'b, C>, D: Decode<'b, C>>()
    requires
        decodes_within::<'b, C, A>(),
        fails_short::<'b, C, A>(),
        decodes_within::<'b, C, B>(),
        fails_short::<'b, C, B>(),
        decodes_within::<'b, C, D>(),
        fails_short::<'b, C, D>(),
        decodes_uniquely::<'b, C, A>(),
        decodes_uniquely::<'b, C, B>(),
    ensures
        decodes_within::<'b, C, (A, B, D)>(),
        fails_short::<'b, C, (A, B, D)>(),
{
    assert forall|input: Seq<u8>, pos: int, v: (A, B, D), end: int, k: int|
        <(A, B, D) as Decode<'b, C>>::decodes(input, pos, Ok(v), end) && end <= k <= input.len()
        implies #[trigger] <(A, B, D) as Decode<'b, C>>::decodes(input.take(k), pos, Ok(v), end) by {
        crate::decode::reads::lemma_read_len_progress(input, pos);
        let h = crate::decode::reads::read_array(input, pos).1;
        let (e2, e3) = choose|e2: int, e3: int| #[trigger] A::decodes(input, h, Ok(v.0), e2) && #[trigger] B::decodes(input, e2, Ok(v.1), e3) && D::decodes(input, e3, Ok(v.2), end);
        assert(A::decodes(input, h, Ok(v.0), e2) && B::decodes(input, e2, Ok(v.1), e3) && D::decodes(input, e3, Ok(v.2), end));
        A::lemma_progress(input, h, v.0, e2);
        B::lemma_progress(input, e2, v.1, e3);
        D::lemma_progress(input, e3, v.2, end);
        assert(crate::decode::reads::read_array(input, pos).0 is Ok);
        lemma_triple_cut::<'b, C, A, B, D>(input, pos, k, v.0, v.1, v.2, e2, e3, end, Ok(v), end);
        assert(v == (v.0, v.1, v.2));
    }
    assert forall|input: Seq<u8>, pos: int, v: (A, B, D), end: int, k: int, r: Result<(A, B, D), ErrorView>, e: int|
        #![trigger <(A, B, D) as Decode<'b, C>>::decodes(input.take(k), pos, r, e), <(A, B, D) as Decode<'b, C>>::decodes(input, pos, Ok(v), end)]
        <(A, B, D) as Decode<'b, C>>::decodes(input, pos, Ok(v), end) && 0 <= k < end && k <= input.len()
            && <(A, B, D) as Decode<'b, C>>::decodes(input.take(k), pos, r, e)
        implies is_short(r) by {
        lemma_reads_cut(input, k, pos);
        let h = crate::decode::reads::read_array(input, pos).1;
        if h <= k {
            let (e2, e3) = choose|e2: int, e3: int| #[trigger] A::decodes(input, h, Ok(v.0), e2) && #[trigger] B::decodes(input, e2, Ok(v.1), e3) && D::decodes(input, e3, Ok(v.2), end);
            assert(A::decodes(input, h, Ok(v.0), e2) && B::decodes(input, e2, Ok(v.1), e3) && D::decodes(input, e3, Ok(v.2), end));
            lemma_triple_cut::<'b, C, A, B, D>(input, pos, k, v.0, v.1, v.2, e2, e3, end, r, e);
        }
    }
}

/// Whether a `T` that decodes from an item whose initial byte is that of a
/// negative integer with an argument (where finding the item's type reads
/// the next byte too) ends after that next byte.
pub open spec fn ends_past_peek<'b, C, T: Decode<'b, C>>() -> bool {
    forall|input: Seq<u8>, pos: int, v: T, end: int|
        #[trigger] T::decodes(input, pos, Ok(v), end) && 0 <= pos < input.len() && 0x38 <= input[pos] <= 0x3b ==> pos + 1 < end
}

/// The items of numbers, `bool`, `char`, [`Int`], [`Tag`], `()`,
/// `PhantomData` and texts end after the byte that finding their type reads.
pub proof fn lemma_peek_scalars<'b, C, P>()
    ensures
        ends_past_peek::<'b, C, bool>(),
        ends_past_peek::<'b, C, u8>(),
        ends_past_peek::<'b, C, u16>(),
        ends_past_peek::<'b, C, u32>(),
        ends_past_peek::<'b, C, u64>(),
        ends_past_peek::<'b, C, usize>(),
        ends_past_peek::<'b, C, i8>(),
        ends_past_peek::<'b, C, i16>(),
        ends_past_peek::<'b, C, i32>(),
        ends_past_peek::<'b, C, i64>(),
        ends_past_peek::<'b, C, isize>(),
        ends_past_peek::<'b, C, char>(),
        ends_past_peek::<'b, C, Int>(),
        ends_past_peek::<'b, C, Tag>(),
        ends_past_peek::<'b, C, ()>(),
        ends_past_peek::<'b, C, core::marker::PhantomData<P>>(),
        ends_past_peek::<'b, C, String>(),
        ends_past_peek::<'b, C, &'b str>(),
        ends_past_peek::<'b, C, Box<str>>(),
        ends_past_peek::<'b, C, std::borrow::Cow<'b, str>>(),
{
    assert forall|input: Seq<u8>, pos: int, v: bool, end: int|
        #[trigger] <bool as Decode<'b, C>>::decodes(input, pos, Ok(v), end) && 0 <= pos < input.len() && 0x38 <= input[pos] <= 0x3b
        implies pos + 1 < end by {
    }
    assert forall|input: Seq<u8>, pos: int, v: u8, end: int|
        #[trigger] <u8 as Decode<'b, C>>::decodes(input, pos, Ok(v), end) && 0 <= pos < input.len() && 0x38 <= input[pos] <= 0x3b
        implies pos + 1 < end by {
    }
    assert forall|input: Seq<u8>, pos: int, v: u16, end: int|
        #[trigger] <u16 as Decode<'b, C>>::decodes(input, pos, Ok(v), end) && 0 <= pos < input.len() && 0x38 <= input[pos] <= 0x3b
        implies pos + 1 < end by {
    }
    assert forall|input: Seq<u8>, pos: int, v: u32, end: int|
        #[trigger] <u32 as Decode<'b, C>>::decodes(input, pos, Ok(v), end) && 0 <= pos < input.len() && 0x38 <= input[pos] <= 0x3b
        implies pos + 1 < end by {
    }
    assert forall|input: Seq<u8>, pos: int, v: u64, end: int|
        #[trigger] <u64 as Decode<'b, C>>::decodes(input, pos, Ok(v), end) && 0 <= pos < input.len() && 0x38 <= input[pos] <= 0x3b
        implies pos + 1 < end by {
    }
    assert forall|input: Seq<u8>, pos: int, v: usize, end: int|
        #[trigger] <usize as Decode<'b, C>>::decodes(input, pos, Ok(v), end) && 0 <= pos < input.len() && 0x38 <= input[pos] <= 0x3b
        implies pos + 1 < end by {
    }
    assert forall|input: Seq<u8>, pos: int, v: i8, end: int|
        #[trigger] <i8 as Decode<'b, C>>::decodes(input, pos, Ok(v), end) && 0 <= pos < input.len() && 0x38 <= input[pos] <= 0x3b
        implies pos + 1 < end by {
    }
    assert forall|input: Seq<u8>, pos: int, v: i16, end: int|
        #[trigger] <i16 as Decode<'b, C>>::decodes(input, pos, Ok(v), end) && 0 <= pos < input.len() && 0x38 <= input[pos] <= 0x3b
        implies pos + 1 < end by {
    }
    assert forall|input: Seq<u8>, pos: int, v: i32, end: int|
        #[trigger] <i32 as Decode<'b, C>>::decodes(input, pos, Ok(v), end) && 0 <= pos < input.len() && 0x38 <= input[pos] <= 0x3b
        implies pos + 1 < end by {
    }
    assert forall|input: Seq<u8>, pos: int, v: i64, end: int|
        #[trigger] <i64 as Decode<'b, C>>::decodes(input, pos, Ok(v), end) && 0 <= pos < input.len() && 0x38 <= input[pos] <= 0x3b
        implies pos + 1 < end by {
    }
    assert forall|input: Seq<u8>, pos: int, v: isize, end: int|
        #[trigger] <isize as Decode<'b, C>>::decodes(input, pos, Ok(v), end) && 0 <= pos < input.len() && 0x38 <= input[pos] <= 0x3b
        implies pos + 1 < end by {
    }
    assert forall|input: Seq<u8>, pos: int, v: char, end: int|
        #[trigger] <char as Decode<'b, C>>::decodes(input, pos, Ok(v), end) && 0 <= pos < input.len() && 0x38 <= input[pos] <= 0x3b
        implies pos + 1 < end by {
    }
    assert forall|input: Seq<u8>, pos: int, v: Int, end: int|
        #[trigger] <Int as Decode<'b, C>>::decodes(input, pos, Ok(v), end) && 0 <= pos < input.len() && 0x38 <= input[pos] <= 0x3b
        implies pos + 1 < end by {
    }
    assert forall|input: Seq<u8>, pos: int, v: Tag, end: int|
        #[trigger] <Tag as Decode<'b, C>>::decodes(input, pos, Ok(v), end) && 0 <= pos < input.len() && 0x38 <= input[pos] <= 0x3b
        implies pos + 1 < end by {
    }
    assert forall|input: Seq<u8>, pos: int, v: (), end: int|
        #[trigger] <() as Decode<'b, C>>::decodes(input, pos, Ok(v), end) && 0 <= pos < input.len() && 0x38 <= input[pos] <= 0x3b
        implies pos + 1 < end by {
    }
    assert forall|input: Seq<u8>, pos: int, v: core::marker::PhantomData<P>, end: int|
        #[trigger] <core::marker::PhantomData<P> as Decode<'b, C>>::decodes(input, pos, Ok(v), end) && 0 <= pos < input.len() && 0x38 <= input[pos] <= 0x3b
        implies pos + 1 < end by {
    }
    assert forall|input: Seq<u8>, pos: int, v: String, end: int|
        #[trigger] <String as Decode<'b, C>>::decodes(input, pos, Ok(v), end) && 0 <= pos < input.len() && 0x38 <= input[pos] <= 0x3b
        implies pos + 1 < end by {
    }
    assert forall|input: Seq<u8>, pos: int, v: &'b str, end: int|
        #[trigger] <&'b str as Decode<'b, C>>::decodes(input, pos, Ok(v), end) && 0 <= pos < input.len() && 0x38 <= input[pos] <= 0x3b
        implies pos + 1 < end by {
    }
    assert forall|input: Seq<u8>, pos: int, v: Box<str>, end: int|
        #[trigger] <Box<str> as Decode<'b, C>>::decodes(input, pos, Ok(v), end) && 0 <= pos < input.len() && 0x38 <= input[pos] <= 0x3b
        implies pos + 1 < end by {
    }
    assert forall|input: Seq<u8>, pos: int, v: std::borrow::Cow<'b, str>, end: int|
        #[trigger] <std::borrow::Cow<'b, str> as Decode<'b, C>>::decodes(input, pos, Ok(v), end) && 0 <= pos < input.len() && 0x38 <= input[pos] <= 0x3b
        implies pos + 1 < end by {
    }
}

/// The type of the item at `p`, with the input cut at `k`: found as before
/// where the bytes it looks at are left, and otherwise not found for want of
/// input.
pub proof fn lemma_datatype_cut(s: Seq<u8>, k: int, p: int)
    requires
        0 <= k <= s.len(),
        datatype_at(s, p) is Ok,
    ensures
        p < k && !(0x38 <= s[p] <= 0x3b) ==> datatype_at(s.take(k), p) == datatype_at(s, p),
        p + 1 < k ==> datatype_at(s.take(k), p) == datatype_at(s, p),
        k <= p ==> is_short(datatype_at(s.take(k), p)),
        k == p + 1 && 0x38 <= s[p] <= 0x3b ==> is_short(datatype_at(s.take(k), p)),
{
    if p < k {
        assert(s.take(k)[p] == s[p]);
    }
    if p + 1 < k {
        assert(s.take(k)[p + 1] == s[p + 1]);
    }
}

/// `Option<T>` decodes the same from an input cut after the item, and fails
/// for want of input from one cut within it, where `T` does and its items
/// end after the byte that finding their type reads.
pub proof fn lemma_short_option<'b, C, T: Decode<'b, C>>()
    requires
        decodes_within::<'b, C, T>(),
        fails_short::<'b, C, T>(),
        ends_past_peek::<'b, C, T>(),
    ensures
        decodes_within::<'b, C, Option<T>>(),
        fails_short::<'b, C, Option<T>>(),
        ends_past_peek::<'b, C, Option<T>>(),
{
    assert forall|input: Seq<u8>, pos: int, v: Option<T>, end: int, k: int|
        <Option<T> as Decode<'b, C>>::decodes(input, pos, Ok(v), end) && end <= k <= input.len()
        implies #[trigger] <Option<T> as Decode<'b, C>>::decodes(input.take(k), pos, Ok(v), end) by {
        assert(datatype_at(input, pos) is Ok);
        assert(0 <= pos < input.len());
        if let Some(x) = v {
            if datatype_at(input, pos) != Ok::<crate::data::Type, ErrorView>(crate::data::Type::Null) {
                assert(T::decodes(input, pos, Ok(x), end));
                T::lemma_progress(input, pos, x, end);
                assert(T::decodes(input.take(k), pos, Ok(x), end));
            }
        }
        lemma_datatype_cut(input, k, pos);
    }
    assert forall|input: Seq<u8>, pos: int, v: Option<T>, end: int, k: int, r: Result<Option<T>, ErrorView>, e: int|
        #![trigger <Option<T> as Decode<'b, C>>::decodes(input.take(k), pos, r, e), <Option<T> as Decode<'b, C>>::decodes(input, pos, Ok(v), end)]
        <Option<T> as Decode<'b, C>>::decodes(input, pos, Ok(v), end) && 0 <= k < end && k <= input.len()
            && <Option<T> as Decode<'b, C>>::decodes(input.take(k), pos, r, e)
        implies is_short(r) by {
        assert(datatype_at(input, pos) is Ok);
        lemma_datatype_cut(input, k, pos);
        if let Some(x) = v {
            if datatype_at(input, pos) != Ok::<crate::data::Type, ErrorView>(crate::data::Type::Null) {
                assert(T::decodes(input, pos, Ok(x), end));
                let u: Result<T, ErrorView> = match r { Ok(Some(y)) => Ok(y), Ok(None) => Err(arbitrary()), Err(x) => Err(x) };
                if datatype_at(input.take(k), pos) == datatype_at(input, pos) {
                    assert(T::decodes(input.take(k), pos, u, e));
                }
            }
        }
    }
    assert forall|input: Seq<u8>, pos: int, v: Option<T>, end: int|
        #[trigger] <Option<T> as Decode<'b, C>>::decodes(input, pos, Ok(v), end) && 0 <= pos < input.len() && 0x38 <= input[pos] <= 0x3b
        implies pos + 1 < end by {
        if let Some(x) = v {
            assert(T::decodes(input, pos, Ok(x), end));
        }
    }
}

/// The items of boxes, results, tagged values, tuples, vectors and arrays end
/// after the byte that finding their type reads: but for a box, their
/// initial byte is never that of a negative integer.
pub proof fn lemma_peek_wrappers<'b, C, const N: u64, const M: usize, T: Decode<'b, C>, E: Decode<'b, C>>()
    requires
        ends_past_peek::<'b, C, T>(),
    ensures
        ends_past_peek::<'b, C, Box<T>>(),
        ends_past_peek::<'b, C, Result<T, E>>(),
        ends_past_peek::<'b, C, Tagged<N, T>>(),
        ends_past_peek::<'b, C, (T, E)>(),
        ends_past_peek::<'b, C, (T, E, T)>(),
        ends_past_peek::<'b, C, Vec<T>>(),
        ends_past_peek::<'b, C, [T; M]>(),
{
    assert forall|input: Seq<u8>, pos: int, v: Box<T>, end: int|
        #[trigger] <Box<T> as Decode<'b, C>>::decodes(input, pos, Ok(v), end) && 0 <= pos < input.len() && 0x38 <= input[pos] <= 0x3b
        implies pos + 1 < end by {
        assert(T::decodes(input, pos, Ok(*v), end));
    }
    assert forall|input: Seq<u8>, pos: int, v: Result<T, E>, end: int|
        #[trigger] <Result<T, E> as Decode<'b, C>>::decodes(input, pos, Ok(v), end) && 0 <= pos < input.len() && 0x38 <= input[pos] <= 0x3b
        implies pos + 1 < end by {
    }
    assert forall|input: Seq<u8>, pos: int, v: Tagged<N, T>, end: int|
        #[trigger] <Tagged<N, T> as Decode<'b, C>>::decodes(input, pos, Ok(v), end) && 0 <= pos < input.len() && 0x38 <= input[pos] <= 0x3b
        implies pos + 1 < end by {
    }
    assert forall|input: Seq<u8>, pos: int, v: (T, E), end: int|
        #[trigger] <(T, E) as Decode<'b, C>>::decodes(input, pos, Ok(v), end) && 0 <= pos < input.len() && 0x38 <= input[pos] <= 0x3b
        implies pos + 1 < end by {
    }
    assert forall|input: Seq<u8>, pos: int, v: (T, E, T), end: int|
        #[trigger] <(T, E, T) as Decode<'b, C>>::decodes(input, pos, Ok(v), end) && 0 <= pos < input.len() && 0x38 <= input[pos] <= 0x3b
        implies pos + 1 < end by {
    }
    assert forall|input: Seq<u8>, pos: int, v: Vec<T>, end: int|
        #[trigger] <Vec<T> as Decode<'b, C>>::decodes(input, pos, Ok(v), end) && 0 <= pos < input.len() && 0x38 <= input[pos] <= 0x3b
        implies pos + 1 < end by {
    }
    assert forall|input: Seq<u8>, pos: int, v: [T; M], end: int|
        #[trigger] <[T; M] as Decode<'b, C>>::decodes(input, pos, Ok(v), end) && 0 <= pos < input.len() && 0x38 <= input[pos] <= 0x3b
        implies pos + 1 < end by {
    }
}

/// Items read from `pos` that end by `k` are read the same from the input
/// cut at `k`.
proof fn lemma_reads_within<'b, C, T: Decode<'b, C>>(input: Seq<u8>, k: int, pos: int, len: Option<u64>, items: Seq<T>, ends: Seq<int>)
    requires
        decodes_within::<'b, C, T>(),
        0 <= k <= input.len(),
        reads_items::<'b, C, T>(input, pos, len, items, ends),
        stop(pos, ends) <= k,
    ensures
        reads_items::<'b, C, T>(input.take(k), pos, len, items, ends),
    decreases items.len(),
{
    if items.len() > 0 {
        let m = stop(pos, ends.drop_last());
        T::lemma_progress(input, m, items.last(), ends.last());
        lemma_reads_within::<'b, C, T>(input, k, pos, len, items.drop_last(), ends.drop_last());
        assert(T::decodes(input.take(k), m, Ok(items.last()), ends.last()));
        if 0 <= m < input.len() {
            assert(input.take(k)[m] == input[m]);
        }
    }
}

/// Vectors decode the same from an input cut after the item, and fail for
/// want of input from one cut within it, where their items do, decode
/// only from their own bytes, and have one outcome.
pub proof fn lemma_short_vec<'b, C, T: Decode<'b, C>>()
    requires
        decodes_within::<'b, C, T>(),
        fails_short::<'b, C, T>(),
        decodes_locally::<'b, C, T>(),
        decodes_uniquely::<'b, C, T>(),
    ensures
        decodes_within::<'b, C, Vec<T>>(),
        fails_short::<'b, C, Vec<T>>(),
{
    assert forall|input: Seq<u8>, pos: int, v: Vec<T>, end: int, k: int|
        <Vec<T> as Decode<'b, C>>::decodes(input, pos, Ok(v), end) && end <= k <= input.len()
        implies #[trigger] <Vec<T> as Decode<'b, C>>::decodes(input.take(k), pos, Ok(v), end) by {
        crate::decode::reads::lemma_read_len_progress(input, pos);
        let head = crate::decode::reads::read_array(input, pos);
        let len = head.0->Ok_0;
        let ends = choose|ends: Seq<int>| #[trigger] reads_items::<'b, C, T>(input, head.1, len, v@, ends)
            && items_end(input, stop(head.1, ends), after_len(len, v@.len() as int), end);
        <Vec<T> as Decode<'b, C>>::lemma_progress(input, pos, v, end);
        assert(0 <= pos);
        lemma_reads_cut(input, k, pos);
        let q = stop(head.1, ends);
        crate::decode::items::lemma_reads_bounds::<'b, C, T>(input, head.1, len, v@, ends);
        assert(head.1 <= q <= end);
        lemma_reads_within::<'b, C, T>(input, k, head.1, len, v@, ends);
        if 0 <= q < k {
            assert(input.take(k)[q] == input[q]);
        }
        lemma_items_ok::<'b, C, T>(input.take(k), pos, len, v@, ends, end);
    }
    assert forall|input: Seq<u8>, pos: int, v: Vec<T>, end: int, k: int, r: Result<Vec<T>, ErrorView>, e: int|
        #![trigger <Vec<T> as Decode<'b, C>>::decodes(input.take(k), pos, r, e), <Vec<T> as Decode<'b, C>>::decodes(input, pos, Ok(v), end)]
        <Vec<T> as Decode<'b, C>>::decodes(input, pos, Ok(v), end) && 0 <= k < end && k <= input.len()
            && <Vec<T> as Decode<'b, C>>::decodes(input.take(k), pos, r, e)
        implies is_short(r) by {
        lemma_vec_cut::<'b, C, T>(input, pos, v, end, k, r, e);
    }
}

/// The case of [`lemma_short_vec`] where the input is cut within the item.
proof fn lemma_vec_cut<'b, C, T: Decode<'b, C>>(input: Seq<u8>, pos: int, v: Vec<T>, end: int, k: int, r: Result<Vec<T>, ErrorView>, e: int)
    requires
        decodes_within::<'b, C, T>(),
        fails_short::<'b, C, T>(),
        decodes_locally::<'b, C, T>(),
        decodes_uniquely::<'b, C, T>(),
        <Vec<T> as Decode<'b, C>>::decodes(input, pos, Ok(v), end),
        0 <= k < end,
        k <= input.len(),
        <Vec<T> as Decode<'b, C>>::decodes(input.take(k), pos, r, e),
    ensures
        is_short(r),
{
    let s = input.take(k);
    let rest = input.skip(k);
    assert(s + rest =~= input);
    lemma_reads_cut(input, k, pos);
    let head = crate::decode::reads::read_array(input, pos);
    let len = head.0->Ok_0;
    let h = head.1;
    if h <= k {
        let ends = choose|ends: Seq<int>| #[trigger] reads_items::<'b, C, T>(input, h, len, v@, ends)
            && items_end(input, stop(h, ends), after_len(len, v@.len() as int), end);
        let nv = v@.len() as int;
        let qv = stop(h, ends);
        match r {
            Ok(v2) => {
                let ends2 = choose|ends: Seq<int>| #[trigger] reads_items::<'b, C, T>(s, h, len, v2@, ends)
                    && items_end(s, stop(h, ends), after_len(len, v2@.len() as int), e);
                <Vec<T> as Decode<'b, C>>::lemma_progress(s, pos, v2, e);
                lemma_reads_items_local::<'b, C, T>(s, rest, h, len, v2@, ends2);
                let q2 = stop(h, ends2);
                if 0 <= q2 < s.len() {
                    assert((s + rest)[q2] == s[q2]);
                }
                lemma_items_ok::<'b, C, T>(input, pos, len, v2@, ends2, e);
                lemma_unique_items::<'b, C, T>(input, pos, Ok(v2@), e, Ok(v@), end);
            },
            Err(x) => {
                let (i2, n2) = choose|items: Seq<T>, ends: Seq<int>| #[trigger] reads_items::<'b, C, T>(s, h, len, items, ends)
                    && item_fails::<'b, C, T>(s, stop(h, ends), after_len(len, items.len() as int), x, e);
                lemma_reads_items_local::<'b, C, T>(s, rest, h, len, i2, n2);
                let j = i2.len() as int;
                let q2 = stop(h, n2);
                let left = after_len(len, j);
                if j > nv {
                    lemma_reads_prefix::<'b, C, T>(input, h, len, v@, ends, i2, n2);
                    lemma_reads_at::<'b, C, T>(input, h, len, i2, n2, nv);
                } else if j == nv {
                    lemma_reads_prefix::<'b, C, T>(input, h, len, i2, n2, v@, ends);
                    assert(ends.take(nv) =~= ends);
                    assert(q2 == qv);
                } else {
                    lemma_reads_prefix::<'b, C, T>(input, h, len, i2, n2, v@, ends);
                    lemma_reads_at::<'b, C, T>(input, h, len, v@, ends, j);
                    let f = ends[j];
                    if left is Some || crate::decode::reads::read_byte(s, q2).0 is Ok {
                        assert(T::decodes(s, q2, Err(x), e));
                        assert(T::decodes(input, q2, Ok(v@[j]), f));
                        if f <= k {
                            assert(T::decodes(s, q2, Ok(v@[j]), f));
                        }
                    }
                }
            },
        }
    }
}

} // verus!
