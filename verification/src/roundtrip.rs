//! What the decoder reads back of what the encoder wrote.
use vstd::prelude::*;
use vstd::string::StringSliceAdditionalSpecFns;
use crate::data::{Int, Tag, Tagged, IanaTag, iana_number};
use crate::decode::{Decode, lemma_entry_ok, lemma_triple_ok};
use crate::decode::skip::item_end;
use crate::decode::reads::{argument, datatype_at, read_bytes_item};
use crate::data::Type;
use crate::encode::{Encode, encoding, items_parts, lemma_items_split};
use crate::decode::items::{reads_items, lemma_items_ok, lemma_exactly_ok};
use crate::model::{head, head_len, head_parts, joined, is_major, be2, be4, be8, u16_of, u32_of, u64_of, lemma_head_len, lemma_joined_append, lemma_joined_one, UNSIGNED, SIGNED, BYTES, TEXT, ARRAY, MAP, TAGGED};

verus! {

/// The additional information of the head that holds `x`.
pub open spec fn info_of(x: u64) -> u8 {
    if x <= 0x17 {
        x as u8
    } else if x <= 0xff {
        24
    } else if x <= 0xffff {
        25
    } else if x <= 0xffff_ffff {
        26
    } else {
        27
    }
}

proof fn lemma_major_or(t: u8, i: u8)
    requires
        is_major(t),
        i < 32,
    ensures
        t | i == t + i,
{
    assert(t & 0x1f == 0) by {
        assert(0x00u8 & 0x1f == 0 && 0x20u8 & 0x1f == 0 && 0x40u8 & 0x1f == 0 && 0x60u8 & 0x1f == 0 && 0x80u8 & 0x1f == 0
            && 0xa0u8 & 0x1f == 0 && 0xc0u8 & 0x1f == 0 && 0xe0u8 & 0x1f == 0) by (bit_vector);
    }
    assert(t & 0x1f == 0 && i < 32 ==> t | i == t + i) by (bit_vector);
}

proof fn lemma_be2(x: u64)
    requires
        x <= 0xffff,
    ensures
        u16_of(be2(x)[0], be2(x)[1]) as u64 == x,
{
    assert(x <= 0xffff ==> ((((x >> 8u64) as u8) as u16) << 8u16 | ((x as u8) as u16)) as u64 == x) by (bit_vector);
}

proof fn lemma_be4(x: u64)
    requires
        x <= 0xffff_ffff,
    ensures
        u32_of(be4(x)[0], be4(x)[1], be4(x)[2], be4(x)[3]) as u64 == x,
{
    assert(x <= 0xffff_ffff ==> ((((x >> 24u64) as u8) as u32) << 24u32 | (((x >> 16u64) as u8) as u32) << 16u32
        | (((x >> 8u64) as u8) as u32) << 8u32 | ((x as u8) as u32)) as u64 == x) by (bit_vector);
}

proof fn lemma_be8(x: u64)
    ensures
        u64_of(be8(x)) == x,
{
    assert(((((x >> 56u64) as u8) as u64) << 56u64 | (((x >> 48u64) as u8) as u64) << 48u64
        | (((x >> 40u64) as u8) as u64) << 40u64 | (((x >> 32u64) as u8) as u64) << 32u64
        | (((x >> 24u64) as u8) as u64) << 24u64 | (((x >> 16u64) as u8) as u64) << 16u64
        | (((x >> 8u64) as u8) as u64) << 8u64 | ((x as u8) as u64)) == x) by (bit_vector);
}

/// Where the head of major type `t` holding `x` stands at `p`, its initial
/// byte is `t` plus the additional information of `x`, and the argument that
/// follows reads as `x`, up to the end of the head.
pub proof fn lemma_head_read(s: Seq<u8>, p: int, t: u8, x: u64)
    requires
        is_major(t),
        0 <= p,
        p + head_len(x) <= s.len(),
        s.subrange(p, p + head_len(x)) == head(t, x),
    ensures
        info_of(x) <= 27,
        s[p] == t + info_of(x),
        argument(s, p + 1, info_of(x)) == (Ok::<u64, crate::decode::error::ErrorView>(x), p + head_len(x)),
{
    let h = head(t, x);
    let ps = head_parts(t, x);
    crate::model::lemma_head_len(t, x);
    lemma_major_or(t, info_of(x));
    let none = Seq::<Seq<u8>>::empty();
    assert(joined(none) == Seq::<u8>::empty());
    if ps.len() == 1 {
        assert(ps.drop_first() =~= none);
        assert(h =~= ps[0]);
    } else {
        assert(ps.drop_first() =~= seq![ps[1]]);
        crate::model::lemma_joined_one(ps[1]);
        assert(h =~= ps[0] + ps[1]);
    }
    assert(s[p] == h[0]);
    if x > 0x17 && x <= 0xff {
        assert(s[p + 1] == h[1]);
        assert((x as u8) as u64 == x);
    } else if x > 0xff && x <= 0xffff {
        assert(s[p + 1] == h[1] && s[p + 2] == h[2]);
        lemma_be2(x);
    } else if x > 0xffff && x <= 0xffff_ffff {
        assert(s[p + 1] == h[1] && s[p + 2] == h[2] && s[p + 3] == h[3] && s[p + 4] == h[4]);
        lemma_be4(x);
    } else if x > 0xffff_ffff {
        assert(h.subrange(1, 9) =~= be8(x));
        assert(s.subrange(p, p + 9).subrange(1, 9) =~= s.subrange(p + 1, p + 9));
        assert(s.subrange(p + 1, p + 9) =~= be8(x));
        lemma_be8(x);
    }
}

/// Decoding a `u8` where its encoding stands gives it back and ends after it.
pub proof fn law_u8_roundtrip<'b, C>(x: u8, s: Seq<u8>, p: int)
    requires
        0 <= p,
        p + encoding::<C, u8>(&x).len() <= s.len(),
        s.subrange(p, p + encoding::<C, u8>(&x).len()) == encoding::<C, u8>(&x),
    ensures
        <u8 as Decode<'b, C>>::decodes(s, p, Ok(x), p + encoding::<C, u8>(&x).len()),
{
    lemma_head_len(UNSIGNED, x as u64);
    lemma_head_read(s, p, UNSIGNED, x as u64);
}

/// Decoding a `u16` where its encoding stands gives it back and ends after it.
pub proof fn law_u16_roundtrip<'b, C>(x: u16, s: Seq<u8>, p: int)
    requires
        0 <= p,
        p + encoding::<C, u16>(&x).len() <= s.len(),
        s.subrange(p, p + encoding::<C, u16>(&x).len()) == encoding::<C, u16>(&x),
    ensures
        <u16 as Decode<'b, C>>::decodes(s, p, Ok(x), p + encoding::<C, u16>(&x).len()),
{
    lemma_head_len(UNSIGNED, x as u64);
    lemma_head_read(s, p, UNSIGNED, x as u64);
}

/// Decoding a `u32` where its encoding stands gives it back and ends after it.
pub proof fn law_u32_roundtrip<'b, C>(x: u32, s: Seq<u8>, p: int)
    requires
        0 <= p,
        p + encoding::<C, u32>(&x).len() <= s.len(),
        s.subrange(p, p + encoding::<C, u32>(&x).len()) == encoding::<C, u32>(&x),
    ensures
        <u32 as Decode<'b, C>>::decodes(s, p, Ok(x), p + encoding::<C, u32>(&x).len()),
{
    lemma_head_len(UNSIGNED, x as u64);
    lemma_head_read(s, p, UNSIGNED, x as u64);
}

/// Decoding a `u64` where its encoding stands gives it back and ends after it.
pub proof fn law_u64_roundtrip<'b, C>(x: u64, s: Seq<u8>, p: int)
    requires
        0 <= p,
        p + encoding::<C, u64>(&x).len() <= s.len(),
        s.subrange(p, p + encoding::<C, u64>(&x).len()) == encoding::<C, u64>(&x),
    ensures
        <u64 as Decode<'b, C>>::decodes(s, p, Ok(x), p + encoding::<C, u64>(&x).len()),
{
    lemma_head_len(UNSIGNED, x as u64);
    lemma_head_read(s, p, UNSIGNED, x as u64);
}

/// Decoding an `i8` where its encoding stands gives it back and ends after it.
pub proof fn law_i8_roundtrip<'b, C>(x: i8, s: Seq<u8>, p: int)
    requires
        0 <= p,
        p + encoding::<C, i8>(&x).len() <= s.len(),
        s.subrange(p, p + encoding::<C, i8>(&x).len()) == encoding::<C, i8>(&x),
    ensures
        <i8 as Decode<'b, C>>::decodes(s, p, Ok(x), p + encoding::<C, i8>(&x).len()),
{
    if x >= 0 {
        lemma_head_len(UNSIGNED, x as u64);
        lemma_head_read(s, p, UNSIGNED, x as u64);
    } else {
        let n = (-1 - x) as u64;
        lemma_head_len(SIGNED, n);
        lemma_head_read(s, p, SIGNED, n);
        assert((-1 - n) as i8 == x);
    }
}

/// Decoding an `i16` where its encoding stands gives it back and ends after it.
pub proof fn law_i16_roundtrip<'b, C>(x: i16, s: Seq<u8>, p: int)
    requires
        0 <= p,
        p + encoding::<C, i16>(&x).len() <= s.len(),
        s.subrange(p, p + encoding::<C, i16>(&x).len()) == encoding::<C, i16>(&x),
    ensures
        <i16 as Decode<'b, C>>::decodes(s, p, Ok(x), p + encoding::<C, i16>(&x).len()),
{
    if x >= 0 {
        lemma_head_len(UNSIGNED, x as u64);
        lemma_head_read(s, p, UNSIGNED, x as u64);
    } else {
        let n = (-1 - x) as u64;
        lemma_head_len(SIGNED, n);
        lemma_head_read(s, p, SIGNED, n);
        assert((-1 - n) as i16 == x);
    }
}

/// Decoding an `i32` where its encoding stands gives it back and ends after it.
pub proof fn law_i32_roundtrip<'b, C>(x: i32, s: Seq<u8>, p: int)
    requires
        0 <= p,
        p + encoding::<C, i32>(&x).len() <= s.len(),
        s.subrange(p, p + encoding::<C, i32>(&x).len()) == encoding::<C, i32>(&x),
    ensures
        <i32 as Decode<'b, C>>::decodes(s, p, Ok(x), p + encoding::<C, i32>(&x).len()),
{
    if x >= 0 {
        lemma_head_len(UNSIGNED, x as u64);
        lemma_head_read(s, p, UNSIGNED, x as u64);
    } else {
        let n = (-1 - x) as u64;
        lemma_head_len(SIGNED, n);
        lemma_head_read(s, p, SIGNED, n);
        assert((-1 - n) as i32 == x);
    }
}

/// Decoding an `i64` where its encoding stands gives it back and ends after it.
pub proof fn law_i64_roundtrip<'b, C>(x: i64, s: Seq<u8>, p: int)
    requires
        0 <= p,
        p + encoding::<C, i64>(&x).len() <= s.len(),
        s.subrange(p, p + encoding::<C, i64>(&x).len()) == encoding::<C, i64>(&x),
    ensures
        <i64 as Decode<'b, C>>::decodes(s, p, Ok(x), p + encoding::<C, i64>(&x).len()),
{
    if x >= 0 {
        lemma_head_len(UNSIGNED, x as u64);
        lemma_head_read(s, p, UNSIGNED, x as u64);
    } else {
        let n = (-1 - x) as u64;
        lemma_head_len(SIGNED, n);
        lemma_head_read(s, p, SIGNED, n);
        assert((-1 - n) as i64 == x);
    }
}

/// Decoding an [`Int`] where its encoding stands gives it back and ends after it.
pub proof fn law_int_roundtrip<'b, C>(x: Int, s: Seq<u8>, p: int)
    requires
        0 <= p,
        p + encoding::<C, Int>(&x).len() <= s.len(),
        s.subrange(p, p + encoding::<C, Int>(&x).len()) == encoding::<C, Int>(&x),
    ensures
        <Int as Decode<'b, C>>::decodes(s, p, Ok(x), p + encoding::<C, Int>(&x).len()),
{
    let t = if x.is_neg() { SIGNED } else { UNSIGNED };
    assert(x.is_neg() ==> (-1 - x.value()) as u64 == x.arg());
    lemma_head_len(t, x.arg());
    lemma_head_read(s, p, t, x.arg());
}

/// Decoding a `bool` where its encoding stands gives it back and ends after it.
pub proof fn law_bool_roundtrip<'b, C>(x: bool, s: Seq<u8>, p: int)
    requires
        0 <= p,
        p + encoding::<C, bool>(&x).len() <= s.len(),
        s.subrange(p, p + encoding::<C, bool>(&x).len()) == encoding::<C, bool>(&x),
    ensures
        <bool as Decode<'b, C>>::decodes(s, p, Ok(x), p + encoding::<C, bool>(&x).len()),
{
    let b = if x { 0xf5u8 } else { 0xf4u8 };
    lemma_joined_one(seq![b]);
    assert(s[p] == s.subrange(p, p + 1)[0]);
}

/// Decoding a `char` where its encoding stands gives it back and ends after it.
pub proof fn law_char_roundtrip<'b, C>(x: char, s: Seq<u8>, p: int)
    requires
        0 <= p,
        p + encoding::<C, char>(&x).len() <= s.len(),
        s.subrange(p, p + encoding::<C, char>(&x).len()) == encoding::<C, char>(&x),
    ensures
        <char as Decode<'b, C>>::decodes(s, p, Ok(x), p + encoding::<C, char>(&x).len()),
{
    let n = x as u32;
    lemma_head_len(UNSIGNED, n as u64);
    lemma_head_read(s, p, UNSIGNED, n as u64);
    vstd::utf8::char_is_scalar(x);
    vstd::utf8::char_u32_cast(x, n);
}

/// Decoding a [`Tag`] where its encoding stands gives it back and ends after it.
pub proof fn law_tag_roundtrip<'b, C>(x: Tag, s: Seq<u8>, p: int)
    requires
        0 <= p,
        p + encoding::<C, Tag>(&x).len() <= s.len(),
        s.subrange(p, p + encoding::<C, Tag>(&x).len()) == encoding::<C, Tag>(&x),
    ensures
        <Tag as Decode<'b, C>>::decodes(s, p, Ok(x), p + encoding::<C, Tag>(&x).len()),
{
    lemma_head_len(TAGGED, x.num());
    lemma_head_read(s, p, TAGGED, x.num());
}

/// Decoding `()` where its encoding stands gives it back and ends after it.
pub proof fn law_unit_roundtrip<'b, C>(x: (), s: Seq<u8>, p: int)
    requires
        0 <= p,
        p + encoding::<C, ()>(&x).len() <= s.len(),
        s.subrange(p, p + encoding::<C, ()>(&x).len()) == encoding::<C, ()>(&x),
    ensures
        <() as Decode<'b, C>>::decodes(s, p, Ok(x), p + encoding::<C, ()>(&x).len()),
{
    lemma_head_len(ARRAY, 0);
    lemma_head_read(s, p, ARRAY, 0);
}

/// Decoding a `&str` where the encoding of a string stands gives back its
/// text and ends after it.
pub proof fn law_str_roundtrip<'b, C>(x: &'b str, s: Seq<u8>, p: int)
    requires
        x.spec_bytes().len() <= usize::MAX,
        0 <= p,
        p + encoding::<C, str>(x).len() <= s.len(),
        s.subrange(p, p + encoding::<C, str>(x).len()) == encoding::<C, str>(x),
    ensures
        <&'b str as Decode<'b, C>>::decodes(s, p, Ok(x), p + encoding::<C, str>(x).len()),
{
    let b = x.spec_bytes();
    let n = b.len() as u64;
    let h = head(TEXT, n);
    lemma_head_len(TEXT, n);
    lemma_joined_append(head_parts(TEXT, n), seq![b]);
    lemma_joined_one(b);
    let e = encoding::<C, str>(x);
    assert(e =~= h + b);
    let w = s.subrange(p, p + e.len());
    assert(s.subrange(p, p + h.len()) =~= w.subrange(0, h.len() as int));
    assert(w.subrange(0, h.len() as int) =~= h);
    lemma_head_read(s, p, TEXT, n);
    assert(s.subrange(p + h.len(), p + h.len() + b.len()) =~= w.subrange(h.len() as int, e.len() as int));
    assert(w.subrange(h.len() as int, e.len() as int) =~= b);
    vstd::utf8::encode_utf8_valid_utf8(x@);
}

/// Decoding a [`Tagged`] value where its encoding stands gives it back and
/// ends after it, where the tagged value reads back from behind the tag.
pub proof fn law_tagged_roundtrip<'b, C, const N: u64, T: Encode<C> + Decode<'b, C>>(x: Tagged<N, T>, s: Seq<u8>, p: int)
    requires
        0 <= p,
        p + encoding::<C, Tagged<N, T>>(&x).len() <= s.len(),
        s.subrange(p, p + encoding::<C, Tagged<N, T>>(&x).len()) == encoding::<C, Tagged<N, T>>(&x),
        T::decodes(s, p + head_len(N), Ok(x.inner()), p + encoding::<C, Tagged<N, T>>(&x).len()),
    ensures
        <Tagged<N, T> as Decode<'b, C>>::decodes(s, p, Ok(x), p + encoding::<C, Tagged<N, T>>(&x).len()),
{
    let e = encoding::<C, Tagged<N, T>>(&x);
    let h = head(TAGGED, N);
    lemma_head_len(TAGGED, N);
    lemma_joined_append(head_parts(TAGGED, N), x.inner().parts());
    let w = s.subrange(p, p + e.len());
    assert(s.subrange(p, p + h.len()) =~= w.subrange(0, h.len() as int));
    assert(w.subrange(0, h.len() as int) =~= h);
    lemma_head_read(s, p, TAGGED, N);
}

/// Decoding a pair where its encoding stands gives it back and ends after
/// it, where each of its items reads back from where it stands.
pub proof fn law_pair_roundtrip<'b, C, A: Encode<C> + Decode<'b, C>, B: Encode<C> + Decode<'b, C>>(x: (A, B), s: Seq<u8>, p: int)
    requires
        0 <= p,
        p + encoding::<C, (A, B)>(&x).len() <= s.len(),
        s.subrange(p, p + encoding::<C, (A, B)>(&x).len()) == encoding::<C, (A, B)>(&x),
        A::decodes(s, p + 1, Ok(x.0), p + 1 + encoding::<C, A>(&x.0).len()),
        B::decodes(s, p + 1 + encoding::<C, A>(&x.0).len(), Ok(x.1), p + encoding::<C, (A, B)>(&x).len()),
    ensures
        <(A, B) as Decode<'b, C>>::decodes(s, p, Ok(x), p + encoding::<C, (A, B)>(&x).len()),
{
    let e = encoding::<C, (A, B)>(&x);
    let h = head(ARRAY, 2);
    lemma_head_len(ARRAY, 2);
    lemma_joined_append(head_parts(ARRAY, 2) + x.0.parts(), x.1.parts());
    lemma_joined_append(head_parts(ARRAY, 2), x.0.parts());
    let w = s.subrange(p, p + e.len());
    assert(s.subrange(p, p + h.len()) =~= w.subrange(0, h.len() as int));
    assert(w.subrange(0, h.len() as int) =~= h);
    lemma_head_read(s, p, ARRAY, 2);
    lemma_entry_ok::<'b, C, A, B>(s, p + 1, p + 1 + encoding::<C, A>(&x.0).len(), p + e.len(), x.0, x.1);
    assert(x == (x.0, x.1));
}

/// Decoding `None` where its encoding stands gives it back and ends after it.
pub proof fn law_none_roundtrip<'b, C, T: Encode<C> + Decode<'b, C>>(s: Seq<u8>, p: int)
    requires
        0 <= p,
        p + encoding::<C, Option<T>>(&None).len() <= s.len(),
        s.subrange(p, p + encoding::<C, Option<T>>(&None).len()) == encoding::<C, Option<T>>(&None),
    ensures
        <Option<T> as Decode<'b, C>>::decodes(s, p, Ok(None), p + encoding::<C, Option<T>>(&None).len()),
{
    lemma_joined_one(seq![0xf6u8]);
    assert(s[p] == s.subrange(p, p + 1)[0]);
}

/// Decoding `Some(v)` where its encoding stands gives it back and ends after
/// it, where `v` reads back from there and its encoding does not begin as
/// `null` does.
pub proof fn law_some_roundtrip<'b, C, T: Encode<C> + Decode<'b, C>>(v: T, s: Seq<u8>, p: int)
    requires
        0 <= p < s.len(),
        s[p] != 0xf6,
        crate::decode::reads::datatype_at(s, p) is Ok,
        T::decodes(s, p, Ok(v), p + encoding::<C, T>(&v).len()),
    ensures
        <Option<T> as Decode<'b, C>>::decodes(s, p, Ok(Some(v)), p + encoding::<C, Option<T>>(&Some(v)).len()),
{
}

/// Skipping over the encoding of an unsigned integer ends right after it.
pub proof fn law_skip_unsigned(x: u64, s: Seq<u8>, p: int)
    requires
        0 <= p,
        p + head_len(x) <= s.len(),
        s.subrange(p, p + head_len(x)) == head(UNSIGNED, x),
    ensures
        item_end(s, p) == (Ok::<(), crate::decode::error::ErrorView>(()), p + head_len(x)),
{
    lemma_head_read(s, p, UNSIGNED, x);
}

/// Skipping over the encoding of a text string ends right after it.
pub proof fn law_skip_str(x: &str, s: Seq<u8>, p: int)
    requires
        x.spec_bytes().len() <= usize::MAX,
        0 <= p,
        p + encoding::<(), str>(x).len() <= s.len(),
        s.subrange(p, p + encoding::<(), str>(x).len()) == encoding::<(), str>(x),
    ensures
        item_end(s, p) == (Ok::<(), crate::decode::error::ErrorView>(()), p + encoding::<(), str>(x).len()),
{
    let b = x.spec_bytes();
    let n = b.len() as u64;
    let h = head(TEXT, n);
    lemma_head_len(TEXT, n);
    lemma_joined_append(head_parts(TEXT, n), seq![b]);
    lemma_joined_one(b);
    let e = encoding::<(), str>(x);
    assert(e =~= h + b);
    let w = s.subrange(p, p + e.len());
    assert(s.subrange(p, p + h.len()) =~= w.subrange(0, h.len() as int));
    assert(w.subrange(0, h.len() as int) =~= h);
    lemma_head_read(s, p, TEXT, n);
    vstd::utf8::encode_utf8_valid_utf8(x@);
    assert(s.subrange(p + h.len(), p + h.len() + b.len()) =~= w.subrange(h.len() as int, e.len() as int));
    assert(w.subrange(h.len() as int, e.len() as int) =~= b);
    let q = p + h.len();
    if n > 0 {
        assert(crate::decode::skip::chunks_end(s, q + n, Some(0usize), true) == (Ok::<(), crate::decode::error::ErrorView>(()), q + n));
    }
}

/// The size that the initial byte of a head announces is the length of that
/// head.
pub proof fn law_head_size(t: u8, x: u64)
    requires
        is_major(t),
    ensures
        crate::decode::info::head_size(head(t, x)[0]) == Ok::<usize, crate::decode::error::ErrorView>(head_len(x) as usize),
{
    let h = head(t, x);
    lemma_head_len(t, x);
    assert(h.subrange(0, head_len(x) as int) =~= h);
    lemma_head_read(h, 0, t, x);
    assert((t + info_of(x)) % 32 == info_of(x));
}

/// Decoding `Ok(x)` where its encoding stands gives it back and ends after it,
/// where `x` reads back from behind the array head and the variant's number.
pub proof fn law_ok_roundtrip<'b, C, T: Encode<C> + Decode<'b, C>, E: Encode<C> + Decode<'b, C>>(x: T, s: Seq<u8>, p: int)
    requires
        0 <= p,
        p + encoding::<C, Result<T, E>>(&Ok(x)).len() <= s.len(),
        s.subrange(p, p + encoding::<C, Result<T, E>>(&Ok(x)).len()) == encoding::<C, Result<T, E>>(&Ok(x)),
        T::decodes(s, p + 2, Ok(x), p + encoding::<C, Result<T, E>>(&Ok(x)).len()),
    ensures
        <Result<T, E> as Decode<'b, C>>::decodes(s, p, Ok(Ok(x)), p + encoding::<C, Result<T, E>>(&Ok(x)).len()),
{
    let v: Result<T, E> = Ok(x);
    let e = encoding::<C, Result<T, E>>(&v);
    let h = head(ARRAY, 2);
    let n = head(UNSIGNED, 0);
    lemma_head_len(ARRAY, 2);
    lemma_head_len(UNSIGNED, 0);
    lemma_joined_append(head_parts(ARRAY, 2) + head_parts(UNSIGNED, 0), x.parts());
    lemma_joined_append(head_parts(ARRAY, 2), head_parts(UNSIGNED, 0));
    let w = s.subrange(p, p + e.len());
    assert(s.subrange(p, p + 1) =~= w.subrange(0, 1));
    assert(w.subrange(0, 1) =~= h);
    assert(s.subrange(p + 1, p + 2) =~= w.subrange(1, 2));
    assert(w.subrange(1, 2) =~= n);
    lemma_head_read(s, p, ARRAY, 2);
    lemma_head_read(s, p + 1, UNSIGNED, 0);
}

/// Decoding `Err(x)` where its encoding stands gives it back and ends after it,
/// where `x` reads back from behind the array head and the variant's number.
pub proof fn law_err_roundtrip<'b, C, T: Encode<C> + Decode<'b, C>, E: Encode<C> + Decode<'b, C>>(x: E, s: Seq<u8>, p: int)
    requires
        0 <= p,
        p + encoding::<C, Result<T, E>>(&Err(x)).len() <= s.len(),
        s.subrange(p, p + encoding::<C, Result<T, E>>(&Err(x)).len()) == encoding::<C, Result<T, E>>(&Err(x)),
        E::decodes(s, p + 2, Ok(x), p + encoding::<C, Result<T, E>>(&Err(x)).len()),
    ensures
        <Result<T, E> as Decode<'b, C>>::decodes(s, p, Ok(Err(x)), p + encoding::<C, Result<T, E>>(&Err(x)).len()),
{
    let v: Result<T, E> = Err(x);
    let e = encoding::<C, Result<T, E>>(&v);
    let h = head(ARRAY, 2);
    let n = head(UNSIGNED, 1);
    lemma_head_len(ARRAY, 2);
    lemma_head_len(UNSIGNED, 1);
    lemma_joined_append(head_parts(ARRAY, 2) + head_parts(UNSIGNED, 1), x.parts());
    lemma_joined_append(head_parts(ARRAY, 2), head_parts(UNSIGNED, 1));
    let w = s.subrange(p, p + e.len());
    assert(s.subrange(p, p + 1) =~= w.subrange(0, 1));
    assert(w.subrange(0, 1) =~= h);
    assert(s.subrange(p + 1, p + 2) =~= w.subrange(1, 2));
    assert(w.subrange(1, 2) =~= n);
    lemma_head_read(s, p, ARRAY, 2);
    lemma_head_read(s, p + 1, UNSIGNED, 1);
}

/// Where the items of `v` are encoded one after another, the offset at which
/// the encoding of item `i` begins.
pub open spec fn item_offset<C, T: Encode<C>>(v: Seq<T>, i: int) -> int {
    joined(items_parts::<C, T>(v.take(i))).len() as int
}

/// The encoding of item `i` follows those of the items before it.
pub proof fn lemma_item_offset_step<C, T: Encode<C>>(v: Seq<T>, i: int)
    requires
        0 <= i < v.len(),
    ensures
        item_offset::<C, T>(v, i + 1) == item_offset::<C, T>(v, i) + joined(v[i].parts()).len(),
{
    assert(v.take(i + 1).drop_last() =~= v.take(i));
    assert(v.take(i + 1).last() == v[i]);
    lemma_joined_append(items_parts::<C, T>(v.take(i)), v[i].parts());
}

/// Items that each read back from where they are encoded read back one after
/// another.
proof fn lemma_reads_all<'b, C, T: Encode<C> + Decode<'b, C>>(s: Seq<u8>, start: int, n: u64, v: Seq<T>, k: int)
    requires
        v.len() == n,
        0 <= k <= n,
        forall|i: int| 0 <= i < v.len() ==> #[trigger] T::decodes(
            s,
            start + item_offset::<C, T>(v, i),
            Ok(v[i]),
            start + item_offset::<C, T>(v, i + 1),
        ),
    ensures
        reads_items::<'b, C, T>(s, start, Some(n), v.take(k), Seq::new(k as nat, |i: int| start + item_offset::<C, T>(v, i + 1))),
    decreases k,
{
    let ends = Seq::new(k as nat, |i: int| start + item_offset::<C, T>(v, i + 1));
    if k > 0 {
        lemma_reads_all::<'b, C, T>(s, start, n, v, k - 1);
        let before = Seq::new((k - 1) as nat, |i: int| start + item_offset::<C, T>(v, i + 1));
        assert(v.take(k).drop_last() =~= v.take(k - 1));
        assert(ends.drop_last() =~= before);
        assert(v.take(k).last() == v[k - 1]);
        assert(item_offset::<C, T>(v, 0) == 0) by {
            assert(v.take(0) =~= Seq::<T>::empty());
        }
        let j = k - 1;
        assert(T::decodes(s, start + item_offset::<C, T>(v, j), Ok(v[j]), start + item_offset::<C, T>(v, j + 1)));
        assert(j + 1 == k);
    }
}

/// Decoding a vector where its encoding stands gives it back and ends after
/// it, where each of its items reads back from where it is encoded.
pub proof fn law_vec_roundtrip<'b, C, T: Encode<C> + Decode<'b, C>>(v: Vec<T>, s: Seq<u8>, p: int)
    requires
        v@.len() <= u64::MAX,
        0 <= p,
        p + encoding::<C, Vec<T>>(&v).len() <= s.len(),
        s.subrange(p, p + encoding::<C, Vec<T>>(&v).len()) == encoding::<C, Vec<T>>(&v),
        forall|i: int| 0 <= i < v@.len() ==> #[trigger] T::decodes(
            s,
            p + head_len(v@.len() as u64) + item_offset::<C, T>(v@, i),
            Ok(v@[i]),
            p + head_len(v@.len() as u64) + item_offset::<C, T>(v@, i + 1),
        ),
    ensures
        <Vec<T> as Decode<'b, C>>::decodes(s, p, Ok(v), p + encoding::<C, Vec<T>>(&v).len()),
{
    let n = v@.len() as u64;
    let e = encoding::<C, Vec<T>>(&v);
    let h = head(ARRAY, n);
    let start = p + head_len(n);
    lemma_head_len(ARRAY, n);
    lemma_joined_append(head_parts(ARRAY, n), items_parts::<C, T>(v@));
    let w = s.subrange(p, p + e.len());
    assert(s.subrange(p, p + h.len()) =~= w.subrange(0, h.len() as int));
    assert(w.subrange(0, h.len() as int) =~= h);
    lemma_head_read(s, p, ARRAY, n);
    lemma_reads_all::<'b, C, T>(s, start, n, v@, n as int);
    assert(v@.take(n as int) =~= v@);
    let ends = Seq::new(n as nat, |i: int| start + item_offset::<C, T>(v@, i + 1));
    assert(item_offset::<C, T>(v@, 0) == 0) by {
        assert(v@.take(0) =~= Seq::<T>::empty());
    }
    lemma_items_ok::<'b, C, T>(s, p, Some(n), v@, ends, p + e.len());
}

/// Decoding an array of `N` items where the encoding of one stands gives it
/// back and ends after it, where each of its items reads back from where it
/// is encoded.
pub proof fn law_array_roundtrip<'b, C, T: Encode<C> + Decode<'b, C>, const N: usize>(v: [T; N], s: Seq<u8>, p: int)
    requires
        N <= u64::MAX,
        0 <= p,
        p + encoding::<C, [T; N]>(&v).len() <= s.len(),
        s.subrange(p, p + encoding::<C, [T; N]>(&v).len()) == encoding::<C, [T; N]>(&v),
        forall|i: int| 0 <= i < v@.len() ==> #[trigger] T::decodes(
            s,
            p + head_len(N as u64) + item_offset::<C, T>(v@, i),
            Ok(v@[i]),
            p + head_len(N as u64) + item_offset::<C, T>(v@, i + 1),
        ),
    ensures
        <[T; N] as Decode<'b, C>>::decodes(s, p, Ok(v), p + encoding::<C, [T; N]>(&v).len()),
{
    let n = N as u64;
    let e = encoding::<C, [T; N]>(&v);
    let h = head(ARRAY, n);
    let start = p + head_len(n);
    assert(v@.len() == N);
    lemma_head_len(ARRAY, n);
    lemma_joined_append(head_parts(ARRAY, n), items_parts::<C, T>(v@));
    let w = s.subrange(p, p + e.len());
    assert(s.subrange(p, p + h.len()) =~= w.subrange(0, h.len() as int));
    assert(w.subrange(0, h.len() as int) =~= h);
    lemma_head_read(s, p, ARRAY, n);
    lemma_reads_all::<'b, C, T>(s, start, n, v@, n as int);
    assert(v@.take(n as int) =~= v@);
    let ends = Seq::new(n as nat, |i: int| start + item_offset::<C, T>(v@, i + 1));
    assert(item_offset::<C, T>(v@, 0) == 0) by {
        assert(v@.take(0) =~= Seq::<T>::empty());
    }
    lemma_exactly_ok::<'b, C, T>(s, p, N as int, Some(n), v@, ends, p + e.len());
}

/// Decoding a `usize` where its encoding stands gives it back and ends after it.
pub proof fn law_usize_roundtrip<'b, C>(x: usize, s: Seq<u8>, p: int)
    requires
        0 <= p,
        p + encoding::<C, usize>(&x).len() <= s.len(),
        s.subrange(p, p + encoding::<C, usize>(&x).len()) == encoding::<C, usize>(&x),
    ensures
        <usize as Decode<'b, C>>::decodes(s, p, Ok(x), p + encoding::<C, usize>(&x).len()),
{
    lemma_head_len(UNSIGNED, x as u64);
    lemma_head_read(s, p, UNSIGNED, x as u64);
}

/// Decoding an `isize` where its encoding stands gives it back and ends after it.
pub proof fn law_isize_roundtrip<'b, C>(x: isize, s: Seq<u8>, p: int)
    requires
        0 <= p,
        p + encoding::<C, isize>(&x).len() <= s.len(),
        s.subrange(p, p + encoding::<C, isize>(&x).len()) == encoding::<C, isize>(&x),
    ensures
        <isize as Decode<'b, C>>::decodes(s, p, Ok(x), p + encoding::<C, isize>(&x).len()),
{
    if x >= 0 {
        lemma_head_len(UNSIGNED, x as u64);
        lemma_head_read(s, p, UNSIGNED, x as u64);
    } else {
        let n = (-1 - x) as u64;
        lemma_head_len(SIGNED, n);
        lemma_head_read(s, p, SIGNED, n);
        assert((-1 - n) as i64 == x);
    }
}

/// Decoding `PhantomData` where its encoding stands gives it back and ends
/// after it.
pub proof fn law_phantom_roundtrip<'b, C, T>(x: core::marker::PhantomData<T>, s: Seq<u8>, p: int)
    requires
        0 <= p,
        p + encoding::<C, core::marker::PhantomData<T>>(&x).len() <= s.len(),
        s.subrange(p, p + encoding::<C, core::marker::PhantomData<T>>(&x).len()) == encoding::<C, core::marker::PhantomData<T>>(&x),
    ensures
        <core::marker::PhantomData<T> as Decode<'b, C>>::decodes(s, p, Ok(x), p + encoding::<C, core::marker::PhantomData<T>>(&x).len()),
{
    lemma_head_len(ARRAY, 0);
    lemma_head_read(s, p, ARRAY, 0);
}

/// Decoding a [`Tag`] where the encoding of a registered tag `i` stands gives
/// the tag `t` with its number, which converts back to `i`.
pub proof fn law_iana_tag_roundtrip<'b, C>(i: IanaTag, t: Tag, s: Seq<u8>, p: int)
    requires
        t.num() == iana_number(i),
        0 <= p,
        p + encoding::<C, IanaTag>(&i).len() <= s.len(),
        s.subrange(p, p + encoding::<C, IanaTag>(&i).len()) == encoding::<C, IanaTag>(&i),
    ensures
        <Tag as Decode<'b, C>>::decodes(s, p, Ok(t), p + encoding::<C, IanaTag>(&i).len()),
        <IanaTag as vstd::std_specs::convert::TryFromSpec<Tag>>::try_from_spec(t) == Ok::<IanaTag, crate::data::UnknownTag>(i),
{
    lemma_head_len(TAGGED, iana_number(i));
    lemma_head_read(s, p, TAGGED, iana_number(i));
    crate::data::lemma_iana_roundtrip(i);
}

/// Decoding a `String` where the encoding of a string stands gives back its
/// text and ends after it.
pub proof fn law_string_roundtrip<'b, C>(x: String, s: Seq<u8>, p: int)
    requires
        vstd::utf8::encode_utf8(x@).len() <= usize::MAX,
        0 <= p,
        p + encoding::<C, String>(&x).len() <= s.len(),
        s.subrange(p, p + encoding::<C, String>(&x).len()) == encoding::<C, String>(&x),
    ensures
        <String as Decode<'b, C>>::decodes(s, p, Ok(x), p + encoding::<C, String>(&x).len()),
{
    let b = vstd::utf8::encode_utf8(x@);
    let n = b.len() as u64;
    let h = head(TEXT, n);
    lemma_head_len(TEXT, n);
    lemma_joined_append(head_parts(TEXT, n), seq![b]);
    lemma_joined_one(b);
    let e = encoding::<C, String>(&x);
    assert(e =~= h + b);
    let w = s.subrange(p, p + e.len());
    assert(s.subrange(p, p + h.len()) =~= w.subrange(0, h.len() as int));
    assert(w.subrange(0, h.len() as int) =~= h);
    lemma_head_read(s, p, TEXT, n);
    assert(s.subrange(p + h.len(), p + h.len() + b.len()) =~= w.subrange(h.len() as int, e.len() as int));
    assert(w.subrange(h.len() as int, e.len() as int) =~= b);
    vstd::utf8::encode_utf8_valid_utf8(x@);
}

/// Decoding a `Box` where its encoding stands gives it back and ends after
/// it, where the boxed value reads back from there.
pub proof fn law_box_roundtrip<'b, C, T: Encode<C> + Decode<'b, C>>(x: Box<T>, s: Seq<u8>, p: int)
    requires
        T::decodes(s, p, Ok(*x), p + encoding::<C, T>(&*x).len()),
    ensures
        <Box<T> as Decode<'b, C>>::decodes(s, p, Ok(x), p + encoding::<C, Box<T>>(&x).len()),
{
}

/// Decoding a triple where its encoding stands gives it back and ends after
/// it, where each of its items reads back from where it stands.
pub proof fn law_triple_roundtrip<'b, C, A: Encode<C> + Decode<'b, C>, B: Encode<C> + Decode<'b, C>, D: Encode<C> + Decode<'b, C>>(x: (A, B, D), s: Seq<u8>, p: int)
    requires
        0 <= p,
        p + encoding::<C, (A, B, D)>(&x).len() <= s.len(),
        s.subrange(p, p + encoding::<C, (A, B, D)>(&x).len()) == encoding::<C, (A, B, D)>(&x),
        A::decodes(s, p + 1, Ok(x.0), p + 1 + encoding::<C, A>(&x.0).len()),
        B::decodes(s, p + 1 + encoding::<C, A>(&x.0).len(), Ok(x.1), p + 1 + encoding::<C, A>(&x.0).len() + encoding::<C, B>(&x.1).len()),
        D::decodes(s, p + 1 + encoding::<C, A>(&x.0).len() + encoding::<C, B>(&x.1).len(), Ok(x.2), p + encoding::<C, (A, B, D)>(&x).len()),
    ensures
        <(A, B, D) as Decode<'b, C>>::decodes(s, p, Ok(x), p + encoding::<C, (A, B, D)>(&x).len()),
{
    let e = encoding::<C, (A, B, D)>(&x);
    let h = head(ARRAY, 3);
    lemma_head_len(ARRAY, 3);
    lemma_joined_append(head_parts(ARRAY, 3) + x.0.parts() + x.1.parts(), x.2.parts());
    lemma_joined_append(head_parts(ARRAY, 3) + x.0.parts(), x.1.parts());
    lemma_joined_append(head_parts(ARRAY, 3), x.0.parts());
    let w = s.subrange(p, p + e.len());
    assert(s.subrange(p, p + h.len()) =~= w.subrange(0, h.len() as int));
    assert(w.subrange(0, h.len() as int) =~= h);
    lemma_head_read(s, p, ARRAY, 3);
    let e2 = p + 1 + encoding::<C, A>(&x.0).len();
    let e3 = e2 + encoding::<C, B>(&x.1).len();
    lemma_triple_ok::<'b, C, A, B, D>(s, p, e2, e3, p + e.len(), x.0, x.1, x.2);
    assert(x == (x.0, x.1, x.2));
}

/// Decoding a `Cow<str>` where the encoding of one stands gives back its
/// text, owned, and ends after it.
pub proof fn law_cow_str_roundtrip<'a, 'b, C>(x: std::borrow::Cow<'a, str>, y: std::borrow::Cow<'a, str>, s: Seq<u8>, p: int)
    requires
        y is Owned,
        y@ == x@,
        vstd::utf8::encode_utf8(x@).len() <= usize::MAX,
        0 <= p,
        p + encoding::<C, std::borrow::Cow<'a, str>>(&x).len() <= s.len(),
        s.subrange(p, p + encoding::<C, std::borrow::Cow<'a, str>>(&x).len()) == encoding::<C, std::borrow::Cow<'a, str>>(&x),
    ensures
        <std::borrow::Cow<'a, str> as Decode<'b, C>>::decodes(s, p, Ok(y), p + encoding::<C, std::borrow::Cow<'a, str>>(&x).len()),
{
    let b = vstd::utf8::encode_utf8(x@);
    let n = b.len() as u64;
    let h = head(TEXT, n);
    lemma_head_len(TEXT, n);
    lemma_joined_append(head_parts(TEXT, n), seq![b]);
    lemma_joined_one(b);
    let e = encoding::<C, std::borrow::Cow<'a, str>>(&x);
    assert(e =~= h + b);
    let w = s.subrange(p, p + e.len());
    assert(s.subrange(p, p + h.len()) =~= w.subrange(0, h.len() as int));
    assert(w.subrange(0, h.len() as int) =~= h);
    lemma_head_read(s, p, TEXT, n);
    assert(s.subrange(p + h.len(), p + h.len() + b.len()) =~= w.subrange(h.len() as int, e.len() as int));
    assert(w.subrange(h.len() as int, e.len() as int) =~= b);
    vstd::utf8::encode_utf8_valid_utf8(x@);
}

/// Decoding a `Box<str>` where the encoding of one stands gives back its
/// text and ends after it.
pub proof fn law_boxed_str_roundtrip<'b, C>(x: Box<str>, y: Box<str>, s: Seq<u8>, p: int)
    requires
        y@ == x@,
        (*x).spec_bytes().len() <= usize::MAX,
        0 <= p,
        p + encoding::<C, Box<str>>(&x).len() <= s.len(),
        s.subrange(p, p + encoding::<C, Box<str>>(&x).len()) == encoding::<C, Box<str>>(&x),
    ensures
        <Box<str> as Decode<'b, C>>::decodes(s, p, Ok(y), p + encoding::<C, Box<str>>(&x).len()),
{
    let b = (*x).spec_bytes();
    let n = b.len() as u64;
    let h = head(TEXT, n);
    lemma_head_len(TEXT, n);
    lemma_joined_append(head_parts(TEXT, n), seq![b]);
    lemma_joined_one(b);
    let e = encoding::<C, Box<str>>(&x);
    assert(e =~= h + b);
    let w = s.subrange(p, p + e.len());
    assert(s.subrange(p, p + h.len()) =~= w.subrange(0, h.len() as int));
    assert(w.subrange(0, h.len() as int) =~= h);
    lemma_head_read(s, p, TEXT, n);
    assert(s.subrange(p + h.len(), p + h.len() + b.len()) =~= w.subrange(h.len() as int, e.len() as int));
    assert(w.subrange(h.len() as int, e.len() as int) =~= b);
    vstd::utf8::encode_utf8_valid_utf8(x@);
}

/// Whether every value of `T` reads back from where its encoding stands in an
/// input that a slice can hold, ending right after it.
pub open spec fn roundtrips<'b, C, T: Encode<C> + Decode<'b, C>>() -> bool {
    forall|x: T, s: Seq<u8>, p: int, end: int|
        end == p + encoding::<C, T>(&x).len() && 0 <= p && end <= s.len() && s.len() <= usize::MAX
            && s.subrange(p, end) == encoding::<C, T>(&x)
        ==> #[trigger] T::decodes(s, p, Ok(x), end)
}

/// Where `w` stands at `p` in `s`, its bytes from `i` to `j` stand at `p + i`.
proof fn lemma_stands_within(s: Seq<u8>, p: int, w: Seq<u8>, i: int, j: int)
    requires
        0 <= p,
        p + w.len() <= s.len(),
        s.subrange(p, p + w.len()) == w,
        0 <= i <= j <= w.len(),
    ensures
        s.subrange(p + i, p + j) == w.subrange(i, j),
{
    assert(s.subrange(p + i, p + j) =~= w.subrange(i, j));
}

/// Numbers, `bool`, `char`, [`Int`], [`Tag`], `()`, `PhantomData`, `String`
/// and `Box<str>` read back from their encoding.
pub proof fn lemma_roundtrips_scalars<'b, C, P>()
    ensures
        roundtrips::<'b, C, u8>(),
        roundtrips::<'b, C, u16>(),
        roundtrips::<'b, C, u32>(),
        roundtrips::<'b, C, u64>(),
        roundtrips::<'b, C, usize>(),
        roundtrips::<'b, C, i8>(),
        roundtrips::<'b, C, i16>(),
        roundtrips::<'b, C, i32>(),
        roundtrips::<'b, C, i64>(),
        roundtrips::<'b, C, isize>(),
        roundtrips::<'b, C, bool>(),
        roundtrips::<'b, C, char>(),
        roundtrips::<'b, C, Int>(),
        roundtrips::<'b, C, Tag>(),
        roundtrips::<'b, C, ()>(),
        roundtrips::<'b, C, core::marker::PhantomData<P>>(),
        roundtrips::<'b, C, String>(),
        roundtrips::<'b, C, Box<str>>(),
{
    assert forall|x: u8, s: Seq<u8>, p: int, end: int|
        end == p + encoding::<C, u8>(&x).len() && 0 <= p && end <= s.len() && s.len() <= usize::MAX
            && s.subrange(p, end) == encoding::<C, u8>(&x)
        implies #[trigger] <u8 as Decode<'b, C>>::decodes(s, p, Ok(x), end) by {
        law_u8_roundtrip::<C>(x, s, p);
    }
    assert forall|x: u16, s: Seq<u8>, p: int, end: int|
        end == p + encoding::<C, u16>(&x).len() && 0 <= p && end <= s.len() && s.len() <= usize::MAX
            && s.subrange(p, end) == encoding::<C, u16>(&x)
        implies #[trigger] <u16 as Decode<'b, C>>::decodes(s, p, Ok(x), end) by {
        law_u16_roundtrip::<C>(x, s, p);
    }
    assert forall|x: u32, s: Seq<u8>, p: int, end: int|
        end == p + encoding::<C, u32>(&x).len() && 0 <= p && end <= s.len() && s.len() <= usize::MAX
            && s.subrange(p, end) == encoding::<C, u32>(&x)
        implies #[trigger] <u32 as Decode<'b, C>>::decodes(s, p, Ok(x), end) by {
        law_u32_roundtrip::<C>(x, s, p);
    }
    assert forall|x: u64, s: Seq<u8>, p: int, end: int|
        end == p + encoding::<C, u64>(&x).len() && 0 <= p && end <= s.len() && s.len() <= usize::MAX
            && s.subrange(p, end) == encoding::<C, u64>(&x)
        implies #[trigger] <u64 as Decode<'b, C>>::decodes(s, p, Ok(x), end) by {
        law_u64_roundtrip::<C>(x, s, p);
    }
    assert forall|x: usize, s: Seq<u8>, p: int, end: int|
        end == p + encoding::<C, usize>(&x).len() && 0 <= p && end <= s.len() && s.len() <= usize::MAX
            && s.subrange(p, end) == encoding::<C, usize>(&x)
        implies #[trigger] <usize as Decode<'b, C>>::decodes(s, p, Ok(x), end) by {
        law_usize_roundtrip::<C>(x, s, p);
    }
    assert forall|x: i8, s: Seq<u8>, p: int, end: int|
        end == p + encoding::<C, i8>(&x).len() && 0 <= p && end <= s.len() && s.len() <= usize::MAX
            && s.subrange(p, end) == encoding::<C, i8>(&x)
        implies #[trigger] <i8 as Decode<'b, C>>::decodes(s, p, Ok(x), end) by {
        law_i8_roundtrip::<C>(x, s, p);
    }
    assert forall|x: i16, s: Seq<u8>, p: int, end: int|
        end == p + encoding::<C, i16>(&x).len() && 0 <= p && end <= s.len() && s.len() <= usize::MAX
            && s.subrange(p, end) == encoding::<C, i16>(&x)
        implies #[trigger] <i16 as Decode<'b, C>>::decodes(s, p, Ok(x), end) by {
        law_i16_roundtrip::<C>(x, s, p);
    }
    assert forall|x: i32, s: Seq<u8>, p: int, end: int|
        end == p + encoding::<C, i32>(&x).len() && 0 <= p && end <= s.len() && s.len() <= usize::MAX
            && s.subrange(p, end) == encoding::<C, i32>(&x)
        implies #[trigger] <i32 as Decode<'b, C>>::decodes(s, p, Ok(x), end) by {
        law_i32_roundtrip::<C>(x, s, p);
    }
    assert forall|x: i64, s: Seq<u8>, p: int, end: int|
        end == p + encoding::<C, i64>(&x).len() && 0 <= p && end <= s.len() && s.len() <= usize::MAX
            && s.subrange(p, end) == encoding::<C, i64>(&x)
        implies #[trigger] <i64 as Decode<'b, C>>::decodes(s, p, Ok(x), end) by {
        law_i64_roundtrip::<C>(x, s, p);
    }
    assert forall|x: isize, s: Seq<u8>, p: int, end: int|
        end == p + encoding::<C, isize>(&x).len() && 0 <= p && end <= s.len() && s.len() <= usize::MAX
            && s.subrange(p, end) == encoding::<C, isize>(&x)
        implies #[trigger] <isize as Decode<'b, C>>::decodes(s, p, Ok(x), end) by {
        law_isize_roundtrip::<C>(x, s, p);
    }
    assert forall|x: bool, s: Seq<u8>, p: int, end: int|
        end == p + encoding::<C, bool>(&x).len() && 0 <= p && end <= s.len() && s.len() <= usize::MAX
            && s.subrange(p, end) == encoding::<C, bool>(&x)
        implies #[trigger] <bool as Decode<'b, C>>::decodes(s, p, Ok(x), end) by {
        law_bool_roundtrip::<C>(x, s, p);
    }
    assert forall|x: char, s: Seq<u8>, p: int, end: int|
        end == p + encoding::<C, char>(&x).len() && 0 <= p && end <= s.len() && s.len() <= usize::MAX
            && s.subrange(p, end) == encoding::<C, char>(&x)
        implies #[trigger] <char as Decode<'b, C>>::decodes(s, p, Ok(x), end) by {
        law_char_roundtrip::<C>(x, s, p);
    }
    assert forall|x: Int, s: Seq<u8>, p: int, end: int|
        end == p + encoding::<C, Int>(&x).len() && 0 <= p && end <= s.len() && s.len() <= usize::MAX
            && s.subrange(p, end) == encoding::<C, Int>(&x)
        implies #[trigger] <Int as Decode<'b, C>>::decodes(s, p, Ok(x), end) by {
        law_int_roundtrip::<C>(x, s, p);
    }
    assert forall|x: Tag, s: Seq<u8>, p: int, end: int|
        end == p + encoding::<C, Tag>(&x).len() && 0 <= p && end <= s.len() && s.len() <= usize::MAX
            && s.subrange(p, end) == encoding::<C, Tag>(&x)
        implies #[trigger] <Tag as Decode<'b, C>>::decodes(s, p, Ok(x), end) by {
        law_tag_roundtrip::<C>(x, s, p);
    }
    assert forall|x: (), s: Seq<u8>, p: int, end: int|
        end == p + encoding::<C, ()>(&x).len() && 0 <= p && end <= s.len() && s.len() <= usize::MAX
            && s.subrange(p, end) == encoding::<C, ()>(&x)
        implies #[trigger] <() as Decode<'b, C>>::decodes(s, p, Ok(x), end) by {
        law_unit_roundtrip::<C>(x, s, p);
    }
    assert forall|x: core::marker::PhantomData<P>, s: Seq<u8>, p: int, end: int|
        end == p + encoding::<C, core::marker::PhantomData<P>>(&x).len() && 0 <= p && end <= s.len() && s.len() <= usize::MAX
            && s.subrange(p, end) == encoding::<C, core::marker::PhantomData<P>>(&x)
        implies #[trigger] <core::marker::PhantomData<P> as Decode<'b, C>>::decodes(s, p, Ok(x), end) by {
        law_phantom_roundtrip::<C, P>(x, s, p);
    }
    assert forall|x: String, s: Seq<u8>, p: int, end: int|
        end == p + encoding::<C, String>(&x).len() && 0 <= p && end <= s.len() && s.len() <= usize::MAX
            && s.subrange(p, end) == encoding::<C, String>(&x)
        implies #[trigger] <String as Decode<'b, C>>::decodes(s, p, Ok(x), end) by {
        let b = vstd::utf8::encode_utf8(x@);
        lemma_joined_append(head_parts(TEXT, b.len() as u64), seq![b]);
        lemma_joined_one(b);
        law_string_roundtrip::<C>(x, s, p);
    }
    assert forall|x: Box<str>, s: Seq<u8>, p: int, end: int|
        end == p + encoding::<C, Box<str>>(&x).len() && 0 <= p && end <= s.len() && s.len() <= usize::MAX
            && s.subrange(p, end) == encoding::<C, Box<str>>(&x)
        implies #[trigger] <Box<str> as Decode<'b, C>>::decodes(s, p, Ok(x), end) by {
        let b = (*x).spec_bytes();
        lemma_joined_append(head_parts(TEXT, b.len() as u64), seq![b]);
        lemma_joined_one(b);
        law_boxed_str_roundtrip::<C>(x, x, s, p);
    }
}

/// `Box<T>`, `Tagged<N, T>` and `Result<T, E>` read back from their encoding
/// where their parts do.
pub proof fn lemma_roundtrips_wrappers<'b, C, const N: u64, T: Encode<C> + Decode<'b, C>, E: Encode<C> + Decode<'b, C>>()
    requires
        roundtrips::<'b, C, T>(),
        roundtrips::<'b, C, E>(),
    ensures
        roundtrips::<'b, C, Box<T>>(),
        roundtrips::<'b, C, Tagged<N, T>>(),
        roundtrips::<'b, C, Result<T, E>>(),
{
    assert forall|x: Box<T>, s: Seq<u8>, p: int, end: int|
        end == p + encoding::<C, Box<T>>(&x).len() && 0 <= p && end <= s.len() && s.len() <= usize::MAX
            && s.subrange(p, end) == encoding::<C, Box<T>>(&x)
        implies #[trigger] <Box<T> as Decode<'b, C>>::decodes(s, p, Ok(x), end) by {
        assert(T::decodes(s, p, Ok(*x), end));
    }
    assert forall|x: Tagged<N, T>, s: Seq<u8>, p: int, end: int|
        end == p + encoding::<C, Tagged<N, T>>(&x).len() && 0 <= p && end <= s.len() && s.len() <= usize::MAX
            && s.subrange(p, end) == encoding::<C, Tagged<N, T>>(&x)
        implies #[trigger] <Tagged<N, T> as Decode<'b, C>>::decodes(s, p, Ok(x), end) by {
        let w = encoding::<C, Tagged<N, T>>(&x);
        let hl = head_len(N) as int;
        lemma_head_len(TAGGED, N);
        lemma_joined_append(head_parts(TAGGED, N), x.inner().parts());
        lemma_stands_within(s, p, w, hl, w.len() as int);
        assert(w.subrange(hl, w.len() as int) =~= encoding::<C, T>(&x.inner()));
        assert(T::decodes(s, p + hl, Ok(x.inner()), end));
        law_tagged_roundtrip::<'b, C, N, T>(x, s, p);
    }
    assert forall|x: Result<T, E>, s: Seq<u8>, p: int, end: int|
        end == p + encoding::<C, Result<T, E>>(&x).len() && 0 <= p && end <= s.len() && s.len() <= usize::MAX
            && s.subrange(p, end) == encoding::<C, Result<T, E>>(&x)
        implies #[trigger] <Result<T, E> as Decode<'b, C>>::decodes(s, p, Ok(x), end) by {
        let w = encoding::<C, Result<T, E>>(&x);
        lemma_head_len(ARRAY, 2);
        match x {
            Ok(y) => {
                lemma_head_len(UNSIGNED, 0);
                lemma_joined_append(head_parts(ARRAY, 2) + head_parts(UNSIGNED, 0), y.parts());
                lemma_joined_append(head_parts(ARRAY, 2), head_parts(UNSIGNED, 0));
                lemma_stands_within(s, p, w, 2, w.len() as int);
                assert(w.subrange(2, w.len() as int) =~= encoding::<C, T>(&y));
                assert(T::decodes(s, p + 2, Ok(y), end));
                law_ok_roundtrip::<'b, C, T, E>(y, s, p);
            },
            Err(y) => {
                lemma_head_len(UNSIGNED, 1);
                lemma_joined_append(head_parts(ARRAY, 2) + head_parts(UNSIGNED, 1), y.parts());
                lemma_joined_append(head_parts(ARRAY, 2), head_parts(UNSIGNED, 1));
                lemma_stands_within(s, p, w, 2, w.len() as int);
                assert(w.subrange(2, w.len() as int) =~= encoding::<C, E>(&y));
                assert(E::decodes(s, p + 2, Ok(y), end));
                law_err_roundtrip::<'b, C, T, E>(y, s, p);
            },
        }
    }
}

/// Pairs and triples read back from their encoding where their items do.
pub proof fn lemma_roundtrips_tuples<'b, C, A: Encode<C> + Decode<'b, C>, B: Encode<C> + Decode<'b, C>, D: Encode<C> + Decode<'b, C>>()
    requires
        roundtrips::<'b, C, A>(),
        roundtrips::<'b, C, B>(),
        roundtrips::<'b, C, D>(),
    ensures
        roundtrips::<'b, C, (A, B)>(),
        roundtrips::<'b, C, (A, B, D)>(),
{
    assert forall|x: (A, B), s: Seq<u8>, p: int, end: int|
        end == p + encoding::<C, (A, B)>(&x).len() && 0 <= p && end <= s.len() && s.len() <= usize::MAX
            && s.subrange(p, end) == encoding::<C, (A, B)>(&x)
        implies #[trigger] <(A, B) as Decode<'b, C>>::decodes(s, p, Ok(x), end) by {
        let w = encoding::<C, (A, B)>(&x);
        let la = encoding::<C, A>(&x.0).len() as int;
        lemma_head_len(ARRAY, 2);
        lemma_joined_append(head_parts(ARRAY, 2) + x.0.parts(), x.1.parts());
        lemma_joined_append(head_parts(ARRAY, 2), x.0.parts());
        lemma_stands_within(s, p, w, 1, 1 + la);
        lemma_stands_within(s, p, w, 1 + la, w.len() as int);
        assert(w.subrange(1, 1 + la) =~= encoding::<C, A>(&x.0));
        assert(w.subrange(1 + la, w.len() as int) =~= encoding::<C, B>(&x.1));
        assert(A::decodes(s, p + 1, Ok(x.0), p + 1 + la));
        assert(B::decodes(s, p + 1 + la, Ok(x.1), end));
        law_pair_roundtrip::<'b, C, A, B>(x, s, p);
    }
    assert forall|x: (A, B, D), s: Seq<u8>, p: int, end: int|
        end == p + encoding::<C, (A, B, D)>(&x).len() && 0 <= p && end <= s.len() && s.len() <= usize::MAX
            && s.subrange(p, end) == encoding::<C, (A, B, D)>(&x)
        implies #[trigger] <(A, B, D) as Decode<'b, C>>::decodes(s, p, Ok(x), end) by {
        let w = encoding::<C, (A, B, D)>(&x);
        let la = encoding::<C, A>(&x.0).len() as int;
        let lb = encoding::<C, B>(&x.1).len() as int;
        lemma_head_len(ARRAY, 3);
        lemma_joined_append(head_parts(ARRAY, 3) + x.0.parts() + x.1.parts(), x.2.parts());
        lemma_joined_append(head_parts(ARRAY, 3) + x.0.parts(), x.1.parts());
        lemma_joined_append(head_parts(ARRAY, 3), x.0.parts());
        lemma_stands_within(s, p, w, 1, 1 + la);
        lemma_stands_within(s, p, w, 1 + la, 1 + la + lb);
        lemma_stands_within(s, p, w, 1 + la + lb, w.len() as int);
        assert(w.subrange(1, 1 + la) =~= encoding::<C, A>(&x.0));
        assert(w.subrange(1 + la, 1 + la + lb) =~= encoding::<C, B>(&x.1));
        assert(w.subrange(1 + la + lb, w.len() as int) =~= encoding::<C, D>(&x.2));
        assert(A::decodes(s, p + 1, Ok(x.0), p + 1 + la));
        assert(B::decodes(s, p + 1 + la, Ok(x.1), p + 1 + la + lb));
        assert(D::decodes(s, p + 1 + la + lb, Ok(x.2), end));
        law_triple_roundtrip::<'b, C, A, B, D>(x, s, p);
    }
}

/// Item `i` of `v` is encoded where its offset says, among the encodings of
/// the items one after another.
proof fn lemma_item_stands<C, T: Encode<C>>(v: Seq<T>, i: int)
    requires
        0 <= i < v.len(),
    ensures
        item_offset::<C, T>(v, i + 1) <= joined(items_parts::<C, T>(v)).len(),
        joined(items_parts::<C, T>(v)).subrange(item_offset::<C, T>(v, i), item_offset::<C, T>(v, i + 1)) == encoding::<C, T>(&v[i]),
{
    lemma_item_offset_step::<C, T>(v, i);
    lemma_items_split::<C, T>(v, i + 1);
    lemma_joined_append(items_parts::<C, T>(v.take(i + 1)), items_parts::<C, T>(v.skip(i + 1)));
    assert(v.take(i + 1).drop_last() =~= v.take(i));
    assert(v.take(i + 1).last() == v[i]);
    lemma_joined_append(items_parts::<C, T>(v.take(i)), v[i].parts());
    let all = joined(items_parts::<C, T>(v));
    assert(all.subrange(item_offset::<C, T>(v, i), item_offset::<C, T>(v, i + 1)) =~= encoding::<C, T>(&v[i]));
}

/// Vectors and arrays read back from their encoding where their items do.
pub proof fn lemma_roundtrips_sequences<'b, C, T: Encode<C> + Decode<'b, C>, const N: usize>()
    requires
        roundtrips::<'b, C, T>(),
    ensures
        roundtrips::<'b, C, Vec<T>>(),
        roundtrips::<'b, C, [T; N]>(),
{
    assert forall|x: Vec<T>, s: Seq<u8>, p: int, end: int|
        end == p + encoding::<C, Vec<T>>(&x).len() && 0 <= p && end <= s.len() && s.len() <= usize::MAX
            && s.subrange(p, end) == encoding::<C, Vec<T>>(&x)
        implies #[trigger] <Vec<T> as Decode<'b, C>>::decodes(s, p, Ok(x), end) by {
        vstd::std_specs::vec::axiom_spec_len(&x);
        assert(x@.len() <= usize::MAX);
        let n = x@.len() as u64;
        let w = encoding::<C, Vec<T>>(&x);
        let hl = head_len(n) as int;
        lemma_head_len(ARRAY, n);
        lemma_joined_append(head_parts(ARRAY, n), items_parts::<C, T>(x@));
        assert forall|i: int| 0 <= i < x@.len() implies #[trigger] T::decodes(
            s,
            p + head_len(x@.len() as u64) + item_offset::<C, T>(x@, i),
            Ok(x@[i]),
            p + head_len(x@.len() as u64) + item_offset::<C, T>(x@, i + 1),
        ) by {
            lemma_item_stands::<C, T>(x@, i);
            let a = hl + item_offset::<C, T>(x@, i);
            let b = hl + item_offset::<C, T>(x@, i + 1);
            assert(item_offset::<C, T>(x@, i) >= 0);
            lemma_item_offset_step::<C, T>(x@, i);
            lemma_stands_within(s, p, w, a, b);
            assert(w.subrange(a, b) =~= joined(items_parts::<C, T>(x@)).subrange(a - hl, b - hl));
            assert(T::decodes(s, p + a, Ok(x@[i]), p + b));
        }
        law_vec_roundtrip::<'b, C, T>(x, s, p);
    }
    assert forall|x: [T; N], s: Seq<u8>, p: int, end: int|
        end == p + encoding::<C, [T; N]>(&x).len() && 0 <= p && end <= s.len() && s.len() <= usize::MAX
            && s.subrange(p, end) == encoding::<C, [T; N]>(&x)
        implies #[trigger] <[T; N] as Decode<'b, C>>::decodes(s, p, Ok(x), end) by {
        let n = N as u64;
        let w = encoding::<C, [T; N]>(&x);
        let hl = head_len(n) as int;
        assert(x@.len() == N);
        lemma_head_len(ARRAY, n);
        lemma_joined_append(head_parts(ARRAY, n), items_parts::<C, T>(x@));
        assert forall|i: int| 0 <= i < x@.len() implies #[trigger] T::decodes(
            s,
            p + head_len(N as u64) + item_offset::<C, T>(x@, i),
            Ok(x@[i]),
            p + head_len(N as u64) + item_offset::<C, T>(x@, i + 1),
        ) by {
            lemma_item_stands::<C, T>(x@, i);
            let a = hl + item_offset::<C, T>(x@, i);
            let b = hl + item_offset::<C, T>(x@, i + 1);
            lemma_item_offset_step::<C, T>(x@, i);
            lemma_stands_within(s, p, w, a, b);
            assert(w.subrange(a, b) =~= joined(items_parts::<C, T>(x@)).subrange(a - hl, b - hl));
            assert(T::decodes(s, p + a, Ok(x@[i]), p + b));
        }
        law_array_roundtrip::<'b, C, T, N>(x, s, p);
    }
}

/// Whether the encoding of every value of `T` begins with a byte other than
/// that of `null`, and, where its initial byte is that of a negative integer
/// with an argument, goes on past it: what an `Option<T>` needs to tell a
/// value from a missing one.
pub open spec fn starts_plainly<C, T: Encode<C>>() -> bool {
    forall|x: T| {
        let w = #[trigger] encoding::<C, T>(&x);
        &&& w.len() > 0
        &&& w[0] != 0xf6
        &&& 0x38 <= w[0] <= 0x3b ==> w.len() > 1
    }
}

/// The first byte of a head, and its length.
proof fn lemma_head_start(t: u8, x: u64)
    requires
        is_major(t),
    ensures
        head(t, x).len() == head_len(x),
        head(t, x)[0] == t + info_of(x),
        info_of(x) <= 27,
        info_of(x) >= 24 ==> head_len(x) > 1,
{
    let h = head(t, x);
    lemma_head_len(t, x);
    assert(h.subrange(0, head_len(x) as int) =~= h);
    lemma_head_read(h, 0, t, x);
}

/// Where pieces begin with a head, their encoding begins with it.
proof fn lemma_starts_with_head(t: u8, x: u64, rest: Seq<Seq<u8>>)
    requires
        is_major(t),
    ensures
        joined(head_parts(t, x) + rest).len() >= head_len(x),
        joined(head_parts(t, x) + rest)[0] == t + info_of(x),
        info_of(x) <= 27,
        info_of(x) >= 24 ==> head_len(x) > 1,
{
    lemma_head_start(t, x);
    lemma_joined_append(head_parts(t, x), rest);
}

/// The encodings of numbers, `bool`, `char`, [`Int`], [`Tag`], `()`,
/// `PhantomData`, texts, boxes, tagged values, results, tuples, vectors and
/// arrays begin plainly.
pub proof fn lemma_starts_plainly<C, P, const N: u64, const M: usize, T: Encode<C>, E: Encode<C>, D: Encode<C>>()
    requires
        starts_plainly::<C, T>(),
    ensures
        starts_plainly::<C, u8>(),
        starts_plainly::<C, u16>(),
        starts_plainly::<C, u32>(),
        starts_plainly::<C, u64>(),
        starts_plainly::<C, usize>(),
        starts_plainly::<C, i8>(),
        starts_plainly::<C, i16>(),
        starts_plainly::<C, i32>(),
        starts_plainly::<C, i64>(),
        starts_plainly::<C, isize>(),
        starts_plainly::<C, Int>(),
        starts_plainly::<C, char>(),
        starts_plainly::<C, bool>(),
        starts_plainly::<C, Tag>(),
        starts_plainly::<C, ()>(),
        starts_plainly::<C, core::marker::PhantomData<P>>(),
        starts_plainly::<C, String>(),
        starts_plainly::<C, Box<str>>(),
        starts_plainly::<C, Box<T>>(),
        starts_plainly::<C, Tagged<N, T>>(),
        starts_plainly::<C, Result<T, E>>(),
        starts_plainly::<C, (T, E)>(),
        starts_plainly::<C, (T, E, D)>(),
        starts_plainly::<C, Vec<T>>(),
        starts_plainly::<C, [T; M]>(),
{
    let none = Seq::<Seq<u8>>::empty();
    assert forall|x: u8| #[trigger] encoding::<C, u8>(&x).len() > 0 && encoding::<C, u8>(&x)[0] != 0xf6
        && (0x38 <= encoding::<C, u8>(&x)[0] <= 0x3b ==> encoding::<C, u8>(&x).len() > 1) by {
        lemma_head_start(UNSIGNED, x as u64);
    }
    assert forall|x: u16| #[trigger] encoding::<C, u16>(&x).len() > 0 && encoding::<C, u16>(&x)[0] != 0xf6
        && (0x38 <= encoding::<C, u16>(&x)[0] <= 0x3b ==> encoding::<C, u16>(&x).len() > 1) by {
        lemma_head_start(UNSIGNED, x as u64);
    }
    assert forall|x: u32| #[trigger] encoding::<C, u32>(&x).len() > 0 && encoding::<C, u32>(&x)[0] != 0xf6
        && (0x38 <= encoding::<C, u32>(&x)[0] <= 0x3b ==> encoding::<C, u32>(&x).len() > 1) by {
        lemma_head_start(UNSIGNED, x as u64);
    }
    assert forall|x: u64| #[trigger] encoding::<C, u64>(&x).len() > 0 && encoding::<C, u64>(&x)[0] != 0xf6
        && (0x38 <= encoding::<C, u64>(&x)[0] <= 0x3b ==> encoding::<C, u64>(&x).len() > 1) by {
        lemma_head_start(UNSIGNED, x as u64);
    }
    assert forall|x: usize| #[trigger] encoding::<C, usize>(&x).len() > 0 && encoding::<C, usize>(&x)[0] != 0xf6
        && (0x38 <= encoding::<C, usize>(&x)[0] <= 0x3b ==> encoding::<C, usize>(&x).len() > 1) by {
        lemma_head_start(UNSIGNED, x as u64);
    }
    assert forall|x: char| #[trigger] encoding::<C, char>(&x).len() > 0 && encoding::<C, char>(&x)[0] != 0xf6
        && (0x38 <= encoding::<C, char>(&x)[0] <= 0x3b ==> encoding::<C, char>(&x).len() > 1) by {
        lemma_head_start(UNSIGNED, x as u32 as u64);
    }
    assert forall|x: i8| #[trigger] encoding::<C, i8>(&x).len() > 0 && encoding::<C, i8>(&x)[0] != 0xf6
        && (0x38 <= encoding::<C, i8>(&x)[0] <= 0x3b ==> encoding::<C, i8>(&x).len() > 1) by {
        lemma_head_start(UNSIGNED, x as u64);
        lemma_head_start(SIGNED, (-1 - x) as u64);
    }
    assert forall|x: i16| #[trigger] encoding::<C, i16>(&x).len() > 0 && encoding::<C, i16>(&x)[0] != 0xf6
        && (0x38 <= encoding::<C, i16>(&x)[0] <= 0x3b ==> encoding::<C, i16>(&x).len() > 1) by {
        lemma_head_start(UNSIGNED, x as u64);
        lemma_head_start(SIGNED, (-1 - x) as u64);
    }
    assert forall|x: i32| #[trigger] encoding::<C, i32>(&x).len() > 0 && encoding::<C, i32>(&x)[0] != 0xf6
        && (0x38 <= encoding::<C, i32>(&x)[0] <= 0x3b ==> encoding::<C, i32>(&x).len() > 1) by {
        lemma_head_start(UNSIGNED, x as u64);
        lemma_head_start(SIGNED, (-1 - x) as u64);
    }
    assert forall|x: i64| #[trigger] encoding::<C, i64>(&x).len() > 0 && encoding::<C, i64>(&x)[0] != 0xf6
        && (0x38 <= encoding::<C, i64>(&x)[0] <= 0x3b ==> encoding::<C, i64>(&x).len() > 1) by {
        lemma_head_start(UNSIGNED, x as u64);
        lemma_head_start(SIGNED, (-1 - x) as u64);
    }
    assert forall|x: isize| #[trigger] encoding::<C, isize>(&x).len() > 0 && encoding::<C, isize>(&x)[0] != 0xf6
        && (0x38 <= encoding::<C, isize>(&x)[0] <= 0x3b ==> encoding::<C, isize>(&x).len() > 1) by {
        lemma_head_start(UNSIGNED, x as u64);
        lemma_head_start(SIGNED, (-1 - x) as u64);
    }
    assert forall|x: Int| #[trigger] encoding::<C, Int>(&x).len() > 0 && encoding::<C, Int>(&x)[0] != 0xf6
        && (0x38 <= encoding::<C, Int>(&x)[0] <= 0x3b ==> encoding::<C, Int>(&x).len() > 1) by {
        lemma_head_start(UNSIGNED, x.arg());
        lemma_head_start(SIGNED, x.arg());
        assert(x.is_neg() ==> (-1 - x.value()) as u64 == x.arg());
        assert(!x.is_neg() ==> x.value() as u64 == x.arg());
    }
    assert forall|x: bool| #[trigger] encoding::<C, bool>(&x).len() > 0 && encoding::<C, bool>(&x)[0] != 0xf6
        && (0x38 <= encoding::<C, bool>(&x)[0] <= 0x3b ==> encoding::<C, bool>(&x).len() > 1) by {
        lemma_joined_one(seq![if x { 0xf5u8 } else { 0xf4u8 }]);
    }
    assert forall|x: Tag| #[trigger] encoding::<C, Tag>(&x).len() > 0 && encoding::<C, Tag>(&x)[0] != 0xf6
        && (0x38 <= encoding::<C, Tag>(&x)[0] <= 0x3b ==> encoding::<C, Tag>(&x).len() > 1) by {
        lemma_head_start(TAGGED, x.num());
    }
    assert forall|x: ()| #[trigger] encoding::<C, ()>(&x).len() > 0 && encoding::<C, ()>(&x)[0] != 0xf6
        && (0x38 <= encoding::<C, ()>(&x)[0] <= 0x3b ==> encoding::<C, ()>(&x).len() > 1) by {
        lemma_head_start(ARRAY, 0);
    }
    assert forall|x: core::marker::PhantomData<P>| #[trigger] encoding::<C, core::marker::PhantomData<P>>(&x).len() > 0 && encoding::<C, core::marker::PhantomData<P>>(&x)[0] != 0xf6
        && (0x38 <= encoding::<C, core::marker::PhantomData<P>>(&x)[0] <= 0x3b ==> encoding::<C, core::marker::PhantomData<P>>(&x).len() > 1) by {
        lemma_head_start(ARRAY, 0);
    }
    assert forall|x: String| #[trigger] encoding::<C, String>(&x).len() > 0 && encoding::<C, String>(&x)[0] != 0xf6
        && (0x38 <= encoding::<C, String>(&x)[0] <= 0x3b ==> encoding::<C, String>(&x).len() > 1) by {
        let b = vstd::utf8::encode_utf8(x@);
        lemma_starts_with_head(TEXT, b.len() as u64, seq![b]);
    }
    assert forall|x: Box<str>| #[trigger] encoding::<C, Box<str>>(&x).len() > 0 && encoding::<C, Box<str>>(&x)[0] != 0xf6
        && (0x38 <= encoding::<C, Box<str>>(&x)[0] <= 0x3b ==> encoding::<C, Box<str>>(&x).len() > 1) by {
        let b = (*x).spec_bytes();
        lemma_starts_with_head(TEXT, b.len() as u64, seq![b]);
    }
    assert forall|x: Box<T>| #[trigger] encoding::<C, Box<T>>(&x).len() > 0 && encoding::<C, Box<T>>(&x)[0] != 0xf6
        && (0x38 <= encoding::<C, Box<T>>(&x)[0] <= 0x3b ==> encoding::<C, Box<T>>(&x).len() > 1) by {
        assert(encoding::<C, Box<T>>(&x) == encoding::<C, T>(&*x));
    }
    assert forall|x: Tagged<N, T>| #[trigger] encoding::<C, Tagged<N, T>>(&x).len() > 0 && encoding::<C, Tagged<N, T>>(&x)[0] != 0xf6
        && (0x38 <= encoding::<C, Tagged<N, T>>(&x)[0] <= 0x3b ==> encoding::<C, Tagged<N, T>>(&x).len() > 1) by {
        lemma_starts_with_head(TAGGED, N, x.inner().parts());
    }
    assert forall|x: Result<T, E>| #[trigger] encoding::<C, Result<T, E>>(&x).len() > 0 && encoding::<C, Result<T, E>>(&x)[0] != 0xf6
        && (0x38 <= encoding::<C, Result<T, E>>(&x)[0] <= 0x3b ==> encoding::<C, Result<T, E>>(&x).len() > 1) by {
        match x {
            Ok(y) => {
                assert(head_parts(ARRAY, 2) + head_parts(UNSIGNED, 0) + y.parts() =~= head_parts(ARRAY, 2) + (head_parts(UNSIGNED, 0) + y.parts()));
                lemma_starts_with_head(ARRAY, 2, head_parts(UNSIGNED, 0) + y.parts());
            },
            Err(y) => {
                assert(head_parts(ARRAY, 2) + head_parts(UNSIGNED, 1) + y.parts() =~= head_parts(ARRAY, 2) + (head_parts(UNSIGNED, 1) + y.parts()));
                lemma_starts_with_head(ARRAY, 2, head_parts(UNSIGNED, 1) + y.parts());
            },
        }
    }
    assert forall|x: (T, E)| #[trigger] encoding::<C, (T, E)>(&x).len() > 0 && encoding::<C, (T, E)>(&x)[0] != 0xf6
        && (0x38 <= encoding::<C, (T, E)>(&x)[0] <= 0x3b ==> encoding::<C, (T, E)>(&x).len() > 1) by {
        assert(head_parts(ARRAY, 2) + x.0.parts() + x.1.parts() =~= head_parts(ARRAY, 2) + (x.0.parts() + x.1.parts()));
        lemma_starts_with_head(ARRAY, 2, x.0.parts() + x.1.parts());
    }
    assert forall|x: (T, E, D)| #[trigger] encoding::<C, (T, E, D)>(&x).len() > 0 && encoding::<C, (T, E, D)>(&x)[0] != 0xf6
        && (0x38 <= encoding::<C, (T, E, D)>(&x)[0] <= 0x3b ==> encoding::<C, (T, E, D)>(&x).len() > 1) by {
        assert(head_parts(ARRAY, 3) + x.0.parts() + x.1.parts() + x.2.parts() =~= head_parts(ARRAY, 3) + (x.0.parts() + x.1.parts() + x.2.parts()));
        lemma_starts_with_head(ARRAY, 3, x.0.parts() + x.1.parts() + x.2.parts());
    }
    assert forall|x: Vec<T>| #[trigger] encoding::<C, Vec<T>>(&x).len() > 0 && encoding::<C, Vec<T>>(&x)[0] != 0xf6
        && (0x38 <= encoding::<C, Vec<T>>(&x)[0] <= 0x3b ==> encoding::<C, Vec<T>>(&x).len() > 1) by {
        lemma_starts_with_head(ARRAY, x@.len() as u64, items_parts::<C, T>(x@));
    }
    assert forall|x: [T; M]| #[trigger] encoding::<C, [T; M]>(&x).len() > 0 && encoding::<C, [T; M]>(&x)[0] != 0xf6
        && (0x38 <= encoding::<C, [T; M]>(&x)[0] <= 0x3b ==> encoding::<C, [T; M]>(&x).len() > 1) by {
        lemma_starts_with_head(ARRAY, x@.len() as u64, items_parts::<C, T>(x@));
    }
}

/// `Option<T>` reads back from its encoding where `T` does and its
/// encodings begin plainly.
pub proof fn lemma_roundtrips_option<'b, C, T: Encode<C> + Decode<'b, C>>()
    requires
        roundtrips::<'b, C, T>(),
        starts_plainly::<C, T>(),
    ensures
        roundtrips::<'b, C, Option<T>>(),
{
    assert forall|x: Option<T>, s: Seq<u8>, p: int, end: int|
        end == p + encoding::<C, Option<T>>(&x).len() && 0 <= p && end <= s.len() && s.len() <= usize::MAX
            && s.subrange(p, end) == encoding::<C, Option<T>>(&x)
        implies #[trigger] <Option<T> as Decode<'b, C>>::decodes(s, p, Ok(x), end) by {
        match x {
            None => law_none_roundtrip::<'b, C, T>(s, p),
            Some(y) => {
                let w = encoding::<C, T>(&y);
                assert(encoding::<C, Option<T>>(&x) == w);
                assert(w.len() > 0);
                assert(s[p] == s.subrange(p, end)[0]);
                if w.len() > 1 {
                    assert(s[p + 1] == s.subrange(p, end)[1]);
                }
                assert(T::decodes(s, p, Ok(y), end));
                law_some_roundtrip::<'b, C, T>(y, s, p);
            },
        }
    }
}

/// Where the `i`-th of items read one after another from `first` begins, the
/// item before it having ended at `ends[i - 1]`.
pub open spec fn item_start(first: int, ends: Seq<int>, i: int) -> int {
    if i == 0 { first } else { ends[i - 1] }
}

/// Whether, from `first`, items follow one after another, the `i`-th a whole
/// data item that ends at `ends[i]`.
pub open spec fn whole_items(s: Seq<u8>, first: int, ends: Seq<int>) -> bool {
    forall|i: int| 0 <= i < ends.len() ==>
        #[trigger] item_end(s, item_start(first, ends, i)) == (Ok::<(), crate::decode::error::ErrorView>(()), ends[i])
}

/// Whole items one after another, read in a row from the `j`-th on, end
/// where the last of them ends.
proof fn lemma_items_in_a_row(s: Seq<u8>, first: int, ends: Seq<int>, j: int)
    requires
        whole_items(s, first, ends),
        0 <= j <= ends.len(),
    ensures
        crate::decode::skip::items_end(s, item_start(first, ends, j), ends.len() - j)
            == (Ok::<(), crate::decode::error::ErrorView>(()), item_start(first, ends, ends.len() as int)),
    decreases ends.len() - j,
{
    if j < ends.len() {
        let q = item_start(first, ends, j);
        assert(item_end(s, q) == (Ok::<(), crate::decode::error::ErrorView>(()), ends[j]));
        crate::decode::skip::lemma_item_end_bounds(s, q);
        lemma_items_in_a_row(s, first, ends, j + 1);
        assert(item_start(first, ends, j + 1) == ends[j]);
    }
}

/// Skipping a map skips all of it: where the head of a map of `n` entries
/// stands at `p`, followed by its `2 * n` keys and values, whole items one
/// after another that end at `ends`, skipping from `p` ends after the last of
/// them.
pub proof fn law_skip_map(s: Seq<u8>, p: int, n: u64, ends: Seq<int>)
    requires
        0 <= p,
        p + head_len(n) <= s.len(),
        s.subrange(p, p + head_len(n)) == head(MAP, n),
        ends.len() == 2 * n,
        whole_items(s, p + head_len(n), ends),
    ensures
        item_end(s, p) == (Ok::<(), crate::decode::error::ErrorView>(()), item_start(p + head_len(n), ends, 2 * n)),
{
    lemma_head_read(s, p, MAP, n);
    lemma_items_in_a_row(s, p + head_len(n), ends, 0);
}

/// Skipping an array skips all of it: where the head of an array of `n`
/// items stands at `p`, followed by `n` whole items one after another that
/// end at `ends`, skipping from `p` ends after the last of them.
pub proof fn law_skip_array(s: Seq<u8>, p: int, n: u64, ends: Seq<int>)
    requires
        0 <= p,
        p + head_len(n) <= s.len(),
        s.subrange(p, p + head_len(n)) == head(ARRAY, n),
        ends.len() == n,
        whole_items(s, p + head_len(n), ends),
    ensures
        item_end(s, p) == (Ok::<(), crate::decode::error::ErrorView>(()), item_start(p + head_len(n), ends, n as int)),
{
    lemma_head_read(s, p, ARRAY, n);
    lemma_items_in_a_row(s, p + head_len(n), ends, 0);
}

/// Each registered tag has the number the IANA registry of CBOR tags gives
/// it (RFC 8949, section 3.4; RFC 8746 for typed and multi-dimensional
/// arrays), and that number names it: the tag that is written for it and the
/// one it is read back from.
pub proof fn law_iana_numbers()
    ensures
        iana_number(IanaTag::DateTime) == 0u64,
        iana_number(IanaTag::Timestamp) == 1u64,
        iana_number(IanaTag::PosBignum) == 2u64,
        iana_number(IanaTag::NegBignum) == 3u64,
        iana_number(IanaTag::Decimal) == 4u64,
        iana_number(IanaTag::Bigfloat) == 5u64,
        iana_number(IanaTag::ToBase64Url) == 21u64,
        iana_number(IanaTag::ToBase64) == 22u64,
        iana_number(IanaTag::ToBase16) == 23u64,
        iana_number(IanaTag::Cbor) == 24u64,
        iana_number(IanaTag::Uri) == 32u64,
        iana_number(IanaTag::Base64Url) == 33u64,
        iana_number(IanaTag::Base64) == 34u64,
        iana_number(IanaTag::Regex) == 35u64,
        iana_number(IanaTag::Mime) == 36u64,
        iana_number(IanaTag::MultiDimArrayR) == 40u64,
        iana_number(IanaTag::HomogenousArray) == 41u64,
        iana_number(IanaTag::TypedArrayU8) == 64u64,
        iana_number(IanaTag::TypedArrayU16B) == 65u64,
        iana_number(IanaTag::TypedArrayU32B) == 66u64,
        iana_number(IanaTag::TypedArrayU64B) == 67u64,
        iana_number(IanaTag::TypedArrayU8Clamped) == 68u64,
        iana_number(IanaTag::TypedArrayU16L) == 69u64,
        iana_number(IanaTag::TypedArrayU32L) == 70u64,
        iana_number(IanaTag::TypedArrayU64L) == 71u64,
        iana_number(IanaTag::TypedArrayI8) == 72u64,
        iana_number(IanaTag::TypedArrayI16B) == 73u64,
        iana_number(IanaTag::TypedArrayI32B) == 74u64,
        iana_number(IanaTag::TypedArrayI64B) == 75u64,
        iana_number(IanaTag::TypedArrayI16L) == 77u64,
        iana_number(IanaTag::TypedArrayI32L) == 78u64,
        iana_number(IanaTag::TypedArrayI64L) == 79u64,
        iana_number(IanaTag::TypedArrayF16B) == 80u64,
        iana_number(IanaTag::TypedArrayF32B) == 81u64,
        iana_number(IanaTag::TypedArrayF64B) == 82u64,
        iana_number(IanaTag::TypedArrayF128B) == 83u64,
        iana_number(IanaTag::TypedArrayF16L) == 84u64,
        iana_number(IanaTag::TypedArrayF32L) == 85u64,
        iana_number(IanaTag::TypedArrayF64L) == 86u64,
        iana_number(IanaTag::TypedArrayF128L) == 87u64,
        iana_number(IanaTag::MultiDimArrayC) == 1040u64,
        crate::data::iana_of_number(0u64) == Some(IanaTag::DateTime),
        crate::data::iana_of_number(1u64) == Some(IanaTag::Timestamp),
        crate::data::iana_of_number(2u64) == Some(IanaTag::PosBignum),
        crate::data::iana_of_number(3u64) == Some(IanaTag::NegBignum),
        crate::data::iana_of_number(4u64) == Some(IanaTag::Decimal),
        crate::data::iana_of_number(5u64) == Some(IanaTag::Bigfloat),
        crate::data::iana_of_number(21u64) == Some(IanaTag::ToBase64Url),
        crate::data::iana_of_number(22u64) == Some(IanaTag::ToBase64),
        crate::data::iana_of_number(23u64) == Some(IanaTag::ToBase16),
        crate::data::iana_of_number(24u64) == Some(IanaTag::Cbor),
        crate::data::iana_of_number(32u64) == Some(IanaTag::Uri),
        crate::data::iana_of_number(33u64) == Some(IanaTag::Base64Url),
        crate::data::iana_of_number(34u64) == Some(IanaTag::Base64),
        crate::data::iana_of_number(35u64) == Some(IanaTag::Regex),
        crate::data::iana_of_number(36u64) == Some(IanaTag::Mime),
        crate::data::iana_of_number(40u64) == Some(IanaTag::MultiDimArrayR),
        crate::data::iana_of_number(41u64) == Some(IanaTag::HomogenousArray),
        crate::data::iana_of_number(64u64) == Some(IanaTag::TypedArrayU8),
        crate::data::iana_of_number(65u64) == Some(IanaTag::TypedArrayU16B),
        crate::data::iana_of_number(66u64) == Some(IanaTag::TypedArrayU32B),
        crate::data::iana_of_number(67u64) == Some(IanaTag::TypedArrayU64B),
        crate::data::iana_of_number(68u64) == Some(IanaTag::TypedArrayU8Clamped),
        crate::data::iana_of_number(69u64) == Some(IanaTag::TypedArrayU16L),
        crate::data::iana_of_number(70u64) == Some(IanaTag::TypedArrayU32L),
        crate::data::iana_of_number(71u64) == Some(IanaTag::TypedArrayU64L),
        crate::data::iana_of_number(72u64) == Some(IanaTag::TypedArrayI8),
        crate::data::iana_of_number(73u64) == Some(IanaTag::TypedArrayI16B),
        crate::data::iana_of_number(74u64) == Some(IanaTag::TypedArrayI32B),
        crate::data::iana_of_number(75u64) == Some(IanaTag::TypedArrayI64B),
        crate::data::iana_of_number(77u64) == Some(IanaTag::TypedArrayI16L),
        crate::data::iana_of_number(78u64) == Some(IanaTag::TypedArrayI32L),
        crate::data::iana_of_number(79u64) == Some(IanaTag::TypedArrayI64L),
        crate::data::iana_of_number(80u64) == Some(IanaTag::TypedArrayF16B),
        crate::data::iana_of_number(81u64) == Some(IanaTag::TypedArrayF32B),
        crate::data::iana_of_number(82u64) == Some(IanaTag::TypedArrayF64B),
        crate::data::iana_of_number(83u64) == Some(IanaTag::TypedArrayF128B),
        crate::data::iana_of_number(84u64) == Some(IanaTag::TypedArrayF16L),
        crate::data::iana_of_number(85u64) == Some(IanaTag::TypedArrayF32L),
        crate::data::iana_of_number(86u64) == Some(IanaTag::TypedArrayF64L),
        crate::data::iana_of_number(87u64) == Some(IanaTag::TypedArrayF128L),
        crate::data::iana_of_number(1040u64) == Some(IanaTag::MultiDimArrayC),
{
}

/// The type of the item at `p` is told by the major type of its head: a map
/// for the head of a map, an array for that of an array, a byte string, a
/// text string or a tag for theirs.
pub proof fn law_head_types(s: Seq<u8>, p: int, n: u64)
    requires
        0 <= p,
        p + head_len(n) <= s.len(),
    ensures
        s.subrange(p, p + head_len(n)) == head(MAP, n) ==> datatype_at(s, p) == Ok::<Type, crate::decode::error::ErrorView>(Type::Mapping),
        s.subrange(p, p + head_len(n)) == head(ARRAY, n) ==> datatype_at(s, p) == Ok::<Type, crate::decode::error::ErrorView>(Type::Array),
        s.subrange(p, p + head_len(n)) == head(BYTES, n) ==> datatype_at(s, p) == Ok::<Type, crate::decode::error::ErrorView>(Type::Bytes),
        s.subrange(p, p + head_len(n)) == head(TEXT, n) ==> datatype_at(s, p) == Ok::<Type, crate::decode::error::ErrorView>(Type::String),
        s.subrange(p, p + head_len(n)) == head(TAGGED, n) ==> datatype_at(s, p) == Ok::<Type, crate::decode::error::ErrorView>(Type::Tag),
{
    if s.subrange(p, p + head_len(n)) == head(MAP, n) {
        lemma_head_read(s, p, MAP, n);
    }
    if s.subrange(p, p + head_len(n)) == head(ARRAY, n) {
        lemma_head_read(s, p, ARRAY, n);
    }
    if s.subrange(p, p + head_len(n)) == head(BYTES, n) {
        lemma_head_read(s, p, BYTES, n);
    }
    if s.subrange(p, p + head_len(n)) == head(TEXT, n) {
        lemma_head_read(s, p, TEXT, n);
    }
    if s.subrange(p, p + head_len(n)) == head(TAGGED, n) {
        lemma_head_read(s, p, TAGGED, n);
    }
}

/// A byte string reads back from what the encoder writes for it: where the
/// pieces `Encoder::bytes` writes for `x` stand at `p`, reading a byte string
/// there gives `x` and ends after it, and skipping the item ends there too.
pub proof fn law_bytes_roundtrip(x: Seq<u8>, s: Seq<u8>, p: int)
    requires
        x.len() <= usize::MAX,
        0 <= p,
        p + joined(head_parts(BYTES, x.len() as u64) + seq![x]).len() <= s.len(),
        s.subrange(p, p + joined(head_parts(BYTES, x.len() as u64) + seq![x]).len()) == joined(head_parts(BYTES, x.len() as u64) + seq![x]),
    ensures
        read_bytes_item(s, p) == (Ok::<Seq<u8>, crate::decode::error::ErrorView>(x), p + joined(head_parts(BYTES, x.len() as u64) + seq![x]).len()),
        item_end(s, p) == (Ok::<(), crate::decode::error::ErrorView>(()), p + joined(head_parts(BYTES, x.len() as u64) + seq![x]).len()),
{
    let n = x.len() as u64;
    let h = head(BYTES, n);
    lemma_head_len(BYTES, n);
    lemma_joined_append(head_parts(BYTES, n), seq![x]);
    lemma_joined_one(x);
    let e = joined(head_parts(BYTES, n) + seq![x]);
    assert(e =~= h + x);
    let w = s.subrange(p, p + e.len());
    assert(s.subrange(p, p + h.len()) =~= w.subrange(0, h.len() as int));
    assert(w.subrange(0, h.len() as int) =~= h);
    lemma_head_read(s, p, BYTES, n);
    assert(s.subrange(p + h.len(), p + h.len() + x.len()) =~= w.subrange(h.len() as int, e.len() as int));
    assert(w.subrange(h.len() as int, e.len() as int) =~= x);
    let q = p + h.len();
    if n > 0 {
        assert(crate::decode::skip::chunks_end(s, q + n, Some(0usize), false) == (Ok::<(), crate::decode::error::ErrorView>(()), q + n));
    }
}

/// Whole items one after another, then a break, read up to the break from
/// the `j`-th on, end right after the break.
proof fn lemma_items_to_break(s: Seq<u8>, first: int, ends: Seq<int>, j: int)
    requires
        whole_items(s, first, ends),
        0 <= j <= ends.len(),
        0 <= item_start(first, ends, ends.len() as int) < s.len(),
        s[item_start(first, ends, ends.len() as int)] == 0xff,
        forall|i: int| 0 <= i < ends.len() ==> s[#[trigger] item_start(first, ends, i)] != 0xff,
    ensures
        crate::decode::skip::indef_items_end(s, item_start(first, ends, j))
            == (Ok::<(), crate::decode::error::ErrorView>(()), item_start(first, ends, ends.len() as int) + 1),
    decreases ends.len() - j,
{
    if j < ends.len() {
        let q = item_start(first, ends, j);
        assert(item_end(s, q) == (Ok::<(), crate::decode::error::ErrorView>(()), ends[j]));
        assert(s[q] != 0xff);
        crate::decode::skip::lemma_item_end_bounds(s, q);
        lemma_items_to_break(s, first, ends, j + 1);
        assert(item_start(first, ends, j + 1) == ends[j]);
    }
}

/// Skipping an array or a map of indefinite length skips all of it: where its
/// initial byte stands at `p`, followed by whole items one after another that
/// end at `ends` (none of them beginning with a break), then a break,
/// skipping from `p` ends right after the break.
pub proof fn law_skip_indefinite(s: Seq<u8>, p: int, ends: Seq<int>)
    requires
        0 <= p < s.len(),
        s[p] == 0x9f || s[p] == 0xbf,
        whole_items(s, p + 1, ends),
        forall|i: int| 0 <= i < ends.len() ==> s[#[trigger] item_start(p + 1, ends, i)] != 0xff,
        0 <= item_start(p + 1, ends, ends.len() as int) < s.len(),
        s[item_start(p + 1, ends, ends.len() as int)] == 0xff,
    ensures
        item_end(s, p) == (Ok::<(), crate::decode::error::ErrorView>(()), item_start(p + 1, ends, ends.len() as int) + 1),
{
    if ends.len() > 0 {
        crate::decode::skip::lemma_item_end_bounds(s, p + 1);
        assert(item_end(s, item_start(p + 1, ends, 0)) == (Ok::<(), crate::decode::error::ErrorView>(()), ends[0]));
    }
    lemma_items_to_break(s, p + 1, ends, 0);
}

/// The type of a number is told by its sign and by the size of its argument:
/// where the head of an unsigned integer `n` stands at `p`, the decoder finds
/// the smallest unsigned type that holds `n`.
pub proof fn law_unsigned_types(s: Seq<u8>, p: int, n: u64)
    requires
        0 <= p,
        p + head_len(n) <= s.len(),
        s.subrange(p, p + head_len(n)) == head(UNSIGNED, n),
    ensures
        datatype_at(s, p) == Ok::<Type, crate::decode::error::ErrorView>(
            if n <= 0xff { Type::U8 } else if n <= 0xffff { Type::U16 } else if n <= 0xffff_ffff { Type::U32 } else { Type::U64 },
        ),
{
    lemma_head_read(s, p, UNSIGNED, n);
}

/// The type of a negative integer `-1 - n` is the smallest signed type that
/// holds it (or, past `i64`, the type of integers CBOR alone can hold): where
/// its head stands at `p`, the decoder finds that type.
pub proof fn law_negative_types(s: Seq<u8>, p: int, n: u64)
    requires
        0 <= p,
        p + head_len(n) <= s.len(),
        s.subrange(p, p + head_len(n)) == head(SIGNED, n),
    ensures
        datatype_at(s, p) == Ok::<Type, crate::decode::error::ErrorView>(
            if n <= 0x7f { Type::I8 } else if n <= 0x7fff { Type::I16 } else if n <= 0x7fff_ffff { Type::I32 } else if n <= 0x7fff_ffff_ffff_ffff { Type::I64 } else { Type::Int },
        ),
{
    lemma_head_read(s, p, SIGNED, n);
    let h = head(SIGNED, n);
    let ps = head_parts(SIGNED, n);
    lemma_head_len(SIGNED, n);
    if n > 0x17 {
        assert(s[p + 1] == s.subrange(p, p + head_len(n))[1]);
        if n <= 0xff {
            assert(ps =~= seq![seq![SIGNED | 24u8, n as u8]]);
            lemma_joined_one(ps[0]);
            assert(h[1] == n as u8);
            assert((n as u8 >= 0x80) == (n >= 0x80)) by (bit_vector)
                requires n <= 0xff;
        } else {
            assert(ps.drop_first() =~= seq![ps[1]]);
            lemma_joined_one(ps[1]);
            assert(ps.drop_first().drop_first() =~= Seq::<Seq<u8>>::empty());
            assert(h =~= ps[0] + ps[1]);
            assert(h[1] == ps[1][0]);
            if n <= 0xffff {
                assert((((n >> 8u64) as u8) >= 0x80) == (n >= 0x8000)) by (bit_vector)
                    requires n <= 0xffff;
            } else if n <= 0xffff_ffff {
                assert((((n >> 24u64) as u8) >= 0x80) == (n >= 0x8000_0000)) by (bit_vector)
                    requires n <= 0xffff_ffff;
            } else {
                assert((((n >> 56u64) as u8) >= 0x80) == (n >= 0x8000_0000_0000_0000)) by (bit_vector);
            }
        }
    }
}

} // verus!
