//! The CBOR format, as mathematics: what the encoder writes and what the
//! decoder reads.
use vstd::prelude::*;

verus! {

/// Major type of unsigned integers.
pub const UNSIGNED: u8 = 0x00;
/// Major type of negative integers.
pub const SIGNED: u8 = 0x20;
/// Major type of byte strings.
pub const BYTES: u8 = 0x40;
/// Major type of text strings.
pub const TEXT: u8 = 0x60;
/// Major type of arrays.
pub const ARRAY: u8 = 0x80;
/// Major type of maps.
pub const MAP: u8 = 0xa0;
/// Major type of tags.
pub const TAGGED: u8 = 0xc0;
/// Major type of simple values and floats.
pub const SIMPLE: u8 = 0xe0;
/// The stop code of indefinite-length items.
pub const BREAK: u8 = 0xff;

/// Whether `t` is the initial byte of a major type with no additional information.
pub open spec fn is_major(t: u8) -> bool {
    t == UNSIGNED || t == SIGNED || t == BYTES || t == TEXT || t == ARRAY || t == MAP || t == TAGGED
        || t == SIMPLE
}

/// The two bytes of `x`, most significant first.
pub open spec fn be2(x: u64) -> Seq<u8> {
    seq![(x >> 8u64) as u8, x as u8]
}

/// The four bytes of `x`, most significant first.
pub open spec fn be4(x: u64) -> Seq<u8> {
    seq![(x >> 24u64) as u8, (x >> 16u64) as u8, (x >> 8u64) as u8, x as u8]
}

/// The eight bytes of `x`, most significant first.
pub open spec fn be8(x: u64) -> Seq<u8> {
    seq![
        (x >> 56u64) as u8,
        (x >> 48u64) as u8,
        (x >> 40u64) as u8,
        (x >> 32u64) as u8,
        (x >> 24u64) as u8,
        (x >> 16u64) as u8,
        (x >> 8u64) as u8,
        x as u8,
    ]
}

/// The pieces in which the encoder writes the head of a data item of major
/// type `t` with argument `x`: the shortest form that holds `x`, its initial
/// byte written on its own when an argument of two or more bytes follows.
pub open spec fn head_parts(t: u8, x: u64) -> Seq<Seq<u8>> {
    if x <= 0x17 {
        seq![seq![t | (x as u8)]]
    } else if x <= 0xff {
        seq![seq![t | 24u8, x as u8]]
    } else if x <= 0xffff {
        seq![seq![t | 25u8], be2(x)]
    } else if x <= 0xffff_ffff {
        seq![seq![t | 26u8], be4(x)]
    } else {
        seq![seq![t | 27u8], be8(x)]
    }
}

/// The pieces one after the other.
pub open spec fn joined(parts: Seq<Seq<u8>>) -> Seq<u8>
    decreases parts.len(),
{
    if parts.len() == 0 {
        Seq::empty()
    } else {
        parts[0] + joined(parts.drop_first())
    }
}

/// The head of a data item of major type `t` with argument `x`.
pub open spec fn head(t: u8, x: u64) -> Seq<u8> {
    joined(head_parts(t, x))
}

/// The length of the head that holds argument `x`.
pub open spec fn head_len(x: u64) -> nat {
    if x <= 0x17 {
        1
    } else if x <= 0xff {
        2
    } else if x <= 0xffff {
        3
    } else if x <= 0xffff_ffff {
        5
    } else {
        9
    }
}

/// The value of two bytes, most significant first.
pub open spec fn u16_of(a: u8, b: u8) -> u16 {
    ((a as u16) << 8u16) | (b as u16)
}

/// The value of four bytes, most significant first.
pub open spec fn u32_of(a: u8, b: u8, c: u8, d: u8) -> u32 {
    ((a as u32) << 24u32) | ((b as u32) << 16u32) | ((c as u32) << 8u32) | (d as u32)
}

/// The value of eight bytes, most significant first.
pub open spec fn u64_of(s: Seq<u8>) -> u64
    recommends
        s.len() == 8,
{
    ((s[0] as u64) << 56u64) | ((s[1] as u64) << 48u64) | ((s[2] as u64) << 40u64) | ((s[3] as u64)
        << 32u64) | ((s[4] as u64) << 24u64) | ((s[5] as u64) << 16u64) | ((s[6] as u64) << 8u64)
        | (s[7] as u64)
}

/// The pieces of two lists, one after the other.
pub proof fn lemma_joined_append(a: Seq<Seq<u8>>, b: Seq<Seq<u8>>)
    ensures
        joined(a + b) == joined(a) + joined(b),
    decreases a.len(),
{
    if a.len() == 0 {
        assert(a + b =~= b);
        assert(Seq::<u8>::empty() + joined(b) =~= joined(b));
    } else {
        lemma_joined_append(a.drop_first(), b);
        assert((a + b).drop_first() =~= a.drop_first() + b);
        assert(a[0] + (joined(a.drop_first()) + joined(b)) =~= (a[0] + joined(a.drop_first())) + joined(b));
    }
}

/// The head that holds `x` is [`head_len`] bytes long.
pub proof fn lemma_head_len(t: u8, x: u64)
    ensures
        head(t, x).len() == head_len(x),
{
    let ps = head_parts(t, x);
    let none = Seq::<Seq<u8>>::empty();
    assert(joined(none) == Seq::<u8>::empty());
    if ps.len() == 1 {
        assert(ps.drop_first() =~= none);
    } else {
        assert(ps.drop_first() =~= seq![ps[1]]);
        assert(ps.drop_first().drop_first() =~= none);
        assert(joined(seq![ps[1]]) =~= ps[1] + joined(none));
    }
}

/// A single piece, on its own.
pub proof fn lemma_joined_one(p: Seq<u8>)
    ensures
        joined(seq![p]) == p,
{
    assert(seq![p].drop_first() =~= Seq::<Seq<u8>>::empty());
    assert(seq![p][0] == p);
    assert(joined(Seq::<Seq<u8>>::empty()) == Seq::<u8>::empty());
    assert(p + Seq::<u8>::empty() =~= p);
}

} // verus!
