//! Decoding of CBOR.
use vstd::prelude::*;
use vstd::string::StringSliceAdditionalSpecFns;
use vstd::string::StringExecFns;

pub mod error;
pub mod reads;
pub mod decoder;
pub mod iter;
pub mod skip;
pub mod info;
pub mod items;
pub mod unique;
pub mod local;
pub mod short;

pub use error::Error;
pub use decoder::Decoder;
pub use iter::{BytesIter, StrIter, ArrayIter, ArrayIterWithCtx, MapIter, MapIterWithCtx};

use crate::data::{Int, Tag, Tagged};
use error::{ErrorKind, ErrorView, error_at};
use decoder::result_view;
use reads::{lemma_read_uint_progress, lemma_read_sint_progress, lemma_read_len_progress, lemma_read_chunk_progress, read_u8, read_u16, read_u32, read_u64, read_i8, read_i16, read_i32, read_i64, read_usize, read_isize, read_int, read_bool, read_char, read_tag, read_str_item, read_array, datatype_at};

verus! {

/// A type whose values can be decoded from CBOR.
pub trait Decode<'b, C>: Sized {
    /// Whether decoding from position `pos` of `input` gives `r` and leaves the
    /// decoder at `end`.
    spec fn decodes(input: Seq<u8>, pos: int, r: Result<Self, ErrorView>, end: int) -> bool;

    /// Decodes a value of this type, with context `ctx`.
    fn decode(d: &mut Decoder<'b>, ctx: &mut C) -> (r: Result<Self, Error>)
        ensures
            final(d).source() == old(d).source(),
            Self::decodes(old(d).source(), old(d).pos(), result_view(r), final(d).pos()),
    ;

    /// A value is decoded from at least one byte, and only from bytes of the input.
    proof fn lemma_progress(input: Seq<u8>, pos: int, v: Self, end: int)
        requires
            Self::decodes(input, pos, Ok(v), end),
        ensures
            pos < end <= input.len(),
    ;

    /// The value that stands for a missing one, if this type has such a
    /// value; a type with one says which it is.
    open spec fn nil_value() -> Option<Self> {
        None
    }

    /// The value that stands for a missing one, if this type has such a value.
    /// Only that value is given; a type that keeps this default gives none.
    fn nil() -> (r: Option<Self>)
        ensures
            r is Some ==> r == Self::nil_value(),
        default_ensures
            r is None,
    {
        None
    }
}

/// Whether a read gave `r` and ended at `end`, as `expected` says.
pub open spec fn is_read<T>(expected: reads::Read<T>, r: Result<T, ErrorView>, end: int) -> bool {
    r == expected.0 && end == expected.1
}

impl<'b, C> Decode<'b, C> for bool {
    open spec fn decodes(input: Seq<u8>, pos: int, r: Result<Self, ErrorView>, end: int) -> bool {
        is_read(read_bool(input, pos), r, end)
    }

    proof fn lemma_progress(input: Seq<u8>, pos: int, v: Self, end: int) {
    }

    fn decode(d: &mut Decoder<'b>, ctx: &mut C) -> (r: Result<Self, Error>) {
        d.bool()
    }
}

impl<'b, C> Decode<'b, C> for u8 {
    open spec fn decodes(input: Seq<u8>, pos: int, r: Result<Self, ErrorView>, end: int) -> bool {
        is_read(read_u8(input, pos), r, end)
    }

    proof fn lemma_progress(input: Seq<u8>, pos: int, v: Self, end: int) {
        lemma_read_uint_progress(input, pos);
    }

    fn decode(d: &mut Decoder<'b>, ctx: &mut C) -> (r: Result<Self, Error>) {
        d.u8()
    }
}

impl<'b, C> Decode<'b, C> for u16 {
    open spec fn decodes(input: Seq<u8>, pos: int, r: Result<Self, ErrorView>, end: int) -> bool {
        is_read(read_u16(input, pos), r, end)
    }

    proof fn lemma_progress(input: Seq<u8>, pos: int, v: Self, end: int) {
        lemma_read_uint_progress(input, pos);
    }

    fn decode(d: &mut Decoder<'b>, ctx: &mut C) -> (r: Result<Self, Error>) {
        d.u16()
    }
}

impl<'b, C> Decode<'b, C> for u32 {
    open spec fn decodes(input: Seq<u8>, pos: int, r: Result<Self, ErrorView>, end: int) -> bool {
        is_read(read_u32(input, pos), r, end)
    }

    proof fn lemma_progress(input: Seq<u8>, pos: int, v: Self, end: int) {
        lemma_read_uint_progress(input, pos);
    }

    fn decode(d: &mut Decoder<'b>, ctx: &mut C) -> (r: Result<Self, Error>) {
        d.u32()
    }
}

impl<'b, C> Decode<'b, C> for u64 {
    open spec fn decodes(input: Seq<u8>, pos: int, r: Result<Self, ErrorView>, end: int) -> bool {
        is_read(read_u64(input, pos), r, end)
    }

    proof fn lemma_progress(input: Seq<u8>, pos: int, v: Self, end: int) {
        lemma_read_uint_progress(input, pos);
    }

    fn decode(d: &mut Decoder<'b>, ctx: &mut C) -> (r: Result<Self, Error>) {
        d.u64()
    }
}

impl<'b, C> Decode<'b, C> for i8 {
    open spec fn decodes(input: Seq<u8>, pos: int, r: Result<Self, ErrorView>, end: int) -> bool {
        is_read(read_i8(input, pos), r, end)
    }

    proof fn lemma_progress(input: Seq<u8>, pos: int, v: Self, end: int) {
        lemma_read_sint_progress(input, pos);
    }

    fn decode(d: &mut Decoder<'b>, ctx: &mut C) -> (r: Result<Self, Error>) {
        d.i8()
    }
}

impl<'b, C> Decode<'b, C> for i16 {
    open spec fn decodes(input: Seq<u8>, pos: int, r: Result<Self, ErrorView>, end: int) -> bool {
        is_read(read_i16(input, pos), r, end)
    }

    proof fn lemma_progress(input: Seq<u8>, pos: int, v: Self, end: int) {
        lemma_read_sint_progress(input, pos);
    }

    fn decode(d: &mut Decoder<'b>, ctx: &mut C) -> (r: Result<Self, Error>) {
        d.i16()
    }
}

impl<'b, C> Decode<'b, C> for i32 {
    open spec fn decodes(input: Seq<u8>, pos: int, r: Result<Self, ErrorView>, end: int) -> bool {
        is_read(read_i32(input, pos), r, end)
    }

    proof fn lemma_progress(input: Seq<u8>, pos: int, v: Self, end: int) {
        lemma_read_sint_progress(input, pos);
    }

    fn decode(d: &mut Decoder<'b>, ctx: &mut C) -> (r: Result<Self, Error>) {
        d.i32()
    }
}

impl<'b, C> Decode<'b, C> for i64 {
    open spec fn decodes(input: Seq<u8>, pos: int, r: Result<Self, ErrorView>, end: int) -> bool {
        is_read(read_i64(input, pos), r, end)
    }

    proof fn lemma_progress(input: Seq<u8>, pos: int, v: Self, end: int) {
        lemma_read_sint_progress(input, pos);
    }

    fn decode(d: &mut Decoder<'b>, ctx: &mut C) -> (r: Result<Self, Error>) {
        d.i64()
    }
}

impl<'b, C> Decode<'b, C> for usize {
    open spec fn decodes(input: Seq<u8>, pos: int, r: Result<Self, ErrorView>, end: int) -> bool {
        is_read(read_usize(input, pos), r, end)
    }

    proof fn lemma_progress(input: Seq<u8>, pos: int, v: Self, end: int) {
        lemma_read_uint_progress(input, pos);
    }

    fn decode(d: &mut Decoder<'b>, ctx: &mut C) -> (r: Result<Self, Error>) {
        d.usize()
    }
}

impl<'b, C> Decode<'b, C> for isize {
    open spec fn decodes(input: Seq<u8>, pos: int, r: Result<Self, ErrorView>, end: int) -> bool {
        is_read(read_isize(input, pos), r, end)
    }

    proof fn lemma_progress(input: Seq<u8>, pos: int, v: Self, end: int) {
        lemma_read_sint_progress(input, pos);
    }

    fn decode(d: &mut Decoder<'b>, ctx: &mut C) -> (r: Result<Self, Error>) {
        d.isize()
    }
}

impl<'b, C> Decode<'b, C> for char {
    open spec fn decodes(input: Seq<u8>, pos: int, r: Result<Self, ErrorView>, end: int) -> bool {
        is_read(read_char(input, pos), r, end)
    }

    proof fn lemma_progress(input: Seq<u8>, pos: int, v: Self, end: int) {
        lemma_read_uint_progress(input, pos);
    }

    fn decode(d: &mut Decoder<'b>, ctx: &mut C) -> (r: Result<Self, Error>) {
        d.char()
    }
}

impl<'b, C> Decode<'b, C> for Int {
    open spec fn decodes(input: Seq<u8>, pos: int, r: Result<Self, ErrorView>, end: int) -> bool {
        &&& end == read_int(input, pos).1
        &&& match r {
            Ok(i) => read_int(input, pos).0 == Ok::<(bool, u64), ErrorView>((i.is_neg(), i.arg())),
            Err(e) => read_int(input, pos).0 == Err::<(bool, u64), ErrorView>(e),
        }
    }

    proof fn lemma_progress(input: Seq<u8>, pos: int, v: Self, end: int) {
        lemma_read_sint_progress(input, pos);
    }

    fn decode(d: &mut Decoder<'b>, ctx: &mut C) -> (r: Result<Self, Error>) {
        d.integer()
    }
}

impl<'b, C> Decode<'b, C> for Tag {
    open spec fn decodes(input: Seq<u8>, pos: int, r: Result<Self, ErrorView>, end: int) -> bool {
        &&& end == read_tag(input, pos).1
        &&& match r {
            Ok(t) => read_tag(input, pos).0 == Ok::<u64, ErrorView>(t.num()),
            Err(e) => read_tag(input, pos).0 == Err::<u64, ErrorView>(e),
        }
    }

    proof fn lemma_progress(input: Seq<u8>, pos: int, v: Self, end: int) {
        lemma_read_len_progress(input, pos);
    }

    fn decode(d: &mut Decoder<'b>, ctx: &mut C) -> (r: Result<Self, Error>) {
        d.tag()
    }
}

impl<'b, C> Decode<'b, C> for &'b str {
    open spec fn decodes(input: Seq<u8>, pos: int, r: Result<Self, ErrorView>, end: int) -> bool {
        &&& end == read_str_item(input, pos).1
        &&& match r {
            Ok(s) => read_str_item(input, pos).0 == Ok::<Seq<u8>, ErrorView>(s.spec_bytes()),
            Err(e) => read_str_item(input, pos).0 == Err::<Seq<u8>, ErrorView>(e),
        }
    }

    proof fn lemma_progress(input: Seq<u8>, pos: int, v: Self, end: int) {
        lemma_read_chunk_progress(input, pos);
    }

    fn decode(d: &mut Decoder<'b>, ctx: &mut C) -> (r: Result<Self, Error>) {
        d.str()
    }
}

impl<'b, C> Decode<'b, C> for String {
    open spec fn decodes(input: Seq<u8>, pos: int, r: Result<Self, ErrorView>, end: int) -> bool {
        &&& end == read_str_item(input, pos).1
        &&& match r {
            Ok(s) => read_str_item(input, pos).0 == Ok::<Seq<u8>, ErrorView>(vstd::utf8::encode_utf8(s@)),
            Err(e) => read_str_item(input, pos).0 == Err::<Seq<u8>, ErrorView>(e),
        }
    }

    proof fn lemma_progress(input: Seq<u8>, pos: int, v: Self, end: int) {
        lemma_read_chunk_progress(input, pos);
    }

    fn decode(d: &mut Decoder<'b>, ctx: &mut C) -> (r: Result<Self, Error>) {
        match d.str() {
            Ok(s) => Ok(String::from_str(s)),
            Err(e) => Err(e),
        }
    }
}

/// `String::into_boxed_str` (std): the same text, in a box of its own.
#[verifier::external_body]
fn into_boxed_str(s: String) -> (b: Box<str>)
    ensures
        b@ == s@,
{
    s.into_boxed_str()
}

/// A text is decoded into a boxed one.
impl<'b, C> Decode<'b, C> for Box<str> {
    open spec fn decodes(input: Seq<u8>, pos: int, r: Result<Self, ErrorView>, end: int) -> bool {
        &&& end == read_str_item(input, pos).1
        &&& match r {
            Ok(b) => read_str_item(input, pos).0 == Ok::<Seq<u8>, ErrorView>(vstd::utf8::encode_utf8(b@)),
            Err(e) => read_str_item(input, pos).0 == Err::<Seq<u8>, ErrorView>(e),
        }
    }

    proof fn lemma_progress(input: Seq<u8>, pos: int, v: Self, end: int) {
        lemma_read_chunk_progress(input, pos);
    }

    fn decode(d: &mut Decoder<'b>, ctx: &mut C) -> (r: Result<Self, Error>) {
        match <String as Decode<'b, C>>::decode(d, ctx) {
            Ok(s) => Ok(into_boxed_str(s)),
            Err(e) => Err(e),
        }
    }
}

/// A text is decoded into an owned one.
impl<'a, 'b, C> Decode<'b, C> for std::borrow::Cow<'a, str> {
    open spec fn decodes(input: Seq<u8>, pos: int, r: Result<Self, ErrorView>, end: int) -> bool {
        &&& end == read_str_item(input, pos).1
        &&& match r {
            Ok(c) => c is Owned && read_str_item(input, pos).0 == Ok::<Seq<u8>, ErrorView>(vstd::utf8::encode_utf8(c@)),
            Err(e) => read_str_item(input, pos).0 == Err::<Seq<u8>, ErrorView>(e),
        }
    }

    proof fn lemma_progress(input: Seq<u8>, pos: int, v: Self, end: int) {
        lemma_read_chunk_progress(input, pos);
    }

    fn decode(d: &mut Decoder<'b>, ctx: &mut C) -> (r: Result<Self, Error>) {
        match <String as Decode<'b, C>>::decode(d, ctx) {
            Ok(s) => Ok(std::borrow::Cow::Owned(s)),
            Err(e) => Err(e),
        }
    }
}

impl<'b, C, T: Decode<'b, C>> Decode<'b, C> for Box<T> {
    open spec fn decodes(input: Seq<u8>, pos: int, r: Result<Self, ErrorView>, end: int) -> bool {
        match r {
            Ok(b) => T::decodes(input, pos, Ok(*b), end),
            Err(x) => T::decodes(input, pos, Err(x), end),
        }
    }

    proof fn lemma_progress(input: Seq<u8>, pos: int, v: Self, end: int) {
        T::lemma_progress(input, pos, *v, end);
    }

    fn decode(d: &mut Decoder<'b>, ctx: &mut C) -> (r: Result<Self, Error>) {
        match T::decode(d, ctx) {
            Ok(x) => Ok(Box::new(x)),
            Err(e) => Err(e),
        }
    }

    open spec fn nil_value() -> Option<Self> {
        match T::nil_value() {
            Some(x) => Some(Box::new(x)),
            None => None,
        }
    }

    fn nil() -> Option<Self> {
        match T::nil() {
            Some(x) => Some(Box::new(x)),
            None => None,
        }
    }
}

/// Decoding a value that is encoded as an empty array; `m` is the message
/// of an array that is not empty.
pub open spec fn decodes_empty_array<T>(input: Seq<u8>, pos: int, r: Result<T, ErrorView>, end: int, v: T, m: Seq<char>) -> bool {
    &&& end == read_array(input, pos).1
    &&& r == match read_array(input, pos).0 {
        Err(x) => Err(x),
        Ok(n) => if n == Some(0u64) {
            Ok(v)
        } else {
            Err(error_at(ErrorKind::Message, pos, m))
        },
    }
}

impl<'b, C> Decode<'b, C> for () {
    open spec fn decodes(input: Seq<u8>, pos: int, r: Result<Self, ErrorView>, end: int) -> bool {
        decodes_empty_array(input, pos, r, end, (), "expected unit, i.e. an empty array"@)
    }

    proof fn lemma_progress(input: Seq<u8>, pos: int, v: Self, end: int) {
        lemma_read_len_progress(input, pos);
    }

    fn decode(d: &mut Decoder<'b>, ctx: &mut C) -> (r: Result<Self, Error>) {
        let p = d.position();
        match d.array() {
            Err(e) => Err(e),
            Ok(n) => if n == Some(0u64) {
                Ok(())
            } else {
                Err(Error::message("expected unit, i.e. an empty array").at(p))
            },
        }
    }
}

impl<'b, C, T> Decode<'b, C> for core::marker::PhantomData<T> {
    open spec fn decodes(input: Seq<u8>, pos: int, r: Result<Self, ErrorView>, end: int) -> bool {
        decodes_empty_array(input, pos, r, end, core::marker::PhantomData, "expected phantom data, i.e. an empty array"@)
    }

    proof fn lemma_progress(input: Seq<u8>, pos: int, v: Self, end: int) {
        lemma_read_len_progress(input, pos);
    }

    fn decode(d: &mut Decoder<'b>, ctx: &mut C) -> (r: Result<Self, Error>) {
        let p = d.position();
        match d.array() {
            Err(e) => Err(e),
            Ok(n) => if n == Some(0u64) {
                Ok(core::marker::PhantomData)
            } else {
                Err(Error::message("expected phantom data, i.e. an empty array").at(p))
            },
        }
    }
}

impl<'b, C, T: Decode<'b, C>> Decode<'b, C> for Option<T> {
    open spec fn decodes(input: Seq<u8>, pos: int, r: Result<Self, ErrorView>, end: int) -> bool {
        match datatype_at(input, pos) {
            Err(x) => r == Err::<Self, ErrorView>(x) && end == pos,
            Ok(t) => if t == crate::data::Type::Null {
                r == Ok::<Self, ErrorView>(None) && end == pos + 1
            } else {
                match r {
                    Ok(Some(v)) => T::decodes(input, pos, Ok(v), end),
                    Ok(None) => false,
                    Err(x) => T::decodes(input, pos, Err(x), end),
                }
            },
        }
    }

    proof fn lemma_progress(input: Seq<u8>, pos: int, v: Self, end: int) {
        if let Some(x) = v {
            if datatype_at(input, pos) != Ok::<crate::data::Type, ErrorView>(crate::data::Type::Null) {
                T::lemma_progress(input, pos, x, end);
            }
        }
    }

    fn decode(d: &mut Decoder<'b>, ctx: &mut C) -> (r: Result<Self, Error>) {
        match d.datatype() {
            Err(e) => Err(e),
            Ok(t) => if t == crate::data::Type::Null {
                match d.null() {
                    Ok(()) => Ok(None),
                    Err(e) => Err(e),
                }
            } else {
                match T::decode(d, ctx) {
                    Ok(v) => Ok(Some(v)),
                    Err(e) => Err(e),
                }
            },
        }
    }

    open spec fn nil_value() -> Option<Self> {
        Some(None)
    }

    fn nil() -> (r: Option<Self>)
        ensures
            r == Some(None::<T>),
    {
        Some(None)
    }
}

impl<'b, C, T: Decode<'b, C>, E: Decode<'b, C>> Decode<'b, C> for Result<T, E> {
    open spec fn decodes(input: Seq<u8>, pos: int, r: Result<Self, ErrorView>, end: int) -> bool {
        let (ra, e1) = read_array(input, pos);
        match ra {
            Err(x) => r == Err::<Self, ErrorView>(x) && end == e1,
            Ok(n) => if n != Some(2u64) {
                r == Err::<Self, ErrorView>(error_at(ErrorKind::Message, pos, "expected enum (2-element array)"@)) && end == e1
            } else {
                let (rv, e2) = read_u32(input, e1);
                match rv {
                    Err(x) => r == Err::<Self, ErrorView>(x) && end == e2,
                    Ok(v) => if v == 0 {
                        match r {
                            Ok(Ok(x)) => T::decodes(input, e2, Ok(x), end),
                            Ok(Err(_)) => false,
                            Err(x) => T::decodes(input, e2, Err(x), end),
                        }
                    } else if v == 1 {
                        match r {
                            Ok(Err(x)) => E::decodes(input, e2, Ok(x), end),
                            Ok(Ok(_)) => false,
                            Err(x) => E::decodes(input, e2, Err(x), end),
                        }
                    } else {
                        r == Err::<Self, ErrorView>(error_at(ErrorKind::UnknownVariant(v), e1, Seq::empty())) && end == e2
                    },
                }
            },
        }
    }

    proof fn lemma_progress(input: Seq<u8>, pos: int, v: Self, end: int) {
        lemma_read_len_progress(input, pos);
        let e1 = read_array(input, pos).1;
        lemma_read_uint_progress(input, e1);
        let e2 = read_u32(input, e1).1;
        match v {
            Ok(x) => T::lemma_progress(input, e2, x, end),
            Err(x) => E::lemma_progress(input, e2, x, end),
        }
    }

    fn decode(d: &mut Decoder<'b>, ctx: &mut C) -> (r: Result<Self, Error>) {
        let p = d.position();
        match d.array() {
            Err(e) => return Err(e),
            Ok(n) => if n != Some(2u64) {
                return Err(Error::message("expected enum (2-element array)").at(p));
            },
        }
        let p = d.position();
        match d.u32() {
            Err(e) => Err(e),
            Ok(v) => if v == 0 {
                match T::decode(d, ctx) {
                    Ok(x) => Ok(Ok(x)),
                    Err(e) => Err(e),
                }
            } else if v == 1 {
                match E::decode(d, ctx) {
                    Ok(x) => Ok(Err(x)),
                    Err(e) => Err(e),
                }
            } else {
                Err(Error::unknown_variant(v).at(p))
            },
        }
    }
}

impl<'b, C, const N: u64, T: Decode<'b, C>> Decode<'b, C> for Tagged<N, T> {
    open spec fn decodes(input: Seq<u8>, pos: int, r: Result<Self, ErrorView>, end: int) -> bool {
        let (rt, e1) = read_tag(input, pos);
        match rt {
            Err(x) => r == Err::<Self, ErrorView>(x) && end == e1,
            Ok(n) => if n != N {
                r == Err::<Self, ErrorView>(error_at(ErrorKind::TagMismatch(Tag::new_spec(n)), pos, Seq::empty())) && end == e1
            } else {
                match r {
                    Ok(t) => T::decodes(input, e1, Ok(t.inner()), end),
                    Err(x) => T::decodes(input, e1, Err(x), end),
                }
            },
        }
    }

    proof fn lemma_progress(input: Seq<u8>, pos: int, v: Self, end: int) {
        lemma_read_len_progress(input, pos);
        T::lemma_progress(input, read_tag(input, pos).1, v.inner(), end);
    }

    fn decode(d: &mut Decoder<'b>, ctx: &mut C) -> (r: Result<Self, Error>) {
        let p = d.position();
        match d.tag() {
            Err(e) => Err(e),
            Ok(t) => if t.as_u64() != N {
                proof {
                    Tag::lemma_new_num(t);
                }
                Err(Error::tag_mismatch(t).at(p))
            } else {
                match T::decode(d, ctx) {
                    Ok(v) => Ok(Tagged::new(v)),
                    Err(e) => Err(e),
                }
            },
        }
    }
}

/// Decoding an item of type `A` followed by one of type `B`, such as the key
/// and the value of a map entry.
pub open spec fn decodes_entry<'b, C, A: Decode<'b, C>, B: Decode<'b, C>>(input: Seq<u8>, pos: int, r: Result<(A, B), ErrorView>, end: int) -> bool {
    match r {
        Ok((x, y)) => exists|e: int| #[trigger] A::decodes(input, pos, Ok(x), e) && B::decodes(input, e, Ok(y), end),
        Err(x) => A::decodes(input, pos, Err(x), end) || exists|e: int, a: A| #[trigger] A::decodes(input, pos, Ok(a), e) && B::decodes(input, e, Err(x), end),
    }
}

/// Two items in a row decode when each does.
pub(crate) proof fn lemma_entry_ok<'b, C, A: Decode<'b, C>, B: Decode<'b, C>>(input: Seq<u8>, pos: int, e: int, end: int, a: A, b: B)
    requires
        A::decodes(input, pos, Ok(a), e),
        B::decodes(input, e, Ok(b), end),
    ensures
        decodes_entry::<'b, C, A, B>(input, pos, Ok((a, b)), end),
{
    let r: Result<(A, B), ErrorView> = Ok((a, b));
    assert(r matches Ok((x, y)) && x == a && y == b);
    assert(exists|f: int| #[trigger] A::decodes(input, pos, Ok(a), f) && B::decodes(input, f, Ok(b), end));
    assert(match r {
        Ok((x, y)) => exists|f: int| #[trigger] A::decodes(input, pos, Ok(x), f) && B::decodes(input, f, Ok(y), end),
        Err(x) => A::decodes(input, pos, Err(x), end) || exists|f: int, a: A| #[trigger] A::decodes(input, pos, Ok(a), f) && B::decodes(input, f, Err(x), end),
    });
}

/// Two items decoded in a row were read from at least one byte each.
proof fn lemma_entry_progress<'b, C, A: Decode<'b, C>, B: Decode<'b, C>>(input: Seq<u8>, pos: int, v: (A, B), end: int)
    requires
        decodes_entry::<'b, C, A, B>(input, pos, Ok(v), end),
    ensures
        pos < end <= input.len(),
{
    let (x, y) = v;
    let e = choose|e: int| #[trigger] A::decodes(input, pos, Ok(x), e) && B::decodes(input, e, Ok(y), end);
    A::lemma_progress(input, pos, x, e);
    B::lemma_progress(input, e, y, end);
}

/// Decodes an item of type `A` followed by one of type `B`.
pub fn decode_entry<'b, C, A: Decode<'b, C>, B: Decode<'b, C>>(d: &mut Decoder<'b>, ctx: &mut C) -> (r: Result<(A, B), Error>)
    ensures
        final(d).source() == old(d).source(),
        decodes_entry::<'b, C, A, B>(old(d).source(), old(d).pos(), result_view(r), final(d).pos()),
{
    let ghost input = d.source();
    let ghost p = d.pos();
    let a = match A::decode(d, ctx) {
        Ok(a) => a,
        Err(e) => {
            assert(A::decodes(input, p, Err(e@), d.pos()));
            return Err(e);
        },
    };
    let ghost e1 = d.pos();
    assert(A::decodes(input, p, Ok(a), e1));
    match B::decode(d, ctx) {
        Ok(b) => {
            proof {
                lemma_entry_ok::<'b, C, A, B>(input, p, e1, d.pos(), a, b);
            }
            Ok((a, b))
        },
        Err(e) => {
            assert(B::decodes(input, e1, Err(e@), d.pos()));
            Err(e)
        },
    }
}

/// Decoding a pair, encoded as an array of two items.
pub open spec fn decodes_pair<'b, C, A: Decode<'b, C>, B: Decode<'b, C>>(input: Seq<u8>, pos: int, r: Result<(A, B), ErrorView>, end: int) -> bool {
    let head = read_array(input, pos);
    match head.0 {
        Err(x) => r == Err::<(A, B), ErrorView>(x) && end == head.1,
        Ok(n) => if n != Some(2u64) {
            r == Err::<(A, B), ErrorView>(error_at(ErrorKind::Message, pos, "invalid 2-tuple length"@)) && end == head.1
        } else {
            decodes_entry::<'b, C, A, B>(input, head.1, r, end)
        },
    }
}

impl<'b, C, A: Decode<'b, C>, B: Decode<'b, C>> Decode<'b, C> for (A, B) {
    open spec fn decodes(input: Seq<u8>, pos: int, r: Result<Self, ErrorView>, end: int) -> bool {
        decodes_pair::<'b, C, A, B>(input, pos, r, end)
    }

    proof fn lemma_progress(input: Seq<u8>, pos: int, v: Self, end: int) {
        lemma_read_len_progress(input, pos);
        lemma_entry_progress::<'b, C, A, B>(input, read_array(input, pos).1, v, end);
    }

    fn decode(d: &mut Decoder<'b>, ctx: &mut C) -> (r: Result<Self, Error>) {
        let p = d.position();
        match d.array() {
            Err(e) => return Err(e),
            Ok(n) => if n != Some(2u64) {
                return Err(Error::message("invalid 2-tuple length").at(p));
            },
        }
        decode_entry(d, ctx)
    }
}

/// Decoding a triple, encoded as an array of three items.
pub open spec fn decodes_triple<'b, C, A: Decode<'b, C>, B: Decode<'b, C>, D: Decode<'b, C>>(input: Seq<u8>, pos: int, r: Result<(A, B, D), ErrorView>, end: int) -> bool {
    let head = read_array(input, pos);
    match head.0 {
        Err(x) => r == Err::<(A, B, D), ErrorView>(x) && end == head.1,
        Ok(n) => if n != Some(3u64) {
            r == Err::<(A, B, D), ErrorView>(error_at(ErrorKind::Message, pos, "invalid 3-tuple length"@)) && end == head.1
        } else {
            match r {
                Ok((x, y, z)) => exists|e2: int, e3: int| #[trigger] A::decodes(input, head.1, Ok(x), e2) && #[trigger] B::decodes(input, e2, Ok(y), e3) && D::decodes(input, e3, Ok(z), end),
                Err(x) => A::decodes(input, head.1, Err(x), end)
                    || (exists|e2: int, a: A| #[trigger] A::decodes(input, head.1, Ok(a), e2) && B::decodes(input, e2, Err(x), end))
                    || (exists|e2: int, e3: int, a: A, b: B| #[trigger] A::decodes(input, head.1, Ok(a), e2) && #[trigger] B::decodes(input, e2, Ok(b), e3) && D::decodes(input, e3, Err(x), end)),
            }
        },
    }
}

/// A triple decodes when its head and its three items do.
pub(crate) proof fn lemma_triple_ok<'b, C, A: Decode<'b, C>, B: Decode<'b, C>, D: Decode<'b, C>>(input: Seq<u8>, pos: int, e2: int, e3: int, end: int, a: A, b: B, c: D)
    requires
        read_array(input, pos).0 == Ok::<Option<u64>, ErrorView>(Some(3u64)),
        A::decodes(input, read_array(input, pos).1, Ok(a), e2),
        B::decodes(input, e2, Ok(b), e3),
        D::decodes(input, e3, Ok(c), end),
    ensures
        decodes_triple::<'b, C, A, B, D>(input, pos, Ok((a, b, c)), end),
{
    let head = read_array(input, pos);
    let r: Result<(A, B, D), ErrorView> = Ok((a, b, c));
    assert(head.0 matches Ok(n) && n == Some(3u64));
    assert(r matches Ok((x, y, z)) && x == a && y == b && z == c);
    assert(exists|e: int, f: int| #[trigger] A::decodes(input, head.1, Ok(a), e) && #[trigger] B::decodes(input, e, Ok(b), f) && D::decodes(input, f, Ok(c), end));
    assert(match head.0 {
        Err(x) => r == Err::<(A, B, D), ErrorView>(x) && end == head.1,
        Ok(n) => if n != Some(3u64) {
            r == Err::<(A, B, D), ErrorView>(error_at(ErrorKind::Message, pos, "invalid 3-tuple length"@)) && end == head.1
        } else {
            match r {
                Ok((x, y, z)) => exists|e2: int, e3: int| #[trigger] A::decodes(input, head.1, Ok(x), e2) && #[trigger] B::decodes(input, e2, Ok(y), e3) && D::decodes(input, e3, Ok(z), end),
                Err(x) => A::decodes(input, head.1, Err(x), end)
                    || (exists|e2: int, a: A| #[trigger] A::decodes(input, head.1, Ok(a), e2) && B::decodes(input, e2, Err(x), end))
                    || (exists|e2: int, e3: int, a: A, b: B| #[trigger] A::decodes(input, head.1, Ok(a), e2) && #[trigger] B::decodes(input, e2, Ok(b), e3) && D::decodes(input, e3, Err(x), end)),
            }
        },
    });
}

impl<'b, C, A: Decode<'b, C>, B: Decode<'b, C>, D: Decode<'b, C>> Decode<'b, C> for (A, B, D) {
    open spec fn decodes(input: Seq<u8>, pos: int, r: Result<Self, ErrorView>, end: int) -> bool {
        decodes_triple::<'b, C, A, B, D>(input, pos, r, end)
    }

    proof fn lemma_progress(input: Seq<u8>, pos: int, v: Self, end: int) {
        lemma_read_len_progress(input, pos);
        let e1 = read_array(input, pos).1;
        let (e2, e3) = choose|e2: int, e3: int|
            #[trigger] A::decodes(input, e1, Ok(v.0), e2) && #[trigger] B::decodes(input, e2, Ok(v.1), e3) && D::decodes(input, e3, Ok(v.2), end);
        A::lemma_progress(input, e1, v.0, e2);
        B::lemma_progress(input, e2, v.1, e3);
        D::lemma_progress(input, e3, v.2, end);
    }

    fn decode(d: &mut Decoder<'b>, ctx: &mut C) -> (r: Result<Self, Error>) {
        let p = d.position();
        let ghost input = d.source();
        match d.array() {
            Err(e) => {
                assert(decodes_triple::<'b, C, A, B, D>(input, p as int, Err(e@), d.pos()));
                return Err(e);
            },
            Ok(n) => if n != Some(3u64) {
                let e = Error::message("invalid 3-tuple length").at(p);
                assert(decodes_triple::<'b, C, A, B, D>(input, p as int, Err(e@), d.pos()));
                return Err(e);
            },
        }
        let ghost e1 = d.pos();
        let a = match A::decode(d, ctx) {
            Ok(a) => a,
            Err(e) => {
                assert(A::decodes(input, e1, Err(e@), d.pos()));
                assert(decodes_triple::<'b, C, A, B, D>(input, p as int, Err(e@), d.pos()));
                return Err(e);
            },
        };
        let ghost e2 = d.pos();
        assert(A::decodes(input, e1, Ok(a), e2));
        let b = match B::decode(d, ctx) {
            Ok(b) => b,
            Err(e) => {
                assert(B::decodes(input, e2, Err(e@), d.pos()));
                assert(decodes_triple::<'b, C, A, B, D>(input, p as int, Err(e@), d.pos()));
                return Err(e);
            },
        };
        let ghost e3 = d.pos();
        assert(B::decodes(input, e2, Ok(b), e3));
        match D::decode(d, ctx) {
            Ok(c) => {
                proof {
                    lemma_triple_ok::<'b, C, A, B, D>(input, p as int, e2, e3, d.pos(), a, b, c);
                }
                Ok((a, b, c))
            },
            Err(e) => {
                assert(D::decodes(input, e3, Err(e@), d.pos()));
                assert(decodes_triple::<'b, C, A, B, D>(input, p as int, Err(e@), d.pos()));
                Err(e)
            },
        }
    }
}

impl<'b> Decoder<'b> {
    /// Decodes a value of type `T`.
    pub fn decode<T: Decode<'b, ()>>(&mut self) -> (r: Result<T, Error>)
        ensures
            final(self).source() == old(self).source(),
            T::decodes(old(self).source(), old(self).pos(), result_view(r), final(self).pos()),
    {
        T::decode(self, &mut ())
    }

    /// Decodes a value of type `T`, with context `ctx`.
    pub fn decode_with<C, T: Decode<'b, C>>(&mut self, ctx: &mut C) -> (r: Result<T, Error>)
        ensures
            final(self).source() == old(self).source(),
            T::decodes(old(self).source(), old(self).pos(), result_view(r), final(self).pos()),
    {
        T::decode(self, ctx)
    }
}

} // verus!
