//! A small CBOR codec.
use vstd::prelude::*;

pub mod text;
pub mod model;
pub mod data;
pub mod decode;
pub mod encode;
pub mod roundtrip;

pub use decode::{Decode, Decoder};
pub use encode::{Encode, Encoder, CborLen};

use core::convert::Infallible;
use decode::decoder::result_view;
use decode::error::ErrorView;
use decode::unique::decodes_uniquely;
use decode::local::decodes_locally;
use decode::short::fails_short;
use roundtrip::roundtrips;
use encode::encoding;
use encode::write::{Write, all_fit, lemma_all_fit_unbounded, lemma_all_fit_bounded};
use model::joined;

verus! {

/// Decodes a value of type `T` from the start of `b`.
pub fn decode<'b, T: Decode<'b, ()>>(b: &'b [u8]) -> (r: Result<T, decode::Error>)
    ensures
        exists|end: int| T::decodes(b@, 0, result_view(r), end),
{
    let mut d = Decoder::new(b);
    let r = T::decode(&mut d, &mut ());
    assert(T::decodes(b@, 0, result_view(r), d.pos()));
    r
}

/// Decodes a value of type `T` from the start of `b`, with context `ctx`.
pub fn decode_with<'b, C, T: Decode<'b, C>>(b: &'b [u8], ctx: &mut C) -> (r: Result<T, decode::Error>)
    ensures
        exists|end: int| T::decodes(b@, 0, result_view(r), end),
{
    let mut d = Decoder::new(b);
    let r = T::decode(&mut d, ctx);
    assert(T::decodes(b@, 0, result_view(r), d.pos()));
    r
}

/// Writes the encoding of `x` into `w`; fails where `w` has no room for it,
/// with the sink's error, or where `x` refuses with an error of its own.
///
/// The sink is taken by value, so what it delivers to a buffer it borrows is
/// not stated here: a statement about that buffer would need the value the
/// borrow ends with, which no specification function may speak of. What each
/// sink does with a write is stated by the sink: a vector appends the bytes
/// (`law_vec_sink`, `to_vec`), a [`encode::write::Cursor`] splices them in at
/// its position, and a slice puts them at its front (its `write_all`).
pub fn encode<T: Encode<()>, W: Write>(x: T, w: W) -> (r: Result<(), encode::Error<W::Error>>)
    ensures
        r is Ok ==> all_fit(w.room(), x.parts()),
        !x.refuses() ==> (r is Ok <==> all_fit(w.room(), x.parts())),
        !x.refuses() ==> (r matches Err(e) ==> e.kind() is Write),
{
    let mut e = Encoder::new(w);
    x.encode(&mut e, &mut ())
}

/// Writes the encoding of `x` into `w`, with context `ctx`; fails where `w`
/// has no room for it, with the sink's error, or where `x` refuses with an
/// error of its own. As for [`encode`], what a sink delivers to a buffer it
/// borrows is stated by the sink, not here.
pub fn encode_with<C, T: Encode<C>, W: Write>(x: T, w: W, ctx: &mut C) -> (r: Result<(), encode::Error<W::Error>>)
    ensures
        r is Ok ==> all_fit(w.room(), x.parts()),
        !x.refuses() ==> (r is Ok <==> all_fit(w.room(), x.parts())),
        !x.refuses() ==> (r matches Err(e) ==> e.kind() is Write),
{
    let mut e = Encoder::new(w);
    x.encode(&mut e, ctx)
}

/// The encoding of `x`, in a vector of bytes; fails only where `x` refuses
/// with an error of its own.
pub fn to_vec<T: Encode<()>>(x: T) -> (r: Result<Vec<u8>, encode::Error<Infallible>>)
    ensures
        r matches Ok(v) ==> v@ == encoding::<(), T>(&x),
        !x.refuses() ==> r is Ok,
{
    let mut e = Encoder::new(Vec::new());
    proof {
        lemma_all_fit_unbounded(x.parts());
    }
    match x.encode(&mut e, &mut ()) {
        Ok(()) => {
            let v = e.into_writer();
            assert(v@ =~= joined(x.parts()));
            Ok(v)
        },
        Err(err) => Err(err),
    }
}

/// The encoding of `x`, with context `ctx`, in a vector of bytes; fails only
/// where `x` refuses with an error of its own.
pub fn to_vec_with<C, T: Encode<C>>(x: T, ctx: &mut C) -> (r: Result<Vec<u8>, encode::Error<Infallible>>)
    ensures
        r matches Ok(v) ==> v@ == encoding::<C, T>(&x),
        !x.refuses() ==> r is Ok,
{
    let mut e = Encoder::new(Vec::new());
    proof {
        lemma_all_fit_unbounded(x.parts());
    }
    match x.encode(&mut e, ctx) {
        Ok(()) => {
            let v = e.into_writer();
            assert(v@ =~= joined(x.parts()));
            Ok(v)
        },
        Err(err) => Err(err),
    }
}

/// The number of bytes `x` is encoded in.
pub fn len<T: CborLen<()>>(x: T) -> (n: usize)
    requires
        encoding::<(), T>(&x).len() <= usize::MAX,
    ensures
        n == encoding::<(), T>(&x).len(),
{
    x.cbor_len(&mut ())
}

/// The number of bytes `x` is encoded in, with context `ctx`.
pub fn len_with<C, T: CborLen<C>>(x: T, ctx: &mut C) -> (n: usize)
    requires
        encoding::<C, T>(&x).len() <= usize::MAX,
    ensures
        n == encoding::<C, T>(&x).len(),
{
    x.cbor_len(ctx)
}

/// Encoding into a sink with room for `n` bytes, such as a slice of that
/// length, succeeds exactly when `n` is at least the length that `len` (or
/// `len_with`) gives for `x`; for a value that does not refuse, `encode` and
/// `encode_with` then succeed exactly there.
pub proof fn law_fits_iff_len<C, T: Encode<C>>(x: T, n: nat)
    ensures
        all_fit(Some(n as int), x.parts()) <==> encoding::<C, T>(&x).len() <= n,
{
    lemma_all_fit_bounded(n as int, x.parts());
}

/// Writing `x` into a vector appends exactly its encoding, and so grows the
/// vector by the length that `len` (or `len_with`) gives for `x`; `to_vec` is
/// the case of an empty vector.
pub proof fn law_vec_grows_by_len<C, T: Encode<C>>(x: T, a: Encoder<Vec<u8>>, b: Encoder<Vec<u8>>)
    requires
        encode::encoder::encoded(a, b, x.parts()),
    ensures
        b.sink()@.len() == a.sink()@.len() + encoding::<C, T>(&x).len(),
        b.sink()@.subrange(a.sink()@.len() as int, b.sink()@.len() as int) == encoding::<C, T>(&x),
{
    encode::encoder::law_vec_sink(a, b, x.parts());
    assert(b.sink()@.subrange(a.sink()@.len() as int, b.sink()@.len() as int) =~= encoding::<C, T>(&x));
}

/// A reference or a box adds nothing: `&x`, `&&x` and `Box::new(x)` are
/// encoded (and counted by `len`) as `x` is, and refuse when `x` does.
pub proof fn law_references_add_nothing<C, T: Encode<C>>(x: T)
    ensures
        encoding::<C, &T>(&&x) == encoding::<C, T>(&x),
        encoding::<C, &&T>(&(&(&x))) == encoding::<C, T>(&x),
        encoding::<C, Box<T>>(&Box::new(x)) == encoding::<C, T>(&x),
        (&x).refuses() == x.refuses(),
        Box::new(x).refuses() == x.refuses(),
{
}

/// Decoding with the context `()` gives what `decode` gives, for a type
/// whose decoding has one outcome (`decode::unique` shows it of this
/// library's types): the results `r1` of `decode_with(b, &mut ())` and `r2`
/// of `decode(b)` are the same value, or the same error at the same position.
pub proof fn law_decode_with_unit_is_decode<'b, T: Decode<'b, ()>>(b: Seq<u8>, r1: Result<T, ErrorView>, r2: Result<T, ErrorView>)
    requires
        decodes_uniquely::<'b, (), T>(),
        exists|e: int| T::decodes(b, 0, r1, e),
        exists|e: int| T::decodes(b, 0, r2, e),
    ensures
        r1 == r2,
{
    let e1 = choose|e: int| T::decodes(b, 0, r1, e);
    let e2 = choose|e: int| T::decodes(b, 0, r2, e);
    assert(T::decodes(b, 0, r1, e1) && T::decodes(b, 0, r2, e2));
}

/// One item is read from the start of the input and what follows it is
/// ignored: where `b` decodes to `v`, the result `r` of decoding `b` followed
/// by any bytes `s` is `v` too, for a type whose decoding reads only the bytes
/// of its item and has one outcome (`decode::local` and `decode::unique` show
/// both of this library's types).
pub proof fn law_trailing_bytes_ignored<'b, C, T: Decode<'b, C>>(b: Seq<u8>, s: Seq<u8>, v: T, end: int, r: Result<T, ErrorView>)
    requires
        decodes_locally::<'b, C, T>(),
        decodes_uniquely::<'b, C, T>(),
        T::decodes(b, 0, Ok(v), end),
        exists|e: int| T::decodes(b + s, 0, r, e),
    ensures
        r == Ok::<T, ErrorView>(v),
{
    let e = choose|e: int| T::decodes(b + s, 0, r, e);
    assert(T::decodes(b + s, 0, Ok(v), end));
}

/// A strict start of an item fails to decode for want of input: where `b`
/// decodes to `x` and the item takes all of `b` (as the encoding of `x`
/// does), decoding its first `k < b.len()` bytes fails with the error of an
/// input that ended too soon, for a type whose decoding fails so on an input
/// cut within an item (`decode::short` shows it of this library's types but
/// arrays of fixed length).
pub proof fn law_prefix_never_decodes<'b, C, T: Decode<'b, C>>(b: Seq<u8>, x: T, k: int, r: Result<T, ErrorView>, e: int)
    requires
        fails_short::<'b, C, T>(),
        T::decodes(b, 0, Ok(x), b.len() as int),
        0 <= k < b.len(),
        T::decodes(b.take(k), 0, r, e),
    ensures
        r == Err::<T, ErrorView>(decode::error::end_of_input()),
{
}

/// A value reads back from what `to_vec` gives: where `b` is the encoding of
/// `x` (the bytes `to_vec(x)` gives) and fits a slice, the result `r` of
/// `decode(b)` is `x`, for a type whose values read back from their encoding
/// and whose decoding has one outcome (`roundtrip` and `decode::unique` show
/// both of this library's types, an `Option` of a value that may be `null`
/// but excepted).
pub proof fn law_decode_of_to_vec<'b, T: Encode<()> + Decode<'b, ()>>(x: T, b: Seq<u8>, r: Result<T, ErrorView>)
    requires
        roundtrips::<'b, (), T>(),
        decodes_uniquely::<'b, (), T>(),
        b == encoding::<(), T>(&x),
        b.len() <= usize::MAX,
        exists|e: int| T::decodes(b, 0, r, e),
    ensures
        r == Ok::<T, ErrorView>(x),
{
    let e = choose|e: int| T::decodes(b, 0, r, e);
    assert(b.subrange(0, b.len() as int) =~= b);
    assert(T::decodes(b, 0, Ok(x), b.len() as int));
}

} // verus!
