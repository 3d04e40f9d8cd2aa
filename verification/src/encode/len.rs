//! The length of an encoding, computed without writing it.
use vstd::prelude::*;
use vstd::string::StringSliceAdditionalSpecFns;
use crate::data::{Int, Tag, Tagged, IanaTag};
use crate::encode::{Encode, encoding, items_parts, lemma_items_split};
use crate::encode::encoder::int_parts;
use crate::model::{joined, head, head_len, head_parts, lemma_joined_append, lemma_joined_one, lemma_head_len, UNSIGNED, SIGNED, TEXT, ARRAY, TAGGED};

verus! {

/// A type whose values know the length of their encoding.
pub trait CborLen<C>: Encode<C> {
    /// The number of bytes this value is encoded in, with context `ctx`.
    fn cbor_len(&self, ctx: &mut C) -> (n: usize)
        requires
            joined(self.parts()).len() <= usize::MAX,
        ensures
            n == joined(self.parts()).len(),
    ;
}

/// The length of the head that holds `x`.
fn head_size(x: u64) -> (n: usize)
    ensures
        n == head_len(x),
{
    if x <= 0x17 {
        1
    } else if x <= 0xff {
        2
    } else if x <= 0xffff {
        3
    } else if x <= 0xffff_ffff {
        5
    } else {
        9
    }
}

/// The length of the encoding of an integer.
fn int_size(neg: bool, n: u64) -> (r: usize)
    ensures
        r == joined(int_parts(if neg { -1 - n } else { n as int })).len(),
{
    proof {
        lemma_head_len(if neg { SIGNED } else { UNSIGNED }, n);
        if neg {
            assert((-1 - (-1 - n)) as u64 == n);
        }
    }
    head_size(n)
}

impl<C> CborLen<C> for u8 {
    fn cbor_len(&self, ctx: &mut C) -> (n: usize) {
        proof { lemma_head_len(UNSIGNED, *self as u64); }
        head_size(*self as u64)
    }
}

impl<C> CborLen<C> for u16 {
    fn cbor_len(&self, ctx: &mut C) -> (n: usize) {
        proof { lemma_head_len(UNSIGNED, *self as u64); }
        head_size(*self as u64)
    }
}

impl<C> CborLen<C> for u32 {
    fn cbor_len(&self, ctx: &mut C) -> (n: usize) {
        proof { lemma_head_len(UNSIGNED, *self as u64); }
        head_size(*self as u64)
    }
}

impl<C> CborLen<C> for u64 {
    fn cbor_len(&self, ctx: &mut C) -> (n: usize) {
        proof { lemma_head_len(UNSIGNED, *self); }
        head_size(*self)
    }
}

impl<C> CborLen<C> for usize {
    fn cbor_len(&self, ctx: &mut C) -> (n: usize) {
        proof { lemma_head_len(UNSIGNED, *self as u64); }
        head_size(*self as u64)
    }
}

impl<C> CborLen<C> for char {
    fn cbor_len(&self, ctx: &mut C) -> (n: usize) {
        let n = *self as u32 as u64;
        proof { lemma_head_len(UNSIGNED, n); }
        head_size(n)
    }
}

impl<C> CborLen<C> for Tag {
    fn cbor_len(&self, ctx: &mut C) -> (n: usize) {
        proof { lemma_head_len(TAGGED, self.num()); }
        head_size(self.as_u64())
    }
}

impl<C> CborLen<C> for IanaTag {
    fn cbor_len(&self, ctx: &mut C) -> (n: usize) {
        let t = self.tag();
        proof { lemma_head_len(TAGGED, t.num()); }
        head_size(t.as_u64())
    }
}

impl<C> CborLen<C> for i8 {
    fn cbor_len(&self, ctx: &mut C) -> (n: usize) {
        if *self >= 0 { int_size(false, *self as u64) } else { int_size(true, (-1 - *self) as u64) }
    }
}

impl<C> CborLen<C> for i16 {
    fn cbor_len(&self, ctx: &mut C) -> (n: usize) {
        if *self >= 0 { int_size(false, *self as u64) } else { int_size(true, (-1 - *self) as u64) }
    }
}

impl<C> CborLen<C> for i32 {
    fn cbor_len(&self, ctx: &mut C) -> (n: usize) {
        if *self >= 0 { int_size(false, *self as u64) } else { int_size(true, (-1 - *self) as u64) }
    }
}

impl<C> CborLen<C> for i64 {
    fn cbor_len(&self, ctx: &mut C) -> (n: usize) {
        if *self >= 0 { int_size(false, *self as u64) } else { int_size(true, (-1 - *self) as u64) }
    }
}

impl<C> CborLen<C> for isize {
    fn cbor_len(&self, ctx: &mut C) -> (n: usize) {
        if *self >= 0 { int_size(false, *self as u64) } else { int_size(true, (-1 - *self) as u64) }
    }
}

impl<C> CborLen<C> for Int {
    fn cbor_len(&self, ctx: &mut C) -> (n: usize) {
        int_size(self.is_negative(), self.argument())
    }
}

impl<C> CborLen<C> for bool {
    fn cbor_len(&self, ctx: &mut C) -> (n: usize) {
        proof { lemma_joined_one(seq![if *self { 0xf5u8 } else { 0xf4u8 }]); }
        1
    }
}

impl<C> CborLen<C> for () {
    fn cbor_len(&self, ctx: &mut C) -> (n: usize) {
        proof { lemma_head_len(ARRAY, 0); }
        1
    }
}

impl<C, T> CborLen<C> for core::marker::PhantomData<T> {
    fn cbor_len(&self, ctx: &mut C) -> (n: usize) {
        proof { lemma_head_len(ARRAY, 0); }
        1
    }
}

impl<C> CborLen<C> for str {
    fn cbor_len(&self, ctx: &mut C) -> (n: usize) {
        let len = self.as_bytes().len();
        proof {
            lemma_head_len(TEXT, len as u64);
            lemma_joined_append(head_parts(TEXT, len as u64), seq![self.spec_bytes()]);
            lemma_joined_one(self.spec_bytes());
        }
        head_size(len as u64) + len
    }
}

impl<C> CborLen<C> for String {
    fn cbor_len(&self, ctx: &mut C) -> (n: usize) {
        self.as_str().cbor_len(ctx)
    }
}

impl<'a, C> CborLen<C> for std::borrow::Cow<'a, str> {
    fn cbor_len(&self, ctx: &mut C) -> (n: usize) {
        match self {
            std::borrow::Cow::Borrowed(b) => (*b).cbor_len(ctx),
            std::borrow::Cow::Owned(o) => o.cbor_len(ctx),
        }
    }
}

impl<'a, C, T: CborLen<C> + ?Sized> CborLen<C> for &'a T {
    fn cbor_len(&self, ctx: &mut C) -> (n: usize) {
        (**self).cbor_len(ctx)
    }
}

impl<'a, C, T: CborLen<C> + ?Sized> CborLen<C> for &'a mut T {
    fn cbor_len(&self, ctx: &mut C) -> (n: usize) {
        (**self).cbor_len(ctx)
    }
}

impl<C, T: CborLen<C> + ?Sized> CborLen<C> for Box<T> {
    fn cbor_len(&self, ctx: &mut C) -> (n: usize) {
        (**self).cbor_len(ctx)
    }
}

impl<C, T: CborLen<C>> CborLen<C> for Option<T> {
    fn cbor_len(&self, ctx: &mut C) -> (n: usize) {
        match self {
            None => {
                proof { lemma_joined_one(seq![0xf6u8]); }
                1
            },
            Some(x) => x.cbor_len(ctx),
        }
    }
}

impl<C, T: CborLen<C>, E: CborLen<C>> CborLen<C> for Result<T, E> {
    fn cbor_len(&self, ctx: &mut C) -> (n: usize) {
        let v: u64 = if self.is_ok() { 0 } else { 1 };
        proof {
            lemma_head_len(ARRAY, 2);
            lemma_head_len(UNSIGNED, v);
            lemma_joined_append(head_parts(ARRAY, 2), head_parts(UNSIGNED, v));
        }
        match self {
            Ok(x) => {
                proof { lemma_joined_append(head_parts(ARRAY, 2) + head_parts(UNSIGNED, v), x.parts()); }
                2 + x.cbor_len(ctx)
            },
            Err(x) => {
                proof { lemma_joined_append(head_parts(ARRAY, 2) + head_parts(UNSIGNED, v), x.parts()); }
                2 + x.cbor_len(ctx)
            },
        }
    }
}

impl<C, const N: u64, T: CborLen<C>> CborLen<C> for Tagged<N, T> {
    fn cbor_len(&self, ctx: &mut C) -> (n: usize) {
        proof {
            lemma_head_len(TAGGED, N);
            lemma_joined_append(head_parts(TAGGED, N), self.inner().parts());
        }
        head_size(N) + self.value().cbor_len(ctx)
    }
}

impl<C, A: CborLen<C>, B: CborLen<C>> CborLen<C> for (A, B) {
    fn cbor_len(&self, ctx: &mut C) -> (n: usize) {
        proof {
            lemma_head_len(ARRAY, 2);
            lemma_joined_append(head_parts(ARRAY, 2), self.0.parts());
            lemma_joined_append(head_parts(ARRAY, 2) + self.0.parts(), self.1.parts());
        }
        let a = self.0.cbor_len(ctx);
        let b = self.1.cbor_len(ctx);
        1 + a + b
    }
}

impl<C, T: CborLen<C>> CborLen<C> for core::ops::Range<T> {
    fn cbor_len(&self, ctx: &mut C) -> (n: usize) {
        (&self.start, &self.end).cbor_len(ctx)
    }
}

impl<C, A: CborLen<C>, B: CborLen<C>, D: CborLen<C>> CborLen<C> for (A, B, D) {
    fn cbor_len(&self, ctx: &mut C) -> (n: usize) {
        proof {
            lemma_head_len(ARRAY, 3);
            lemma_joined_append(head_parts(ARRAY, 3), self.0.parts());
            lemma_joined_append(head_parts(ARRAY, 3) + self.0.parts(), self.1.parts());
            lemma_joined_append(head_parts(ARRAY, 3) + self.0.parts() + self.1.parts(), self.2.parts());
        }
        let a = self.0.cbor_len(ctx);
        let b = self.1.cbor_len(ctx);
        let c = self.2.cbor_len(ctx);
        1 + a + b + c
    }
}

/// The length of the encoding of the items of `xs`, one after another.
fn items_len<C, T: CborLen<C>>(xs: &[T], ctx: &mut C) -> (n: usize)
    requires
        joined(items_parts::<C, T>(xs@)).len() <= usize::MAX,
    ensures
        n == joined(items_parts::<C, T>(xs@)).len(),
{
    let mut n: usize = 0;
    let mut i: usize = 0;
    proof {
        assert(xs@.take(0) =~= Seq::<T>::empty());
    }
    while i < xs.len()
        invariant
            0 <= i <= xs@.len(),
            joined(items_parts::<C, T>(xs@)).len() <= usize::MAX,
            n == joined(items_parts::<C, T>(xs@.take(i as int))).len(),
        decreases xs.len() - i,
    {
        proof {
            let done = items_parts::<C, T>(xs@.take(i as int));
            assert(xs@.take(i + 1).drop_last() =~= xs@.take(i as int));
            assert(xs@.take(i + 1).last() == xs@[i as int]);
            assert(items_parts::<C, T>(xs@.take(i + 1)) == done + xs@[i as int].parts());
            lemma_joined_append(done, xs@[i as int].parts());
            lemma_items_split::<C, T>(xs@, i + 1);
            lemma_joined_append(items_parts::<C, T>(xs@.take(i + 1)), items_parts::<C, T>(xs@.skip(i + 1)));
        }
        let m = xs[i].cbor_len(ctx);
        n = n + m;
        i = i + 1;
    }
    proof {
        assert(xs@.take(xs@.len() as int) =~= xs@);
    }
    n
}

impl<C, T: CborLen<C>> CborLen<C> for [T] {
    fn cbor_len(&self, ctx: &mut C) -> (n: usize) {
        proof {
            lemma_head_len(ARRAY, self@.len() as u64);
            lemma_joined_append(head_parts(ARRAY, self@.len() as u64), items_parts::<C, T>(self@));
        }
        head_size(self.len() as u64) + items_len(self, ctx)
    }
}

impl<C, T: CborLen<C>> CborLen<C> for Vec<T> {
    fn cbor_len(&self, ctx: &mut C) -> (n: usize) {
        self.as_slice().cbor_len(ctx)
    }
}

impl<C, T: CborLen<C>, const N: usize> CborLen<C> for [T; N] {
    fn cbor_len(&self, ctx: &mut C) -> (n: usize) {
        self.as_slice().cbor_len(ctx)
    }
}

} // verus!
