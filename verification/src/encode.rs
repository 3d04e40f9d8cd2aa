//! Encoding of CBOR.
use vstd::prelude::*;
use vstd::string::StringSliceAdditionalSpecFns;

pub mod write;
pub mod error;
pub mod encoder;
pub mod len;

pub use error::Error;
pub use encoder::Encoder;
pub use write::Write;
pub use len::CborLen;

use crate::data::{Int, Tag, Tagged, IanaTag, iana_number};
use crate::model::{joined, head_parts, UNSIGNED, TEXT, ARRAY, TAGGED};
use encoder::{encoded, int_parts, lemma_then};
use write::{all_fit, written};

verus! {

/// A type whose values can be encoded as CBOR.
pub trait Encode<C> {
    /// The pieces in which this value is written, one after another; the
    /// encoding is their concatenation.
    spec fn parts(&self) -> Seq<Seq<u8>>;

    /// Whether encoding this value may fail with an error of its own, and
    /// not only for want of room; a type whose values may says which.
    open spec fn refuses(&self) -> bool {
        false
    }

    /// Writes this value into `e`, with context `ctx`. A success wrote all the
    /// pieces. A value that does not refuse succeeds exactly where all the
    /// pieces fit; otherwise it writes what fits of them and fails with the
    /// sink's error.
    fn encode<W: Write>(&self, e: &mut Encoder<W>, ctx: &mut C) -> (r: Result<(), Error<W::Error>>)
        ensures
            r is Ok ==> all_fit(old(e).sink().room(), self.parts()) && encoded(*old(e), *final(e), self.parts()),
            !self.refuses() ==> (r is Ok <==> all_fit(old(e).sink().room(), self.parts())),
            !self.refuses() ==> encoded(*old(e), *final(e), self.parts()),
            !self.refuses() ==> (r matches Err(x) ==> x.kind() is Write),
    ;

    /// Whether this value stands for a missing one, such as `None`; a type
    /// with such values says which they are.
    open spec fn nil(&self) -> bool {
        false
    }

    /// Whether this value stands for a missing one. Only such a value is
    /// reported; a type that keeps this default reports none.
    fn is_nil(&self) -> (r: bool)
        ensures
            r ==> self.nil(),
        default_ensures
            !r,
    {
        false
    }
}

/// The encoding of `x`.
pub open spec fn encoding<C, T: Encode<C> + ?Sized>(x: &T) -> Seq<u8> {
    joined(x.parts())
}

impl<C> Encode<C> for u8 {
    open spec fn parts(&self) -> Seq<Seq<u8>> {
        head_parts(UNSIGNED, *self as u64)
    }

    fn encode<W: Write>(&self, e: &mut Encoder<W>, ctx: &mut C) -> (r: Result<(), Error<W::Error>>) {
        match e.u8(*self) {
            Ok(_) => Ok(()),
            Err(x) => Err(x),
        }
    }
}

impl<C> Encode<C> for u16 {
    open spec fn parts(&self) -> Seq<Seq<u8>> {
        head_parts(UNSIGNED, *self as u64)
    }

    fn encode<W: Write>(&self, e: &mut Encoder<W>, ctx: &mut C) -> (r: Result<(), Error<W::Error>>) {
        match e.u16(*self) {
            Ok(_) => Ok(()),
            Err(x) => Err(x),
        }
    }
}

impl<C> Encode<C> for u32 {
    open spec fn parts(&self) -> Seq<Seq<u8>> {
        head_parts(UNSIGNED, *self as u64)
    }

    fn encode<W: Write>(&self, e: &mut Encoder<W>, ctx: &mut C) -> (r: Result<(), Error<W::Error>>) {
        match e.u32(*self) {
            Ok(_) => Ok(()),
            Err(x) => Err(x),
        }
    }
}

impl<C> Encode<C> for u64 {
    open spec fn parts(&self) -> Seq<Seq<u8>> {
        head_parts(UNSIGNED, *self)
    }

    fn encode<W: Write>(&self, e: &mut Encoder<W>, ctx: &mut C) -> (r: Result<(), Error<W::Error>>) {
        match e.u64(*self) {
            Ok(_) => Ok(()),
            Err(x) => Err(x),
        }
    }
}

impl<C> Encode<C> for usize {
    open spec fn parts(&self) -> Seq<Seq<u8>> {
        head_parts(UNSIGNED, *self as u64)
    }

    fn encode<W: Write>(&self, e: &mut Encoder<W>, ctx: &mut C) -> (r: Result<(), Error<W::Error>>) {
        match e.u64(*self as u64) {
            Ok(_) => Ok(()),
            Err(x) => Err(x),
        }
    }
}

impl<C> Encode<C> for i8 {
    open spec fn parts(&self) -> Seq<Seq<u8>> {
        int_parts(*self as int)
    }

    fn encode<W: Write>(&self, e: &mut Encoder<W>, ctx: &mut C) -> (r: Result<(), Error<W::Error>>) {
        match e.i8(*self) {
            Ok(_) => Ok(()),
            Err(x) => Err(x),
        }
    }
}

impl<C> Encode<C> for i16 {
    open spec fn parts(&self) -> Seq<Seq<u8>> {
        int_parts(*self as int)
    }

    fn encode<W: Write>(&self, e: &mut Encoder<W>, ctx: &mut C) -> (r: Result<(), Error<W::Error>>) {
        match e.i16(*self) {
            Ok(_) => Ok(()),
            Err(x) => Err(x),
        }
    }
}

impl<C> Encode<C> for i32 {
    open spec fn parts(&self) -> Seq<Seq<u8>> {
        int_parts(*self as int)
    }

    fn encode<W: Write>(&self, e: &mut Encoder<W>, ctx: &mut C) -> (r: Result<(), Error<W::Error>>) {
        match e.i32(*self) {
            Ok(_) => Ok(()),
            Err(x) => Err(x),
        }
    }
}

impl<C> Encode<C> for i64 {
    open spec fn parts(&self) -> Seq<Seq<u8>> {
        int_parts(*self as int)
    }

    fn encode<W: Write>(&self, e: &mut Encoder<W>, ctx: &mut C) -> (r: Result<(), Error<W::Error>>) {
        match e.i64(*self) {
            Ok(_) => Ok(()),
            Err(x) => Err(x),
        }
    }
}

impl<C> Encode<C> for isize {
    open spec fn parts(&self) -> Seq<Seq<u8>> {
        int_parts(*self as int)
    }

    fn encode<W: Write>(&self, e: &mut Encoder<W>, ctx: &mut C) -> (r: Result<(), Error<W::Error>>) {
        match e.i64(*self as i64) {
            Ok(_) => Ok(()),
            Err(x) => Err(x),
        }
    }
}

impl<C> Encode<C> for bool {
    open spec fn parts(&self) -> Seq<Seq<u8>> {
        seq![seq![if *self { 0xf5u8 } else { 0xf4u8 }]]
    }

    fn encode<W: Write>(&self, e: &mut Encoder<W>, ctx: &mut C) -> (r: Result<(), Error<W::Error>>) {
        match e.bool(*self) {
            Ok(_) => Ok(()),
            Err(x) => Err(x),
        }
    }
}

impl<C> Encode<C> for char {
    open spec fn parts(&self) -> Seq<Seq<u8>> {
        head_parts(UNSIGNED, *self as u32 as u64)
    }

    fn encode<W: Write>(&self, e: &mut Encoder<W>, ctx: &mut C) -> (r: Result<(), Error<W::Error>>) {
        match e.char(*self) {
            Ok(_) => Ok(()),
            Err(x) => Err(x),
        }
    }
}

impl<C> Encode<C> for Int {
    open spec fn parts(&self) -> Seq<Seq<u8>> {
        int_parts(self.value())
    }

    fn encode<W: Write>(&self, e: &mut Encoder<W>, ctx: &mut C) -> (r: Result<(), Error<W::Error>>) {
        match e.integer(*self) {
            Ok(_) => Ok(()),
            Err(x) => Err(x),
        }
    }
}

impl<C> Encode<C> for Tag {
    open spec fn parts(&self) -> Seq<Seq<u8>> {
        head_parts(TAGGED, self.num())
    }

    fn encode<W: Write>(&self, e: &mut Encoder<W>, ctx: &mut C) -> (r: Result<(), Error<W::Error>>) {
        match e.tag(*self) {
            Ok(_) => Ok(()),
            Err(x) => Err(x),
        }
    }
}

impl<C> Encode<C> for IanaTag {
    open spec fn parts(&self) -> Seq<Seq<u8>> {
        head_parts(TAGGED, iana_number(*self))
    }

    fn encode<W: Write>(&self, e: &mut Encoder<W>, ctx: &mut C) -> (r: Result<(), Error<W::Error>>) {
        match e.tag(self.tag()) {
            Ok(_) => Ok(()),
            Err(x) => Err(x),
        }
    }
}

impl<C> Encode<C> for () {
    open spec fn parts(&self) -> Seq<Seq<u8>> {
        head_parts(ARRAY, 0)
    }

    fn encode<W: Write>(&self, e: &mut Encoder<W>, ctx: &mut C) -> (r: Result<(), Error<W::Error>>) {
        match e.array(0) {
            Ok(_) => Ok(()),
            Err(x) => Err(x),
        }
    }
}

impl<C, T> Encode<C> for core::marker::PhantomData<T> {
    open spec fn parts(&self) -> Seq<Seq<u8>> {
        head_parts(ARRAY, 0)
    }

    fn encode<W: Write>(&self, e: &mut Encoder<W>, ctx: &mut C) -> (r: Result<(), Error<W::Error>>) {
        match e.array(0) {
            Ok(_) => Ok(()),
            Err(x) => Err(x),
        }
    }
}

impl<C> Encode<C> for str {
    open spec fn parts(&self) -> Seq<Seq<u8>> {
        head_parts(TEXT, self.spec_bytes().len() as u64) + seq![self.spec_bytes()]
    }

    fn encode<W: Write>(&self, e: &mut Encoder<W>, ctx: &mut C) -> (r: Result<(), Error<W::Error>>) {
        match e.str(self) {
            Ok(_) => Ok(()),
            Err(x) => Err(x),
        }
    }
}

impl<C> Encode<C> for String {
    open spec fn parts(&self) -> Seq<Seq<u8>> {
        head_parts(TEXT, vstd::utf8::encode_utf8(self@).len() as u64) + seq![vstd::utf8::encode_utf8(self@)]
    }

    fn encode<W: Write>(&self, e: &mut Encoder<W>, ctx: &mut C) -> (r: Result<(), Error<W::Error>>) {
        match e.str(self.as_str()) {
            Ok(_) => Ok(()),
            Err(x) => Err(x),
        }
    }
}

/// A text that is borrowed or owned is encoded as the text.
impl<'a, C> Encode<C> for std::borrow::Cow<'a, str> {
    open spec fn parts(&self) -> Seq<Seq<u8>> {
        head_parts(TEXT, vstd::utf8::encode_utf8(self@).len() as u64) + seq![vstd::utf8::encode_utf8(self@)]
    }

    fn encode<W: Write>(&self, e: &mut Encoder<W>, ctx: &mut C) -> (r: Result<(), Error<W::Error>>) {
        match self {
            std::borrow::Cow::Borrowed(b) => (*b).encode(e, ctx),
            std::borrow::Cow::Owned(o) => o.encode(e, ctx),
        }
    }
}

impl<'a, C, T: Encode<C> + ?Sized> Encode<C> for &'a T {
    open spec fn parts(&self) -> Seq<Seq<u8>> {
        (**self).parts()
    }

    open spec fn refuses(&self) -> bool {
        (**self).refuses()
    }

    fn encode<W: Write>(&self, e: &mut Encoder<W>, ctx: &mut C) -> (r: Result<(), Error<W::Error>>) {
        (**self).encode(e, ctx)
    }

    open spec fn nil(&self) -> bool {
        (**self).nil()
    }

    fn is_nil(&self) -> bool {
        (**self).is_nil()
    }
}

impl<'a, C, T: Encode<C> + ?Sized> Encode<C> for &'a mut T {
    open spec fn parts(&self) -> Seq<Seq<u8>> {
        (**self).parts()
    }

    open spec fn refuses(&self) -> bool {
        (**self).refuses()
    }

    fn encode<W: Write>(&self, e: &mut Encoder<W>, ctx: &mut C) -> (r: Result<(), Error<W::Error>>) {
        (**self).encode(e, ctx)
    }

    open spec fn nil(&self) -> bool {
        (**self).nil()
    }

    fn is_nil(&self) -> bool {
        (**self).is_nil()
    }
}

impl<C, T: Encode<C> + ?Sized> Encode<C> for Box<T> {
    open spec fn parts(&self) -> Seq<Seq<u8>> {
        (**self).parts()
    }

    open spec fn refuses(&self) -> bool {
        (**self).refuses()
    }

    fn encode<W: Write>(&self, e: &mut Encoder<W>, ctx: &mut C) -> (r: Result<(), Error<W::Error>>) {
        (**self).encode(e, ctx)
    }

    open spec fn nil(&self) -> bool {
        (**self).nil()
    }

    fn is_nil(&self) -> bool {
        (**self).is_nil()
    }
}

impl<C, T: Encode<C>> Encode<C> for Option<T> {
    open spec fn parts(&self) -> Seq<Seq<u8>> {
        match self {
            None => seq![seq![0xf6u8]],
            Some(x) => x.parts(),
        }
    }

    open spec fn refuses(&self) -> bool {
        match self {
            None => false,
            Some(x) => x.refuses(),
        }
    }

    fn encode<W: Write>(&self, e: &mut Encoder<W>, ctx: &mut C) -> (r: Result<(), Error<W::Error>>) {
        match self {
            None => match e.null() {
                Ok(_) => Ok(()),
                Err(x) => Err(x),
            },
            Some(x) => x.encode(e, ctx),
        }
    }

    open spec fn nil(&self) -> bool {
        self is None
    }

    fn is_nil(&self) -> (r: bool)
        ensures
            r == (*self is None),
    {
        self.is_none()
    }
}

/// Nothing written yet: the start of a chain of writes.
proof fn lemma_start<W: Write>(e: Encoder<W>)
    ensures
        encoded(e, e, Seq::empty()),
        all_fit(e.sink().room(), Seq::empty()),
{
    W::lemma_wrote_nothing(&e.sink());
    assert(written(e.sink().room(), Seq::empty()) == Seq::<u8>::empty());
}

/// Writes `x` as the next link of a chain of writes that began at `start`
/// and has written `done` so far.
fn step<C, T: Encode<C> + ?Sized, W: Write>(
    x: &T,
    e: &mut Encoder<W>,
    ctx: &mut C,
    Ghost(start): Ghost<Encoder<W>>,
    Ghost(done): Ghost<Seq<Seq<u8>>>,
) -> (r: Result<(), Error<W::Error>>)
    requires
        encoded(start, *old(e), done),
        all_fit(start.sink().room(), done),
    ensures
        r is Ok ==> encoded(start, *final(e), done + x.parts()) && all_fit(start.sink().room(), done + x.parts()),
        !x.refuses() ==> encoded(start, *final(e), done + x.parts()),
        !x.refuses() ==> (r is Ok <==> all_fit(start.sink().room(), done + x.parts())),
        !x.refuses() ==> (r matches Err(err) ==> err.kind() is Write),
{
    let ghost b = *e;
    let r = x.encode(e, ctx);
    proof {
        if r is Ok || !x.refuses() {
            lemma_then(start, b, *e, done, x.parts(), true, r is Ok);
        }
    }
    r
}

/// Writes the head of major type `t` with argument `n` as the next link of a
/// chain of writes that began at `start` and has written `done` so far.
fn step_head<W: Write>(
    e: &mut Encoder<W>,
    t: u8,
    n: u64,
    Ghost(start): Ghost<Encoder<W>>,
    Ghost(done): Ghost<Seq<Seq<u8>>>,
) -> (r: Result<(), Error<W::Error>>)
    requires
        encoded(start, *old(e), done),
        all_fit(start.sink().room(), done),
    ensures
        encoded(start, *final(e), done + head_parts(t, n)),
        r is Ok <==> all_fit(start.sink().room(), done + head_parts(t, n)),
        r matches Err(err) ==> err.kind() is Write,
{
    let ghost b = *e;
    let r = e.type_len(t, n);
    proof {
        lemma_then(start, b, *e, done, head_parts(t, n), true, r is Ok);
    }
    r
}

/// A chain of writes that stopped at a piece that did not fit has written all
/// it will of the pieces that were still to come.
proof fn lemma_stop<W: Write>(start: Encoder<W>, e: Encoder<W>, done: Seq<Seq<u8>>, rest: Seq<Seq<u8>>)
    requires
        encoded(start, e, done),
        !all_fit(start.sink().room(), done),
    ensures
        encoded(start, e, done + rest),
        !all_fit(start.sink().room(), done + rest),
{
    lemma_then(start, e, e, done, rest, false, false);
}

/// The pieces in which the items of `s` are written, one after another.
pub open spec fn items_parts<C, T: Encode<C>>(s: Seq<T>) -> Seq<Seq<u8>>
    decreases s.len(),
{
    if s.len() == 0 {
        Seq::empty()
    } else {
        items_parts::<C, T>(s.drop_last()) + s.last().parts()
    }
}

/// The pieces of the items of `s` are those of its first `k` items, then
/// those of the rest.
pub(crate) proof fn lemma_items_split<C, T: Encode<C>>(s: Seq<T>, k: int)
    requires
        0 <= k <= s.len(),
    ensures
        items_parts::<C, T>(s) == items_parts::<C, T>(s.take(k)) + items_parts::<C, T>(s.skip(k)),
    decreases s.len(),
{
    if k == s.len() {
        assert(s.take(k) =~= s);
        assert(s.skip(k) =~= Seq::<T>::empty());
        assert(items_parts::<C, T>(s) + Seq::<Seq<u8>>::empty() =~= items_parts::<C, T>(s));
    } else {
        let dl = s.drop_last();
        lemma_items_split::<C, T>(dl, k);
        assert(dl.take(k) =~= s.take(k));
        assert(s.skip(k).drop_last() =~= dl.skip(k));
        assert(s.skip(k).last() == s.last());
        assert(items_parts::<C, T>(s) =~= items_parts::<C, T>(s.take(k)) + items_parts::<C, T>(s.skip(k)));
    }
}

/// Whether one of the items of `s` refuses to be encoded.
pub open spec fn items_refuse<C, T: Encode<C>>(s: Seq<T>) -> bool {
    exists|i: int| 0 <= i < s.len() && #[trigger] s[i].refuses()
}

/// Writes the items of `xs`, one after another.
fn encode_items<C, T: Encode<C>, W: Write>(xs: &[T], e: &mut Encoder<W>, ctx: &mut C) -> (r: Result<(), Error<W::Error>>)
    ensures
        r is Ok ==> all_fit(old(e).sink().room(), items_parts::<C, T>(xs@)) && encoded(*old(e), *final(e), items_parts::<C, T>(xs@)),
        !items_refuse::<C, T>(xs@) ==> (r is Ok <==> all_fit(old(e).sink().room(), items_parts::<C, T>(xs@))),
        !items_refuse::<C, T>(xs@) ==> encoded(*old(e), *final(e), items_parts::<C, T>(xs@)),
        !items_refuse::<C, T>(xs@) ==> (r matches Err(err) ==> err.kind() is Write),
{
    proof {
        lemma_start(*e);
        assert(xs@.take(0) =~= Seq::<T>::empty());
    }
    let mut i: usize = 0;
    while i < xs.len()
        invariant
            0 <= i <= xs@.len(),
            encoded(*old(e), *e, items_parts::<C, T>(xs@.take(i as int))),
            all_fit(old(e).sink().room(), items_parts::<C, T>(xs@.take(i as int))),
        decreases xs.len() - i,
    {
        let ghost done = items_parts::<C, T>(xs@.take(i as int));
        let r = step(&xs[i], e, ctx, Ghost(*old(e)), Ghost(done));
        proof {
            assert(xs@.take(i + 1).drop_last() =~= xs@.take(i as int));
            assert(xs@.take(i + 1).last() == xs@[i as int]);
            assert(items_parts::<C, T>(xs@.take(i + 1)) == done + xs@[i as int].parts());
        }
        if let Err(x) = r {
            proof {
                if !items_refuse::<C, T>(xs@) {
                    assert(!xs@[i as int].refuses());
                    lemma_items_split::<C, T>(xs@, i + 1);
                    lemma_stop(*old(e), *e, items_parts::<C, T>(xs@.take(i + 1)), items_parts::<C, T>(xs@.skip(i + 1)));
                }
            }
            return Err(x);
        }
        i = i + 1;
    }
    proof {
        assert(xs@.take(xs@.len() as int) =~= xs@);
    }
    Ok(())
}

impl<C, T: Encode<C>> Encode<C> for [T] {
    open spec fn parts(&self) -> Seq<Seq<u8>> {
        head_parts(ARRAY, self@.len() as u64) + items_parts::<C, T>(self@)
    }

    open spec fn refuses(&self) -> bool {
        items_refuse::<C, T>(self@)
    }

    fn encode<W: Write>(&self, e: &mut Encoder<W>, ctx: &mut C) -> (r: Result<(), Error<W::Error>>) {
        let ghost start = *e;
        let ghost items = items_parts::<C, T>(self@);
        let ghost b = *e;
        let r1 = e.type_len(ARRAY, self.len() as u64);
        if let Err(x) = r1 {
            proof {
                lemma_stop(start, *e, head_parts(ARRAY, self@.len() as u64), items);
            }
            return Err(x);
        }
        let ghost c = *e;
        let r2 = encode_items(self, e, ctx);
        proof {
            if r2 is Ok || !items_refuse::<C, T>(self@) {
                lemma_then(start, c, *e, head_parts(ARRAY, self@.len() as u64), items, true, r2 is Ok);
            }
        }
        r2
    }
}

impl<C, T: Encode<C>> Encode<C> for Vec<T> {
    open spec fn parts(&self) -> Seq<Seq<u8>> {
        head_parts(ARRAY, self@.len() as u64) + items_parts::<C, T>(self@)
    }

    open spec fn refuses(&self) -> bool {
        items_refuse::<C, T>(self@)
    }

    fn encode<W: Write>(&self, e: &mut Encoder<W>, ctx: &mut C) -> (r: Result<(), Error<W::Error>>) {
        self.as_slice().encode(e, ctx)
    }
}

impl<C, T: Encode<C>, const N: usize> Encode<C> for [T; N] {
    open spec fn parts(&self) -> Seq<Seq<u8>> {
        head_parts(ARRAY, self@.len() as u64) + items_parts::<C, T>(self@)
    }

    open spec fn refuses(&self) -> bool {
        items_refuse::<C, T>(self@)
    }

    fn encode<W: Write>(&self, e: &mut Encoder<W>, ctx: &mut C) -> (r: Result<(), Error<W::Error>>) {
        self.as_slice().encode(e, ctx)
    }
}

impl<C, T: Encode<C>, E: Encode<C>> Encode<C> for Result<T, E> {
    open spec fn parts(&self) -> Seq<Seq<u8>> {
        match self {
            Ok(x) => head_parts(ARRAY, 2) + head_parts(UNSIGNED, 0) + x.parts(),
            Err(x) => head_parts(ARRAY, 2) + head_parts(UNSIGNED, 1) + x.parts(),
        }
    }

    open spec fn refuses(&self) -> bool {
        match self {
            Ok(x) => x.refuses(),
            Err(x) => x.refuses(),
        }
    }

    fn encode<W: Write>(&self, e: &mut Encoder<W>, ctx: &mut C) -> (r: Result<(), Error<W::Error>>) {
        let ghost start = *e;
        let ghost h = head_parts(ARRAY, 2);
        proof {
            lemma_start(start);
            assert(Seq::<Seq<u8>>::empty() + h =~= h);
        }
        if let Err(x) = step_head(e, ARRAY, 2, Ghost(start), Ghost(Seq::empty())) {
            proof {
                lemma_stop(start, *e, h, self.parts().skip(h.len() as int));
                assert(h + self.parts().skip(h.len() as int) =~= self.parts());
            }
            return Err(x);
        }
        let v: u64 = if self.is_ok() { 0 } else { 1 };
        let ghost hv = h + head_parts(UNSIGNED, v);
        if let Err(x) = step_head(e, UNSIGNED, v, Ghost(start), Ghost(h)) {
            proof {
                lemma_stop(start, *e, hv, self.parts().skip(hv.len() as int));
                assert(hv + self.parts().skip(hv.len() as int) =~= self.parts());
            }
            return Err(x);
        }
        match self {
            Ok(x) => step(x, e, ctx, Ghost(start), Ghost(hv)),
            Err(x) => step(x, e, ctx, Ghost(start), Ghost(hv)),
        }
    }
}

impl<C, const N: u64, T: Encode<C>> Encode<C> for Tagged<N, T> {
    open spec fn parts(&self) -> Seq<Seq<u8>> {
        head_parts(TAGGED, N) + self.inner().parts()
    }

    open spec fn refuses(&self) -> bool {
        self.inner().refuses()
    }

    fn encode<W: Write>(&self, e: &mut Encoder<W>, ctx: &mut C) -> (r: Result<(), Error<W::Error>>) {
        let ghost start = *e;
        let ghost h = head_parts(TAGGED, N);
        proof {
            lemma_start(start);
            assert(Seq::<Seq<u8>>::empty() + h =~= h);
        }
        if let Err(x) = step_head(e, TAGGED, N, Ghost(start), Ghost(Seq::empty())) {
            proof {
                lemma_stop(start, *e, h, self.inner().parts());
            }
            return Err(x);
        }
        step(self.value(), e, ctx, Ghost(start), Ghost(h))
    }
}

impl<C, A: Encode<C>, B: Encode<C>> Encode<C> for (A, B) {
    open spec fn parts(&self) -> Seq<Seq<u8>> {
        head_parts(ARRAY, 2) + self.0.parts() + self.1.parts()
    }

    open spec fn refuses(&self) -> bool {
        self.0.refuses() || self.1.refuses()
    }

    fn encode<W: Write>(&self, e: &mut Encoder<W>, ctx: &mut C) -> (r: Result<(), Error<W::Error>>) {
        let ghost start = *e;
        let ghost h = head_parts(ARRAY, 2);
        proof {
            lemma_start(start);
            assert(Seq::<Seq<u8>>::empty() + h =~= h);
        }
        if let Err(x) = step_head(e, ARRAY, 2, Ghost(start), Ghost(Seq::empty())) {
            proof {
                lemma_stop(start, *e, h, self.0.parts() + self.1.parts());
                assert(h + (self.0.parts() + self.1.parts()) =~= self.parts());
            }
            return Err(x);
        }
        if let Err(x) = step(&self.0, e, ctx, Ghost(start), Ghost(h)) {
            proof {
                if !self.0.refuses() {
                    lemma_stop(start, *e, h + self.0.parts(), self.1.parts());
                }
            }
            return Err(x);
        }
        step(&self.1, e, ctx, Ghost(start), Ghost(h + self.0.parts()))
    }
}

/// A range is encoded as the array of its start and its end.
impl<C, T: Encode<C>> Encode<C> for core::ops::Range<T> {
    open spec fn parts(&self) -> Seq<Seq<u8>> {
        head_parts(ARRAY, 2) + self.start.parts() + self.end.parts()
    }

    open spec fn refuses(&self) -> bool {
        self.start.refuses() || self.end.refuses()
    }

    fn encode<W: Write>(&self, e: &mut Encoder<W>, ctx: &mut C) -> (r: Result<(), Error<W::Error>>) {
        (&self.start, &self.end).encode(e, ctx)
    }
}

impl<C, A: Encode<C>, B: Encode<C>, D: Encode<C>> Encode<C> for (A, B, D) {
    open spec fn parts(&self) -> Seq<Seq<u8>> {
        head_parts(ARRAY, 3) + self.0.parts() + self.1.parts() + self.2.parts()
    }

    open spec fn refuses(&self) -> bool {
        self.0.refuses() || self.1.refuses() || self.2.refuses()
    }

    fn encode<W: Write>(&self, e: &mut Encoder<W>, ctx: &mut C) -> (r: Result<(), Error<W::Error>>) {
        let ghost start = *e;
        let ghost h = head_parts(ARRAY, 3);
        proof {
            lemma_start(start);
            assert(Seq::<Seq<u8>>::empty() + h =~= h);
        }
        if let Err(x) = step_head(e, ARRAY, 3, Ghost(start), Ghost(Seq::empty())) {
            proof {
                lemma_stop(start, *e, h, self.0.parts() + self.1.parts() + self.2.parts());
                assert(h + (self.0.parts() + self.1.parts() + self.2.parts()) =~= self.parts());
            }
            return Err(x);
        }
        if let Err(x) = step(&self.0, e, ctx, Ghost(start), Ghost(h)) {
            proof {
                if !self.0.refuses() {
                    lemma_stop(start, *e, h + self.0.parts(), self.1.parts() + self.2.parts());
                    assert(h + self.0.parts() + (self.1.parts() + self.2.parts()) =~= self.parts());
                }
            }
            return Err(x);
        }
        if let Err(x) = step(&self.1, e, ctx, Ghost(start), Ghost(h + self.0.parts())) {
            proof {
                if !self.1.refuses() {
                    lemma_stop(start, *e, h + self.0.parts() + self.1.parts(), self.2.parts());
                }
            }
            return Err(x);
        }
        step(&self.2, e, ctx, Ghost(start), Ghost(h + self.0.parts() + self.1.parts()))
    }
}

impl<W: Write> Encoder<W> {
    /// Writes `x`.
    pub fn encode<T: Encode<()>>(&mut self, x: T) -> (r: Result<&mut Self, Error<W::Error>>)
        ensures
            r is Ok ==> all_fit(old(self).sink().room(), x.parts()),
            r matches Ok(e) ==> encoded(*old(self), *e, x.parts()) && *final(e) == *final(self),
            !x.refuses() ==> (r is Ok <==> all_fit(old(self).sink().room(), x.parts())),
            !x.refuses() ==> (r matches Err(err) ==> encoded(*old(self), *final(self), x.parts()) && err.kind() is Write),
    {
        match x.encode(self, &mut ()) {
            Ok(()) => Ok(self),
            Err(err) => Err(err),
        }
    }

    /// Writes `x`, with context `ctx`.
    pub fn encode_with<C, T: Encode<C>>(&mut self, x: T, ctx: &mut C) -> (r: Result<&mut Self, Error<W::Error>>)
        ensures
            r is Ok ==> all_fit(old(self).sink().room(), x.parts()),
            r matches Ok(e) ==> encoded(*old(self), *e, x.parts()) && *final(e) == *final(self),
            !x.refuses() ==> (r is Ok <==> all_fit(old(self).sink().room(), x.parts())),
            !x.refuses() ==> (r matches Err(err) ==> encoded(*old(self), *final(self), x.parts()) && err.kind() is Write),
    {
        match x.encode(self, ctx) {
            Ok(()) => Ok(self),
            Err(err) => Err(err),
        }
    }
}

} // verus!
