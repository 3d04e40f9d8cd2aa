//! Sinks that the encoder writes bytes into.
use vstd::prelude::*;
use crate::text::{new_string, push_str};

verus! {

/// Whether `n` bytes fit into a sink with the given room (`None`: no limit).
pub open spec fn fits(room: Option<int>, n: int) -> bool {
    match room {
        None => true,
        Some(r) => n <= r,
    }
}

/// The room that is left once `n` bytes have been written.
pub open spec fn less(room: Option<int>, n: int) -> Option<int> {
    match room {
        None => None,
        Some(r) => Some(r - n),
    }
}

/// A sink of bytes.
pub trait Write: Sized {
    /// The error that a write that does not fit returns.
    type Error;

    /// How many more bytes this sink accepts (`None`: no limit). A negative
    /// room accepts no write at all, not even an empty one.
    spec fn room(&self) -> Option<int>;

    /// Whether `after` is this sink once `bytes` have been written into it.
    spec fn wrote(&self, after: &Self, bytes: Seq<u8>) -> bool;

    /// Writing nothing leaves a sink as it is.
    proof fn lemma_wrote_nothing(w: &Self)
        ensures
            w.wrote(w, Seq::empty()),
    ;

    /// Two writes in a row write what they wrote one after the other.
    proof fn lemma_wrote_concat(a: &Self, b: &Self, c: &Self, x: Seq<u8>, y: Seq<u8>)
        requires
            a.wrote(b, x),
            b.wrote(c, y),
        ensures
            a.wrote(c, x + y),
    ;

    /// What a write takes from the room.
    proof fn lemma_wrote_room(a: &Self, b: &Self, x: Seq<u8>)
        requires
            a.wrote(b, x),
        ensures
            b.room() == less(a.room(), x.len() as int),
    ;

    /// Writes all of `buf`, or nothing if it does not fit.
    fn write_all(&mut self, buf: &[u8]) -> (r: Result<(), Self::Error>)
        ensures
            r is Ok <==> fits((*old(self)).room(), buf@.len() as int),
            r is Ok ==> (*old(self)).wrote(&*final(self), buf@),
            r is Err ==> (*old(self)).wrote(&*final(self), Seq::empty()),
    ;
}

/// The error of a write past the end of a slice.
#[derive(Clone, Copy, Debug, PartialEq, Eq)]
pub struct EndOfSlice(());

impl EndOfSlice {
    /// What went wrong, as text.
    pub fn to_string(&self) -> (s: String)
        ensures
            s@ == "end of slice"@,
    {
        let mut s = new_string();
        push_str(&mut s, "end of slice");
        s
    }
}

/// The error of a write past the end of an array.
#[derive(Clone, Copy, Debug, PartialEq, Eq)]
pub struct EndOfArray(());

impl EndOfArray {
    /// What went wrong, as text.
    pub fn to_string(&self) -> (s: String)
        ensures
            s@ == "end of array"@,
    {
        let mut s = new_string();
        push_str(&mut s, "end of array");
        s
    }
}

/// Copies `src` into the front of `dst`.
fn copy_into(dst: &mut [u8], src: &[u8])
    requires
        old(dst)@.len() == src@.len(),
    ensures
        final(dst)@ == src@,
{
    let mut i: usize = 0;
    while i < src.len()
        invariant
            i <= src@.len(),
            dst@.len() == src@.len(),
            forall|j: int| 0 <= j < i ==> dst@[j] == src@[j],
        decreases src@.len() - i,
    {
        dst[i] = src[i];
        i += 1;
    }
    assert(dst@ =~= src@);
}

/// A slice is written from its front; what is left of it is the rest. What a
/// write records (`wrote`) is only the slice that is left, since the bytes
/// given to the borrowed buffer are known only once the borrow ends: each
/// `write_all` states them, but a chain of writes through an [`Encoder`]
/// does not carry them on. A vector and a [`Cursor`] record their bytes
/// exactly.
///
/// [`Encoder`]: crate::encode::Encoder
impl<'a> Write for &'a mut [u8] {
    type Error = EndOfSlice;

    open spec fn room(&self) -> Option<int> {
        Some((**self)@.len() as int)
    }

    open spec fn wrote(&self, after: &Self, bytes: Seq<u8>) -> bool {
        &&& bytes.len() <= (**self)@.len()
        &&& (**after)@ == (**self)@.subrange(bytes.len() as int, (**self)@.len() as int)
    }

    proof fn lemma_wrote_nothing(w: &Self) {
        assert((**w)@.subrange(0, (**w)@.len() as int) =~= (**w)@);
    }

    proof fn lemma_wrote_concat(a: &Self, b: &Self, c: &Self, x: Seq<u8>, y: Seq<u8>) {
        assert((**c)@ =~= (**a)@.subrange((x + y).len() as int, (**a)@.len() as int));
    }

    proof fn lemma_wrote_room(a: &Self, b: &Self, x: Seq<u8>) {
    }

    /// The bytes land at the front of the slice that was borrowed, and the
    /// slice that is left is the rest of it.
    fn write_all(&mut self, buf: &[u8]) -> (r: Result<(), Self::Error>)
        ensures
            r is Ok ==> (*final(*old(self)))@ == buf@ + (*final(*final(self)))@,
    {
        if self.len() < buf.len() {
            proof {
                assert((**self)@.subrange(0, (**self)@.len() as int) =~= (**self)@);
            }
            return Err(EndOfSlice(()));
        }
        let mut this: &'a mut [u8] = &mut [];
        core::mem::swap(self, &mut this);
        let (prefix, suffix) = this.split_at_mut(buf.len());
        copy_into(prefix, buf);
        *self = suffix;
        Ok(())
    }
}

/// A vector grows by what is written into it.
impl Write for Vec<u8> {
    type Error = core::convert::Infallible;

    open spec fn room(&self) -> Option<int> {
        None
    }

    open spec fn wrote(&self, after: &Self, bytes: Seq<u8>) -> bool {
        after@ == self@ + bytes
    }

    proof fn lemma_wrote_nothing(w: &Self) {
        assert(w@ + Seq::<u8>::empty() =~= w@);
    }

    proof fn lemma_wrote_concat(a: &Self, b: &Self, c: &Self, x: Seq<u8>, y: Seq<u8>) {
        assert(a@ + (x + y) =~= (a@ + x) + y);
    }

    proof fn lemma_wrote_room(a: &Self, b: &Self, x: Seq<u8>) {
    }

    fn write_all(&mut self, buf: &[u8]) -> (r: Result<(), Self::Error>) {
        let mut i: usize = 0;
        let ghost start = self@;
        while i < buf.len()
            invariant
                i <= buf@.len(),
                self@ == start + buf@.subrange(0, i as int),
            decreases buf@.len() - i,
        {
            self.push(buf[i]);
            i += 1;
            assert(self@ =~= start + buf@.subrange(0, i as int));
        }
        assert(buf@.subrange(0, i as int) =~= buf@);
        Ok(())
    }
}

/// A sink borrowed for writing is written as the sink itself.
impl<'a, W: Write> Write for &'a mut W {
    type Error = W::Error;

    open spec fn room(&self) -> Option<int> {
        (**self).room()
    }

    open spec fn wrote(&self, after: &Self, bytes: Seq<u8>) -> bool {
        (**self).wrote(&**after, bytes)
    }

    proof fn lemma_wrote_nothing(w: &Self) {
        W::lemma_wrote_nothing(&**w);
    }

    proof fn lemma_wrote_concat(a: &Self, b: &Self, c: &Self, x: Seq<u8>, y: Seq<u8>) {
        W::lemma_wrote_concat(&**a, &**b, &**c, x, y);
    }

    proof fn lemma_wrote_room(a: &Self, b: &Self, x: Seq<u8>) {
        W::lemma_wrote_room(&**a, &**b, x);
    }

    fn write_all(&mut self, buf: &[u8]) -> (r: Result<(), Self::Error>) {
        (**self).write_all(buf)
    }
}

} // verus!

verus! {

/// `s` with the bytes from index `i` on overwritten by `b`.
pub open spec fn splice(s: Seq<u8>, i: int, b: Seq<u8>) -> Seq<u8> {
    Seq::new(s.len(), |j: int| if i <= j < i + b.len() { b[j - i] } else { s[j] })
}

/// A buffer that is written from a position on.
pub struct Cursor<B> {
    buf: B,
    pos: usize,
}

impl<B> Cursor<B> {
    /// The buffer.
    pub closed spec fn inner(&self) -> B {
        self.buf
    }

    /// The position of the next write.
    pub closed spec fn pos(&self) -> int {
        self.pos as int
    }

    /// A cursor at the start of `buf`.
    pub fn new(buf: B) -> (c: Self)
        ensures
            c.inner() == buf,
            c.pos() == 0,
    {
        Cursor { buf, pos: 0 }
    }

    /// The position of the next write.
    pub fn position(&self) -> (p: usize)
        ensures
            p == self.pos(),
    {
        self.pos
    }

    /// Moves the position of the next write.
    pub fn set_position(&mut self, pos: usize)
        ensures
            final(self).pos() == pos,
            final(self).inner() == old(self).inner(),
    {
        self.pos = pos;
    }

    /// The buffer.
    pub fn get_ref(&self) -> (b: &B)
        ensures
            *b == self.inner(),
    {
        &self.buf
    }

    /// The buffer, to change.
    pub fn get_mut(&mut self) -> (b: &mut B)
        ensures
            *b == old(self).inner(),
            final(self).inner() == *final(b),
            final(self).pos() == old(self).pos(),
    {
        &mut self.buf
    }

    /// Gives the buffer back.
    pub fn into_inner(self) -> (b: B)
        ensures
            b == self.inner(),
    {
        self.buf
    }
}

/// A cursor over an array writes into the array at its position.
impl<const N: usize> Write for Cursor<[u8; N]> {
    type Error = EndOfArray;

    open spec fn room(&self) -> Option<int> {
        if self.pos() <= N {
            Some(N - self.pos())
        } else {
            Some(-1)
        }
    }

    open spec fn wrote(&self, after: &Self, bytes: Seq<u8>) -> bool {
        &&& bytes.len() == 0 || self.pos() + bytes.len() <= N
        &&& after.pos() == self.pos() + bytes.len()
        &&& after.inner()@ == splice(self.inner()@, self.pos(), bytes)
    }

    proof fn lemma_wrote_nothing(w: &Self) {
        assert(splice(w.inner()@, w.pos(), Seq::empty()) =~= w.inner()@);
    }

    proof fn lemma_wrote_concat(a: &Self, b: &Self, c: &Self, x: Seq<u8>, y: Seq<u8>) {
        assert(c.inner()@ =~= splice(a.inner()@, a.pos(), x + y));
    }

    proof fn lemma_wrote_room(a: &Self, b: &Self, x: Seq<u8>) {
    }

    fn write_all(&mut self, buf: &[u8]) -> (r: Result<(), Self::Error>) {
        if self.pos <= N && buf.len() <= N - self.pos {
            let ghost start = self.buf@;
            let ghost p0 = self.pos;
            let mut i: usize = 0;
            while i < buf.len()
                invariant
                    self.pos == p0,
                    self.pos <= N,
                    buf@.len() <= N - self.pos,
                    i <= buf@.len(),
                    self.buf@ == splice(start, self.pos as int, buf@.subrange(0, i as int)),
                decreases buf@.len() - i,
            {
                self.buf[self.pos + i] = buf[i];
                i += 1;
                assert(self.buf@ =~= splice(start, self.pos as int, buf@.subrange(0, i as int)));
            }
            assert(buf@.subrange(0, i as int) =~= buf@);
            self.pos = self.pos + buf.len();
            Ok(())
        } else {
            proof {
                assert(splice(self.buf@, self.pos as int, Seq::empty()) =~= self.buf@);
            }
            Err(EndOfArray(()))
        }
    }
}

/// A cursor over a slice writes into the slice at its position.
impl<'a> Write for Cursor<&'a mut [u8]> {
    type Error = EndOfSlice;

    open spec fn room(&self) -> Option<int> {
        if self.pos() <= (*self.inner())@.len() {
            Some((*self.inner())@.len() - self.pos())
        } else {
            Some(-1)
        }
    }

    open spec fn wrote(&self, after: &Self, bytes: Seq<u8>) -> bool {
        &&& bytes.len() == 0 || self.pos() + bytes.len() <= (*self.inner())@.len()
        &&& after.pos() == self.pos() + bytes.len()
        &&& (*after.inner())@ == splice((*self.inner())@, self.pos(), bytes)
    }

    proof fn lemma_wrote_nothing(w: &Self) {
        assert(splice((*w.inner())@, w.pos(), Seq::empty()) =~= (*w.inner())@);
    }

    proof fn lemma_wrote_concat(a: &Self, b: &Self, c: &Self, x: Seq<u8>, y: Seq<u8>) {
        assert((*c.inner())@ =~= splice((*a.inner())@, a.pos(), x + y));
    }

    proof fn lemma_wrote_room(a: &Self, b: &Self, x: Seq<u8>) {
    }

    fn write_all(&mut self, buf: &[u8]) -> (r: Result<(), Self::Error>) {
        if self.pos <= self.buf.len() && buf.len() <= self.buf.len() - self.pos {
            let ghost start = (*self.buf)@;
            let ghost p0 = self.pos;
            let n = self.buf.len();
            let mut i: usize = 0;
            while i < buf.len()
                invariant
                    self.pos == p0,
                    (*self.buf)@.len() == start.len(),
                    start.len() <= usize::MAX,
                    self.pos <= (*self.buf)@.len(),
                    buf@.len() <= (*self.buf)@.len() - self.pos,
                    i <= buf@.len(),
                    (*self.buf)@ == splice(start, self.pos as int, buf@.subrange(0, i as int)),
                decreases buf@.len() - i,
            {
                self.buf[self.pos + i] = buf[i];
                i += 1;
                assert((*self.buf)@ =~= splice(start, self.pos as int, buf@.subrange(0, i as int)));
            }
            assert(buf@.subrange(0, i as int) =~= buf@);
            self.pos = self.pos + buf.len();
            Ok(())
        } else {
            proof {
                assert(splice((*self.buf)@, self.pos as int, Seq::empty()) =~= (*self.buf)@);
            }
            Err(EndOfSlice(()))
        }
    }
}


/// A cursor over a boxed slice writes into the slice at its position.
impl Write for Cursor<Box<[u8]>> {
    type Error = EndOfSlice;

    open spec fn room(&self) -> Option<int> {
        if self.pos() <= (*self.inner())@.len() {
            Some((*self.inner())@.len() - self.pos())
        } else {
            Some(-1)
        }
    }

    open spec fn wrote(&self, after: &Self, bytes: Seq<u8>) -> bool {
        &&& bytes.len() == 0 || self.pos() + bytes.len() <= (*self.inner())@.len()
        &&& after.pos() == self.pos() + bytes.len()
        &&& (*after.inner())@ == splice((*self.inner())@, self.pos(), bytes)
    }

    proof fn lemma_wrote_nothing(w: &Self) {
        assert(splice((*w.inner())@, w.pos(), Seq::empty()) =~= (*w.inner())@);
    }

    proof fn lemma_wrote_concat(a: &Self, b: &Self, c: &Self, x: Seq<u8>, y: Seq<u8>) {
        assert((*c.inner())@ =~= splice((*a.inner())@, a.pos(), x + y));
    }

    proof fn lemma_wrote_room(a: &Self, b: &Self, x: Seq<u8>) {
    }

    fn write_all(&mut self, buf: &[u8]) -> (r: Result<(), Self::Error>) {
        if self.pos <= self.buf.len() && buf.len() <= self.buf.len() - self.pos {
            let ghost start = (*self.buf)@;
            let ghost p0 = self.pos;
            let n = self.buf.len();
            let mut i: usize = 0;
            while i < buf.len()
                invariant
                    self.pos == p0,
                    (*self.buf)@.len() == start.len(),
                    start.len() <= usize::MAX,
                    self.pos <= (*self.buf)@.len(),
                    buf@.len() <= (*self.buf)@.len() - self.pos,
                    i <= buf@.len(),
                    (*self.buf)@ == splice(start, self.pos as int, buf@.subrange(0, i as int)),
                decreases buf@.len() - i,
            {
                self.buf[self.pos + i] = buf[i];
                i += 1;
                assert((*self.buf)@ =~= splice(start, self.pos as int, buf@.subrange(0, i as int)));
            }
            assert(buf@.subrange(0, i as int) =~= buf@);
            self.pos = self.pos + buf.len();
            Ok(())
        } else {
            proof {
                assert(splice((*self.buf)@, self.pos as int, Seq::empty()) =~= (*self.buf)@);
            }
            Err(EndOfSlice(()))
        }
    }
}

} // verus!

verus! {

/// Whether pieces written one after another into a sink with the given room all fit.
pub open spec fn all_fit(room: Option<int>, parts: Seq<Seq<u8>>) -> bool
    decreases parts.len(),
{
    if parts.len() == 0 {
        true
    } else {
        fits(room, parts[0].len() as int) && all_fit(
            less(room, parts[0].len() as int),
            parts.drop_first(),
        )
    }
}

/// The bytes that end up in a sink with the given room when pieces are written one
/// after another and the first that does not fit stops the writing.
pub open spec fn written(room: Option<int>, parts: Seq<Seq<u8>>) -> Seq<u8>
    decreases parts.len(),
{
    if parts.len() == 0 {
        Seq::empty()
    } else if fits(room, parts[0].len() as int) {
        parts[0] + written(less(room, parts[0].len() as int), parts.drop_first())
    } else {
        Seq::empty()
    }
}

/// Writing a list of pieces that starts with `p`.
pub proof fn lemma_written_cons(room: Option<int>, p: Seq<u8>, rest: Seq<Seq<u8>>)
    ensures
        written(room, seq![p] + rest) == if fits(room, p.len() as int) {
            p + written(less(room, p.len() as int), rest)
        } else {
            Seq::empty()
        },
        all_fit(room, seq![p] + rest) == (fits(room, p.len() as int) && all_fit(
            less(room, p.len() as int),
            rest,
        )),
{
    assert((seq![p] + rest).drop_first() =~= rest);
    assert((seq![p] + rest)[0] == p);
}

/// Writing a single piece.
pub proof fn lemma_written_one(room: Option<int>, p: Seq<u8>)
    ensures
        written(room, seq![p]) == if fits(room, p.len() as int) {
            p
        } else {
            Seq::empty()
        },
        all_fit(room, seq![p]) == fits(room, p.len() as int),
{
    let e = Seq::<Seq<u8>>::empty();
    assert(seq![p].drop_first() =~= e);
    assert(seq![p][0] == p);
    assert(written(less(room, p.len() as int), e) == Seq::<u8>::empty());
    assert(all_fit(less(room, p.len() as int), e));
    assert(p + Seq::<u8>::empty() =~= p);
}

/// When all pieces fit, all of them end up written.
pub proof fn lemma_written_all(room: Option<int>, parts: Seq<Seq<u8>>)
    requires
        all_fit(room, parts),
    ensures
        written(room, parts) == crate::model::joined(parts),
    decreases parts.len(),
{
    if parts.len() > 0 {
        lemma_written_all(less(room, parts[0].len() as int), parts.drop_first());
    }
}

/// Writing two lists of pieces one after the other.
pub proof fn lemma_written_append(room: Option<int>, ps: Seq<Seq<u8>>, qs: Seq<Seq<u8>>)
    ensures
        written(room, ps + qs) == written(room, ps) + if all_fit(room, ps) {
            written(less(room, crate::model::joined(ps).len() as int), qs)
        } else {
            Seq::empty()
        },
        all_fit(room, ps + qs) == (all_fit(room, ps) && all_fit(
            less(room, crate::model::joined(ps).len() as int),
            qs,
        )),
    decreases ps.len(),
{
    if ps.len() == 0 {
        assert(ps + qs =~= qs);
        assert(Seq::<u8>::empty() + written(room, qs) =~= written(room, qs));
        assert(less(room, 0) == room);
    } else {
        let p = ps[0];
        let rest = ps.drop_first();
        assert(ps + qs =~= seq![p] + (rest + qs));
        assert(ps =~= seq![p] + rest);
        lemma_written_cons(room, p, rest + qs);
        lemma_written_cons(room, p, rest);
        lemma_written_append(less(room, p.len() as int), rest, qs);
        assert(crate::model::joined(ps) == p + crate::model::joined(rest));
        if fits(room, p.len() as int) {
            assert(less(less(room, p.len() as int), crate::model::joined(rest).len() as int) == less(
                room,
                crate::model::joined(ps).len() as int,
            ));
            assert(written(room, ps + qs) =~= written(room, ps) + if all_fit(room, ps) {
                written(less(room, crate::model::joined(ps).len() as int), qs)
            } else {
                Seq::empty()
            });
        } else {
            assert(written(room, ps) + Seq::<u8>::empty() =~= written(room, ps));
        }
    }
}

/// A sink without a limit takes every piece.
pub proof fn lemma_all_fit_unbounded(parts: Seq<Seq<u8>>)
    ensures
        all_fit(None, parts),
        written(None, parts) == crate::model::joined(parts),
    decreases parts.len(),
{
    if parts.len() > 0 {
        lemma_all_fit_unbounded(parts.drop_first());
    }
}

/// In a sink with `n` bytes of room, pieces all fit exactly when together
/// they are no longer than `n`.
pub proof fn lemma_all_fit_bounded(n: int, parts: Seq<Seq<u8>>)
    requires
        0 <= n,
    ensures
        all_fit(Some(n), parts) == (crate::model::joined(parts).len() <= n),
    decreases parts.len(),
{
    if parts.len() > 0 {
        if parts[0].len() <= n {
            lemma_all_fit_bounded(n - parts[0].len(), parts.drop_first());
        }
    }
}

} // verus!
