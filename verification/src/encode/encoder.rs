//! The encoder: writes CBOR data items into a sink.
use vstd::prelude::*;
use vstd::string::StringSliceAdditionalSpecFns;
use crate::data::{Int, Tag};
use crate::encode::error::Error;
use crate::encode::write::{Write, all_fit, written, lemma_written_one, lemma_written_all, lemma_written_append, lemma_all_fit_unbounded};
use crate::model::{head_parts, joined, UNSIGNED, SIGNED, BYTES, TEXT, ARRAY, MAP, TAGGED, SIMPLE, BREAK};

verus! {

/// Writes CBOR data items into a sink of type `W`.
pub struct Encoder<W> {
    writer: W,
}

/// Whether `after` is `before` once it has written `parts` one after another,
/// the first piece that does not fit stopping the writing.
pub open spec fn encoded<W: Write>(before: Encoder<W>, after: Encoder<W>, parts: Seq<Seq<u8>>) -> bool {
    before.sink().wrote(&after.sink(), written(before.sink().room(), parts))
}

/// The pieces in which an integer is written.
pub open spec fn int_parts(x: int) -> Seq<Seq<u8>> {
    if x >= 0 {
        head_parts(UNSIGNED, x as u64)
    } else {
        head_parts(SIGNED, (-1 - x) as u64)
    }
}

/// The pieces in which a simple value is written.
pub open spec fn simple_parts(x: u8) -> Seq<Seq<u8>> {
    if x < 0x14 {
        seq![seq![SIMPLE | x]]
    } else {
        seq![seq![SIMPLE | 24u8, x]]
    }
}

/// One piece after another: what two writes in a row leave in the sink.
pub(crate) proof fn lemma_then<W: Write>(
    a: Encoder<W>,
    b: Encoder<W>,
    c: Encoder<W>,
    ps: Seq<Seq<u8>>,
    qs: Seq<Seq<u8>>,
    okp: bool,
    okq: bool,
)
    requires
        encoded(a, b, ps),
        okp == all_fit(a.sink().room(), ps),
        okp ==> encoded(b, c, qs) && okq == all_fit(b.sink().room(), qs),
        !okp ==> c == b,
    ensures
        encoded(a, c, ps + qs),
        (okp && okq) == all_fit(a.sink().room(), ps + qs),
{
    let ra = a.sink().room();
    lemma_written_append(ra, ps, qs);
    if okp {
        lemma_written_all(ra, ps);
        W::lemma_wrote_room(&a.sink(), &b.sink(), written(ra, ps));
        W::lemma_wrote_concat(&a.sink(), &b.sink(), &c.sink(), written(ra, ps), written(b.sink().room(), qs));
    } else {
        assert(written(ra, ps) + Seq::<u8>::empty() =~= written(ra, ps));
    }
}

/// An encoder that writes into a vector never fails, and appends to it
/// exactly the pieces it writes, one after another.
pub proof fn law_vec_sink(a: Encoder<Vec<u8>>, b: Encoder<Vec<u8>>, parts: Seq<Seq<u8>>)
    ensures
        all_fit(a.sink().room(), parts),
        encoded(a, b, parts) <==> b.sink()@ == a.sink()@ + joined(parts),
{
    lemma_all_fit_unbounded(parts);
}

impl<W> Encoder<W> {
    /// The sink.
    pub closed spec fn sink(&self) -> W {
        self.writer
    }

    /// An encoder that writes into `writer`.
    pub fn new(writer: W) -> (e: Self)
        ensures
            e.sink() == writer,
    {
        Encoder { writer }
    }

    /// The sink.
    pub fn writer(&self) -> (w: &W)
        ensures
            *w == self.sink(),
    {
        &self.writer
    }

    /// The sink, to change.
    pub fn writer_mut(&mut self) -> (w: &mut W)
        ensures
            *w == old(self).sink(),
            final(self).sink() == *final(w),
    {
        &mut self.writer
    }

    /// Gives the sink back.
    pub fn into_writer(self) -> (w: W)
        ensures
            w == self.sink(),
    {
        self.writer
    }
}

impl<W: Write> Encoder<W> {
    /// Ends a chain of writes that all succeeded.
    pub fn ok(&mut self) -> (r: Result<(), Error<W::Error>>)
        ensures
            r is Ok,
            *final(self) == *old(self),
    {
        Ok(())
    }

    /// Writes `b` into the sink.
    fn put(&mut self, b: &[u8]) -> (r: Result<(), Error<W::Error>>)
        ensures
            r is Ok <==> all_fit(old(self).sink().room(), seq![b@]),
            encoded(*old(self), *final(self), seq![b@]),
            r matches Err(e) ==> e.kind() is Write,
    {
        proof {
            lemma_written_one(self.writer.room(), b@);
        }
        match self.writer.write_all(b) {
            Ok(()) => Ok(()),
            Err(e) => Err(Error::write(e)),
        }
    }

    /// Writes the head of a data item of major type `t` with argument `x`.
    pub(crate) fn type_len(&mut self, t: u8, x: u64) -> (r: Result<(), Error<W::Error>>)
        ensures
            r is Ok <==> all_fit(old(self).sink().room(), head_parts(t, x)),
            encoded(*old(self), *final(self), head_parts(t, x)),
            r matches Err(e) ==> e.kind() is Write,
    {
        if x <= 0x17 {
            let b: [u8; 1] = [t | (x as u8)];
            assert(b@ == seq![t | (x as u8)]);
            self.put(&b)
        } else if x <= 0xff {
            let b: [u8; 2] = [t | 24u8, x as u8];
            assert(b@ == seq![t | 24u8, x as u8]);
            self.put(&b)
        } else {
            let first: u8 = if x <= 0xffff {
                t | 25u8
            } else if x <= 0xffff_ffff {
                t | 26u8
            } else {
                t | 27u8
            };
            let ghost a = *self;
            let b1: [u8; 1] = [first];
            assert(b1@ == seq![first]);
            let r1 = self.put(&b1);
            let ghost b = *self;
            let ghost ps = seq![seq![first]];
            let ghost qs = seq![head_parts(t, x)[1]];
            assert(ps + qs =~= head_parts(t, x));
            match r1 {
                Err(e) => {
                    proof {
                        lemma_then(a, b, b, ps, qs, false, false);
                    }
                    return Err(e);
                },
                Ok(()) => {},
            }
            let r2 = if x <= 0xffff {
                let b2: [u8; 2] = [(x >> 8u64) as u8, x as u8];
                assert(b2@ == qs[0]);
                self.put(&b2)
            } else if x <= 0xffff_ffff {
                let b2: [u8; 4] = [(x >> 24u64) as u8, (x >> 16u64) as u8, (x >> 8u64) as u8, x as u8];
                assert(b2@ == qs[0]);
                self.put(&b2)
            } else {
                let b2: [u8; 8] = [
                    (x >> 56u64) as u8,
                    (x >> 48u64) as u8,
                    (x >> 40u64) as u8,
                    (x >> 32u64) as u8,
                    (x >> 24u64) as u8,
                    (x >> 16u64) as u8,
                    (x >> 8u64) as u8,
                    x as u8,
                ];
                assert(b2@ == qs[0]);
                self.put(&b2)
            };
            proof {
                lemma_then(a, b, *self, ps, qs, true, r2 is Ok);
            }
            r2
        }
    }

    /// Writes a data item that has only a head.
    fn head_only(&mut self, t: u8, x: u64) -> (r: Result<&mut Self, Error<W::Error>>)
        ensures
            r is Ok <==> all_fit(old(self).sink().room(), head_parts(t, x)),
            r matches Ok(e) ==> encoded(*old(self), *e, head_parts(t, x)) && *final(e) == *final(self),
            r matches Err(err) ==> encoded(*old(self), *final(self), head_parts(t, x)) && err.kind() is Write,
    {
        match self.type_len(t, x) {
            Ok(()) => Ok(self),
            Err(e) => Err(e),
        }
    }

    /// Writes a single byte.
    fn byte(&mut self, x: u8) -> (r: Result<&mut Self, Error<W::Error>>)
        ensures
            r is Ok <==> all_fit(old(self).sink().room(), seq![seq![x]]),
            r matches Ok(e) ==> encoded(*old(self), *e, seq![seq![x]]) && *final(e) == *final(self),
            r matches Err(err) ==> encoded(*old(self), *final(self), seq![seq![x]]) && err.kind() is Write,
    {
        let b: [u8; 1] = [x];
        assert(b@ == seq![x]);
        match self.put(&b) {
            Ok(()) => Ok(self),
            Err(e) => Err(e),
        }
    }

    /// Writes a head, then `payload`.
    fn head_then(&mut self, t: u8, payload: &[u8]) -> (r: Result<&mut Self, Error<W::Error>>)
        ensures
            r is Ok <==> all_fit(old(self).sink().room(), head_parts(t, payload@.len() as u64) + seq![payload@]),
            r matches Ok(e) ==> encoded(*old(self), *e, head_parts(t, payload@.len() as u64) + seq![payload@]) && *final(e) == *final(self),
            r matches Err(err) ==> encoded(*old(self), *final(self), head_parts(t, payload@.len() as u64) + seq![payload@]) && err.kind() is Write,
    {
        let ghost a = *self;
        let r1 = self.type_len(t, payload.len() as u64);
        let ghost b = *self;
        match r1 {
            Err(e) => {
                proof {
                    lemma_then(a, b, b, head_parts(t, payload@.len() as u64), seq![payload@], false, false);
                }
                Err(e)
            },
            Ok(()) => {
                let r2 = self.put(payload);
                proof {
                    lemma_then(a, b, *self, head_parts(t, payload@.len() as u64), seq![payload@], true, r2 is Ok);
                }
                match r2 {
                    Ok(()) => Ok(self),
                    Err(e) => Err(e),
                }
            },
        }
    }

    /// Writes an unsigned integer of type `u8`.
    pub fn u8(&mut self, x: u8) -> (r: Result<&mut Self, Error<W::Error>>)
        ensures
            r is Ok <==> all_fit(old(self).sink().room(), head_parts(UNSIGNED, x as u64)),
            r matches Ok(e) ==> encoded(*old(self), *e, head_parts(UNSIGNED, x as u64)) && *final(e) == *final(self),
            r matches Err(err) ==> encoded(*old(self), *final(self), head_parts(UNSIGNED, x as u64)) && err.kind() is Write,
    {
        self.head_only(UNSIGNED, x as u64)
    }

    /// Writes an unsigned integer of type `u16`.
    pub fn u16(&mut self, x: u16) -> (r: Result<&mut Self, Error<W::Error>>)
        ensures
            r is Ok <==> all_fit(old(self).sink().room(), head_parts(UNSIGNED, x as u64)),
            r matches Ok(e) ==> encoded(*old(self), *e, head_parts(UNSIGNED, x as u64)) && *final(e) == *final(self),
            r matches Err(err) ==> encoded(*old(self), *final(self), head_parts(UNSIGNED, x as u64)) && err.kind() is Write,
    {
        self.head_only(UNSIGNED, x as u64)
    }

    /// Writes an unsigned integer of type `u32`.
    pub fn u32(&mut self, x: u32) -> (r: Result<&mut Self, Error<W::Error>>)
        ensures
            r is Ok <==> all_fit(old(self).sink().room(), head_parts(UNSIGNED, x as u64)),
            r matches Ok(e) ==> encoded(*old(self), *e, head_parts(UNSIGNED, x as u64)) && *final(e) == *final(self),
            r matches Err(err) ==> encoded(*old(self), *final(self), head_parts(UNSIGNED, x as u64)) && err.kind() is Write,
    {
        self.head_only(UNSIGNED, x as u64)
    }

    /// Writes an unsigned integer of type `u64`.
    pub fn u64(&mut self, x: u64) -> (r: Result<&mut Self, Error<W::Error>>)
        ensures
            r is Ok <==> all_fit(old(self).sink().room(), head_parts(UNSIGNED, x as u64)),
            r matches Ok(e) ==> encoded(*old(self), *e, head_parts(UNSIGNED, x as u64)) && *final(e) == *final(self),
            r matches Err(err) ==> encoded(*old(self), *final(self), head_parts(UNSIGNED, x as u64)) && err.kind() is Write,
    {
        self.head_only(UNSIGNED, x as u64)
    }

    /// Writes a signed integer of type `i8`.
    pub fn i8(&mut self, x: i8) -> (r: Result<&mut Self, Error<W::Error>>)
        ensures
            r is Ok <==> all_fit(old(self).sink().room(), int_parts(x as int)),
            r matches Ok(e) ==> encoded(*old(self), *e, int_parts(x as int)) && *final(e) == *final(self),
            r matches Err(err) ==> encoded(*old(self), *final(self), int_parts(x as int)) && err.kind() is Write,
    {
        if x >= 0 {
            self.head_only(UNSIGNED, x as u64)
        } else {
            self.head_only(SIGNED, (-1 - x) as u64)
        }
    }

    /// Writes a signed integer of type `i16`.
    pub fn i16(&mut self, x: i16) -> (r: Result<&mut Self, Error<W::Error>>)
        ensures
            r is Ok <==> all_fit(old(self).sink().room(), int_parts(x as int)),
            r matches Ok(e) ==> encoded(*old(self), *e, int_parts(x as int)) && *final(e) == *final(self),
            r matches Err(err) ==> encoded(*old(self), *final(self), int_parts(x as int)) && err.kind() is Write,
    {
        if x >= 0 {
            self.head_only(UNSIGNED, x as u64)
        } else {
            self.head_only(SIGNED, (-1 - x) as u64)
        }
    }

    /// Writes a signed integer of type `i32`.
    pub fn i32(&mut self, x: i32) -> (r: Result<&mut Self, Error<W::Error>>)
        ensures
            r is Ok <==> all_fit(old(self).sink().room(), int_parts(x as int)),
            r matches Ok(e) ==> encoded(*old(self), *e, int_parts(x as int)) && *final(e) == *final(self),
            r matches Err(err) ==> encoded(*old(self), *final(self), int_parts(x as int)) && err.kind() is Write,
    {
        if x >= 0 {
            self.head_only(UNSIGNED, x as u64)
        } else {
            self.head_only(SIGNED, (-1 - x) as u64)
        }
    }

    /// Writes a signed integer of type `i64`.
    pub fn i64(&mut self, x: i64) -> (r: Result<&mut Self, Error<W::Error>>)
        ensures
            r is Ok <==> all_fit(old(self).sink().room(), int_parts(x as int)),
            r matches Ok(e) ==> encoded(*old(self), *e, int_parts(x as int)) && *final(e) == *final(self),
            r matches Err(err) ==> encoded(*old(self), *final(self), int_parts(x as int)) && err.kind() is Write,
    {
        if x >= 0 {
            self.head_only(UNSIGNED, x as u64)
        } else {
            self.head_only(SIGNED, (-1 - x) as u64)
        }
    }

    /// Writes an integer in the whole range CBOR can represent.
    pub fn integer(&mut self, x: Int) -> (r: Result<&mut Self, Error<W::Error>>)
        ensures
            r is Ok <==> all_fit(old(self).sink().room(), int_parts(x.value())),
            r matches Ok(e) ==> encoded(*old(self), *e, int_parts(x.value())) && *final(e) == *final(self),
            r matches Err(err) ==> encoded(*old(self), *final(self), int_parts(x.value())) && err.kind() is Write,
    {
        if x.is_negative() {
            self.head_only(SIGNED, x.argument())
        } else {
            self.head_only(UNSIGNED, x.argument())
        }
    }

    /// Writes a boolean.
    pub fn bool(&mut self, x: bool) -> (r: Result<&mut Self, Error<W::Error>>)
        ensures
            r is Ok <==> all_fit(old(self).sink().room(), seq![seq![if x { 0xf5u8 } else { 0xf4u8 }]]),
            r matches Ok(e) ==> encoded(*old(self), *e, seq![seq![if x { 0xf5u8 } else { 0xf4u8 }]]) && *final(e) == *final(self),
            r matches Err(err) ==> encoded(*old(self), *final(self), seq![seq![if x { 0xf5u8 } else { 0xf4u8 }]]) && err.kind() is Write,
    {
        if x {
            self.byte(0xf5)
        } else {
            self.byte(0xf4)
        }
    }

    /// Writes a character, as the unsigned integer of its code point.
    pub fn char(&mut self, x: char) -> (r: Result<&mut Self, Error<W::Error>>)
        ensures
            r is Ok <==> all_fit(old(self).sink().room(), head_parts(UNSIGNED, x as u32 as u64)),
            r matches Ok(e) ==> encoded(*old(self), *e, head_parts(UNSIGNED, x as u32 as u64)) && *final(e) == *final(self),
            r matches Err(err) ==> encoded(*old(self), *final(self), head_parts(UNSIGNED, x as u32 as u64)) && err.kind() is Write,
    {
        self.head_only(UNSIGNED, x as u32 as u64)
    }

    /// Writes the simple value `null`.
    pub fn null(&mut self) -> (r: Result<&mut Self, Error<W::Error>>)
        ensures
            r is Ok <==> all_fit(old(self).sink().room(), seq![seq![0xf6u8]]),
            r matches Ok(e) ==> encoded(*old(self), *e, seq![seq![0xf6u8]]) && *final(e) == *final(self),
            r matches Err(err) ==> encoded(*old(self), *final(self), seq![seq![0xf6u8]]) && err.kind() is Write,
    {
        self.byte(0xf6)
    }

    /// Writes the simple value `undefined`.
    pub fn undefined(&mut self) -> (r: Result<&mut Self, Error<W::Error>>)
        ensures
            r is Ok <==> all_fit(old(self).sink().room(), seq![seq![0xf7u8]]),
            r matches Ok(e) ==> encoded(*old(self), *e, seq![seq![0xf7u8]]) && *final(e) == *final(self),
            r matches Err(err) ==> encoded(*old(self), *final(self), seq![seq![0xf7u8]]) && err.kind() is Write,
    {
        self.byte(0xf7)
    }

    /// Writes a simple value.
    pub fn simple(&mut self, x: u8) -> (r: Result<&mut Self, Error<W::Error>>)
        ensures
            r is Ok <==> all_fit(old(self).sink().room(), simple_parts(x)),
            r matches Ok(e) ==> encoded(*old(self), *e, simple_parts(x)) && *final(e) == *final(self),
            r matches Err(err) ==> encoded(*old(self), *final(self), simple_parts(x)) && err.kind() is Write,
    {
        if x < 0x14 {
            self.byte(SIMPLE | x)
        } else {
            let b: [u8; 2] = [SIMPLE | 24u8, x];
            assert(b@ == seq![SIMPLE | 24u8, x]);
            match self.put(&b) {
                Ok(()) => Ok(self),
                Err(e) => Err(e),
            }
        }
    }

    /// Writes a tag, to stand before the data item it tags.
    pub fn tag(&mut self, x: Tag) -> (r: Result<&mut Self, Error<W::Error>>)
        ensures
            r is Ok <==> all_fit(old(self).sink().room(), head_parts(TAGGED, x.num())),
            r matches Ok(e) ==> encoded(*old(self), *e, head_parts(TAGGED, x.num())) && *final(e) == *final(self),
            r matches Err(err) ==> encoded(*old(self), *final(self), head_parts(TAGGED, x.num())) && err.kind() is Write,
    {
        self.head_only(TAGGED, x.as_u64())
    }

    /// Writes the head of an array of `len` items, which are to follow.
    pub fn array(&mut self, len: u64) -> (r: Result<&mut Self, Error<W::Error>>)
        ensures
            r is Ok <==> all_fit(old(self).sink().room(), head_parts(ARRAY, len)),
            r matches Ok(e) ==> encoded(*old(self), *e, head_parts(ARRAY, len)) && *final(e) == *final(self),
            r matches Err(err) ==> encoded(*old(self), *final(self), head_parts(ARRAY, len)) && err.kind() is Write,
    {
        self.head_only(ARRAY, len)
    }

    /// Writes the head of a map of `len` pairs, which are to follow.
    pub fn map(&mut self, len: u64) -> (r: Result<&mut Self, Error<W::Error>>)
        ensures
            r is Ok <==> all_fit(old(self).sink().room(), head_parts(MAP, len)),
            r matches Ok(e) ==> encoded(*old(self), *e, head_parts(MAP, len)) && *final(e) == *final(self),
            r matches Err(err) ==> encoded(*old(self), *final(self), head_parts(MAP, len)) && err.kind() is Write,
    {
        self.head_only(MAP, len)
    }

    /// Writes the head of a byte string of `len` bytes, which are to follow.
    pub fn bytes_len(&mut self, len: u64) -> (r: Result<&mut Self, Error<W::Error>>)
        ensures
            r is Ok <==> all_fit(old(self).sink().room(), head_parts(BYTES, len)),
            r matches Ok(e) ==> encoded(*old(self), *e, head_parts(BYTES, len)) && *final(e) == *final(self),
            r matches Err(err) ==> encoded(*old(self), *final(self), head_parts(BYTES, len)) && err.kind() is Write,
    {
        self.head_only(BYTES, len)
    }

    /// Writes the head of a text string of `len` bytes, which are to follow.
    pub fn str_len(&mut self, len: u64) -> (r: Result<&mut Self, Error<W::Error>>)
        ensures
            r is Ok <==> all_fit(old(self).sink().room(), head_parts(TEXT, len)),
            r matches Ok(e) ==> encoded(*old(self), *e, head_parts(TEXT, len)) && *final(e) == *final(self),
            r matches Err(err) ==> encoded(*old(self), *final(self), head_parts(TEXT, len)) && err.kind() is Write,
    {
        self.head_only(TEXT, len)
    }

    /// Writes a byte string.
    pub fn bytes(&mut self, x: &[u8]) -> (r: Result<&mut Self, Error<W::Error>>)
        ensures
            r is Ok <==> all_fit(old(self).sink().room(), head_parts(BYTES, x@.len() as u64) + seq![x@]),
            r matches Ok(e) ==> encoded(*old(self), *e, head_parts(BYTES, x@.len() as u64) + seq![x@]) && *final(e) == *final(self),
            r matches Err(err) ==> encoded(*old(self), *final(self), head_parts(BYTES, x@.len() as u64) + seq![x@]) && err.kind() is Write,
    {
        self.head_then(BYTES, x)
    }

    /// Writes a text string.
    pub fn str(&mut self, x: &str) -> (r: Result<&mut Self, Error<W::Error>>)
        ensures
            r is Ok <==> all_fit(old(self).sink().room(), head_parts(TEXT, x.spec_bytes().len() as u64) + seq![x.spec_bytes()]),
            r matches Ok(e) ==> encoded(*old(self), *e, head_parts(TEXT, x.spec_bytes().len() as u64) + seq![x.spec_bytes()]) && *final(e) == *final(self),
            r matches Err(err) ==> encoded(*old(self), *final(self), head_parts(TEXT, x.spec_bytes().len() as u64) + seq![x.spec_bytes()]) && err.kind() is Write,
    {
        self.head_then(TEXT, x.as_bytes())
    }

    /// Begins an array of indefinite length, to be ended by [`Encoder::end`].
    pub fn begin_array(&mut self) -> (r: Result<&mut Self, Error<W::Error>>)
        ensures
            r is Ok <==> all_fit(old(self).sink().room(), seq![seq![0x9fu8]]),
            r matches Ok(e) ==> encoded(*old(self), *e, seq![seq![0x9fu8]]) && *final(e) == *final(self),
            r matches Err(err) ==> encoded(*old(self), *final(self), seq![seq![0x9fu8]]) && err.kind() is Write,
    {
        self.byte(0x9fu8)
    }

    /// Begins a map of indefinite length, to be ended by [`Encoder::end`].
    pub fn begin_map(&mut self) -> (r: Result<&mut Self, Error<W::Error>>)
        ensures
            r is Ok <==> all_fit(old(self).sink().room(), seq![seq![0xbfu8]]),
            r matches Ok(e) ==> encoded(*old(self), *e, seq![seq![0xbfu8]]) && *final(e) == *final(self),
            r matches Err(err) ==> encoded(*old(self), *final(self), seq![seq![0xbfu8]]) && err.kind() is Write,
    {
        self.byte(0xbfu8)
    }

    /// Begins a byte string of indefinite length, to be ended by [`Encoder::end`].
    pub fn begin_bytes(&mut self) -> (r: Result<&mut Self, Error<W::Error>>)
        ensures
            r is Ok <==> all_fit(old(self).sink().room(), seq![seq![0x5fu8]]),
            r matches Ok(e) ==> encoded(*old(self), *e, seq![seq![0x5fu8]]) && *final(e) == *final(self),
            r matches Err(err) ==> encoded(*old(self), *final(self), seq![seq![0x5fu8]]) && err.kind() is Write,
    {
        self.byte(0x5fu8)
    }

    /// Begins a text string of indefinite length, to be ended by [`Encoder::end`].
    pub fn begin_str(&mut self) -> (r: Result<&mut Self, Error<W::Error>>)
        ensures
            r is Ok <==> all_fit(old(self).sink().room(), seq![seq![0x7fu8]]),
            r matches Ok(e) ==> encoded(*old(self), *e, seq![seq![0x7fu8]]) && *final(e) == *final(self),
            r matches Err(err) ==> encoded(*old(self), *final(self), seq![seq![0x7fu8]]) && err.kind() is Write,
    {
        self.byte(0x7fu8)
    }

    /// Ends an item of indefinite length.
    pub fn end(&mut self) -> (r: Result<&mut Self, Error<W::Error>>)
        ensures
            r is Ok <==> all_fit(old(self).sink().room(), seq![seq![BREAK]]),
            r matches Ok(e) ==> encoded(*old(self), *e, seq![seq![BREAK]]) && *final(e) == *final(self),
            r matches Err(err) ==> encoded(*old(self), *final(self), seq![seq![BREAK]]) && err.kind() is Write,
    {
        self.byte(BREAK)
    }
}

} // verus!
