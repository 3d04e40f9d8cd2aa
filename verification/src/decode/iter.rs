//! Iterators over the parts of strings, arrays and maps of the input.
use vstd::prelude::*;
use vstd::string::StringSliceAdditionalSpecFns;
use crate::decode::decoder::{Decoder, result_view, str_from_utf8};
use crate::decode::error::{Error, ErrorView};
use crate::decode::reads::{read_chunks_head, next_chunk, read_byte, read_array, read_map};
use crate::decode::{Decode, decodes_entry, decode_entry};
use core::marker::PhantomData;

verus! {

/// A chunk as a value: its bytes, or the error that reading it gave.
pub open spec fn chunk_view(r: Option<Result<&[u8], Error>>) -> Option<Result<Seq<u8>, ErrorView>> {
    match r {
        None => None,
        Some(Ok(b)) => Some(Ok(b@)),
        Some(Err(e)) => Some(Err(e@)),
    }
}

/// A text chunk as a value: its UTF-8 bytes, or the error that reading it gave.
pub open spec fn str_chunk_view(r: Option<Result<&str, Error>>) -> Option<Result<Seq<u8>, ErrorView>> {
    match r {
        None => None,
        Some(Ok(s)) => Some(Ok(s.spec_bytes())),
        Some(Err(e)) => Some(Err(e@)),
    }
}

/// What `size_hint` says of a string read in chunks.
pub open spec fn chunks_hint(len: Option<usize>) -> (usize, Option<usize>) {
    match len {
        None => (0, None),
        Some(n) => if n == 0 {
            (0, Some(0usize))
        } else {
            (1, Some(1usize))
        },
    }
}

/// The chunks of a byte string, of definite or indefinite length.
#[derive(Debug)]
pub struct BytesIter<'a, 'b> {
    decoder: &'a mut Decoder<'b>,
    len: Option<usize>,
}

impl<'a, 'b> BytesIter<'a, 'b> {
    /// The input.
    pub closed spec fn source(&self) -> Seq<u8> {
        self.decoder.source()
    }

    /// The position of the next read.
    pub closed spec fn pos(&self) -> int {
        self.decoder.pos()
    }

    /// `None` while the string is of indefinite length and not at its end;
    /// else the length of the chunk that is left, 0 once there is none.
    pub closed spec fn remaining(&self) -> Option<usize> {
        self.len
    }

    /// The next chunk, if there is one.
    pub fn next(&mut self) -> (r: Option<Result<&'b [u8], Error>>)
        ensures
            final(self).source() == old(self).source(),
            (chunk_view(r), final(self).pos(), final(self).remaining())
                == next_chunk(old(self).source(), old(self).pos(), old(self).remaining(), false),
    {
        match self.len {
            None => match self.decoder.current() {
                Err(e) => Some(Err(e)),
                Ok(b) => if b == 0xff {
                    self.len = Some(0);
                    let _ = self.decoder.read();
                    None
                } else {
                    Some(self.decoder.bytes())
                },
            },
            Some(n) => if n == 0 {
                None
            } else {
                self.len = Some(0);
                Some(self.decoder.read_slice(n))
            },
        }
    }

    /// Bounds on the number of chunks that are left.
    pub fn size_hint(&self) -> (r: (usize, Option<usize>))
        ensures
            r == chunks_hint(self.remaining()),
    {
        match self.len {
            None => (0, None),
            Some(n) => if n == 0 {
                (0, Some(0))
            } else {
                (1, Some(1))
            },
        }
    }
}

/// The chunks of a text string, of definite or indefinite length.
#[derive(Debug)]
pub struct StrIter<'a, 'b> {
    decoder: &'a mut Decoder<'b>,
    len: Option<usize>,
}

impl<'a, 'b> StrIter<'a, 'b> {
    /// The input.
    pub closed spec fn source(&self) -> Seq<u8> {
        self.decoder.source()
    }

    /// The position of the next read.
    pub closed spec fn pos(&self) -> int {
        self.decoder.pos()
    }

    /// `None` while the string is of indefinite length and not at its end;
    /// else the length of the chunk that is left, 0 once there is none.
    pub closed spec fn remaining(&self) -> Option<usize> {
        self.len
    }

    /// The next chunk, if there is one.
    pub fn next(&mut self) -> (r: Option<Result<&'b str, Error>>)
        ensures
            final(self).source() == old(self).source(),
            (str_chunk_view(r), final(self).pos(), final(self).remaining())
                == next_chunk(old(self).source(), old(self).pos(), old(self).remaining(), true),
    {
        match self.len {
            None => match self.decoder.current() {
                Err(e) => Some(Err(e)),
                Ok(b) => if b == 0xff {
                    self.len = Some(0);
                    let _ = self.decoder.read();
                    None
                } else {
                    Some(self.decoder.str())
                },
            },
            Some(n) => if n == 0 {
                None
            } else {
                self.len = Some(0);
                let p = self.decoder.position();
                match self.decoder.read_slice(n) {
                    Err(e) => Some(Err(e)),
                    Ok(b) => match str_from_utf8(b) {
                        Some(s) => Some(Ok(s)),
                        None => Some(Err(Error::utf8().at(p))),
                    },
                }
            },
        }
    }

    /// Bounds on the number of chunks that are left.
    pub fn size_hint(&self) -> (r: (usize, Option<usize>))
        ensures
            r == chunks_hint(self.remaining()),
    {
        match self.len {
            None => (0, None),
            Some(n) => if n == 0 {
                (0, Some(0))
            } else {
                (1, Some(1))
            },
        }
    }
}

/// A step of reading the items of an array or a map as a value: the item,
/// or the error that reading it gave.
pub open spec fn item_view<T>(r: Option<Result<T, Error>>) -> Option<Result<T, ErrorView>> {
    match r {
        None => None,
        Some(x) => Some(result_view(x)),
    }
}

/// Whether a step of reading items from position `p`, with `len` as announced
/// by the head (`None`: indefinite length), gave `item` and left the decoder at
/// `end` and the count at `len_after`; `decodes` says what decoding one item
/// from `p` gives.
pub open spec fn next_item<T>(
    s: Seq<u8>,
    p: int,
    len: Option<u64>,
    item: Option<Result<T, ErrorView>>,
    end: int,
    len_after: Option<u64>,
    decodes: spec_fn(Result<T, ErrorView>, int) -> bool,
) -> bool {
    match len {
        None => match read_byte(s, p).0 {
            Err(x) => item == Some(Err::<T, ErrorView>(x)) && end == p && len_after == None::<u64>,
            Ok(b) => if b == 0xff {
                item is None && end == p + 1 && len_after == Some(0u64)
            } else {
                item matches Some(x) && decodes(x, end) && len_after == None::<u64>
            },
        },
        Some(n) => if n == 0 {
            item is None && end == p && len_after == Some(0u64)
        } else {
            item matches Some(x) && decodes(x, end) && len_after == Some((n - 1) as u64)
        },
    }
}

/// What `size_hint` says of the items of an array or a map.
pub open spec fn items_hint(len: Option<u64>) -> (usize, Option<usize>) {
    match len {
        None => (0, None),
        Some(n) => if n <= usize::MAX {
            (n as usize, Some(n as usize))
        } else {
            (usize::MAX, None)
        },
    }
}

/// Bounds on the number of items that are left, `len` as in [`next_item`].
fn size_hint_of(len: Option<u64>) -> (r: (usize, Option<usize>))
    ensures
        r == items_hint(len),
{
    match len {
        None => (0, None),
        Some(n) => if n <= usize::MAX as u64 {
            (n as usize, Some(n as usize))
        } else {
            (usize::MAX, None)
        },
    }
}

/// The items of an array, of definite or indefinite length, each decoded as a `T`.
#[derive(Debug)]
pub struct ArrayIter<'a, 'b, T> {
    decoder: &'a mut Decoder<'b>,
    len: Option<u64>,
    item: PhantomData<T>,
}

impl<'a, 'b, T: Decode<'b, ()>> ArrayIter<'a, 'b, T> {
    /// The input.
    pub closed spec fn source(&self) -> Seq<u8> {
        self.decoder.source()
    }

    /// The position of the next read.
    pub closed spec fn pos(&self) -> int {
        self.decoder.pos()
    }

    /// `None` while the array is of indefinite length and not at its end;
    /// else the number of items left.
    pub closed spec fn remaining(&self) -> Option<u64> {
        self.len
    }

    /// The next item, if there is one.
    pub fn next(&mut self) -> (r: Option<Result<T, Error>>)
        ensures
            final(self).source() == old(self).source(),
            next_item(
                old(self).source(),
                old(self).pos(),
                old(self).remaining(),
                item_view(r),
                final(self).pos(),
                final(self).remaining(),
                |x: Result<T, ErrorView>, e: int| T::decodes(old(self).source(), old(self).pos(), x, e),
            ),
    {
        match self.len {
            None => match self.decoder.current() {
                Err(e) => Some(Err(e)),
                Ok(b) => if b == 0xff {
                    self.len = Some(0);
                    let _ = self.decoder.read();
                    None
                } else {
                    Some(T::decode(self.decoder, &mut ()))
                },
            },
            Some(n) => if n == 0 {
                None
            } else {
                self.len = Some(n - 1);
                Some(T::decode(self.decoder, &mut ()))
            },
        }
    }

    /// Bounds on the number of items that are left.
    pub fn size_hint(&self) -> (r: (usize, Option<usize>))
        ensures
            r == items_hint(self.remaining()),
    {
        size_hint_of(self.len)
    }
}

/// The items of an array, of definite or indefinite length, each decoded as a
/// `T` with a context.
#[derive(Debug)]
pub struct ArrayIterWithCtx<'a, 'b, C, T> {
    decoder: &'a mut Decoder<'b>,
    ctx: &'a mut C,
    len: Option<u64>,
    item: PhantomData<T>,
}

impl<'a, 'b, C, T: Decode<'b, C>> ArrayIterWithCtx<'a, 'b, C, T> {
    /// The input.
    pub closed spec fn source(&self) -> Seq<u8> {
        self.decoder.source()
    }

    /// The position of the next read.
    pub closed spec fn pos(&self) -> int {
        self.decoder.pos()
    }

    /// `None` while the array is of indefinite length and not at its end;
    /// else the number of items left.
    pub closed spec fn remaining(&self) -> Option<u64> {
        self.len
    }

    /// The next item, if there is one.
    pub fn next(&mut self) -> (r: Option<Result<T, Error>>)
        ensures
            final(self).source() == old(self).source(),
            next_item(
                old(self).source(),
                old(self).pos(),
                old(self).remaining(),
                item_view(r),
                final(self).pos(),
                final(self).remaining(),
                |x: Result<T, ErrorView>, e: int| T::decodes(old(self).source(), old(self).pos(), x, e),
            ),
    {
        match self.len {
            None => match self.decoder.current() {
                Err(e) => Some(Err(e)),
                Ok(b) => if b == 0xff {
                    self.len = Some(0);
                    let _ = self.decoder.read();
                    None
                } else {
                    Some(T::decode(self.decoder, self.ctx))
                },
            },
            Some(n) => if n == 0 {
                None
            } else {
                self.len = Some(n - 1);
                Some(T::decode(self.decoder, self.ctx))
            },
        }
    }

    /// Bounds on the number of items that are left.
    pub fn size_hint(&self) -> (r: (usize, Option<usize>))
        ensures
            r == items_hint(self.remaining()),
    {
        size_hint_of(self.len)
    }
}

/// The entries of a map, of definite or indefinite length, each decoded as a
/// key of type `K` and a value of type `V`.
#[derive(Debug)]
pub struct MapIter<'a, 'b, K, V> {
    decoder: &'a mut Decoder<'b>,
    len: Option<u64>,
    item: PhantomData<(K, V)>,
}

impl<'a, 'b, K: Decode<'b, ()>, V: Decode<'b, ()>> MapIter<'a, 'b, K, V> {
    /// The input.
    pub closed spec fn source(&self) -> Seq<u8> {
        self.decoder.source()
    }

    /// The position of the next read.
    pub closed spec fn pos(&self) -> int {
        self.decoder.pos()
    }

    /// `None` while the map is of indefinite length and not at its end;
    /// else the number of entries left.
    pub closed spec fn remaining(&self) -> Option<u64> {
        self.len
    }

    /// The next entry, if there is one.
    pub fn next(&mut self) -> (r: Option<Result<(K, V), Error>>)
        ensures
            final(self).source() == old(self).source(),
            next_item(
                old(self).source(),
                old(self).pos(),
                old(self).remaining(),
                item_view(r),
                final(self).pos(),
                final(self).remaining(),
                |x: Result<(K, V), ErrorView>, e: int| decodes_entry::<'b, (), K, V>(old(self).source(), old(self).pos(), x, e),
            ),
    {
        match self.len {
            None => match self.decoder.current() {
                Err(e) => Some(Err(e)),
                Ok(b) => if b == 0xff {
                    self.len = Some(0);
                    let _ = self.decoder.read();
                    None
                } else {
                    Some(decode_entry(self.decoder, &mut ()))
                },
            },
            Some(n) => if n == 0 {
                None
            } else {
                self.len = Some(n - 1);
                Some(decode_entry(self.decoder, &mut ()))
            },
        }
    }

    /// Bounds on the number of entries that are left.
    pub fn size_hint(&self) -> (r: (usize, Option<usize>))
        ensures
            r == items_hint(self.remaining()),
    {
        size_hint_of(self.len)
    }
}

/// The entries of a map, of definite or indefinite length, each decoded as a
/// key of type `K` and a value of type `V`, with a context.
#[derive(Debug)]
pub struct MapIterWithCtx<'a, 'b, C, K, V> {
    decoder: &'a mut Decoder<'b>,
    ctx: &'a mut C,
    len: Option<u64>,
    item: PhantomData<(K, V)>,
}

impl<'a, 'b, C, K: Decode<'b, C>, V: Decode<'b, C>> MapIterWithCtx<'a, 'b, C, K, V> {
    /// The input.
    pub closed spec fn source(&self) -> Seq<u8> {
        self.decoder.source()
    }

    /// The position of the next read.
    pub closed spec fn pos(&self) -> int {
        self.decoder.pos()
    }

    /// `None` while the map is of indefinite length and not at its end;
    /// else the number of entries left.
    pub closed spec fn remaining(&self) -> Option<u64> {
        self.len
    }

    /// The next entry, if there is one.
    pub fn next(&mut self) -> (r: Option<Result<(K, V), Error>>)
        ensures
            final(self).source() == old(self).source(),
            next_item(
                old(self).source(),
                old(self).pos(),
                old(self).remaining(),
                item_view(r),
                final(self).pos(),
                final(self).remaining(),
                |x: Result<(K, V), ErrorView>, e: int| decodes_entry::<'b, C, K, V>(old(self).source(), old(self).pos(), x, e),
            ),
    {
        match self.len {
            None => match self.decoder.current() {
                Err(e) => Some(Err(e)),
                Ok(b) => if b == 0xff {
                    self.len = Some(0);
                    let _ = self.decoder.read();
                    None
                } else {
                    Some(decode_entry(self.decoder, self.ctx))
                },
            },
            Some(n) => if n == 0 {
                None
            } else {
                self.len = Some(n - 1);
                Some(decode_entry(self.decoder, self.ctx))
            },
        }
    }

    /// Bounds on the number of entries that are left.
    pub fn size_hint(&self) -> (r: (usize, Option<usize>))
        ensures
            r == items_hint(self.remaining()),
    {
        size_hint_of(self.len)
    }
}

impl<'b> Decoder<'b> {
    /// Reads the head of a string in chunks whose initial byte lies in
    /// `lo ..= lo + 0x1b`, or is `indef` for indefinite length.
    pub(crate) fn chunks_head(&mut self, lo: u8, indef: u8, expect: &str) -> (r: Result<Option<usize>, Error>)
        requires
            lo <= 0xe0,
        ensures
            final(self).source() == old(self).source(),
            (result_view(r), final(self).pos()) == read_chunks_head(old(self).source(), old(self).pos(), lo, indef, expect@),
    {
        let p = self.position();
        match self.len_head(lo, Some(indef), expect) {
            Err(e) => Err(e),
            Ok(None) => Ok(None),
            Ok(Some(n)) => if n > usize::MAX as u64 {
                Err(Error::overflow(n).at(p).with_message("when converting u64 to usize"))
            } else {
                Ok(Some(n as usize))
            },
        }
    }

    /// Reads a byte string, of definite or indefinite length, in chunks.
    pub fn bytes_iter<'a>(&'a mut self) -> (r: Result<BytesIter<'a, 'b>, Error>)
        ensures
            match r {
                Ok(it) => {
                    &&& it.source() == old(self).source()
                    &&& (Ok::<Option<usize>, ErrorView>(it.remaining()), it.pos())
                        == read_chunks_head(old(self).source(), old(self).pos(), 0x40, 0x5f, "expected bytes"@)
                },
                Err(e) => {
                    &&& final(self).source() == old(self).source()
                    &&& (Err::<Option<usize>, ErrorView>(e@), final(self).pos())
                        == read_chunks_head(old(self).source(), old(self).pos(), 0x40, 0x5f, "expected bytes"@)
                },
            },
    {
        match self.chunks_head(0x40, 0x5f, "expected bytes") {
            Err(e) => Err(e),
            Ok(len) => Ok(BytesIter { decoder: self, len }),
        }
    }

    /// Reads a text string, of definite or indefinite length, in chunks.
    pub fn str_iter<'a>(&'a mut self) -> (r: Result<StrIter<'a, 'b>, Error>)
        ensures
            match r {
                Ok(it) => {
                    &&& it.source() == old(self).source()
                    &&& (Ok::<Option<usize>, ErrorView>(it.remaining()), it.pos())
                        == read_chunks_head(old(self).source(), old(self).pos(), 0x60, 0x7f, "expected text"@)
                },
                Err(e) => {
                    &&& final(self).source() == old(self).source()
                    &&& (Err::<Option<usize>, ErrorView>(e@), final(self).pos())
                        == read_chunks_head(old(self).source(), old(self).pos(), 0x60, 0x7f, "expected text"@)
                },
            },
    {
        match self.chunks_head(0x60, 0x7f, "expected text") {
            Err(e) => Err(e),
            Ok(len) => Ok(StrIter { decoder: self, len }),
        }
    }

    /// Reads the head of an array and gives an iterator over its items.
    pub fn array_iter<'a, T: Decode<'b, ()>>(&'a mut self) -> (r: Result<ArrayIter<'a, 'b, T>, Error>)
        ensures
            match r {
                Ok(it) => {
                    &&& it.source() == old(self).source()
                    &&& (Ok::<Option<u64>, ErrorView>(it.remaining()), it.pos()) == read_array(old(self).source(), old(self).pos())
                },
                Err(e) => {
                    &&& final(self).source() == old(self).source()
                    &&& (Err::<Option<u64>, ErrorView>(e@), final(self).pos()) == read_array(old(self).source(), old(self).pos())
                },
            },
    {
        match self.array() {
            Err(e) => Err(e),
            Ok(len) => Ok(ArrayIter { decoder: self, len, item: PhantomData }),
        }
    }

    /// Reads the head of an array and gives an iterator over its items, which
    /// are decoded with context `ctx`.
    pub fn array_iter_with<'a, C, T: Decode<'b, C>>(&'a mut self, ctx: &'a mut C) -> (r: Result<ArrayIterWithCtx<'a, 'b, C, T>, Error>)
        ensures
            match r {
                Ok(it) => {
                    &&& it.source() == old(self).source()
                    &&& (Ok::<Option<u64>, ErrorView>(it.remaining()), it.pos()) == read_array(old(self).source(), old(self).pos())
                },
                Err(e) => {
                    &&& final(self).source() == old(self).source()
                    &&& (Err::<Option<u64>, ErrorView>(e@), final(self).pos()) == read_array(old(self).source(), old(self).pos())
                },
            },
    {
        match self.array() {
            Err(e) => Err(e),
            Ok(len) => Ok(ArrayIterWithCtx { decoder: self, ctx, len, item: PhantomData }),
        }
    }

    /// Reads the head of a map and gives an iterator over its entries.
    pub fn map_iter<'a, K: Decode<'b, ()>, V: Decode<'b, ()>>(&'a mut self) -> (r: Result<MapIter<'a, 'b, K, V>, Error>)
        ensures
            match r {
                Ok(it) => {
                    &&& it.source() == old(self).source()
                    &&& (Ok::<Option<u64>, ErrorView>(it.remaining()), it.pos()) == read_map(old(self).source(), old(self).pos())
                },
                Err(e) => {
                    &&& final(self).source() == old(self).source()
                    &&& (Err::<Option<u64>, ErrorView>(e@), final(self).pos()) == read_map(old(self).source(), old(self).pos())
                },
            },
    {
        match self.map() {
            Err(e) => Err(e),
            Ok(len) => Ok(MapIter { decoder: self, len, item: PhantomData }),
        }
    }

    /// Reads the head of a map and gives an iterator over its entries, which
    /// are decoded with context `ctx`.
    pub fn map_iter_with<'a, C, K: Decode<'b, C>, V: Decode<'b, C>>(&'a mut self, ctx: &'a mut C) -> (r: Result<MapIterWithCtx<'a, 'b, C, K, V>, Error>)
        ensures
            match r {
                Ok(it) => {
                    &&& it.source() == old(self).source()
                    &&& (Ok::<Option<u64>, ErrorView>(it.remaining()), it.pos()) == read_map(old(self).source(), old(self).pos())
                },
                Err(e) => {
                    &&& final(self).source() == old(self).source()
                    &&& (Err::<Option<u64>, ErrorView>(e@), final(self).pos()) == read_map(old(self).source(), old(self).pos())
                },
            },
    {
        match self.map() {
            Err(e) => Err(e),
            Ok(len) => Ok(MapIterWithCtx { decoder: self, ctx, len, item: PhantomData }),
        }
    }
}

} // verus!
