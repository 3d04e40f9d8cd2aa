//! Decoding arrays into sequences of values.
use vstd::prelude::*;
use crate::decode::{Decode, Decoder, Error};
use crate::decode::decoder::result_view;
use crate::decode::error::{ErrorKind, ErrorView, error_at};
use crate::decode::reads::{read_array, read_byte, lemma_read_len_progress};

verus! {

/// How many items are left after `k` of them were read from an array whose
/// head announced `len` (`None`: indefinite length).
pub open spec fn after_len(len: Option<u64>, k: int) -> Option<int> {
    match len {
        None => None,
        Some(n) => Some(n - k),
    }
}

/// Whether another item follows at `p`, where `left` items are left: some
/// remain of a definite length, or no break stands at `p`.
pub open spec fn item_follows(input: Seq<u8>, p: int, left: Option<int>) -> bool {
    match left {
        None => 0 <= p < input.len() && input[p] != 0xff,
        Some(n) => n > 0,
    }
}

/// Whether the items of an array end at `p`, where `left` items are left, and
/// the decoder then stands at `end`.
pub open spec fn items_end(input: Seq<u8>, p: int, left: Option<int>, end: int) -> bool {
    match left {
        None => 0 <= p < input.len() && input[p] == 0xff && end == p + 1,
        Some(n) => n == 0 && end == p,
    }
}

/// Where reading items from `pos` stands once the items that end at `ends`
/// were read.
pub open spec fn stop(pos: int, ends: Seq<int>) -> int {
    if ends.len() == 0 {
        pos
    } else {
        ends.last()
    }
}

/// Whether reading the items of an array from `pos`, where its head announced
/// `len`, decodes `items`, one after another, the `i`-th ending at `ends[i]`.
pub open spec fn reads_items<'b, C, T: Decode<'b, C>>(input: Seq<u8>, pos: int, len: Option<u64>, items: Seq<T>, ends: Seq<int>) -> bool
    decreases items.len(),
{
    &&& items.len() == ends.len()
    &&& items.len() > 0 ==> {
        let m = stop(pos, ends.drop_last());
        &&& reads_items::<'b, C, T>(input, pos, len, items.drop_last(), ends.drop_last())
        &&& item_follows(input, m, after_len(len, items.len() - 1))
        &&& T::decodes(input, m, Ok(items.last()), ends.last())
    }
}

/// Whether the step of reading the next item at `p`, where `left` items are
/// left, fails with `x` and leaves the decoder at `end`.
pub open spec fn item_fails<'b, C, T: Decode<'b, C>>(input: Seq<u8>, p: int, left: Option<int>, x: ErrorView, end: int) -> bool {
    match left {
        None => match read_byte(input, p).0 {
            Err(y) => x == y && end == p,
            Ok(b) => b != 0xff && T::decodes(input, p, Err(x), end),
        },
        Some(n) => n > 0 && T::decodes(input, p, Err(x), end),
    }
}

/// Decoding an array of definite or indefinite length from `pos` into the
/// sequence of its items.
pub open spec fn decodes_items<'b, C, T: Decode<'b, C>>(input: Seq<u8>, pos: int, r: Result<Seq<T>, ErrorView>, end: int) -> bool {
    let head = read_array(input, pos);
    match head.0 {
        Err(x) => r == Err::<Seq<T>, ErrorView>(x) && end == head.1,
        Ok(len) => match r {
            Ok(v) => exists|ends: Seq<int>|
                #[trigger] reads_items::<'b, C, T>(input, head.1, len, v, ends)
                && items_end(input, stop(head.1, ends), after_len(len, v.len() as int), end),
            Err(x) => exists|items: Seq<T>, ends: Seq<int>|
                #[trigger] reads_items::<'b, C, T>(input, head.1, len, items, ends)
                && item_fails::<'b, C, T>(input, stop(head.1, ends), after_len(len, items.len() as int), x, end),
        },
    }
}

/// Reading one more item extends what was read.
proof fn lemma_reads_push<'b, C, T: Decode<'b, C>>(input: Seq<u8>, pos: int, len: Option<u64>, items: Seq<T>, ends: Seq<int>, x: T, e: int)
    requires
        reads_items::<'b, C, T>(input, pos, len, items, ends),
        item_follows(input, stop(pos, ends), after_len(len, items.len() as int)),
        T::decodes(input, stop(pos, ends), Ok(x), e),
    ensures
        reads_items::<'b, C, T>(input, pos, len, items.push(x), ends.push(e)),
{
    assert(items.push(x).drop_last() =~= items);
    assert(ends.push(e).drop_last() =~= ends);
}

/// Items read from `pos` end within the input, at or after `pos`.
pub(crate) proof fn lemma_reads_bounds<'b, C, T: Decode<'b, C>>(input: Seq<u8>, pos: int, len: Option<u64>, items: Seq<T>, ends: Seq<int>)
    requires
        pos <= input.len(),
        reads_items::<'b, C, T>(input, pos, len, items, ends),
    ensures
        pos <= stop(pos, ends) <= input.len(),
    decreases items.len(),
{
    if items.len() > 0 {
        lemma_reads_bounds::<'b, C, T>(input, pos, len, items.drop_last(), ends.drop_last());
        T::lemma_progress(input, stop(pos, ends.drop_last()), items.last(), ends.last());
    }
}

/// An array whose items were all read decodes to them.
pub(crate) proof fn lemma_items_ok<'b, C, T: Decode<'b, C>>(input: Seq<u8>, pos: int, len: Option<u64>, v: Seq<T>, ends: Seq<int>, end: int)
    requires
        read_array(input, pos).0 == Ok::<Option<u64>, ErrorView>(len),
        reads_items::<'b, C, T>(input, read_array(input, pos).1, len, v, ends),
        items_end(input, stop(read_array(input, pos).1, ends), after_len(len, v.len() as int), end),
    ensures
        decodes_items::<'b, C, T>(input, pos, Ok(v), end),
{
    let head = read_array(input, pos);
    let r: Result<Seq<T>, ErrorView> = Ok(v);
    assert(exists|es: Seq<int>|
        #[trigger] reads_items::<'b, C, T>(input, head.1, len, v, es)
        && items_end(input, stop(head.1, es), after_len(len, v.len() as int), end));
    assert(match head.0 {
        Err(x) => r == Err::<Seq<T>, ErrorView>(x) && end == head.1,
        Ok(len) => match r {
            Ok(v) => exists|es: Seq<int>|
                #[trigger] reads_items::<'b, C, T>(input, head.1, len, v, es)
                && items_end(input, stop(head.1, es), after_len(len, v.len() as int), end),
            Err(x) => exists|items: Seq<T>, es: Seq<int>|
                #[trigger] reads_items::<'b, C, T>(input, head.1, len, items, es)
                && item_fails::<'b, C, T>(input, stop(head.1, es), after_len(len, items.len() as int), x, end),
        },
    });
}

/// An array one of whose items failed to read decodes to that failure.
proof fn lemma_items_err<'b, C, T: Decode<'b, C>>(input: Seq<u8>, pos: int, len: Option<u64>, v: Seq<T>, ends: Seq<int>, x: ErrorView, end: int)
    requires
        read_array(input, pos).0 == Ok::<Option<u64>, ErrorView>(len),
        reads_items::<'b, C, T>(input, read_array(input, pos).1, len, v, ends),
        item_fails::<'b, C, T>(input, stop(read_array(input, pos).1, ends), after_len(len, v.len() as int), x, end),
    ensures
        decodes_items::<'b, C, T>(input, pos, Err(x), end),
{
    let head = read_array(input, pos);
    let r: Result<Seq<T>, ErrorView> = Err(x);
    assert(exists|items: Seq<T>, es: Seq<int>|
        #[trigger] reads_items::<'b, C, T>(input, head.1, len, items, es)
        && item_fails::<'b, C, T>(input, stop(head.1, es), after_len(len, items.len() as int), x, end));
    assert(match head.0 {
        Err(y) => r == Err::<Seq<T>, ErrorView>(y) && end == head.1,
        Ok(len) => match r {
            Ok(v) => exists|es: Seq<int>|
                #[trigger] reads_items::<'b, C, T>(input, head.1, len, v, es)
                && items_end(input, stop(head.1, es), after_len(len, v.len() as int), end),
            Err(x) => exists|items: Seq<T>, es: Seq<int>|
                #[trigger] reads_items::<'b, C, T>(input, head.1, len, items, es)
                && item_fails::<'b, C, T>(input, stop(head.1, es), after_len(len, items.len() as int), x, end),
        },
    });
}

/// Decodes the items of an array into a vector.
fn decode_vec<'b, C, T: Decode<'b, C>>(d: &mut Decoder<'b>, ctx: &mut C) -> (r: Result<Vec<T>, Error>)
    ensures
        final(d).source() == old(d).source(),
        decodes_items::<'b, C, T>(
            old(d).source(),
            old(d).pos(),
            match r {
                Ok(v) => Ok(v@),
                Err(e) => Err(e@),
            },
            final(d).pos(),
        ),
{
    let ghost input = d.source();
    let ghost p0 = d.pos();
    let len = match d.array() {
        Err(e) => return Err(e),
        Ok(len) => len,
    };
    let ghost start = d.pos();
    let ghost mut ends: Seq<int> = Seq::empty();
    let mut v: Vec<T> = Vec::new();
    let mut left = len;
    loop
        invariant
            input == old(d).source(),
            p0 == old(d).pos(),
            read_array(input, p0) == (Ok::<Option<u64>, ErrorView>(len), start),
            d.source() == input,
            reads_items::<'b, C, T>(input, start, len, v@, ends),
            d.pos() == stop(start, ends),
            start <= d.pos() <= input.len(),
            match left {
                None => after_len(len, v@.len() as int) is None,
                Some(n) => after_len(len, v@.len() as int) == Some(n as int),
            },
        decreases
            match left {
                None => (input.len() - d.pos()) as int,
                Some(n) => n as int,
            },
    {
        let ghost m = d.pos();
        match left {
            None => match d.current() {
                Err(e) => {
                    proof {
                        assert(item_fails::<'b, C, T>(input, m, after_len(len, v@.len() as int), e@, d.pos()));
                        lemma_items_err::<'b, C, T>(input, p0, len, v@, ends, e@, d.pos());
                    }
                    return Err(e);
                },
                Ok(b) => if b == 0xff {
                    let _ = d.read();
                    proof {
                        assert(items_end(input, m, after_len(len, v@.len() as int), d.pos()));
                        lemma_items_ok::<'b, C, T>(input, p0, len, v@, ends, d.pos());
                    }
                    return Ok(v);
                },
            },
            Some(n) => if n == 0 {
                proof {
                    assert(items_end(input, m, after_len(len, v@.len() as int), d.pos()));
                        lemma_items_ok::<'b, C, T>(input, p0, len, v@, ends, d.pos());
                }
                return Ok(v);
            } else {
                left = Some(n - 1);
            },
        }
        match T::decode(d, ctx) {
            Err(e) => {
                proof {
                    assert(item_fails::<'b, C, T>(input, m, after_len(len, v@.len() as int), e@, d.pos()));
                        lemma_items_err::<'b, C, T>(input, p0, len, v@, ends, e@, d.pos());
                }
                return Err(e);
            },
            Ok(x) => {
                proof {
                    T::lemma_progress(input, m, x, d.pos());
                    lemma_reads_push::<'b, C, T>(input, start, len, v@, ends, x, d.pos());
                    ends = ends.push(d.pos());
                }
                v.push(x);
            },
        }
    }
}

impl<'b, C, T: Decode<'b, C>> Decode<'b, C> for Vec<T> {
    open spec fn decodes(input: Seq<u8>, pos: int, r: Result<Self, ErrorView>, end: int) -> bool {
        decodes_items::<'b, C, T>(
            input,
            pos,
            match r {
                Ok(v) => Ok(v@),
                Err(x) => Err(x),
            },
            end,
        )
    }

    proof fn lemma_progress(input: Seq<u8>, pos: int, v: Self, end: int) {
        lemma_read_len_progress(input, pos);
        let head = read_array(input, pos);
        let len = head.0->Ok_0;
        let ends = choose|ends: Seq<int>|
            #[trigger] reads_items::<'b, C, T>(input, head.1, len, v@, ends)
            && items_end(input, stop(head.1, ends), after_len(len, v@.len() as int), end);
        lemma_reads_bounds::<'b, C, T>(input, head.1, len, v@, ends);
    }

    fn decode(d: &mut Decoder<'b>, ctx: &mut C) -> (r: Result<Self, Error>) {
        decode_vec(d, ctx)
    }
}

/// Whether the step of reading the next item at `p`, where `left` items are
/// left, yields an item (a value or an error) and leaves the decoder at `end`.
pub open spec fn item_read<'b, C, T: Decode<'b, C>>(input: Seq<u8>, p: int, left: Option<int>, end: int) -> bool {
    match left {
        None => match read_byte(input, p).0 {
            Err(_) => end == p,
            Ok(b) => b != 0xff && exists|r: Result<T, ErrorView>| #[trigger] T::decodes(input, p, r, end),
        },
        Some(n) => n > 0 && exists|r: Result<T, ErrorView>| #[trigger] T::decodes(input, p, r, end),
    }
}

/// The error of an array with more items than the `N` asked for, whose head is at `p`.
pub open spec fn too_many(p: int) -> ErrorView {
    error_at(ErrorKind::Message, p, "array has more than the expected number of elements"@)
}

/// The error of an array with fewer items than the `N` asked for, whose head is at `p`.
pub open spec fn too_few(p: int) -> ErrorView {
    error_at(ErrorKind::Message, p, "array has less than the expected number of elements"@)
}

/// Decoding an array of definite or indefinite length from `pos` into exactly
/// `n` items.
pub open spec fn decodes_exactly<'b, C, T: Decode<'b, C>>(input: Seq<u8>, pos: int, n: int, r: Result<Seq<T>, ErrorView>, end: int) -> bool {
    let head = read_array(input, pos);
    match head.0 {
        Err(x) => r == Err::<Seq<T>, ErrorView>(x) && end == head.1,
        Ok(len) => match r {
            Ok(v) => v.len() == n && exists|ends: Seq<int>|
                #[trigger] reads_items::<'b, C, T>(input, head.1, len, v, ends)
                && items_end(input, stop(head.1, ends), after_len(len, n), end),
            Err(x) => exists|items: Seq<T>, ends: Seq<int>|
                #[trigger] reads_items::<'b, C, T>(input, head.1, len, items, ends) && {
                    let q = stop(head.1, ends);
                    let left = after_len(len, items.len() as int);
                    ||| items.len() < n && item_fails::<'b, C, T>(input, q, left, x, end)
                    ||| items.len() < n && items_end(input, q, left, end) && x == too_few(pos)
                    ||| items.len() == n && item_read::<'b, C, T>(input, q, left, end) && x == too_many(pos)
                },
        },
    }
}

/// `<[T; N]>::try_from` on a vector (std): its items as an array, if there are
/// exactly `N` of them.
#[verifier::external_body]
fn vec_into_array<T, const N: usize>(v: Vec<T>) -> (r: Option<[T; N]>)
    ensures
        r is Some <==> v@.len() == N,
        r matches Some(a) ==> a@ == v@,
{
    v.try_into().ok()
}

/// The array of items read to their end.
pub(crate) proof fn lemma_exactly_ok<'b, C, T: Decode<'b, C>>(input: Seq<u8>, pos: int, n: int, len: Option<u64>, v: Seq<T>, ends: Seq<int>, end: int)
    requires
        read_array(input, pos).0 == Ok::<Option<u64>, ErrorView>(len),
        v.len() == n,
        reads_items::<'b, C, T>(input, read_array(input, pos).1, len, v, ends),
        items_end(input, stop(read_array(input, pos).1, ends), after_len(len, n), end),
    ensures
        decodes_exactly::<'b, C, T>(input, pos, n, Ok(v), end),
{
    let head = read_array(input, pos);
    let r: Result<Seq<T>, ErrorView> = Ok(v);
    assert(head.0 == Ok::<Option<u64>, ErrorView>(len));
    assert(r matches Ok(w) && w == v);
    assert(exists|es: Seq<int>|
        #[trigger] reads_items::<'b, C, T>(input, head.1, len, v, es) && items_end(input, stop(head.1, es), after_len(len, n), end));
    assert(match head.0 {
        Err(x) => r == Err::<Seq<T>, ErrorView>(x) && end == head.1,
        Ok(len) => match r {
            Ok(v) => v.len() == n && exists|ends: Seq<int>|
                #[trigger] reads_items::<'b, C, T>(input, head.1, len, v, ends)
                && items_end(input, stop(head.1, ends), after_len(len, n), end),
            Err(x) => exists|items: Seq<T>, ends: Seq<int>|
                #[trigger] reads_items::<'b, C, T>(input, head.1, len, items, ends) && {
                    let q = stop(head.1, ends);
                    let left = after_len(len, items.len() as int);
                    ||| items.len() < n && item_fails::<'b, C, T>(input, q, left, x, end)
                    ||| items.len() < n && items_end(input, q, left, end) && x == too_few(pos)
                    ||| items.len() == n && item_read::<'b, C, T>(input, q, left, end) && x == too_many(pos)
                },
        },
    });
}

/// An array whose items failed to give exactly `n` items, as `x` says.
proof fn lemma_exactly_err<'b, C, T: Decode<'b, C>>(input: Seq<u8>, pos: int, n: int, len: Option<u64>, items: Seq<T>, ends: Seq<int>, x: ErrorView, end: int)
    requires
        read_array(input, pos).0 == Ok::<Option<u64>, ErrorView>(len),
        reads_items::<'b, C, T>(input, read_array(input, pos).1, len, items, ends),
        ({
            let q = stop(read_array(input, pos).1, ends);
            let left = after_len(len, items.len() as int);
            ||| items.len() < n && item_fails::<'b, C, T>(input, q, left, x, end)
            ||| items.len() < n && items_end(input, q, left, end) && x == too_few(pos)
            ||| items.len() == n && item_read::<'b, C, T>(input, q, left, end) && x == too_many(pos)
        }),
    ensures
        decodes_exactly::<'b, C, T>(input, pos, n, Err(x), end),
{
    let head = read_array(input, pos);
    let r: Result<Seq<T>, ErrorView> = Err(x);
    assert(exists|is: Seq<T>, es: Seq<int>|
        #[trigger] reads_items::<'b, C, T>(input, head.1, len, is, es) && {
            let q = stop(head.1, es);
            let left = after_len(len, is.len() as int);
            ||| is.len() < n && item_fails::<'b, C, T>(input, q, left, x, end)
            ||| is.len() < n && items_end(input, q, left, end) && x == too_few(pos)
            ||| is.len() == n && item_read::<'b, C, T>(input, q, left, end) && x == too_many(pos)
        });
    assert(match head.0 {
        Err(y) => r == Err::<Seq<T>, ErrorView>(y) && end == head.1,
        Ok(len) => match r {
            Ok(v) => v.len() == n && exists|ends: Seq<int>|
                #[trigger] reads_items::<'b, C, T>(input, head.1, len, v, ends)
                && items_end(input, stop(head.1, ends), after_len(len, n), end),
            Err(x) => exists|items: Seq<T>, ends: Seq<int>|
                #[trigger] reads_items::<'b, C, T>(input, head.1, len, items, ends) && {
                    let q = stop(head.1, ends);
                    let left = after_len(len, items.len() as int);
                    ||| items.len() < n && item_fails::<'b, C, T>(input, q, left, x, end)
                    ||| items.len() < n && items_end(input, q, left, end) && x == too_few(pos)
                    ||| items.len() == n && item_read::<'b, C, T>(input, q, left, end) && x == too_many(pos)
                },
        },
    });
}

/// Decodes the items of an array, which must be exactly `n`, into a vector.
fn decode_exactly<'b, C, T: Decode<'b, C>>(d: &mut Decoder<'b>, ctx: &mut C, n: usize) -> (r: Result<Vec<T>, Error>)
    ensures
        final(d).source() == old(d).source(),
        decodes_exactly::<'b, C, T>(
            old(d).source(),
            old(d).pos(),
            n as int,
            match r {
                Ok(v) => Ok(v@),
                Err(e) => Err(e@),
            },
            final(d).pos(),
        ),
{
    let ghost input = d.source();
    let p0 = d.position();
    let len = match d.array() {
        Err(e) => return Err(e),
        Ok(len) => len,
    };
    let ghost start = d.pos();
    let ghost mut ends: Seq<int> = Seq::empty();
    let mut v: Vec<T> = Vec::new();
    let mut left = len;
    loop
        invariant
            input == old(d).source(),
            p0 == old(d).pos(),
            read_array(input, p0 as int) == (Ok::<Option<u64>, ErrorView>(len), start),
            d.source() == input,
            reads_items::<'b, C, T>(input, start, len, v@, ends),
            d.pos() == stop(start, ends),
            start <= d.pos() <= input.len(),
            v@.len() <= n,
            match left {
                None => after_len(len, v@.len() as int) is None,
                Some(k) => after_len(len, v@.len() as int) == Some(k as int),
            },
        decreases
            match left {
                None => (input.len() - d.pos()) as int,
                Some(k) => k as int,
            },
    {
        let ghost m = d.pos();
        let ghost l = after_len(len, v@.len() as int);
        match left {
            None => match d.current() {
                Err(e) => {
                    if v.len() < n {
                        proof {
                            lemma_exactly_err::<'b, C, T>(input, p0 as int, n as int, len, v@, ends, e@, d.pos());
                        }
                        return Err(e);
                    } else {
                        let x = Error::message("array has more than the expected number of elements").at(p0);
                        proof {
                            lemma_exactly_err::<'b, C, T>(input, p0 as int, n as int, len, v@, ends, x@, d.pos());
                        }
                        return Err(x);
                    }
                },
                Ok(b) => if b == 0xff {
                    let _ = d.read();
                    if v.len() < n {
                        let x = Error::message("array has less than the expected number of elements").at(p0);
                        proof {
                            lemma_exactly_err::<'b, C, T>(input, p0 as int, n as int, len, v@, ends, x@, d.pos());
                        }
                        return Err(x);
                    }
                    proof {
                        lemma_exactly_ok::<'b, C, T>(input, p0 as int, n as int, len, v@, ends, d.pos());
                    }
                    return Ok(v);
                },
            },
            Some(k) => if k == 0 {
                if v.len() < n {
                    let x = Error::message("array has less than the expected number of elements").at(p0);
                    proof {
                        lemma_exactly_err::<'b, C, T>(input, p0 as int, n as int, len, v@, ends, x@, d.pos());
                    }
                    return Err(x);
                }
                proof {
                    lemma_exactly_ok::<'b, C, T>(input, p0 as int, n as int, len, v@, ends, d.pos());
                }
                return Ok(v);
            } else {
                left = Some(k - 1);
            },
        }
        let r = T::decode(d, ctx);
        if v.len() >= n {
            let x = Error::message("array has more than the expected number of elements").at(p0);
            proof {
                assert(T::decodes(input, m, result_view(r), d.pos()));
                lemma_exactly_err::<'b, C, T>(input, p0 as int, n as int, len, v@, ends, x@, d.pos());
            }
            return Err(x);
        }
        match r {
            Err(e) => {
                proof {
                    lemma_exactly_err::<'b, C, T>(input, p0 as int, n as int, len, v@, ends, e@, d.pos());
                }
                return Err(e);
            },
            Ok(x) => {
                proof {
                    T::lemma_progress(input, m, x, d.pos());
                    lemma_reads_push::<'b, C, T>(input, start, len, v@, ends, x, d.pos());
                    ends = ends.push(d.pos());
                }
                v.push(x);
            },
        }
    }
}

impl<'b, C, T: Decode<'b, C>, const N: usize> Decode<'b, C> for [T; N] {
    open spec fn decodes(input: Seq<u8>, pos: int, r: Result<Self, ErrorView>, end: int) -> bool {
        decodes_exactly::<'b, C, T>(
            input,
            pos,
            N as int,
            match r {
                Ok(a) => Ok(a@),
                Err(x) => Err(x),
            },
            end,
        )
    }

    proof fn lemma_progress(input: Seq<u8>, pos: int, v: Self, end: int) {
        lemma_read_len_progress(input, pos);
        let head = read_array(input, pos);
        let len = head.0->Ok_0;
        let ends = choose|ends: Seq<int>|
            #[trigger] reads_items::<'b, C, T>(input, head.1, len, v@, ends)
            && items_end(input, stop(head.1, ends), after_len(len, N as int), end);
        lemma_reads_bounds::<'b, C, T>(input, head.1, len, v@, ends);
    }

    fn decode(d: &mut Decoder<'b>, ctx: &mut C) -> (r: Result<Self, Error>) {
        match decode_exactly(d, ctx, N) {
            Err(e) => Err(e),
            Ok(v) => match vec_into_array(v) {
                Some(a) => Ok(a),
                None => Err(Error::message("array has less than the expected number of elements")),
            },
        }
    }
}

} // verus!
