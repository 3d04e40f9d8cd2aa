//! Skipping over a whole data item, however deeply nested.
use vstd::prelude::*;
use crate::data::Type;
use crate::decode::decoder::{Decoder, result_view, str_from_utf8};
use crate::decode::error::{Error, ErrorKind, ErrorView, end_of_input, error_at};
use crate::decode::reads::{Read, read_u64, read_int, read_byte, read_bytes, read_array, read_map, read_tag, read_chunks_head, next_chunk};

verus! {

/// Whether `e` lies past `p` and within `s`: a read that got there made progress.
pub open spec fn advanced(s: Seq<u8>, p: int, e: int) -> bool {
    p < e <= s.len()
}

/// A read as one that yields nothing but where it ends.
pub open spec fn unit<T>(r: Read<T>) -> Read<()> {
    (
        match r.0 {
            Ok(_) => Ok(()),
            Err(x) => Err(x),
        },
        r.1,
    )
}

/// Reading the chunks of a string from `p`, where `len` is what its head
/// announced (see `next_chunk`), up to its end.
pub open spec fn chunks_end(s: Seq<u8>, p: int, len: Option<usize>, utf8: bool) -> Read<()>
    decreases s.len() - p,
{
    let (item, e, left) = next_chunk(s, p, len, utf8);
    match item {
        None => (Ok(()), e),
        Some(Err(x)) => (Err(x), e),
        Some(Ok(_)) => if advanced(s, p, e) {
            chunks_end(s, e, left, utf8)
        } else {
            (Err(end_of_input()), e)
        },
    }
}

/// Reading a whole string of major type `lo` (bytes or text), of definite or
/// indefinite length.
pub open spec fn string_end(s: Seq<u8>, p: int, lo: u8, utf8: bool) -> Read<()> {
    let (r, e) = read_chunks_head(s, p, lo, (lo + 0x1f) as u8, if utf8 { "expected text"@ } else { "expected bytes"@ });
    match r {
        Err(x) => (Err(x), e),
        Ok(len) => chunks_end(s, e, len, utf8),
    }
}

/// The error of an initial byte that begins no data item.
pub open spec fn unknown_type(p: int, b: u8) -> ErrorView {
    error_at(ErrorKind::TypeMismatch(Type::Unknown(b)), p, "unknown type"@)
}

/// The error of a break where no indefinite-length item is open.
pub open spec fn stray_break(p: int) -> ErrorView {
    error_at(ErrorKind::TypeMismatch(Type::Break), p, "unexpected break"@)
}

/// Reading the whole data item at `p`: the position after it, or the error
/// that stops the reading.
pub open spec fn item_end(s: Seq<u8>, p: int) -> Read<()>
    decreases s.len() - p, 0int, 0int,
{
    if !(0 <= p < s.len()) {
        (Err(end_of_input()), p)
    } else {
        let b = s[p];
        if b <= 0x1b {
            unit(read_u64(s, p))
        } else if 0x20 <= b <= 0x3b {
            unit(read_int(s, p))
        } else if (0x40 <= b <= 0x5b) || b == 0x5f {
            string_end(s, p, 0x40, false)
        } else if (0x60 <= b <= 0x7b) || b == 0x7f {
            string_end(s, p, 0x60, true)
        } else if (0x80 <= b <= 0x9b) || b == 0x9f {
            let (r, e) = read_array(s, p);
            match r {
                Err(x) => (Err(x), e),
                Ok(Some(n)) => if advanced(s, p, e) { items_end(s, e, n as int) } else { (Err(end_of_input()), e) },
                Ok(None) => if advanced(s, p, e) { indef_items_end(s, e) } else { (Err(end_of_input()), e) },
            }
        } else if (0xa0 <= b <= 0xbb) || b == 0xbf {
            let (r, e) = read_map(s, p);
            match r {
                Err(x) => (Err(x), e),
                Ok(Some(n)) => if advanced(s, p, e) { items_end(s, e, 2 * n) } else { (Err(end_of_input()), e) },
                Ok(None) => if advanced(s, p, e) { indef_items_end(s, e) } else { (Err(end_of_input()), e) },
            }
        } else if 0xc0 <= b <= 0xdb {
            let (r, e) = read_tag(s, p);
            match r {
                Err(x) => (Err(x), e),
                Ok(_) => if advanced(s, p, e) { item_end(s, e) } else { (Err(end_of_input()), e) },
            }
        } else if 0xe0 <= b <= 0xf7 {
            (Ok(()), p + 1)
        } else if b == 0xf8 {
            unit(read_byte(s, p + 1))
        } else if b == 0xf9 {
            unit(read_bytes(s, p + 1, 2))
        } else if b == 0xfa {
            unit(read_bytes(s, p + 1, 4))
        } else if b == 0xfb {
            unit(read_bytes(s, p + 1, 8))
        } else if b == 0xff {
            (Err(stray_break(p)), p + 1)
        } else {
            (Err(unknown_type(p, b)), p + 1)
        }
    }
}

/// Reading `n` data items in a row from `p`.
pub open spec fn items_end(s: Seq<u8>, p: int, n: int) -> Read<()>
    decreases s.len() - p, 1int, n,
{
    if n <= 0 {
        (Ok(()), p)
    } else {
        let (r, e) = item_end(s, p);
        match r {
            Err(x) => (Err(x), e),
            Ok(_) => if advanced(s, p, e) { items_end(s, e, n - 1) } else { (Err(end_of_input()), e) },
        }
    }
}

/// Reading data items from `p` up to the break that ends them, and the break.
pub open spec fn indef_items_end(s: Seq<u8>, p: int) -> Read<()>
    decreases s.len() - p, 1int, 0int,
{
    if !(0 <= p < s.len()) {
        (Err(end_of_input()), p)
    } else if s[p] == 0xff {
        (Ok(()), p + 1)
    } else {
        let (r, e) = item_end(s, p);
        match r {
            Err(x) => (Err(x), e),
            Ok(_) => if advanced(s, p, e) { indef_items_end(s, e) } else { (Err(end_of_input()), e) },
        }
    }
}

/// Where reading ends from `p` with the frames `st` still open, the last on
/// top: `Some(k)` for `k` items still to read in a row, `None` for items up to
/// a break.
spec fn rest_end(s: Seq<u8>, p: int, st: Seq<Option<u128>>) -> Read<()>
    decreases s.len() - p, st.len(),
{
    if st.len() == 0 {
        (Ok(()), p)
    } else {
        let below = st.drop_last();
        match st.last() {
            Some(k) => if k == 0 {
                rest_end(s, p, below)
            } else {
                let (r, e) = item_end(s, p);
                match r {
                    Err(x) => (Err(x), e),
                    Ok(_) => if advanced(s, p, e) {
                        rest_end(s, e, below.push(Some((k - 1) as u128)))
                    } else {
                        (Err(end_of_input()), e)
                    },
                }
            },
            None => if !(0 <= p < s.len()) {
                (Err(end_of_input()), p)
            } else if s[p] == 0xff {
                rest_end(s, p + 1, below)
            } else {
                let (r, e) = item_end(s, p);
                match r {
                    Err(x) => (Err(x), e),
                    Ok(_) => if advanced(s, p, e) { rest_end(s, e, st) } else { (Err(end_of_input()), e) },
                }
            },
        }
    }
}

/// A string read to its end ends within the input, at or after `p`.
proof fn lemma_chunks_end_bounds(s: Seq<u8>, p: int, len: Option<usize>, utf8: bool)
    requires
        0 <= p <= s.len(),
    ensures
        chunks_end(s, p, len, utf8).0 is Ok ==> p <= chunks_end(s, p, len, utf8).1 <= s.len(),
    decreases s.len() - p,
{
    let (item, e, left) = next_chunk(s, p, len, utf8);
    if item matches Some(Ok(_)) {
        if advanced(s, p, e) {
            lemma_chunks_end_bounds(s, e, left, utf8);
        }
    }
}

/// A data item read to its end ends within the input, past `p`.
pub(crate) proof fn lemma_item_end_bounds(s: Seq<u8>, p: int)
    ensures
        item_end(s, p).0 is Ok ==> advanced(s, p, item_end(s, p).1),
    decreases s.len() - p, 0int, 0int,
{
    if 0 <= p < s.len() {
        let b = s[p];
        if (0x40 <= b <= 0x5b) || b == 0x5f || (0x60 <= b <= 0x7b) || b == 0x7f {
            let lo: u8 = if b < 0x60 { 0x40 } else { 0x60 };
            let utf8 = b >= 0x60;
            let (r, e) = read_chunks_head(s, p, lo, (lo + 0x1f) as u8, if utf8 { "expected text"@ } else { "expected bytes"@ });
            if let Ok(len) = r {
                lemma_chunks_end_bounds(s, e, len, utf8);
            }
        } else if (0x80 <= b <= 0x9b) || b == 0x9f {
            let (r, e) = read_array(s, p);
            if advanced(s, p, e) {
                match r {
                    Ok(Some(n)) => lemma_items_end_bounds(s, e, n as int),
                    Ok(None) => lemma_indef_items_end_bounds(s, e),
                    Err(_) => {},
                }
            }
        } else if (0xa0 <= b <= 0xbb) || b == 0xbf {
            let (r, e) = read_map(s, p);
            if advanced(s, p, e) {
                match r {
                    Ok(Some(n)) => lemma_items_end_bounds(s, e, 2 * n),
                    Ok(None) => lemma_indef_items_end_bounds(s, e),
                    Err(_) => {},
                }
            }
        } else if 0xc0 <= b <= 0xdb {
            let (r, e) = read_tag(s, p);
            if advanced(s, p, e) {
                lemma_item_end_bounds(s, e);
            }
        }
    }
}

/// Items read in a row end within the input, at or after `p`.
proof fn lemma_items_end_bounds(s: Seq<u8>, p: int, n: int)
    requires
        0 <= p <= s.len(),
    ensures
        items_end(s, p, n).0 is Ok ==> p <= items_end(s, p, n).1 <= s.len(),
    decreases s.len() - p, 1int, n,
{
    if n > 0 {
        lemma_item_end_bounds(s, p);
        let (r, e) = item_end(s, p);
        if r is Ok && advanced(s, p, e) {
            lemma_items_end_bounds(s, e, n - 1);
        }
    }
}

/// Items read up to a break end within the input, past `p`.
proof fn lemma_indef_items_end_bounds(s: Seq<u8>, p: int)
    ensures
        indef_items_end(s, p).0 is Ok ==> advanced(s, p, indef_items_end(s, p).1),
    decreases s.len() - p, 1int, 0int,
{
    if 0 <= p < s.len() && s[p] != 0xff {
        lemma_item_end_bounds(s, p);
        let (r, e) = item_end(s, p);
        if r is Ok && advanced(s, p, e) {
            lemma_indef_items_end_bounds(s, e);
        }
    }
}

/// A frame of `n` items on top reads as those items, then the frames below.
proof fn lemma_rest_items(s: Seq<u8>, p: int, st: Seq<Option<u128>>, n: u128)
    ensures
        rest_end(s, p, st.push(Some(n))) == match items_end(s, p, n as int) {
            (Err(x), e) => (Err(x), e),
            (Ok(_), e) => rest_end(s, e, st),
        },
    decreases n,
{
    let top = st.push(Some(n));
    assert(top.drop_last() =~= st);
    assert(top.last() == Some(n));
    if n > 0 {
        let (r, e) = item_end(s, p);
        if r is Ok && advanced(s, p, e) {
            lemma_rest_items(s, e, st, (n - 1) as u128);
        }
    }
}

/// A frame of items up to a break on top reads as those items and the break,
/// then the frames below.
proof fn lemma_rest_indef(s: Seq<u8>, p: int, st: Seq<Option<u128>>)
    ensures
        rest_end(s, p, st.push(None)) == match indef_items_end(s, p) {
            (Err(x), e) => (Err(x), e),
            (Ok(_), e) => rest_end(s, e, st),
        },
    decreases s.len() - p,
{
    let top = st.push(None);
    assert(top.drop_last() =~= st);
    assert(top.last() == None::<u128>);
    if 0 <= p < s.len() && s[p] != 0xff {
        let (r, e) = item_end(s, p);
        if r is Ok && advanced(s, p, e) {
            lemma_rest_indef(s, e, st);
        }
    }
}

/// One item in a row reads as that item.
proof fn lemma_items_one(s: Seq<u8>, p: int)
    ensures
        items_end(s, p, 1) == item_end(s, p),
{
    lemma_item_end_bounds(s, p);
    let (r, e) = item_end(s, p);
    assert(items_end(s, e, 0) == (Ok::<(), ErrorView>(()), e));
    match r {
        Ok(v) => {
            assert(v == ());
            assert(items_end(s, p, 1) == items_end(s, e, 0));
            assert(item_end(s, p) == (Ok::<(), ErrorView>(()), e));
        },
        Err(x) => {
            assert(items_end(s, p, 1) == (Err::<(), ErrorView>(x), e));
        },
    }
}

impl<'b> Decoder<'b> {
    /// Reads a whole string, bytes (`lo` 0x40) or text (`lo` 0x60), of definite
    /// or indefinite length; each chunk of text must be UTF-8.
    fn skip_string(&mut self, lo: u8, utf8: bool) -> (r: Result<(), Error>)
        requires
            (lo == 0x40 && !utf8) || (lo == 0x60 && utf8),
        ensures
            final(self).source() == old(self).source(),
            (result_view(r), final(self).pos()) == string_end(old(self).source(), old(self).pos(), lo, utf8),
    {
        let ghost s = self.source();
        let ghost target = string_end(s, self.pos(), lo, utf8);
        let mut len = match self.chunks_head(lo, lo + 0x1f, if utf8 { "expected text" } else { "expected bytes" }) {
            Err(e) => return Err(e),
            Ok(len) => len,
        };
        loop
            invariant
                s == old(self).source(),
                target == string_end(old(self).source(), old(self).pos(), lo, utf8),
                self.source() == s,
                0 <= self.pos() <= s.len(),
                chunks_end(s, self.pos(), len, utf8) == target,
            decreases s.len() - self.pos(),
        {
            let ghost p = self.pos();
            match len {
                None => match self.current() {
                    Err(e) => return Err(e),
                    Ok(b) => if b == 0xff {
                        let _ = self.read();
                        return Ok(());
                    } else {
                        let r = if utf8 {
                            match self.str() {
                                Ok(_) => Ok(()),
                                Err(e) => Err(e),
                            }
                        } else {
                            match self.bytes() {
                                Ok(_) => Ok(()),
                                Err(e) => Err(e),
                            }
                        };
                        match r {
                            Err(e) => return Err(e),
                            Ok(()) => {
                                assert(advanced(s, p, self.pos()));
                            },
                        }
                    },
                },
                Some(n) => if n == 0 {
                    return Ok(());
                } else {
                    len = Some(0);
                    let q = self.position();
                    match self.read_slice(n) {
                        Err(e) => return Err(e),
                        Ok(b) => if utf8 {
                            if str_from_utf8(b).is_none() {
                                return Err(Error::utf8().at(q));
                            }
                        },
                    }
                },
            }
        }
    }

    /// Skips over the data item at the position of the next read, however
    /// deeply nested, with all the data items it holds.
    pub fn skip(&mut self) -> (r: Result<(), Error>)
        ensures
            final(self).source() == old(self).source(),
            (result_view(r), final(self).pos()) == item_end(old(self).source(), old(self).pos()),
    {
        let ghost s = self.source();
        let ghost target = item_end(s, self.pos());
        if self.position() >= self.input().len() {
            return Err(Error::end_of_input());
        }
        let mut stack: Vec<Option<u128>> = Vec::new();
        stack.push(Some(1));
        proof {
            let p0 = self.pos();
            lemma_rest_items(s, p0, Seq::empty(), 1);
            assert(stack@ == Seq::<Option<u128>>::empty().push(Some(1u128)));
            lemma_item_end_bounds(s, p0);
            lemma_items_one(s, p0);
            let t = item_end(s, p0);
            if let Ok(v) = t.0 {
                assert(v == ());
                assert(rest_end(s, t.1, Seq::empty()) == (Ok::<(), ErrorView>(()), t.1));
            }
        }
        while stack.len() > 0
            invariant
                s == old(self).source(),
                target == item_end(old(self).source(), old(self).pos()),
                self.source() == s,
                0 <= self.pos() <= s.len(),
                rest_end(s, self.pos(), stack@) == target,
            decreases s.len() - self.pos(), stack.len(),
        {
            let p = self.position();
            let top = stack[stack.len() - 1];
            let ghost st = stack@;
            let ghost below = st.drop_last();
            match top {
                Some(k) => {
                    if k == 0 {
                        stack.pop();
                        assert(stack@ =~= below);
                        assert(rest_end(s, self.pos(), stack@) == target);
                        continue;
                    }
                    let last = stack.len() - 1;
                    stack.set(last, Some(k - 1));
                    assert(stack@ =~= below.push(Some((k - 1) as u128)));
                },
                None => match self.current() {
                    Err(e) => return Err(e),
                    Ok(b) => if b == 0xff {
                        let _ = self.read();
                        stack.pop();
                        assert(stack@ =~= below);
                        assert(rest_end(s, self.pos(), stack@) == target);
                        continue;
                    },
                },
            }
            // The item at `p` is to be read; `stack` holds the frames after it.
            let ghost after = stack@;
            proof {
                lemma_item_end_bounds(s, p as int);
            }
            let b = match self.current() {
                Err(e) => return Err(e),
                Ok(b) => b,
            };
            if b <= 0x1b {
                if let Err(e) = self.u64() {
                    return Err(e);
                }
                assert(rest_end(s, self.pos(), stack@) == target);
            } else if 0x20 <= b && b <= 0x3b {
                if let Err(e) = self.integer() {
                    return Err(e);
                }
                assert(rest_end(s, self.pos(), stack@) == target);
            } else if (0x40 <= b && b <= 0x5b) || b == 0x5f {
                if let Err(e) = self.skip_string(0x40, false) {
                    return Err(e);
                }
                assert(rest_end(s, self.pos(), stack@) == target);
            } else if (0x60 <= b && b <= 0x7b) || b == 0x7f {
                if let Err(e) = self.skip_string(0x60, true) {
                    return Err(e);
                }
                assert(rest_end(s, self.pos(), stack@) == target);
            } else if (0x80 <= b && b <= 0x9b) || b == 0x9f {
                match self.array() {
                    Err(e) => return Err(e),
                    Ok(Some(n)) => {
                        proof {
                            lemma_rest_items(s, self.pos(), after, n as u128);
                            lemma_items_end_bounds(s, self.pos(), n as int);
                        }
                        stack.push(Some(n as u128));
                        assert(rest_end(s, self.pos(), stack@) == target);
                    },
                    Ok(None) => {
                        proof {
                            lemma_rest_indef(s, self.pos(), after);
                            lemma_indef_items_end_bounds(s, self.pos());
                        }
                        stack.push(None);
                        assert(rest_end(s, self.pos(), stack@) == target);
                    },
                }
            } else if (0xa0 <= b && b <= 0xbb) || b == 0xbf {
                match self.map() {
                    Err(e) => return Err(e),
                    Ok(Some(n)) => {
                        proof {
                            lemma_rest_items(s, self.pos(), after, (2 * n) as u128);
                            lemma_items_end_bounds(s, self.pos(), 2 * n);
                        }
                        stack.push(Some(2 * (n as u128)));
                        assert(rest_end(s, self.pos(), stack@) == target);
                    },
                    Ok(None) => {
                        proof {
                            lemma_rest_indef(s, self.pos(), after);
                            lemma_indef_items_end_bounds(s, self.pos());
                        }
                        stack.push(None);
                        assert(rest_end(s, self.pos(), stack@) == target);
                    },
                }
            } else if 0xc0 <= b && b <= 0xdb {
                match self.tag() {
                    Err(e) => return Err(e),
                    Ok(_) => {
                        proof {
                            lemma_rest_items(s, self.pos(), after, 1);
                            lemma_items_one(s, self.pos());
                        }
                        stack.push(Some(1));
                        assert(rest_end(s, self.pos(), stack@) == target);
                    },
                }
            } else if 0xe0 <= b && b <= 0xf7 {
                let _ = self.read();
                assert(rest_end(s, self.pos(), stack@) == target);
            } else if b == 0xf8 {
                let _ = self.read();
                if let Err(e) = self.read() {
                    return Err(e);
                }
                assert(rest_end(s, self.pos(), stack@) == target);
            } else if 0xf9 <= b && b <= 0xfb {
                let _ = self.read();
                let n: usize = if b == 0xf9 { 2 } else if b == 0xfa { 4 } else { 8 };
                if let Err(e) = self.read_slice(n) {
                    return Err(e);
                }
                assert(rest_end(s, self.pos(), stack@) == target);
            } else if b == 0xff {
                let _ = self.read();
                return Err(Error::type_mismatch(Type::Break).at(p).with_message("unexpected break"));
            } else {
                let _ = self.read();
                return Err(Error::type_mismatch(Type::Unknown(b)).at(p).with_message("unknown type"));
            }
        }
        Ok(())
    }
}

} // verus!
