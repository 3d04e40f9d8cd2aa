//! Decoding that has one outcome.
use vstd::prelude::*;
use vstd::string::StringSliceAdditionalSpecFns;
use crate::data::{Int, Tag, Tagged};
use crate::decode::{Decode, decodes_entry, decodes_triple};
use crate::decode::error::ErrorView;
use crate::decode::items::{reads_items, item_follows, items_end, item_fails, item_read, after_len, stop, decodes_items, decodes_exactly, too_few, too_many};

verus! {

/// Whether decoding a `T` from any position of any input has one outcome: a
/// single result, ending at a single position.
pub open spec fn decodes_uniquely<'b, C, T: Decode<'b, C>>() -> bool {
    forall|input: Seq<u8>, pos: int, r1: Result<T, ErrorView>, e1: int, r2: Result<T, ErrorView>, e2: int|
        #[trigger] T::decodes(input, pos, r1, e1) && #[trigger] T::decodes(input, pos, r2, e2) ==> r1 == r2 && e1 == e2
}

/// Decoding a number, a `bool` or a `char` has one outcome.
pub proof fn lemma_unique_scalars<'b, C>()
    ensures
        decodes_uniquely::<'b, C, bool>(),
        decodes_uniquely::<'b, C, u8>(),
        decodes_uniquely::<'b, C, u16>(),
        decodes_uniquely::<'b, C, u32>(),
        decodes_uniquely::<'b, C, u64>(),
        decodes_uniquely::<'b, C, usize>(),
        decodes_uniquely::<'b, C, i8>(),
        decodes_uniquely::<'b, C, i16>(),
        decodes_uniquely::<'b, C, i32>(),
        decodes_uniquely::<'b, C, i64>(),
        decodes_uniquely::<'b, C, isize>(),
        decodes_uniquely::<'b, C, char>(),
        decodes_uniquely::<'b, C, ()>(),
{
}

/// Decoding an [`Int`] or a [`Tag`] has one outcome.
pub proof fn lemma_unique_int_tag<'b, C>()
    ensures
        decodes_uniquely::<'b, C, Int>(),
        decodes_uniquely::<'b, C, Tag>(),
{
    assert forall|input: Seq<u8>, pos: int, r1: Result<Int, ErrorView>, e1: int, r2: Result<Int, ErrorView>, e2: int|
        #[trigger] <Int as Decode<'b, C>>::decodes(input, pos, r1, e1) && #[trigger] <Int as Decode<'b, C>>::decodes(input, pos, r2, e2)
        implies r1 == r2 && e1 == e2 by {
        if let (Ok(a), Ok(b)) = (r1, r2) {
            Int::lemma_parts_injective(a, b);
        }
    }
    assert forall|input: Seq<u8>, pos: int, r1: Result<Tag, ErrorView>, e1: int, r2: Result<Tag, ErrorView>, e2: int|
        #[trigger] <Tag as Decode<'b, C>>::decodes(input, pos, r1, e1) && #[trigger] <Tag as Decode<'b, C>>::decodes(input, pos, r2, e2)
        implies r1 == r2 && e1 == e2 by {
        if let (Ok(a), Ok(b)) = (r1, r2) {
            Tag::lemma_num_injective(a, b);
        }
    }
}

/// Decoding `PhantomData` has one outcome.
pub proof fn lemma_unique_phantom<'b, C, T>()
    ensures
        decodes_uniquely::<'b, C, core::marker::PhantomData<T>>(),
{
}

/// Decoding a `Box<T>` or an `Option<T>` has one outcome where decoding a `T` does.
pub proof fn lemma_unique_box_option<'b, C, T: Decode<'b, C>>()
    requires
        decodes_uniquely::<'b, C, T>(),
    ensures
        decodes_uniquely::<'b, C, Box<T>>(),
        decodes_uniquely::<'b, C, Option<T>>(),
{
    assert forall|input: Seq<u8>, pos: int, r1: Result<Box<T>, ErrorView>, e1: int, r2: Result<Box<T>, ErrorView>, e2: int|
        #[trigger] <Box<T> as Decode<'b, C>>::decodes(input, pos, r1, e1) && #[trigger] <Box<T> as Decode<'b, C>>::decodes(input, pos, r2, e2)
        implies r1 == r2 && e1 == e2 by {
        let u1: Result<T, ErrorView> = match r1 { Ok(b) => Ok(*b), Err(x) => Err(x) };
        let u2: Result<T, ErrorView> = match r2 { Ok(b) => Ok(*b), Err(x) => Err(x) };
        assert(T::decodes(input, pos, u1, e1) && T::decodes(input, pos, u2, e2));
    }
    assert forall|input: Seq<u8>, pos: int, r1: Result<Option<T>, ErrorView>, e1: int, r2: Result<Option<T>, ErrorView>, e2: int|
        #[trigger] <Option<T> as Decode<'b, C>>::decodes(input, pos, r1, e1) && #[trigger] <Option<T> as Decode<'b, C>>::decodes(input, pos, r2, e2)
        implies r1 == r2 && e1 == e2 by {
        let u1: Result<T, ErrorView> = match r1 { Ok(Some(v)) => Ok(v), Ok(None) => Err(arbitrary()), Err(x) => Err(x) };
        let u2: Result<T, ErrorView> = match r2 { Ok(Some(v)) => Ok(v), Ok(None) => Err(arbitrary()), Err(x) => Err(x) };
        if crate::decode::reads::datatype_at(input, pos) is Ok
            && crate::decode::reads::datatype_at(input, pos) != Ok::<crate::data::Type, ErrorView>(crate::data::Type::Null) {
            assert(T::decodes(input, pos, u1, e1) && T::decodes(input, pos, u2, e2));
        }
    }
}

/// Decoding a `Result<T, E>` or a `Tagged<N, T>` has one outcome where
/// decoding its parts does.
pub proof fn lemma_unique_result_tagged<'b, C, const N: u64, T: Decode<'b, C>, E: Decode<'b, C>>()
    requires
        decodes_uniquely::<'b, C, T>(),
        decodes_uniquely::<'b, C, E>(),
    ensures
        decodes_uniquely::<'b, C, Result<T, E>>(),
        decodes_uniquely::<'b, C, Tagged<N, T>>(),
{
    assert forall|input: Seq<u8>, pos: int, r1: Result<Result<T, E>, ErrorView>, e1: int, r2: Result<Result<T, E>, ErrorView>, e2: int|
        #[trigger] <Result<T, E> as Decode<'b, C>>::decodes(input, pos, r1, e1) && #[trigger] <Result<T, E> as Decode<'b, C>>::decodes(input, pos, r2, e2)
        implies r1 == r2 && e1 == e2 by {
        let t1: Result<T, ErrorView> = match r1 { Ok(Ok(v)) => Ok(v), Ok(Err(_)) => Err(arbitrary()), Err(x) => Err(x) };
        let t2: Result<T, ErrorView> = match r2 { Ok(Ok(v)) => Ok(v), Ok(Err(_)) => Err(arbitrary()), Err(x) => Err(x) };
        let f1: Result<E, ErrorView> = match r1 { Ok(Err(v)) => Ok(v), Ok(Ok(_)) => Err(arbitrary()), Err(x) => Err(x) };
        let f2: Result<E, ErrorView> = match r2 { Ok(Err(v)) => Ok(v), Ok(Ok(_)) => Err(arbitrary()), Err(x) => Err(x) };
        let e1a = crate::decode::reads::read_array(input, pos).1;
        let p2 = crate::decode::reads::read_u32(input, e1a).1;
        if T::decodes(input, p2, t1, e1) && T::decodes(input, p2, t2, e2) {
        }
        if E::decodes(input, p2, f1, e1) && E::decodes(input, p2, f2, e2) {
        }
    }
    assert forall|input: Seq<u8>, pos: int, r1: Result<Tagged<N, T>, ErrorView>, e1: int, r2: Result<Tagged<N, T>, ErrorView>, e2: int|
        #[trigger] <Tagged<N, T> as Decode<'b, C>>::decodes(input, pos, r1, e1) && #[trigger] <Tagged<N, T> as Decode<'b, C>>::decodes(input, pos, r2, e2)
        implies r1 == r2 && e1 == e2 by {
        let u1: Result<T, ErrorView> = match r1 { Ok(t) => Ok(t.inner()), Err(x) => Err(x) };
        let u2: Result<T, ErrorView> = match r2 { Ok(t) => Ok(t.inner()), Err(x) => Err(x) };
        let p1 = crate::decode::reads::read_tag(input, pos).1;
        if T::decodes(input, p1, u1, e1) && T::decodes(input, p1, u2, e2) {
            if let (Ok(a), Ok(b)) = (r1, r2) {
                Tagged::<N, T>::lemma_inner_injective(a, b);
            }
        }
    }
}

/// Decoding an item of type `A` followed by one of type `B` has one outcome
/// where decoding each does.
pub proof fn lemma_unique_entry<'b, C, A: Decode<'b, C>, B: Decode<'b, C>>(
    input: Seq<u8>,
    pos: int,
    r1: Result<(A, B), ErrorView>,
    e1: int,
    r2: Result<(A, B), ErrorView>,
    e2: int,
)
    requires
        decodes_uniquely::<'b, C, A>(),
        decodes_uniquely::<'b, C, B>(),
        decodes_entry::<'b, C, A, B>(input, pos, r1, e1),
        decodes_entry::<'b, C, A, B>(input, pos, r2, e2),
    ensures
        r1 == r2,
        e1 == e2,
{
    lemma_unique_entry_half::<'b, C, A, B>(input, pos, r1, e1, r2, e2);
    lemma_unique_entry_half::<'b, C, A, B>(input, pos, r2, e2, r1, e1);
}

/// The case of [`lemma_unique_entry`] where the first outcome is a success,
/// or both are failures.
proof fn lemma_unique_entry_half<'b, C, A: Decode<'b, C>, B: Decode<'b, C>>(
    input: Seq<u8>,
    pos: int,
    r1: Result<(A, B), ErrorView>,
    e1: int,
    r2: Result<(A, B), ErrorView>,
    e2: int,
)
    requires
        decodes_uniquely::<'b, C, A>(),
        decodes_uniquely::<'b, C, B>(),
        decodes_entry::<'b, C, A, B>(input, pos, r1, e1),
        decodes_entry::<'b, C, A, B>(input, pos, r2, e2),
    ensures
        r1 is Ok || r2 is Err ==> r1 == r2 && e1 == e2,
{
    match r1 {
        Ok((x1, y1)) => {
            let m1 = choose|e: int| #[trigger] A::decodes(input, pos, Ok(x1), e) && B::decodes(input, e, Ok(y1), e1);
            match r2 {
                Ok((x2, y2)) => {
                    let m2 = choose|e: int| #[trigger] A::decodes(input, pos, Ok(x2), e) && B::decodes(input, e, Ok(y2), e2);
                    assert(A::decodes(input, pos, Ok(x1), m1) && A::decodes(input, pos, Ok(x2), m2));
                    assert(B::decodes(input, m1, Ok(y1), e1) && B::decodes(input, m1, Ok(y2), e2));
                },
                Err(x) => {
                    if A::decodes(input, pos, Err(x), e2) {
                        assert(A::decodes(input, pos, Ok(x1), m1));
                    } else {
                        let (m2, a) = choose|e: int, a: A| #[trigger] A::decodes(input, pos, Ok(a), e) && B::decodes(input, e, Err(x), e2);
                        assert(A::decodes(input, pos, Ok(x1), m1) && A::decodes(input, pos, Ok(a), m2));
                        assert(B::decodes(input, m1, Ok(y1), e1) && B::decodes(input, m1, Err(x), e2));
                    }
                },
            }
        },
        Err(x1) => {
            if let Err(x2) = r2 {
                if A::decodes(input, pos, Err(x1), e1) {
                    if A::decodes(input, pos, Err(x2), e2) {
                    } else {
                        let (m2, a) = choose|e: int, a: A| #[trigger] A::decodes(input, pos, Ok(a), e) && B::decodes(input, e, Err(x2), e2);
                        assert(A::decodes(input, pos, Err(x1), e1) && A::decodes(input, pos, Ok(a), m2));
                    }
                } else {
                    let (m1, a1) = choose|e: int, a: A| #[trigger] A::decodes(input, pos, Ok(a), e) && B::decodes(input, e, Err(x1), e1);
                    if A::decodes(input, pos, Err(x2), e2) {
                        assert(A::decodes(input, pos, Err(x2), e2) && A::decodes(input, pos, Ok(a1), m1));
                    } else {
                        let (m2, a2) = choose|e: int, a: A| #[trigger] A::decodes(input, pos, Ok(a), e) && B::decodes(input, e, Err(x2), e2);
                        assert(A::decodes(input, pos, Ok(a1), m1) && A::decodes(input, pos, Ok(a2), m2));
                        assert(B::decodes(input, m1, Err(x1), e1) && B::decodes(input, m1, Err(x2), e2));
                    }
                }
            }
        },
    }
}

/// Decoding a pair has one outcome where decoding each of its items does.
pub proof fn lemma_unique_pair<'b, C, A: Decode<'b, C>, B: Decode<'b, C>>()
    requires
        decodes_uniquely::<'b, C, A>(),
        decodes_uniquely::<'b, C, B>(),
    ensures
        decodes_uniquely::<'b, C, (A, B)>(),
{
    assert forall|input: Seq<u8>, pos: int, r1: Result<(A, B), ErrorView>, e1: int, r2: Result<(A, B), ErrorView>, e2: int|
        #[trigger] <(A, B) as Decode<'b, C>>::decodes(input, pos, r1, e1) && #[trigger] <(A, B) as Decode<'b, C>>::decodes(input, pos, r2, e2)
        implies r1 == r2 && e1 == e2 by {
        let head = crate::decode::reads::read_array(input, pos);
        if head.0 == Ok::<Option<u64>, ErrorView>(Some(2u64)) {
            lemma_unique_entry::<'b, C, A, B>(input, head.1, r1, e1, r2, e2);
        }
    }
}

/// The case of [`lemma_unique_triple`] where the first outcome is a success,
/// or both are failures, once the head announced three items.
proof fn lemma_unique_triple_half<'b, C, A: Decode<'b, C>, B: Decode<'b, C>, D: Decode<'b, C>>(
    input: Seq<u8>,
    pos: int,
    r1: Result<(A, B, D), ErrorView>,
    e1: int,
    r2: Result<(A, B, D), ErrorView>,
    e2: int,
)
    requires
        decodes_uniquely::<'b, C, A>(),
        decodes_uniquely::<'b, C, B>(),
        decodes_uniquely::<'b, C, D>(),
        crate::decode::reads::read_array(input, pos).0 == Ok::<Option<u64>, ErrorView>(Some(3u64)),
        decodes_triple::<'b, C, A, B, D>(input, pos, r1, e1),
        decodes_triple::<'b, C, A, B, D>(input, pos, r2, e2),
    ensures
        r1 is Ok || r2 is Err ==> r1 == r2 && e1 == e2,
{
    let h = crate::decode::reads::read_array(input, pos).1;
    match r1 {
        Ok((x1, y1, z1)) => {
            let (m1, n1) = choose|e2: int, e3: int| #[trigger] A::decodes(input, h, Ok(x1), e2) && #[trigger] B::decodes(input, e2, Ok(y1), e3) && D::decodes(input, e3, Ok(z1), e1);
            assert(A::decodes(input, h, Ok(x1), m1) && B::decodes(input, m1, Ok(y1), n1) && D::decodes(input, n1, Ok(z1), e1));
            match r2 {
                Ok((x2, y2, z2)) => {
                    let (m2, n2) = choose|f: int, g: int| #[trigger] A::decodes(input, h, Ok(x2), f) && #[trigger] B::decodes(input, f, Ok(y2), g) && D::decodes(input, g, Ok(z2), e2);
                    assert(A::decodes(input, h, Ok(x2), m2) && B::decodes(input, m2, Ok(y2), n2) && D::decodes(input, n2, Ok(z2), e2));
                    assert(m1 == m2);
                    assert(n1 == n2);
                    assert(D::decodes(input, n1, Ok(z2), e2));
                },
                Err(x) => {
                    if A::decodes(input, h, Err(x), e2) {
                    } else if exists|e: int, a: A| #[trigger] A::decodes(input, h, Ok(a), e) && B::decodes(input, e, Err(x), e2) {
                        let (m2, a) = choose|e: int, a: A| #[trigger] A::decodes(input, h, Ok(a), e) && B::decodes(input, e, Err(x), e2);
                        assert(A::decodes(input, h, Ok(a), m2));
                        assert(m1 == m2);
                        assert(B::decodes(input, m1, Err(x), e2));
                    } else {
                        let (m2, n2, a, b) = choose|f: int, g: int, a: A, b: B| #[trigger] A::decodes(input, h, Ok(a), f) && #[trigger] B::decodes(input, f, Ok(b), g) && D::decodes(input, g, Err(x), e2);
                        assert(A::decodes(input, h, Ok(a), m2) && B::decodes(input, m2, Ok(b), n2) && D::decodes(input, n2, Err(x), e2));
                        assert(m1 == m2);
                        assert(B::decodes(input, m1, Ok(b), n2));
                        assert(n1 == n2);
                        assert(D::decodes(input, n1, Err(x), e2));
                    }
                },
            }
        },
        Err(x1) => {
            if let Err(x2) = r2 {
                lemma_triple_err_stage::<'b, C, A, B, D>(input, h, x1, e1, x2, e2);
            }
        },
    }
}

/// Two failures of decoding the items of a triple from `h` are the same.
proof fn lemma_triple_err_stage<'b, C, A: Decode<'b, C>, B: Decode<'b, C>, D: Decode<'b, C>>(
    input: Seq<u8>,
    h: int,
    x1: ErrorView,
    e1: int,
    x2: ErrorView,
    e2: int,
)
    requires
        decodes_uniquely::<'b, C, A>(),
        decodes_uniquely::<'b, C, B>(),
        decodes_uniquely::<'b, C, D>(),
        A::decodes(input, h, Err(x1), e1)
            || (exists|e: int, a: A| #[trigger] A::decodes(input, h, Ok(a), e) && B::decodes(input, e, Err(x1), e1))
            || (exists|e: int, e3: int, a: A, b: B| #[trigger] A::decodes(input, h, Ok(a), e) && #[trigger] B::decodes(input, e, Ok(b), e3) && D::decodes(input, e3, Err(x1), e1)),
        A::decodes(input, h, Err(x2), e2)
            || (exists|e: int, a: A| #[trigger] A::decodes(input, h, Ok(a), e) && B::decodes(input, e, Err(x2), e2))
            || (exists|e: int, e3: int, a: A, b: B| #[trigger] A::decodes(input, h, Ok(a), e) && #[trigger] B::decodes(input, e, Ok(b), e3) && D::decodes(input, e3, Err(x2), e2)),
    ensures
        x1 == x2,
        e1 == e2,
{
    if A::decodes(input, h, Err(x1), e1) {
        if A::decodes(input, h, Err(x2), e2) {
        } else if exists|e: int, a: A| #[trigger] A::decodes(input, h, Ok(a), e) && B::decodes(input, e, Err(x2), e2) {
            let (m, a) = choose|e: int, a: A| #[trigger] A::decodes(input, h, Ok(a), e) && B::decodes(input, e, Err(x2), e2);
            assert(A::decodes(input, h, Ok(a), m));
        } else {
            let (m, n, a, b) = choose|e: int, e3: int, a: A, b: B| #[trigger] A::decodes(input, h, Ok(a), e) && #[trigger] B::decodes(input, e, Ok(b), e3) && D::decodes(input, e3, Err(x2), e2);
            assert(A::decodes(input, h, Ok(a), m));
        }
    } else if exists|e: int, a: A| #[trigger] A::decodes(input, h, Ok(a), e) && B::decodes(input, e, Err(x1), e1) {
        let (m1, a1) = choose|e: int, a: A| #[trigger] A::decodes(input, h, Ok(a), e) && B::decodes(input, e, Err(x1), e1);
        assert(A::decodes(input, h, Ok(a1), m1) && B::decodes(input, m1, Err(x1), e1));
        if A::decodes(input, h, Err(x2), e2) {
        } else if exists|e: int, a: A| #[trigger] A::decodes(input, h, Ok(a), e) && B::decodes(input, e, Err(x2), e2) {
            let (m2, a2) = choose|e: int, a: A| #[trigger] A::decodes(input, h, Ok(a), e) && B::decodes(input, e, Err(x2), e2);
            assert(A::decodes(input, h, Ok(a2), m2));
            assert(m1 == m2);
            assert(B::decodes(input, m1, Err(x2), e2));
        } else {
            let (m2, n2, a2, b2) = choose|e: int, e3: int, a: A, b: B| #[trigger] A::decodes(input, h, Ok(a), e) && #[trigger] B::decodes(input, e, Ok(b), e3) && D::decodes(input, e3, Err(x2), e2);
            assert(A::decodes(input, h, Ok(a2), m2));
            assert(m1 == m2);
            assert(B::decodes(input, m1, Ok(b2), n2));
        }
    } else {
        let (m1, n1, a1, b1) = choose|e: int, e3: int, a: A, b: B| #[trigger] A::decodes(input, h, Ok(a), e) && #[trigger] B::decodes(input, e, Ok(b), e3) && D::decodes(input, e3, Err(x1), e1);
        assert(A::decodes(input, h, Ok(a1), m1) && B::decodes(input, m1, Ok(b1), n1) && D::decodes(input, n1, Err(x1), e1));
        if A::decodes(input, h, Err(x2), e2) {
        } else if exists|e: int, a: A| #[trigger] A::decodes(input, h, Ok(a), e) && B::decodes(input, e, Err(x2), e2) {
            let (m2, a2) = choose|e: int, a: A| #[trigger] A::decodes(input, h, Ok(a), e) && B::decodes(input, e, Err(x2), e2);
            assert(A::decodes(input, h, Ok(a2), m2));
            assert(m1 == m2);
            assert(B::decodes(input, m1, Err(x2), e2));
        } else {
            let (m2, n2, a2, b2) = choose|e: int, e3: int, a: A, b: B| #[trigger] A::decodes(input, h, Ok(a), e) && #[trigger] B::decodes(input, e, Ok(b), e3) && D::decodes(input, e3, Err(x2), e2);
            assert(A::decodes(input, h, Ok(a2), m2));
            assert(m1 == m2);
            assert(B::decodes(input, m1, Ok(b2), n2));
            assert(n1 == n2);
            assert(D::decodes(input, n1, Err(x2), e2));
        }
    }
}

/// Decoding a triple has one outcome where decoding each of its items does.
pub proof fn lemma_unique_triple<'b, C, A: Decode<'b, C>, B: Decode<'b, C>, D: Decode<'b, C>>()
    requires
        decodes_uniquely::<'b, C, A>(),
        decodes_uniquely::<'b, C, B>(),
        decodes_uniquely::<'b, C, D>(),
    ensures
        decodes_uniquely::<'b, C, (A, B, D)>(),
{
    assert forall|input: Seq<u8>, pos: int, r1: Result<(A, B, D), ErrorView>, e1: int, r2: Result<(A, B, D), ErrorView>, e2: int|
        #[trigger] <(A, B, D) as Decode<'b, C>>::decodes(input, pos, r1, e1) && #[trigger] <(A, B, D) as Decode<'b, C>>::decodes(input, pos, r2, e2)
        implies r1 == r2 && e1 == e2 by {
        let head = crate::decode::reads::read_array(input, pos);
        if head.0 == Ok::<Option<u64>, ErrorView>(Some(3u64)) {
            lemma_unique_triple_half::<'b, C, A, B, D>(input, pos, r1, e1, r2, e2);
            lemma_unique_triple_half::<'b, C, A, B, D>(input, pos, r2, e2, r1, e1);
        }
    }
}

/// What was read of the first `j` items of an array is a reading of them.
proof fn lemma_reads_take<'b, C, T: Decode<'b, C>>(input: Seq<u8>, pos: int, len: Option<u64>, items: Seq<T>, ends: Seq<int>, j: int)
    requires
        reads_items::<'b, C, T>(input, pos, len, items, ends),
        0 <= j <= items.len(),
    ensures
        reads_items::<'b, C, T>(input, pos, len, items.take(j), ends.take(j)),
    decreases items.len(),
{
    if j == items.len() {
        assert(items.take(j) =~= items);
        assert(ends.take(j) =~= ends);
    } else {
        lemma_reads_take::<'b, C, T>(input, pos, len, items.drop_last(), ends.drop_last(), j);
        assert(items.drop_last().take(j) =~= items.take(j));
        assert(ends.drop_last().take(j) =~= ends.take(j));
    }
}

/// The `k`-th item read: another item follows where the first `k` end, and
/// it decodes from there.
pub(crate) proof fn lemma_reads_at<'b, C, T: Decode<'b, C>>(input: Seq<u8>, pos: int, len: Option<u64>, items: Seq<T>, ends: Seq<int>, k: int)
    requires
        reads_items::<'b, C, T>(input, pos, len, items, ends),
        0 <= k < items.len(),
    ensures
        item_follows(input, stop(pos, ends.take(k)), after_len(len, k)),
        T::decodes(input, stop(pos, ends.take(k)), Ok(items[k]), ends[k]),
{
    lemma_reads_take::<'b, C, T>(input, pos, len, items, ends, k + 1);
    assert(items.take(k + 1).drop_last() =~= items.take(k));
    assert(ends.take(k + 1).drop_last() =~= ends.take(k));
}

/// Of two readings of items from one position, the shorter is the start of
/// the longer.
pub(crate) proof fn lemma_reads_prefix<'b, C, T: Decode<'b, C>>(
    input: Seq<u8>,
    pos: int,
    len: Option<u64>,
    i1: Seq<T>,
    n1: Seq<int>,
    i2: Seq<T>,
    n2: Seq<int>,
)
    requires
        decodes_uniquely::<'b, C, T>(),
        reads_items::<'b, C, T>(input, pos, len, i1, n1),
        reads_items::<'b, C, T>(input, pos, len, i2, n2),
        i1.len() <= i2.len(),
    ensures
        i1 == i2.take(i1.len() as int),
        n1 == n2.take(i1.len() as int),
    decreases i2.len(),
{
    let k = i1.len() as int;
    if k == i2.len() {
        if k > 0 {
            lemma_reads_prefix::<'b, C, T>(input, pos, len, i1.drop_last(), n1.drop_last(), i2.drop_last(), n2.drop_last());
            assert(i2.drop_last().take(k - 1) =~= i2.drop_last());
            assert(n2.drop_last().take(k - 1) =~= n2.drop_last());
            assert(i1.drop_last() == i2.drop_last());
            assert(n1.drop_last() == n2.drop_last());
            let m = stop(pos, n1.drop_last());
            assert(m == stop(pos, n2.drop_last()));
            assert(T::decodes(input, m, Ok(i1.last()), n1.last()) && T::decodes(input, m, Ok(i2.last()), n2.last()));
            assert(i1.last() == i2.last() && n1.last() == n2.last());
            assert(i2.take(k) =~= i2);
            assert(n2.take(k) =~= n2);
            assert(i1 =~= i1.drop_last().push(i1.last()));
            assert(i2 =~= i2.drop_last().push(i2.last()));
            assert(n1 =~= n1.drop_last().push(n1.last()));
            assert(n2 =~= n2.drop_last().push(n2.last()));
        } else {
            assert(i1 =~= i2.take(0));
            assert(n1 =~= n2.take(0));
        }
    } else {
        lemma_reads_prefix::<'b, C, T>(input, pos, len, i1, n1, i2.drop_last(), n2.drop_last());
        assert(i2.drop_last().take(k) =~= i2.take(k));
        assert(n2.drop_last().take(k) =~= n2.take(k));
    }
}

/// No item both fails and is read where another item follows.
proof fn lemma_fails_not_read<'b, C, T: Decode<'b, C>>(input: Seq<u8>, q: int, left: Option<int>, x: ErrorView, e: int, v: T, f: int)
    requires
        decodes_uniquely::<'b, C, T>(),
    ensures
        !(item_fails::<'b, C, T>(input, q, left, x, e) && item_follows(input, q, left) && T::decodes(input, q, Ok(v), f)),
{
    if item_fails::<'b, C, T>(input, q, left, x, e) && item_follows(input, q, left) && T::decodes(input, q, Ok(v), f) {
        assert(T::decodes(input, q, Err(x), e));
    }
}

/// Two failures of reading the next item at the same place are the same.
proof fn lemma_fails_unique<'b, C, T: Decode<'b, C>>(input: Seq<u8>, q: int, left: Option<int>, x1: ErrorView, e1: int, x2: ErrorView, e2: int)
    requires
        decodes_uniquely::<'b, C, T>(),
        item_fails::<'b, C, T>(input, q, left, x1, e1),
        item_fails::<'b, C, T>(input, q, left, x2, e2),
    ensures
        x1 == x2,
        e1 == e2,
{
    if left is Some || crate::decode::reads::read_byte(input, q).0 is Ok {
        assert(T::decodes(input, q, Err(x1), e1) && T::decodes(input, q, Err(x2), e2));
    }
}

/// Decoding the items of an array has one outcome where decoding an item does.
pub proof fn lemma_unique_items<'b, C, T: Decode<'b, C>>(input: Seq<u8>, pos: int, r1: Result<Seq<T>, ErrorView>, e1: int, r2: Result<Seq<T>, ErrorView>, e2: int)
    requires
        decodes_uniquely::<'b, C, T>(),
        decodes_items::<'b, C, T>(input, pos, r1, e1),
        decodes_items::<'b, C, T>(input, pos, r2, e2),
    ensures
        r1 == r2,
        e1 == e2,
{
    lemma_unique_items_half::<'b, C, T>(input, pos, r1, e1, r2, e2);
    lemma_unique_items_half::<'b, C, T>(input, pos, r2, e2, r1, e1);
}

/// The case of [`lemma_unique_items`] where the first outcome is a success,
/// or where both are failures and the first read no more items.
proof fn lemma_unique_items_half<'b, C, T: Decode<'b, C>>(input: Seq<u8>, pos: int, r1: Result<Seq<T>, ErrorView>, e1: int, r2: Result<Seq<T>, ErrorView>, e2: int)
    requires
        decodes_uniquely::<'b, C, T>(),
        decodes_items::<'b, C, T>(input, pos, r1, e1),
        decodes_items::<'b, C, T>(input, pos, r2, e2),
    ensures
        r1 is Ok || r2 is Err ==> r1 == r2 && e1 == e2,
{
    let head = crate::decode::reads::read_array(input, pos);
    if let Ok(len) = head.0 {
        let h = head.1;
        match r1 {
            Ok(v1) => {
                let n1 = choose|ends: Seq<int>| #[trigger] reads_items::<'b, C, T>(input, h, len, v1, ends)
                    && items_end(input, stop(h, ends), after_len(len, v1.len() as int), e1);
                let k1 = v1.len() as int;
                match r2 {
                    Ok(v2) => {
                        let n2 = choose|ends: Seq<int>| #[trigger] reads_items::<'b, C, T>(input, h, len, v2, ends)
                            && items_end(input, stop(h, ends), after_len(len, v2.len() as int), e2);
                        let k2 = v2.len() as int;
                        if k1 < k2 {
                            lemma_reads_prefix::<'b, C, T>(input, h, len, v1, n1, v2, n2);
                            lemma_reads_at::<'b, C, T>(input, h, len, v2, n2, k1);
                        } else if k2 < k1 {
                            lemma_reads_prefix::<'b, C, T>(input, h, len, v2, n2, v1, n1);
                            lemma_reads_at::<'b, C, T>(input, h, len, v1, n1, k2);
                        } else {
                            lemma_reads_prefix::<'b, C, T>(input, h, len, v1, n1, v2, n2);
                            assert(v2.take(k1) =~= v2);
                            assert(n2.take(k1) =~= n2);
                        }
                    },
                    Err(x) => {
                        let (i2, n2) = choose|items: Seq<T>, ends: Seq<int>| #[trigger] reads_items::<'b, C, T>(input, h, len, items, ends)
                            && item_fails::<'b, C, T>(input, stop(h, ends), after_len(len, items.len() as int), x, e2);
                        let k2 = i2.len() as int;
                        if k2 < k1 {
                            lemma_reads_prefix::<'b, C, T>(input, h, len, i2, n2, v1, n1);
                            lemma_reads_at::<'b, C, T>(input, h, len, v1, n1, k2);
                            lemma_fails_not_read::<'b, C, T>(input, stop(h, n2), after_len(len, k2), x, e2, v1[k2], n1[k2]);
                        } else if k1 < k2 {
                            lemma_reads_prefix::<'b, C, T>(input, h, len, v1, n1, i2, n2);
                            lemma_reads_at::<'b, C, T>(input, h, len, i2, n2, k1);
                        } else {
                            lemma_reads_prefix::<'b, C, T>(input, h, len, v1, n1, i2, n2);
                            assert(n2.take(k1) =~= n2);
                        }
                    },
                }
            },
            Err(x1) => {
                if let Err(x2) = r2 {
                    let (i1, n1) = choose|items: Seq<T>, ends: Seq<int>| #[trigger] reads_items::<'b, C, T>(input, h, len, items, ends)
                        && item_fails::<'b, C, T>(input, stop(h, ends), after_len(len, items.len() as int), x1, e1);
                    let (i2, n2) = choose|items: Seq<T>, ends: Seq<int>| #[trigger] reads_items::<'b, C, T>(input, h, len, items, ends)
                        && item_fails::<'b, C, T>(input, stop(h, ends), after_len(len, items.len() as int), x2, e2);
                    let k1 = i1.len() as int;
                    let k2 = i2.len() as int;
                    if k1 < k2 {
                        lemma_reads_prefix::<'b, C, T>(input, h, len, i1, n1, i2, n2);
                        lemma_reads_at::<'b, C, T>(input, h, len, i2, n2, k1);
                        lemma_fails_not_read::<'b, C, T>(input, stop(h, n1), after_len(len, k1), x1, e1, i2[k1], n2[k1]);
                    } else if k2 < k1 {
                        lemma_reads_prefix::<'b, C, T>(input, h, len, i2, n2, i1, n1);
                        lemma_reads_at::<'b, C, T>(input, h, len, i1, n1, k2);
                        lemma_fails_not_read::<'b, C, T>(input, stop(h, n2), after_len(len, k2), x2, e2, i1[k2], n1[k2]);
                    } else {
                        lemma_reads_prefix::<'b, C, T>(input, h, len, i1, n1, i2, n2);
                        assert(n2.take(k1) =~= n2);
                        lemma_fails_unique::<'b, C, T>(input, stop(h, n1), after_len(len, k1), x1, e1, x2, e2);
                    }
                }
            },
        }
    }
}

/// Two readings of the step past the last item asked for, at the same place,
/// end at the same position.
proof fn lemma_item_read_unique<'b, C, T: Decode<'b, C>>(input: Seq<u8>, q: int, left: Option<int>, e1: int, e2: int)
    requires
        decodes_uniquely::<'b, C, T>(),
        item_read::<'b, C, T>(input, q, left, e1),
        item_read::<'b, C, T>(input, q, left, e2),
    ensures
        e1 == e2,
{
    if left is Some || crate::decode::reads::read_byte(input, q).0 is Ok {
        let a = choose|r: Result<T, ErrorView>| #[trigger] T::decodes(input, q, r, e1);
        let b = choose|r: Result<T, ErrorView>| #[trigger] T::decodes(input, q, r, e2);
        assert(T::decodes(input, q, a, e1) && T::decodes(input, q, b, e2));
    }
}

/// Where the items end, no item fails to read and none is read.
proof fn lemma_end_excludes<'b, C, T: Decode<'b, C>>(input: Seq<u8>, q: int, left: Option<int>, e1: int, x: ErrorView, e2: int)
    ensures
        items_end(input, q, left, e1) ==> !item_fails::<'b, C, T>(input, q, left, x, e2),
        items_end(input, q, left, e1) ==> !item_read::<'b, C, T>(input, q, left, e2),
        items_end(input, q, left, e1) ==> !item_follows(input, q, left),
{
}

/// Decoding exactly `n` items of an array has one outcome where decoding an
/// item does.
pub proof fn lemma_unique_exactly<'b, C, T: Decode<'b, C>>(input: Seq<u8>, pos: int, n: int, r1: Result<Seq<T>, ErrorView>, e1: int, r2: Result<Seq<T>, ErrorView>, e2: int)
    requires
        decodes_uniquely::<'b, C, T>(),
        decodes_exactly::<'b, C, T>(input, pos, n, r1, e1),
        decodes_exactly::<'b, C, T>(input, pos, n, r2, e2),
    ensures
        r1 == r2,
        e1 == e2,
{
    lemma_unique_exactly_half::<'b, C, T>(input, pos, n, r1, e1, r2, e2);
    lemma_unique_exactly_half::<'b, C, T>(input, pos, n, r2, e2, r1, e1);
}

/// The case of [`lemma_unique_exactly`] where the first outcome is a success,
/// or both are failures.
proof fn lemma_unique_exactly_half<'b, C, T: Decode<'b, C>>(input: Seq<u8>, pos: int, n: int, r1: Result<Seq<T>, ErrorView>, e1: int, r2: Result<Seq<T>, ErrorView>, e2: int)
    requires
        decodes_uniquely::<'b, C, T>(),
        decodes_exactly::<'b, C, T>(input, pos, n, r1, e1),
        decodes_exactly::<'b, C, T>(input, pos, n, r2, e2),
    ensures
        r1 is Ok || r2 is Err ==> r1 == r2 && e1 == e2,
{
    let head = crate::decode::reads::read_array(input, pos);
    if let Ok(len) = head.0 {
        let h = head.1;
        match r1 {
            Ok(v1) => {
                let n1 = choose|ends: Seq<int>| #[trigger] reads_items::<'b, C, T>(input, h, len, v1, ends)
                    && items_end(input, stop(h, ends), after_len(len, n), e1);
                match r2 {
                    Ok(v2) => {
                        let n2 = choose|ends: Seq<int>| #[trigger] reads_items::<'b, C, T>(input, h, len, v2, ends)
                            && items_end(input, stop(h, ends), after_len(len, n), e2);
                        lemma_reads_prefix::<'b, C, T>(input, h, len, v1, n1, v2, n2);
                        assert(v2.take(n) =~= v2);
                        assert(n2.take(n) =~= n2);
                    },
                    Err(x) => {
                        let (i2, n2) = choose|items: Seq<T>, ends: Seq<int>| #[trigger] reads_items::<'b, C, T>(input, h, len, items, ends) && {
                            let q = stop(h, ends);
                            let left = after_len(len, items.len() as int);
                            ||| items.len() < n && item_fails::<'b, C, T>(input, q, left, x, e2)
                            ||| items.len() < n && items_end(input, q, left, e2) && x == too_few(pos)
                            ||| items.len() == n && item_read::<'b, C, T>(input, q, left, e2) && x == too_many(pos)
                        };
                        let k2 = i2.len() as int;
                        let q = stop(h, n2);
                        let left = after_len(len, k2);
                        lemma_reads_prefix::<'b, C, T>(input, h, len, i2, n2, v1, n1);
                        if k2 < n {
                            lemma_reads_at::<'b, C, T>(input, h, len, v1, n1, k2);
                            lemma_fails_not_read::<'b, C, T>(input, q, left, x, e2, v1[k2], n1[k2]);
                            lemma_end_excludes::<'b, C, T>(input, q, left, e2, x, e2);
                        } else {
                            assert(n1.take(k2) =~= n1);
                            lemma_end_excludes::<'b, C, T>(input, q, left, e1, x, e2);
                        }
                    },
                }
            },
            Err(x1) => {
                if let Err(x2) = r2 {
                    let (i1, n1) = choose|items: Seq<T>, ends: Seq<int>| #[trigger] reads_items::<'b, C, T>(input, h, len, items, ends) && {
                        let q = stop(h, ends);
                        let left = after_len(len, items.len() as int);
                        ||| items.len() < n && item_fails::<'b, C, T>(input, q, left, x1, e1)
                        ||| items.len() < n && items_end(input, q, left, e1) && x1 == too_few(pos)
                        ||| items.len() == n && item_read::<'b, C, T>(input, q, left, e1) && x1 == too_many(pos)
                    };
                    let (i2, n2) = choose|items: Seq<T>, ends: Seq<int>| #[trigger] reads_items::<'b, C, T>(input, h, len, items, ends) && {
                        let q = stop(h, ends);
                        let left = after_len(len, items.len() as int);
                        ||| items.len() < n && item_fails::<'b, C, T>(input, q, left, x2, e2)
                        ||| items.len() < n && items_end(input, q, left, e2) && x2 == too_few(pos)
                        ||| items.len() == n && item_read::<'b, C, T>(input, q, left, e2) && x2 == too_many(pos)
                    };
                    let k1 = i1.len() as int;
                    let k2 = i2.len() as int;
                    let q1 = stop(h, n1);
                    let q2 = stop(h, n2);
                    if k1 < k2 {
                        lemma_reads_prefix::<'b, C, T>(input, h, len, i1, n1, i2, n2);
                        lemma_reads_at::<'b, C, T>(input, h, len, i2, n2, k1);
                        lemma_fails_not_read::<'b, C, T>(input, q1, after_len(len, k1), x1, e1, i2[k1], n2[k1]);
                        lemma_end_excludes::<'b, C, T>(input, q1, after_len(len, k1), e1, x1, e1);
                    } else if k2 < k1 {
                        lemma_reads_prefix::<'b, C, T>(input, h, len, i2, n2, i1, n1);
                        lemma_reads_at::<'b, C, T>(input, h, len, i1, n1, k2);
                        lemma_fails_not_read::<'b, C, T>(input, q2, after_len(len, k2), x2, e2, i1[k2], n1[k2]);
                        lemma_end_excludes::<'b, C, T>(input, q2, after_len(len, k2), e2, x2, e2);
                    } else {
                        lemma_reads_prefix::<'b, C, T>(input, h, len, i1, n1, i2, n2);
                        assert(n2.take(k1) =~= n2);
                        let left = after_len(len, k1);
                        lemma_end_excludes::<'b, C, T>(input, q1, left, e1, x2, e2);
                        lemma_end_excludes::<'b, C, T>(input, q1, left, e2, x1, e1);
                        if k1 < n {
                            if item_fails::<'b, C, T>(input, q1, left, x1, e1) && item_fails::<'b, C, T>(input, q1, left, x2, e2) {
                                lemma_fails_unique::<'b, C, T>(input, q1, left, x1, e1, x2, e2);
                            }
                        } else {
                            lemma_item_read_unique::<'b, C, T>(input, q1, left, e1, e2);
                        }
                    }
                }
            },
        }
    }
}

/// Decoding an array of `N` items has one outcome where decoding an item does.
pub proof fn lemma_unique_array<'b, C, T: Decode<'b, C>, const N: usize>()
    requires
        decodes_uniquely::<'b, C, T>(),
    ensures
        decodes_uniquely::<'b, C, [T; N]>(),
{
    assert forall|input: Seq<u8>, pos: int, r1: Result<[T; N], ErrorView>, e1: int, r2: Result<[T; N], ErrorView>, e2: int|
        #[trigger] <[T; N] as Decode<'b, C>>::decodes(input, pos, r1, e1) && #[trigger] <[T; N] as Decode<'b, C>>::decodes(input, pos, r2, e2)
        implies r1 == r2 && e1 == e2 by {
        let s1: Result<Seq<T>, ErrorView> = match r1 { Ok(a) => Ok(a@), Err(x) => Err(x) };
        let s2: Result<Seq<T>, ErrorView> = match r2 { Ok(a) => Ok(a@), Err(x) => Err(x) };
        lemma_unique_exactly::<'b, C, T>(input, pos, N as int, s1, e1, s2, e2);
        if let (Ok(a), Ok(b)) = (r1, r2) {
            assert(a@ == b@);
            assert(forall|i: int| 0 <= i < N ==> a[i] == b[i]);
            vstd::array::axiom_array_ext_equal(a, b);
            assert(a =~= b);
        }
    }
}

/// Decoding a `Vec<T>` has one outcome where decoding a `T` does: the same
/// items, or the same error, ending at the same position. (Two vectors with
/// the same items are not known to Verus to be equal, so this is stated over
/// the items.)
pub proof fn lemma_unique_vec<'b, C, T: Decode<'b, C>>(input: Seq<u8>, pos: int, r1: Result<Vec<T>, ErrorView>, e1: int, r2: Result<Vec<T>, ErrorView>, e2: int)
    requires
        decodes_uniquely::<'b, C, T>(),
        <Vec<T> as Decode<'b, C>>::decodes(input, pos, r1, e1),
        <Vec<T> as Decode<'b, C>>::decodes(input, pos, r2, e2),
    ensures
        e1 == e2,
        r1 matches Ok(a) ==> r2 matches Ok(b) && a@ == b@,
        r1 matches Err(x) ==> r2 == Err::<Vec<T>, ErrorView>(x),
{
    let s1: Result<Seq<T>, ErrorView> = match r1 { Ok(a) => Ok(a@), Err(x) => Err(x) };
    let s2: Result<Seq<T>, ErrorView> = match r2 { Ok(a) => Ok(a@), Err(x) => Err(x) };
    lemma_unique_items::<'b, C, T>(input, pos, s1, e1, s2, e2);
}

/// Decoding a `String` or a `&str` has one outcome: the same text, or the
/// same error, ending at the same position. (Two strings with the same text
/// are not known to Verus to be equal, so this is stated over the text.)
pub proof fn lemma_unique_text<'b, C>(
    input: Seq<u8>,
    pos: int,
    r1: Result<String, ErrorView>,
    e1: int,
    r2: Result<String, ErrorView>,
    e2: int,
    t1: Result<&'b str, ErrorView>,
    f1: int,
)
    requires
        <String as Decode<'b, C>>::decodes(input, pos, r1, e1),
        <String as Decode<'b, C>>::decodes(input, pos, r2, e2),
        <&'b str as Decode<'b, C>>::decodes(input, pos, t1, f1),
    ensures
        e1 == e2 && e1 == f1,
        r1 matches Ok(a) ==> r2 matches Ok(b) && a@ == b@,
        r1 matches Err(x) ==> r2 == Err::<String, ErrorView>(x),
        r1 matches Ok(a) ==> t1 matches Ok(t) && t@ == a@,
        r1 matches Err(x) ==> t1 == Err::<&'b str, ErrorView>(x),
{
    if let (Ok(a), Ok(b)) = (r1, r2) {
        vstd::utf8::encode_utf8_decode_utf8(a@);
        vstd::utf8::encode_utf8_decode_utf8(b@);
    }
    if let (Ok(a), Ok(t)) = (r1, t1) {
        vstd::utf8::encode_utf8_decode_utf8(a@);
        vstd::utf8::encode_utf8_decode_utf8(t@);
    }
}

} // verus!
