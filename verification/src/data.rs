//! CBOR data types and tags.
use vstd::prelude::*;
use vstd::std_specs::convert::FromSpecImpl;
use vstd::std_specs::convert::TryFromSpecImpl;
use crate::text::{hex, decimal, digits, signed_decimal, new_string, push_char, push_str, push_hex, push_decimal};

verus! {

/// The type of a CBOR data item, as the decoder sees it from its initial byte.
#[derive(Clone, Copy, Debug, PartialEq, Eq, Hash, Structural)]
pub enum Type {
    Bool,
    Null,
    Undefined,
    U8,
    U16,
    U32,
    U64,
    I8,
    I16,
    I32,
    I64,
    Int,
    F16,
    F32,
    F64,
    Simple,
    Bytes,
    BytesIndef,
    String,
    StringIndef,
    Array,
    ArrayIndef,
    Mapping,
    MapIndef,
    Tag,
    Break,
    Unknown(u8),
}

/// The name under which a type is shown.
pub open spec fn type_label(t: Type) -> Seq<char> {
    match t {
        Type::Bool => "bool"@,
        Type::Null => "null"@,
        Type::Undefined => "undefined"@,
        Type::U8 => "u8"@,
        Type::U16 => "u16"@,
        Type::U32 => "u32"@,
        Type::U64 => "u64"@,
        Type::I8 => "i8"@,
        Type::I16 => "i16"@,
        Type::I32 => "i32"@,
        Type::I64 => "i64"@,
        Type::Int => "int"@,
        Type::F16 => "f16"@,
        Type::F32 => "f32"@,
        Type::F64 => "f64"@,
        Type::Simple => "simple"@,
        Type::Bytes => "bytes"@,
        Type::BytesIndef => "indefinite bytes"@,
        Type::String => "string"@,
        Type::StringIndef => "indefinite string"@,
        Type::Array => "array"@,
        Type::ArrayIndef => "indefinite array"@,
        Type::Mapping => "map"@,
        Type::MapIndef => "indefinite map"@,
        Type::Tag => "tag"@,
        Type::Break => "break"@,
        Type::Unknown(n) => hex(n as nat),
    }
}

impl Type {
    /// Appends the name of this type to `s`.
    pub fn push_name(&self, s: &mut String)
        ensures
            final(s)@ == old(s)@ + type_label(*self),
    {
        match self {
            Type::Bool => push_str(s, "bool"),
            Type::Null => push_str(s, "null"),
            Type::Undefined => push_str(s, "undefined"),
            Type::U8 => push_str(s, "u8"),
            Type::U16 => push_str(s, "u16"),
            Type::U32 => push_str(s, "u32"),
            Type::U64 => push_str(s, "u64"),
            Type::I8 => push_str(s, "i8"),
            Type::I16 => push_str(s, "i16"),
            Type::I32 => push_str(s, "i32"),
            Type::I64 => push_str(s, "i64"),
            Type::Int => push_str(s, "int"),
            Type::F16 => push_str(s, "f16"),
            Type::F32 => push_str(s, "f32"),
            Type::F64 => push_str(s, "f64"),
            Type::Simple => push_str(s, "simple"),
            Type::Bytes => push_str(s, "bytes"),
            Type::BytesIndef => push_str(s, "indefinite bytes"),
            Type::String => push_str(s, "string"),
            Type::StringIndef => push_str(s, "indefinite string"),
            Type::Array => push_str(s, "array"),
            Type::ArrayIndef => push_str(s, "indefinite array"),
            Type::Mapping => push_str(s, "map"),
            Type::MapIndef => push_str(s, "indefinite map"),
            Type::Tag => push_str(s, "tag"),
            Type::Break => push_str(s, "break"),
            Type::Unknown(n) => push_hex(s, *n as u64),
        }
    }

    /// The name of this type, as text.
    pub fn to_string(&self) -> (s: String)
        ensures
            s@ == type_label(*self),
    {
        let mut s = new_string();
        self.push_name(&mut s);
        s
    }
}

/// A CBOR tag.
#[derive(Clone, Copy, Debug, PartialEq, Eq, PartialOrd, Ord, Hash, Structural)]
pub struct Tag(u64);

impl Tag {
    /// The number of this tag.
    pub closed spec fn num(self) -> u64 {
        self.0
    }

    /// The tag with the given number.
    pub closed spec fn new_spec(n: u64) -> Tag {
        Tag(n)
    }

    /// A tag with the given number.
    pub fn new(n: u64) -> (t: Tag)
        ensures
            t.num() == n,
            t == Tag::new_spec(n),
    {
        Tag(n)
    }

    /// A tag is the tag with its number.
    pub proof fn lemma_new_num(t: Tag)
        ensures
            t == Tag::new_spec(t.num()),
    {
    }

    /// Two tags with the same number are the same tag.
    pub proof fn lemma_num_injective(a: Tag, b: Tag)
        requires
            a.num() == b.num(),
        ensures
            a == b,
    {
    }

    /// The number of this tag.
    pub fn as_u64(&self) -> (n: u64)
        ensures
            n == self.num(),
    {
        self.0
    }

    /// The number of this tag, in decimal.
    pub fn to_string(&self) -> (s: String)
        ensures
            s@ == decimal(self.num() as nat),
    {
        let mut s = new_string();
        push_decimal(&mut s, self.0);
        s
    }
}

impl From<u64> for Tag {
    fn from(n: u64) -> (t: Tag)
        ensures
            t.num() == n,
    {
        Tag(n)
    }
}

impl FromSpecImpl<u64> for Tag {
    open spec fn obeys_from_spec() -> bool {
        true
    }

    closed spec fn from_spec(n: u64) -> Tag {
        Tag(n)
    }
}

impl From<Tag> for u64 {
    fn from(t: Tag) -> (n: u64)
        ensures
            n == t.num(),
    {
        t.0
    }
}

impl FromSpecImpl<Tag> for u64 {
    open spec fn obeys_from_spec() -> bool {
        true
    }

    closed spec fn from_spec(t: Tag) -> u64 {
        t.0
    }
}

impl<'a> From<&'a Tag> for u64 {
    fn from(t: &'a Tag) -> (n: u64)
        ensures
            n == t.num(),
    {
        t.0
    }
}

impl<'a> FromSpecImpl<&'a Tag> for u64 {
    open spec fn obeys_from_spec() -> bool {
        true
    }

    closed spec fn from_spec(t: &'a Tag) -> u64 {
        t.0
    }
}

} // verus!

verus! {

/// An integer in the range CBOR can represent: from `-2^64` to `2^64 - 1`.
///
/// It is held as in its encoding: a sign and an unsigned argument `n`,
/// where a negative integer stands for `-1 - n`.
#[derive(Clone, Copy, Debug, PartialEq, Eq, Hash, Structural)]
pub struct Int {
    neg: bool,
    val: u64,
}

/// The largest integer CBOR can represent, `2^64 - 1`.
pub fn max_int() -> (i: Int)
    ensures
        i.value() == 0xffff_ffff_ffff_ffff,
        !i.is_neg(),
{
    Int { neg: false, val: 0xffff_ffff_ffff_ffff }
}

/// The smallest integer CBOR can represent, `-2^64`.
pub fn min_int() -> (i: Int)
    ensures
        i.value() == -0x1_0000_0000_0000_0000,
        i.is_neg(),
{
    Int { neg: true, val: 0xffff_ffff_ffff_ffff }
}

impl Int {
    /// Whether this integer is negative.
    pub closed spec fn is_neg(self) -> bool {
        self.neg
    }

    /// The argument with which this integer is encoded.
    pub closed spec fn arg(self) -> u64 {
        self.val
    }

    /// Two integers with the same sign and argument are the same.
    pub proof fn lemma_parts_injective(a: Int, b: Int)
        requires
            a.is_neg() == b.is_neg(),
            a.arg() == b.arg(),
        ensures
            a == b,
    {
    }

    /// The mathematical value of this integer.
    pub open spec fn value(self) -> int {
        if self.is_neg() {
            -1 - self.arg()
        } else {
            self.arg() as int
        }
    }

    /// The integer whose encoding has the given sign and argument.
    pub fn from_parts(neg: bool, val: u64) -> (i: Int)
        ensures
            i.is_neg() == neg,
            i.arg() == val,
    {
        Int { neg, val }
    }

    /// Whether this integer is negative.
    pub fn is_negative(&self) -> (b: bool)
        ensures
            b == self.is_neg(),
    {
        self.neg
    }

    /// The argument with which this integer is encoded.
    pub fn argument(&self) -> (n: u64)
        ensures
            n == self.arg(),
    {
        self.val
    }

    /// The value of this integer, in decimal.
    pub fn to_string(&self) -> (s: String)
        ensures
            s@ == signed_decimal(self.value()),
    {
        let mut s = new_string();
        if self.neg {
            push_char(&mut s, '-');
            if self.val == 0xffff_ffff_ffff_ffff {
                push_str(&mut s, "18446744073709551616");
                proof {
                    reveal_strlit("18446744073709551616");
                    reveal_with_fuel(digits, 21);
                    assert(decimal(18446744073709551616) =~= "18446744073709551616"@);
                }
            } else {
                push_decimal(&mut s, self.val + 1);
            }
        } else {
            push_decimal(&mut s, self.val);
        }
        s
    }
}

/// The error of a conversion of an [`Int`] into a narrower integer type.
#[derive(Clone, Copy, Debug, PartialEq, Eq)]
pub struct TryFromIntError {
    target: &'static str,
}

impl TryFromIntError {
    /// The name of the type the conversion was into.
    pub closed spec fn target(self) -> Seq<char> {
        self.target@
    }

    /// What went wrong, as text.
    pub fn to_string(&self) -> (s: String)
        ensures
            s@ == "integer out of range for "@ + self.target(),
    {
        let mut s = new_string();
        push_str(&mut s, "integer out of range for ");
        push_str(&mut s, self.target);
        s
    }
}

} // verus!

verus! {

impl From<u8> for Int {
    fn from(x: u8) -> (i: Int)
        ensures
            i.value() == x as int,
    {
        Int { neg: false, val: x as u64 }
    }
}

impl FromSpecImpl<u8> for Int {
    open spec fn obeys_from_spec() -> bool {
        true
    }

    closed spec fn from_spec(x: u8) -> Int {
        Int { neg: false, val: x as u64 }
    }
}

impl From<u16> for Int {
    fn from(x: u16) -> (i: Int)
        ensures
            i.value() == x as int,
    {
        Int { neg: false, val: x as u64 }
    }
}

impl FromSpecImpl<u16> for Int {
    open spec fn obeys_from_spec() -> bool {
        true
    }

    closed spec fn from_spec(x: u16) -> Int {
        Int { neg: false, val: x as u64 }
    }
}

impl From<u32> for Int {
    fn from(x: u32) -> (i: Int)
        ensures
            i.value() == x as int,
    {
        Int { neg: false, val: x as u64 }
    }
}

impl FromSpecImpl<u32> for Int {
    open spec fn obeys_from_spec() -> bool {
        true
    }

    closed spec fn from_spec(x: u32) -> Int {
        Int { neg: false, val: x as u64 }
    }
}

impl From<u64> for Int {
    fn from(x: u64) -> (i: Int)
        ensures
            i.value() == x as int,
    {
        Int { neg: false, val: x as u64 }
    }
}

impl FromSpecImpl<u64> for Int {
    open spec fn obeys_from_spec() -> bool {
        true
    }

    closed spec fn from_spec(x: u64) -> Int {
        Int { neg: false, val: x as u64 }
    }
}

impl From<usize> for Int {
    fn from(x: usize) -> (i: Int)
        ensures
            i.value() == x as int,
    {
        Int { neg: false, val: x as u64 }
    }
}

impl FromSpecImpl<usize> for Int {
    open spec fn obeys_from_spec() -> bool {
        true
    }

    closed spec fn from_spec(x: usize) -> Int {
        Int { neg: false, val: x as u64 }
    }
}

impl From<i8> for Int {
    fn from(x: i8) -> (i: Int)
        ensures
            i.value() == x as int,
    {
        if x >= 0 {
            Int { neg: false, val: x as u64 }
        } else {
            Int { neg: true, val: (-1 - x) as u64 }
        }
    }
}

impl FromSpecImpl<i8> for Int {
    open spec fn obeys_from_spec() -> bool {
        true
    }

    closed spec fn from_spec(x: i8) -> Int {
        if x >= 0 {
            Int { neg: false, val: x as u64 }
        } else {
            Int { neg: true, val: (-1 - x) as u64 }
        }
    }
}

impl From<i16> for Int {
    fn from(x: i16) -> (i: Int)
        ensures
            i.value() == x as int,
    {
        if x >= 0 {
            Int { neg: false, val: x as u64 }
        } else {
            Int { neg: true, val: (-1 - x) as u64 }
        }
    }
}

impl FromSpecImpl<i16> for Int {
    open spec fn obeys_from_spec() -> bool {
        true
    }

    closed spec fn from_spec(x: i16) -> Int {
        if x >= 0 {
            Int { neg: false, val: x as u64 }
        } else {
            Int { neg: true, val: (-1 - x) as u64 }
        }
    }
}

impl From<i32> for Int {
    fn from(x: i32) -> (i: Int)
        ensures
            i.value() == x as int,
    {
        if x >= 0 {
            Int { neg: false, val: x as u64 }
        } else {
            Int { neg: true, val: (-1 - x) as u64 }
        }
    }
}

impl FromSpecImpl<i32> for Int {
    open spec fn obeys_from_spec() -> bool {
        true
    }

    closed spec fn from_spec(x: i32) -> Int {
        if x >= 0 {
            Int { neg: false, val: x as u64 }
        } else {
            Int { neg: true, val: (-1 - x) as u64 }
        }
    }
}

impl From<i64> for Int {
    fn from(x: i64) -> (i: Int)
        ensures
            i.value() == x as int,
    {
        if x >= 0 {
            Int { neg: false, val: x as u64 }
        } else {
            Int { neg: true, val: (-1 - x) as u64 }
        }
    }
}

impl FromSpecImpl<i64> for Int {
    open spec fn obeys_from_spec() -> bool {
        true
    }

    closed spec fn from_spec(x: i64) -> Int {
        if x >= 0 {
            Int { neg: false, val: x as u64 }
        } else {
            Int { neg: true, val: (-1 - x) as u64 }
        }
    }
}

impl From<isize> for Int {
    fn from(x: isize) -> (i: Int)
        ensures
            i.value() == x as int,
    {
        if x >= 0 {
            Int { neg: false, val: x as u64 }
        } else {
            Int { neg: true, val: (-1 - x) as u64 }
        }
    }
}

impl FromSpecImpl<isize> for Int {
    open spec fn obeys_from_spec() -> bool {
        true
    }

    closed spec fn from_spec(x: isize) -> Int {
        if x >= 0 {
            Int { neg: false, val: x as u64 }
        } else {
            Int { neg: true, val: (-1 - x) as u64 }
        }
    }
}

impl TryFrom<Int> for u8 {
    type Error = TryFromIntError;

    fn try_from(i: Int) -> (r: Result<u8, TryFromIntError>)
        ensures
            r is Ok <==> 0 <= i.value() <= 0xff,
            r matches Ok(v) ==> v as int == i.value(),
            r matches Err(e) ==> e.target() == "u8"@,
    {
        if !i.neg && i.val <= 0xff {
            Ok(i.val as u8)
        } else {
            Err(TryFromIntError { target: "u8" })
        }
    }
}

impl TryFromSpecImpl<Int> for u8 {
    open spec fn obeys_try_from_spec() -> bool {
        true
    }

    closed spec fn try_from_spec(i: Int) -> Result<u8, TryFromIntError> {
        if !i.neg && i.val <= 0xff {
            Ok(i.val as u8)
        } else {
            Err(TryFromIntError { target: "u8" })
        }
    }
}

impl TryFrom<Int> for u16 {
    type Error = TryFromIntError;

    fn try_from(i: Int) -> (r: Result<u16, TryFromIntError>)
        ensures
            r is Ok <==> 0 <= i.value() <= 0xffff,
            r matches Ok(v) ==> v as int == i.value(),
            r matches Err(e) ==> e.target() == "u16"@,
    {
        if !i.neg && i.val <= 0xffff {
            Ok(i.val as u16)
        } else {
            Err(TryFromIntError { target: "u16" })
        }
    }
}

impl TryFromSpecImpl<Int> for u16 {
    open spec fn obeys_try_from_spec() -> bool {
        true
    }

    closed spec fn try_from_spec(i: Int) -> Result<u16, TryFromIntError> {
        if !i.neg && i.val <= 0xffff {
            Ok(i.val as u16)
        } else {
            Err(TryFromIntError { target: "u16" })
        }
    }
}

impl TryFrom<Int> for u32 {
    type Error = TryFromIntError;

    fn try_from(i: Int) -> (r: Result<u32, TryFromIntError>)
        ensures
            r is Ok <==> 0 <= i.value() <= 0xffff_ffff,
            r matches Ok(v) ==> v as int == i.value(),
            r matches Err(e) ==> e.target() == "u32"@,
    {
        if !i.neg && i.val <= 0xffff_ffff {
            Ok(i.val as u32)
        } else {
            Err(TryFromIntError { target: "u32" })
        }
    }
}

impl TryFromSpecImpl<Int> for u32 {
    open spec fn obeys_try_from_spec() -> bool {
        true
    }

    closed spec fn try_from_spec(i: Int) -> Result<u32, TryFromIntError> {
        if !i.neg && i.val <= 0xffff_ffff {
            Ok(i.val as u32)
        } else {
            Err(TryFromIntError { target: "u32" })
        }
    }
}

impl TryFrom<Int> for u64 {
    type Error = TryFromIntError;

    fn try_from(i: Int) -> (r: Result<u64, TryFromIntError>)
        ensures
            r is Ok <==> 0 <= i.value() <= 0xffff_ffff_ffff_ffff,
            r matches Ok(v) ==> v as int == i.value(),
            r matches Err(e) ==> e.target() == "u64"@,
    {
        if !i.neg && i.val <= 0xffff_ffff_ffff_ffff {
            Ok(i.val as u64)
        } else {
            Err(TryFromIntError { target: "u64" })
        }
    }
}

impl TryFromSpecImpl<Int> for u64 {
    open spec fn obeys_try_from_spec() -> bool {
        true
    }

    closed spec fn try_from_spec(i: Int) -> Result<u64, TryFromIntError> {
        if !i.neg && i.val <= 0xffff_ffff_ffff_ffff {
            Ok(i.val as u64)
        } else {
            Err(TryFromIntError { target: "u64" })
        }
    }
}

impl TryFrom<Int> for u128 {
    type Error = TryFromIntError;

    fn try_from(i: Int) -> (r: Result<u128, TryFromIntError>)
        ensures
            r is Ok <==> 0 <= i.value(),
            r matches Ok(v) ==> v as int == i.value(),
            r matches Err(e) ==> e.target() == "u128"@,
    {
        if !i.neg {
            Ok(i.val as u128)
        } else {
            Err(TryFromIntError { target: "u128" })
        }
    }
}

impl TryFromSpecImpl<Int> for u128 {
    open spec fn obeys_try_from_spec() -> bool {
        true
    }

    closed spec fn try_from_spec(i: Int) -> Result<u128, TryFromIntError> {
        if !i.neg {
            Ok(i.val as u128)
        } else {
            Err(TryFromIntError { target: "u128" })
        }
    }
}

impl TryFrom<Int> for i128 {
    type Error = TryFromIntError;

    fn try_from(i: Int) -> (r: Result<i128, TryFromIntError>)
        ensures
            r matches Ok(v) && v as int == i.value(),
    {
        if i.neg {
            Ok(-1 - i.val as i128)
        } else {
            Ok(i.val as i128)
        }
    }
}

impl TryFromSpecImpl<Int> for i128 {
    open spec fn obeys_try_from_spec() -> bool {
        true
    }

    closed spec fn try_from_spec(i: Int) -> Result<i128, TryFromIntError> {
        if i.neg {
            Ok((-1 - i.val) as i128)
        } else {
            Ok(i.val as i128)
        }
    }
}

impl TryFrom<Int> for i8 {
    type Error = TryFromIntError;

    fn try_from(i: Int) -> (r: Result<i8, TryFromIntError>)
        ensures
            r is Ok <==> -0x7f - 1 <= i.value() <= 0x7f,
            r matches Ok(v) ==> v as int == i.value(),
            r matches Err(e) ==> e.target() == "i8"@,
    {
        if i.val <= 0x7f {
            if i.neg {
                Ok(-1 - i.val as i8)
            } else {
                Ok(i.val as i8)
            }
        } else {
            Err(TryFromIntError { target: "i8" })
        }
    }
}

impl TryFromSpecImpl<Int> for i8 {
    open spec fn obeys_try_from_spec() -> bool {
        true
    }

    closed spec fn try_from_spec(i: Int) -> Result<i8, TryFromIntError> {
        if i.val <= 0x7f {
            if i.neg {
                Ok((-1 - i.val) as i8)
            } else {
                Ok(i.val as i8)
            }
        } else {
            Err(TryFromIntError { target: "i8" })
        }
    }
}

impl TryFrom<Int> for i16 {
    type Error = TryFromIntError;

    fn try_from(i: Int) -> (r: Result<i16, TryFromIntError>)
        ensures
            r is Ok <==> -0x7fff - 1 <= i.value() <= 0x7fff,
            r matches Ok(v) ==> v as int == i.value(),
            r matches Err(e) ==> e.target() == "i16"@,
    {
        if i.val <= 0x7fff {
            if i.neg {
                Ok(-1 - i.val as i16)
            } else {
                Ok(i.val as i16)
            }
        } else {
            Err(TryFromIntError { target: "i16" })
        }
    }
}

impl TryFromSpecImpl<Int> for i16 {
    open spec fn obeys_try_from_spec() -> bool {
        true
    }

    closed spec fn try_from_spec(i: Int) -> Result<i16, TryFromIntError> {
        if i.val <= 0x7fff {
            if i.neg {
                Ok((-1 - i.val) as i16)
            } else {
                Ok(i.val as i16)
            }
        } else {
            Err(TryFromIntError { target: "i16" })
        }
    }
}

impl TryFrom<Int> for i32 {
    type Error = TryFromIntError;

    fn try_from(i: Int) -> (r: Result<i32, TryFromIntError>)
        ensures
            r is Ok <==> -0x7fff_ffff - 1 <= i.value() <= 0x7fff_ffff,
            r matches Ok(v) ==> v as int == i.value(),
            r matches Err(e) ==> e.target() == "i32"@,
    {
        if i.val <= 0x7fff_ffff {
            if i.neg {
                Ok(-1 - i.val as i32)
            } else {
                Ok(i.val as i32)
            }
        } else {
            Err(TryFromIntError { target: "i32" })
        }
    }
}

impl TryFromSpecImpl<Int> for i32 {
    open spec fn obeys_try_from_spec() -> bool {
        true
    }

    closed spec fn try_from_spec(i: Int) -> Result<i32, TryFromIntError> {
        if i.val <= 0x7fff_ffff {
            if i.neg {
                Ok((-1 - i.val) as i32)
            } else {
                Ok(i.val as i32)
            }
        } else {
            Err(TryFromIntError { target: "i32" })
        }
    }
}

impl TryFrom<Int> for i64 {
    type Error = TryFromIntError;

    fn try_from(i: Int) -> (r: Result<i64, TryFromIntError>)
        ensures
            r is Ok <==> -0x7fff_ffff_ffff_ffff - 1 <= i.value() <= 0x7fff_ffff_ffff_ffff,
            r matches Ok(v) ==> v as int == i.value(),
            r matches Err(e) ==> e.target() == "i64"@,
    {
        if i.val <= 0x7fff_ffff_ffff_ffff {
            if i.neg {
                Ok(-1 - i.val as i64)
            } else {
                Ok(i.val as i64)
            }
        } else {
            Err(TryFromIntError { target: "i64" })
        }
    }
}

impl TryFromSpecImpl<Int> for i64 {
    open spec fn obeys_try_from_spec() -> bool {
        true
    }

    closed spec fn try_from_spec(i: Int) -> Result<i64, TryFromIntError> {
        if i.val <= 0x7fff_ffff_ffff_ffff {
            if i.neg {
                Ok((-1 - i.val) as i64)
            } else {
                Ok(i.val as i64)
            }
        } else {
            Err(TryFromIntError { target: "i64" })
        }
    }
}

/// A `u64` or an `i64` made into an [`Int`] and converted back is the same
/// number.
pub proof fn law_int_conversion_roundtrip(x: u64, y: i64)
    ensures
        <u64 as vstd::std_specs::convert::TryFromSpec<Int>>::try_from_spec(
            <Int as vstd::std_specs::convert::FromSpec<u64>>::from_spec(x),
        ) == Ok::<u64, TryFromIntError>(x),
        <i64 as vstd::std_specs::convert::TryFromSpec<Int>>::try_from_spec(
            <Int as vstd::std_specs::convert::FromSpec<i64>>::from_spec(y),
        ) == Ok::<i64, TryFromIntError>(y),
{
    if y < 0 {
        assert((-1 - ((-1 - y) as u64)) as i64 == y);
    }
}

} // verus!

verus! {

/// Tags registered with IANA that this library knows by name.
#[derive(Clone, Copy, Debug, PartialEq, Eq, Hash, Structural)]
pub enum IanaTag {
    DateTime,
    Timestamp,
    PosBignum,
    NegBignum,
    Decimal,
    Bigfloat,
    ToBase64Url,
    ToBase64,
    ToBase16,
    Cbor,
    Uri,
    Base64Url,
    Base64,
    Regex,
    Mime,
    MultiDimArrayR,
    HomogenousArray,
    TypedArrayU8,
    TypedArrayU16B,
    TypedArrayU32B,
    TypedArrayU64B,
    TypedArrayU8Clamped,
    TypedArrayU16L,
    TypedArrayU32L,
    TypedArrayU64L,
    TypedArrayI8,
    TypedArrayI16B,
    TypedArrayI32B,
    TypedArrayI64B,
    TypedArrayI16L,
    TypedArrayI32L,
    TypedArrayI64L,
    TypedArrayF16B,
    TypedArrayF32B,
    TypedArrayF64B,
    TypedArrayF128B,
    TypedArrayF16L,
    TypedArrayF32L,
    TypedArrayF64L,
    TypedArrayF128L,
    MultiDimArrayC,
}

/// The number of a registered tag.
pub open spec fn iana_number(t: IanaTag) -> u64 {
    match t {
        IanaTag::DateTime => 0,
        IanaTag::Timestamp => 1,
        IanaTag::PosBignum => 2,
        IanaTag::NegBignum => 3,
        IanaTag::Decimal => 4,
        IanaTag::Bigfloat => 5,
        IanaTag::ToBase64Url => 21,
        IanaTag::ToBase64 => 22,
        IanaTag::ToBase16 => 23,
        IanaTag::Cbor => 24,
        IanaTag::Uri => 32,
        IanaTag::Base64Url => 33,
        IanaTag::Base64 => 34,
        IanaTag::Regex => 35,
        IanaTag::Mime => 36,
        IanaTag::MultiDimArrayR => 40,
        IanaTag::HomogenousArray => 41,
        IanaTag::TypedArrayU8 => 64,
        IanaTag::TypedArrayU16B => 65,
        IanaTag::TypedArrayU32B => 66,
        IanaTag::TypedArrayU64B => 67,
        IanaTag::TypedArrayU8Clamped => 68,
        IanaTag::TypedArrayU16L => 69,
        IanaTag::TypedArrayU32L => 70,
        IanaTag::TypedArrayU64L => 71,
        IanaTag::TypedArrayI8 => 72,
        IanaTag::TypedArrayI16B => 73,
        IanaTag::TypedArrayI32B => 74,
        IanaTag::TypedArrayI64B => 75,
        IanaTag::TypedArrayI16L => 77,
        IanaTag::TypedArrayI32L => 78,
        IanaTag::TypedArrayI64L => 79,
        IanaTag::TypedArrayF16B => 80,
        IanaTag::TypedArrayF32B => 81,
        IanaTag::TypedArrayF64B => 82,
        IanaTag::TypedArrayF128B => 83,
        IanaTag::TypedArrayF16L => 84,
        IanaTag::TypedArrayF32L => 85,
        IanaTag::TypedArrayF64L => 86,
        IanaTag::TypedArrayF128L => 87,
        IanaTag::MultiDimArrayC => 1040,
    }
}

/// The registered tag with the given number, if there is one.
pub open spec fn iana_of_number(n: u64) -> Option<IanaTag> {
    if n == 0 {
        Some(IanaTag::DateTime)
    } else if n == 1 {
        Some(IanaTag::Timestamp)
    } else if n == 2 {
        Some(IanaTag::PosBignum)
    } else if n == 3 {
        Some(IanaTag::NegBignum)
    } else if n == 4 {
        Some(IanaTag::Decimal)
    } else if n == 5 {
        Some(IanaTag::Bigfloat)
    } else if n == 21 {
        Some(IanaTag::ToBase64Url)
    } else if n == 22 {
        Some(IanaTag::ToBase64)
    } else if n == 23 {
        Some(IanaTag::ToBase16)
    } else if n == 24 {
        Some(IanaTag::Cbor)
    } else if n == 32 {
        Some(IanaTag::Uri)
    } else if n == 33 {
        Some(IanaTag::Base64Url)
    } else if n == 34 {
        Some(IanaTag::Base64)
    } else if n == 35 {
        Some(IanaTag::Regex)
    } else if n == 36 {
        Some(IanaTag::Mime)
    } else if n == 40 {
        Some(IanaTag::MultiDimArrayR)
    } else if n == 41 {
        Some(IanaTag::HomogenousArray)
    } else if n == 64 {
        Some(IanaTag::TypedArrayU8)
    } else if n == 65 {
        Some(IanaTag::TypedArrayU16B)
    } else if n == 66 {
        Some(IanaTag::TypedArrayU32B)
    } else if n == 67 {
        Some(IanaTag::TypedArrayU64B)
    } else if n == 68 {
        Some(IanaTag::TypedArrayU8Clamped)
    } else if n == 69 {
        Some(IanaTag::TypedArrayU16L)
    } else if n == 70 {
        Some(IanaTag::TypedArrayU32L)
    } else if n == 71 {
        Some(IanaTag::TypedArrayU64L)
    } else if n == 72 {
        Some(IanaTag::TypedArrayI8)
    } else if n == 73 {
        Some(IanaTag::TypedArrayI16B)
    } else if n == 74 {
        Some(IanaTag::TypedArrayI32B)
    } else if n == 75 {
        Some(IanaTag::TypedArrayI64B)
    } else if n == 77 {
        Some(IanaTag::TypedArrayI16L)
    } else if n == 78 {
        Some(IanaTag::TypedArrayI32L)
    } else if n == 79 {
        Some(IanaTag::TypedArrayI64L)
    } else if n == 80 {
        Some(IanaTag::TypedArrayF16B)
    } else if n == 81 {
        Some(IanaTag::TypedArrayF32B)
    } else if n == 82 {
        Some(IanaTag::TypedArrayF64B)
    } else if n == 83 {
        Some(IanaTag::TypedArrayF128B)
    } else if n == 84 {
        Some(IanaTag::TypedArrayF16L)
    } else if n == 85 {
        Some(IanaTag::TypedArrayF32L)
    } else if n == 86 {
        Some(IanaTag::TypedArrayF64L)
    } else if n == 87 {
        Some(IanaTag::TypedArrayF128L)
    } else if n == 1040 {
        Some(IanaTag::MultiDimArrayC)
    } else {
        None
    }
}

impl IanaTag {
    /// The tag of this registered tag.
    pub fn tag(self) -> (t: Tag)
        ensures
            t.num() == iana_number(self),
    {
        let n: u64 = match self {
            IanaTag::DateTime => 0,
            IanaTag::Timestamp => 1,
            IanaTag::PosBignum => 2,
            IanaTag::NegBignum => 3,
            IanaTag::Decimal => 4,
            IanaTag::Bigfloat => 5,
            IanaTag::ToBase64Url => 21,
            IanaTag::ToBase64 => 22,
            IanaTag::ToBase16 => 23,
            IanaTag::Cbor => 24,
            IanaTag::Uri => 32,
            IanaTag::Base64Url => 33,
            IanaTag::Base64 => 34,
            IanaTag::Regex => 35,
            IanaTag::Mime => 36,
            IanaTag::MultiDimArrayR => 40,
            IanaTag::HomogenousArray => 41,
            IanaTag::TypedArrayU8 => 64,
            IanaTag::TypedArrayU16B => 65,
            IanaTag::TypedArrayU32B => 66,
            IanaTag::TypedArrayU64B => 67,
            IanaTag::TypedArrayU8Clamped => 68,
            IanaTag::TypedArrayU16L => 69,
            IanaTag::TypedArrayU32L => 70,
            IanaTag::TypedArrayU64L => 71,
            IanaTag::TypedArrayI8 => 72,
            IanaTag::TypedArrayI16B => 73,
            IanaTag::TypedArrayI32B => 74,
            IanaTag::TypedArrayI64B => 75,
            IanaTag::TypedArrayI16L => 77,
            IanaTag::TypedArrayI32L => 78,
            IanaTag::TypedArrayI64L => 79,
            IanaTag::TypedArrayF16B => 80,
            IanaTag::TypedArrayF32B => 81,
            IanaTag::TypedArrayF64B => 82,
            IanaTag::TypedArrayF128B => 83,
            IanaTag::TypedArrayF16L => 84,
            IanaTag::TypedArrayF32L => 85,
            IanaTag::TypedArrayF64L => 86,
            IanaTag::TypedArrayF128L => 87,
            IanaTag::MultiDimArrayC => 1040,
        };
        Tag::new(n)
    }

    /// The registered tag with the given number, if there is one.
    pub fn from_number(n: u64) -> (r: Option<IanaTag>)
        ensures
            r == iana_of_number(n),
    {
        if n == 0 {
            Some(IanaTag::DateTime)
        } else if n == 1 {
            Some(IanaTag::Timestamp)
        } else if n == 2 {
            Some(IanaTag::PosBignum)
        } else if n == 3 {
            Some(IanaTag::NegBignum)
        } else if n == 4 {
            Some(IanaTag::Decimal)
        } else if n == 5 {
            Some(IanaTag::Bigfloat)
        } else if n == 21 {
            Some(IanaTag::ToBase64Url)
        } else if n == 22 {
            Some(IanaTag::ToBase64)
        } else if n == 23 {
            Some(IanaTag::ToBase16)
        } else if n == 24 {
            Some(IanaTag::Cbor)
        } else if n == 32 {
            Some(IanaTag::Uri)
        } else if n == 33 {
            Some(IanaTag::Base64Url)
        } else if n == 34 {
            Some(IanaTag::Base64)
        } else if n == 35 {
            Some(IanaTag::Regex)
        } else if n == 36 {
            Some(IanaTag::Mime)
        } else if n == 40 {
            Some(IanaTag::MultiDimArrayR)
        } else if n == 41 {
            Some(IanaTag::HomogenousArray)
        } else if n == 64 {
            Some(IanaTag::TypedArrayU8)
        } else if n == 65 {
            Some(IanaTag::TypedArrayU16B)
        } else if n == 66 {
            Some(IanaTag::TypedArrayU32B)
        } else if n == 67 {
            Some(IanaTag::TypedArrayU64B)
        } else if n == 68 {
            Some(IanaTag::TypedArrayU8Clamped)
        } else if n == 69 {
            Some(IanaTag::TypedArrayU16L)
        } else if n == 70 {
            Some(IanaTag::TypedArrayU32L)
        } else if n == 71 {
            Some(IanaTag::TypedArrayU64L)
        } else if n == 72 {
            Some(IanaTag::TypedArrayI8)
        } else if n == 73 {
            Some(IanaTag::TypedArrayI16B)
        } else if n == 74 {
            Some(IanaTag::TypedArrayI32B)
        } else if n == 75 {
            Some(IanaTag::TypedArrayI64B)
        } else if n == 77 {
            Some(IanaTag::TypedArrayI16L)
        } else if n == 78 {
            Some(IanaTag::TypedArrayI32L)
        } else if n == 79 {
            Some(IanaTag::TypedArrayI64L)
        } else if n == 80 {
            Some(IanaTag::TypedArrayF16B)
        } else if n == 81 {
            Some(IanaTag::TypedArrayF32B)
        } else if n == 82 {
            Some(IanaTag::TypedArrayF64B)
        } else if n == 83 {
            Some(IanaTag::TypedArrayF128B)
        } else if n == 84 {
            Some(IanaTag::TypedArrayF16L)
        } else if n == 85 {
            Some(IanaTag::TypedArrayF32L)
        } else if n == 86 {
            Some(IanaTag::TypedArrayF64L)
        } else if n == 87 {
            Some(IanaTag::TypedArrayF128L)
        } else if n == 1040 {
            Some(IanaTag::MultiDimArrayC)
        } else {
            None
        }
    }
}

/// A tag number that [`IanaTag`] does not know.
#[derive(Clone, Copy, Debug, PartialEq, Eq, Structural)]
pub struct UnknownTag(pub u64);

impl UnknownTag {
    /// What went wrong, as text.
    pub fn to_string(&self) -> (s: String)
        ensures
            s@ == "unknown tag: "@ + decimal(self.0 as nat),
    {
        let mut s = new_string();
        push_str(&mut s, "unknown tag: ");
        push_decimal(&mut s, self.0);
        s
    }
}

impl TryFrom<Tag> for IanaTag {
    type Error = UnknownTag;

    fn try_from(t: Tag) -> (r: Result<IanaTag, UnknownTag>)
        ensures
            r matches Ok(i) ==> iana_of_number(t.num()) == Some(i),
            r matches Err(u) ==> iana_of_number(t.num()) is None && u.0 == t.num(),
    {
        match IanaTag::from_number(t.as_u64()) {
            Some(i) => Ok(i),
            None => Err(UnknownTag(t.as_u64())),
        }
    }
}

impl TryFromSpecImpl<Tag> for IanaTag {
    open spec fn obeys_try_from_spec() -> bool {
        true
    }

    open spec fn try_from_spec(t: Tag) -> Result<IanaTag, UnknownTag> {
        match iana_of_number(t.num()) {
            Some(i) => Ok(i),
            None => Err(UnknownTag(t.num())),
        }
    }
}

impl From<IanaTag> for Tag {
    fn from(i: IanaTag) -> (t: Tag)
        ensures
            t.num() == iana_number(i),
    {
        i.tag()
    }
}

impl FromSpecImpl<IanaTag> for Tag {
    open spec fn obeys_from_spec() -> bool {
        true
    }

    closed spec fn from_spec(i: IanaTag) -> Tag {
        Tag(iana_number(i))
    }
}

impl<'a> From<&'a IanaTag> for Tag {
    fn from(i: &'a IanaTag) -> (t: Tag)
        ensures
            t.num() == iana_number(*i),
    {
        i.tag()
    }
}

impl<'a> FromSpecImpl<&'a IanaTag> for Tag {
    open spec fn obeys_from_spec() -> bool {
        true
    }

    closed spec fn from_spec(i: &'a IanaTag) -> Tag {
        Tag(iana_number(*i))
    }
}

impl From<IanaTag> for u64 {
    fn from(i: IanaTag) -> (n: u64)
        ensures
            n == iana_number(i),
    {
        i.tag().as_u64()
    }
}

impl FromSpecImpl<IanaTag> for u64 {
    open spec fn obeys_from_spec() -> bool {
        true
    }

    open spec fn from_spec(i: IanaTag) -> u64 {
        iana_number(i)
    }
}

impl<'a> From<&'a IanaTag> for u64 {
    fn from(i: &'a IanaTag) -> (n: u64)
        ensures
            n == iana_number(*i),
    {
        i.tag().as_u64()
    }
}

impl<'a> FromSpecImpl<&'a IanaTag> for u64 {
    open spec fn obeys_from_spec() -> bool {
        true
    }

    open spec fn from_spec(i: &'a IanaTag) -> u64 {
        iana_number(*i)
    }
}

/// Every registered tag is found again by its number.
pub proof fn lemma_iana_roundtrip(i: IanaTag)
    ensures
        iana_of_number(iana_number(i)) == Some(i),
{
}

/// A number that names a registered tag is that tag's number.
pub proof fn lemma_iana_number_of(n: u64)
    ensures
        iana_of_number(n) matches Some(i) ==> iana_number(i) == n,
{
}

/// A value of type `T` under the tag with number `N`.
#[derive(Debug, PartialEq, Eq)]
pub struct Tagged<const N: u64, T> {
    value: T,
}

impl<const N: u64, T> Tagged<N, T> {
    /// The value under the tag.
    pub closed spec fn inner(self) -> T {
        self.value
    }

    /// Two tagged values with the same value under the tag are the same.
    pub proof fn lemma_inner_injective(a: Self, b: Self)
        requires
            a.inner() == b.inner(),
        ensures
            a == b,
    {
    }

    /// Puts `value` under the tag.
    pub fn new(value: T) -> (t: Self)
        ensures
            t.inner() == value,
    {
        Tagged { value }
    }

    /// The tag.
    pub fn tag(&self) -> (t: Tag)
        ensures
            t.num() == N,
    {
        Tag::new(N)
    }

    /// The value under the tag.
    pub fn value(&self) -> (v: &T)
        ensures
            *v == self.inner(),
    {
        &self.value
    }

    /// The value under the tag, to change.
    pub fn value_mut(&mut self) -> (v: &mut T)
        ensures
            *v == old(self).inner(),
            final(self).inner() == *final(v),
    {
        &mut self.value
    }

    /// Takes the value out from under the tag.
    pub fn into_value(self) -> (v: T)
        ensures
            v == self.inner(),
    {
        self.value
    }
}

impl<const N: u64, T> From<T> for Tagged<N, T> {
    fn from(value: T) -> (t: Self)
        ensures
            t.inner() == value,
    {
        Tagged { value }
    }
}

impl<const N: u64, T> FromSpecImpl<T> for Tagged<N, T> {
    open spec fn obeys_from_spec() -> bool {
        true
    }

    closed spec fn from_spec(value: T) -> Self {
        Tagged { value }
    }
}

impl<const N: u64, T> core::ops::Deref for Tagged<N, T> {
    type Target = T;

    fn deref(&self) -> (v: &T)
        ensures
            *v == self.inner(),
    {
        &self.value
    }
}

} // verus!
