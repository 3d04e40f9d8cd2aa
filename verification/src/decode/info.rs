//! What the initial bytes of a data item say of its size.
use vstd::prelude::*;
use crate::data::Type;
use crate::decode::decoder::{Decoder, result_view};
use crate::decode::error::{Error, ErrorKind, ErrorView, end_of_input};
use crate::decode::reads::{argument, arg_size};

verus! {

/// What follows the head of a data item.
#[derive(Clone, Copy, Debug, PartialEq, Eq, Structural)]
pub enum Size {
    /// Nothing: the head is the whole item, or a single item follows it
    /// (the value of a tag).
    Head,
    /// A string of this many bytes.
    Bytes(u64),
    /// This many items (of an array) or entries (of a map).
    Items(u64),
    /// Items of a string, array or map of indefinite length, up to a break.
    Indef,
}

/// The error of an initial byte whose additional information is not valid.
pub open spec fn invalid_info(b: u8) -> ErrorView {
    (ErrorKind::TypeMismatch(Type::Unknown(b)), None, "invalid additional information"@)
}

/// Whether the initial byte `b` may stand for an item of indefinite length, or a break.
pub open spec fn indef_allowed(b: u8) -> bool {
    b == 0x5f || b == 0x7f || b == 0x9f || b == 0xbf || b == 0xff
}

/// The length of the head whose initial byte is `b`: the initial byte and
/// the bytes of the argument its additional information announces, or the
/// initial byte alone where it stands for indefinite length or a break.
pub open spec fn head_size(b: u8) -> Result<usize, ErrorView> {
    let info = b % 32;
    if info <= 0x1b {
        Ok((1 + arg_size(info)) as usize)
    } else if info == 0x1f && indef_allowed(b) {
        Ok(1)
    } else {
        Err(invalid_info(b))
    }
}

/// Whether a data item of major type `major` is its head alone (numbers,
/// simple values and floats) or its head and one item (a tag).
pub open spec fn head_only(major: u8) -> bool {
    major == 0 || major == 1 || major == 6 || major == 7
}

/// What follows the head at the start of `s`: for strings, arrays and maps
/// the argument of the head, read as the model reads it, counts the bytes
/// or the items, unless the length is indefinite.
pub open spec fn tail_size(s: Seq<u8>) -> Result<Size, ErrorView> {
    if s.len() == 0 {
        Err(end_of_input())
    } else {
        let b = s[0];
        let major = b / 32;
        let info = b % 32;
        if head_only(major) {
            match head_size(b) {
                Err(x) => Err(x),
                Ok(_) => Ok(Size::Head),
            }
        } else if info == 0x1f {
            Ok(Size::Indef)
        } else if info <= 0x1b {
            match argument(s, 1, info).0 {
                Err(x) => Err(x),
                Ok(n) => if major <= 3 { Ok(Size::Bytes(n)) } else { Ok(Size::Items(n)) },
            }
        } else {
            Err(invalid_info(b))
        }
    }
}

impl Size {
    /// The length of the head whose initial byte is `b`.
    pub fn head(b: u8) -> (r: Result<usize, Error>)
        ensures
            result_view(r) == head_size(b),
    {
        let info = b % 32;
        if info <= 0x17 {
            Ok(1)
        } else if info == 0x18 {
            Ok(2)
        } else if info == 0x19 {
            Ok(3)
        } else if info == 0x1a {
            Ok(5)
        } else if info == 0x1b {
            Ok(9)
        } else if info == 0x1f && (b == 0x5f || b == 0x7f || b == 0x9f || b == 0xbf || b == 0xff) {
            Ok(1)
        } else {
            Err(Error::type_mismatch(Type::Unknown(b)).with_message("invalid additional information"))
        }
    }

    /// What follows the head at the start of `b`.
    pub fn tail(b: &[u8]) -> (r: Result<Size, Error>)
        ensures
            result_view(r) == tail_size(b@),
    {
        if b.len() == 0 {
            return Err(Error::end_of_input());
        }
        let c = b[0];
        let major = c / 32;
        let info = c % 32;
        if major == 0 || major == 1 || major == 6 || major == 7 {
            match Size::head(c) {
                Err(e) => Err(e),
                Ok(_) => Ok(Size::Head),
            }
        } else if info == 0x1f {
            Ok(Size::Indef)
        } else if info > 0x1b {
            Err(Error::type_mismatch(Type::Unknown(c)).with_message("invalid additional information"))
        } else {
            let mut d = Decoder::new(b);
            d.set_position(1);
            match d.argument(info) {
                Err(e) => Err(e),
                Ok(n) => if major <= 3 {
                    Ok(Size::Bytes(n))
                } else {
                    Ok(Size::Items(n))
                },
            }
        }
    }
}

} // verus!
