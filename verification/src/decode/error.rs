//! The errors of decoding.
use vstd::prelude::*;
use crate::data::{Tag, Type, type_label};
use crate::text::{decimal, hex, new_string, push_str, push_decimal, push_hex};

verus! {

/// What a decoding error is about.
#[derive(Clone, Copy, Debug, PartialEq, Eq, Structural)]
pub enum ErrorKind {
    /// The input ended before the data item did.
    EndOfInput,
    /// An integer that is no character.
    InvalidChar(u32),
    /// A text string that is not UTF-8.
    Utf8,
    /// An integer too large for the type it was to be decoded as.
    Overflow(u64),
    /// A data item of another type than was asked for.
    TypeMismatch(Type),
    /// An enum variant that is not known.
    UnknownVariant(u32),
    /// A value that is missing, at the given index.
    MissingValue(u64),
    /// A message of its own.
    Message,
    /// Another tag than was asked for.
    TagMismatch(Tag),
    /// An error of the user's own, raised while decoding.
    Custom,
}

/// A decoding error as a value: what it is about, the input position it
/// refers to, and its message (which may be empty).
pub type ErrorView = (ErrorKind, Option<usize>, Seq<char>);

/// A decoding error: what it is about, where in the input, and a message
/// that may be empty.
#[derive(Debug)]
pub struct Error {
    kind: ErrorKind,
    pos: Option<usize>,
    msg: String,
}

impl View for Error {
    type V = ErrorView;

    closed spec fn view(&self) -> ErrorView {
        (self.kind, self.pos, self.msg@)
    }
}

/// The error of an input that ended too early.
pub open spec fn end_of_input() -> ErrorView {
    (ErrorKind::EndOfInput, None, Seq::empty())
}

/// An error of the given kind at position `p` with message `m`.
pub open spec fn error_at(k: ErrorKind, p: int, m: Seq<char>) -> ErrorView {
    (k, Some(p as usize), m)
}

/// What an error is about, as text.
pub open spec fn kind_text(k: ErrorKind, msg: Seq<char>) -> Seq<char> {
    match k {
        ErrorKind::EndOfInput => "end of input bytes"@,
        ErrorKind::InvalidChar(n) => "invalid char: "@ + hex(n as nat),
        ErrorKind::Utf8 => "invalid utf-8 encoding"@,
        ErrorKind::Overflow(n) => decimal(n as nat) + " overflows target type"@,
        ErrorKind::TypeMismatch(t) => "unexpected type "@ + type_label(t),
        ErrorKind::UnknownVariant(n) => "unknown enum variant "@ + decimal(n as nat),
        ErrorKind::MissingValue(n) => "missing value at index "@ + decimal(n as nat),
        ErrorKind::Message => msg,
        ErrorKind::TagMismatch(t) => "unexpected tag "@ + decimal(t.num() as nat),
        ErrorKind::Custom => "decode error"@,
    }
}

/// An error as text: what it is about, then the position, then the message.
pub open spec fn error_text(e: ErrorView) -> Seq<char> {
    kind_text(e.0, e.2) + match e.1 {
        Some(p) => " at position "@ + decimal(p as nat),
        None => Seq::empty(),
    } + if e.2.len() == 0 || e.0 == ErrorKind::Message {
        Seq::empty()
    } else {
        ": "@ + e.2
    }
}

impl Error {
    fn new(kind: ErrorKind) -> (e: Error)
        ensures
            e@ == (kind, None::<usize>, Seq::<char>::empty()),
    {
        Error { kind, pos: None, msg: new_string() }
    }

    /// The error of an input that ended too early.
    pub fn end_of_input() -> (e: Error)
        ensures
            e@ == end_of_input(),
    {
        Error::new(ErrorKind::EndOfInput)
    }

    /// The error of a data item of type `t` where another was asked for.
    pub fn type_mismatch(t: Type) -> (e: Error)
        ensures
            e@ == (ErrorKind::TypeMismatch(t), None::<usize>, Seq::<char>::empty()),
    {
        Error::new(ErrorKind::TypeMismatch(t))
    }

    /// The error of tag `t` where another was asked for.
    pub fn tag_mismatch(t: Tag) -> (e: Error)
        ensures
            e@ == (ErrorKind::TagMismatch(t), None::<usize>, Seq::<char>::empty()),
    {
        Error::new(ErrorKind::TagMismatch(t))
    }

    /// The error of an enum variant `n` that is not known.
    pub fn unknown_variant(n: u32) -> (e: Error)
        ensures
            e@ == (ErrorKind::UnknownVariant(n), None::<usize>, Seq::<char>::empty()),
    {
        Error::new(ErrorKind::UnknownVariant(n))
    }

    /// The error of a value missing at index `n`.
    pub fn missing_value(n: u64) -> (e: Error)
        ensures
            e@ == (ErrorKind::MissingValue(n), None::<usize>, Seq::<char>::empty()),
    {
        Error::new(ErrorKind::MissingValue(n))
    }

    /// The error of an integer `n` that is no character.
    pub fn invalid_char(n: u32) -> (e: Error)
        ensures
            e@ == (ErrorKind::InvalidChar(n), None::<usize>, Seq::<char>::empty()),
    {
        Error::new(ErrorKind::InvalidChar(n))
    }

    /// The error of an integer `n` too large for its target type.
    pub fn overflow(n: u64) -> (e: Error)
        ensures
            e@ == (ErrorKind::Overflow(n), None::<usize>, Seq::<char>::empty()),
    {
        Error::new(ErrorKind::Overflow(n))
    }

    /// The error of a text string that is not UTF-8.
    pub fn utf8() -> (e: Error)
        ensures
            e@ == (ErrorKind::Utf8, None::<usize>, Seq::<char>::empty()),
    {
        Error::new(ErrorKind::Utf8)
    }

    /// An error of the user's own. Only that it is one is kept, not the value
    /// `err`: the errors of this library do not carry a source.
    pub fn custom<T>(err: T) -> (e: Error)
        ensures
            e@ == (ErrorKind::Custom, None::<usize>, Seq::<char>::empty()),
    {
        Error::new(ErrorKind::Custom)
    }

    /// An error with a message of its own.
    pub fn message(msg: &str) -> (e: Error)
        ensures
            e@ == (ErrorKind::Message, None::<usize>, msg@),
    {
        let mut m = new_string();
        push_str(&mut m, msg);
        Error { kind: ErrorKind::Message, pos: None, msg: m }
    }

    /// This error, referring to input position `pos`.
    pub fn at(self, pos: usize) -> (e: Error)
        ensures
            e@ == (self@.0, Some(pos), self@.2),
    {
        Error { kind: self.kind, pos: Some(pos), msg: self.msg }
    }

    /// This error, with its message replaced by `msg`.
    pub fn with_message(self, msg: &str) -> (e: Error)
        ensures
            e@ == (self@.0, self@.1, msg@),
    {
        let mut m = new_string();
        push_str(&mut m, msg);
        Error { kind: self.kind, pos: self.pos, msg: m }
    }

    /// What this error is about.
    pub fn kind(&self) -> (k: ErrorKind)
        ensures
            k == self@.0,
    {
        self.kind
    }

    /// The input position this error refers to, if any.
    pub fn position(&self) -> (p: Option<usize>)
        ensures
            p == self@.1,
    {
        self.pos
    }

    /// Whether the input ended too early.
    pub fn is_end_of_input(&self) -> (b: bool)
        ensures
            b == (self@.0 is EndOfInput),
    {
        matches!(self.kind, ErrorKind::EndOfInput)
    }

    /// Whether a data item of another type was found than asked for.
    pub fn is_type_mismatch(&self) -> (b: bool)
        ensures
            b == (self@.0 is TypeMismatch),
    {
        matches!(self.kind, ErrorKind::TypeMismatch(_))
    }

    /// Whether another tag was found than asked for.
    pub fn is_tag_mismatch(&self) -> (b: bool)
        ensures
            b == (self@.0 is TagMismatch),
    {
        matches!(self.kind, ErrorKind::TagMismatch(_))
    }

    /// Whether an enum variant was not known.
    pub fn is_unknown_variant(&self) -> (b: bool)
        ensures
            b == (self@.0 is UnknownVariant),
    {
        matches!(self.kind, ErrorKind::UnknownVariant(_))
    }

    /// Whether a value was missing.
    pub fn is_missing_value(&self) -> (b: bool)
        ensures
            b == (self@.0 is MissingValue),
    {
        matches!(self.kind, ErrorKind::MissingValue(_))
    }

    /// Whether this is an error with a message of its own.
    pub fn is_message(&self) -> (b: bool)
        ensures
            b == (self@.0 is Message),
    {
        matches!(self.kind, ErrorKind::Message)
    }

    /// Whether an integer was too large for its target type.
    pub fn is_overflow(&self) -> (b: bool)
        ensures
            b == (self@.0 is Overflow),
    {
        matches!(self.kind, ErrorKind::Overflow(_))
    }

    /// Whether an integer was no character.
    pub fn is_invalid_char(&self) -> (b: bool)
        ensures
            b == (self@.0 is InvalidChar),
    {
        matches!(self.kind, ErrorKind::InvalidChar(_))
    }

    /// Whether this is an error of the user's own.
    pub fn is_custom(&self) -> (b: bool)
        ensures
            b == (self@.0 is Custom),
    {
        matches!(self.kind, ErrorKind::Custom)
    }

    /// Whether a text string was not UTF-8.
    pub fn is_utf8(&self) -> (b: bool)
        ensures
            b == (self@.0 is Utf8),
    {
        matches!(self.kind, ErrorKind::Utf8)
    }

    /// What went wrong, as text.
    pub fn to_string(&self) -> (s: String)
        ensures
            s@ == error_text(self@),
    {
        let mut s = new_string();
        match self.kind {
            ErrorKind::EndOfInput => push_str(&mut s, "end of input bytes"),
            ErrorKind::InvalidChar(n) => {
                push_str(&mut s, "invalid char: ");
                push_hex(&mut s, n as u64);
            },
            ErrorKind::Utf8 => push_str(&mut s, "invalid utf-8 encoding"),
            ErrorKind::Overflow(n) => {
                push_decimal(&mut s, n);
                push_str(&mut s, " overflows target type");
            },
            ErrorKind::TypeMismatch(t) => {
                push_str(&mut s, "unexpected type ");
                t.push_name(&mut s);
            },
            ErrorKind::UnknownVariant(n) => {
                push_str(&mut s, "unknown enum variant ");
                push_decimal(&mut s, n as u64);
            },
            ErrorKind::MissingValue(n) => {
                push_str(&mut s, "missing value at index ");
                push_decimal(&mut s, n);
            },
            ErrorKind::Message => push_str(&mut s, self.msg.as_str()),
            ErrorKind::TagMismatch(t) => {
                push_str(&mut s, "unexpected tag ");
                push_decimal(&mut s, t.as_u64());
            },
            ErrorKind::Custom => push_str(&mut s, "decode error"),
        }
        match self.pos {
            Some(p) => {
                push_str(&mut s, " at position ");
                push_decimal(&mut s, p as u64);
            },
            None => {},
        }
        if !self.msg.as_str().is_empty() && !matches!(self.kind, ErrorKind::Message) {
            push_str(&mut s, ": ");
            push_str(&mut s, self.msg.as_str());
        }
        proof {
            let e = self@;
            assert(s@ =~= error_text(e));
        }
        s
    }
}

} // verus!
