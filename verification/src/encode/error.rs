//! The errors of encoding.
use vstd::prelude::*;
use crate::text::{new_string, push_str};

verus! {

/// What an encoding error is about.
#[derive(Debug)]
pub enum ErrorKind<E> {
    /// The sink refused a write.
    Write(E),
    /// A message of its own.
    Message,
    /// An error of the user's own, raised while encoding.
    Custom,
}

/// An encoding error: what it is about, and a message that may be empty.
#[derive(Debug)]
pub struct Error<E> {
    err: ErrorKind<E>,
    msg: String,
}

impl<E> Error<E> {
    /// What this error is about.
    pub closed spec fn kind(&self) -> ErrorKind<E> {
        self.err
    }

    /// The message of this error.
    pub closed spec fn msg(&self) -> Seq<char> {
        self.msg@
    }

    /// The error of a sink that refused a write.
    pub fn write(e: E) -> (r: Self)
        ensures
            r.kind() == ErrorKind::Write(e),
            r.msg() == Seq::<char>::empty(),
    {
        Error { err: ErrorKind::Write(e), msg: new_string() }
    }

    /// An error with a message of its own.
    pub fn message(msg: &str) -> (r: Self)
        ensures
            r.kind() == ErrorKind::<E>::Message,
            r.msg() == msg@,
    {
        let mut m = new_string();
        push_str(&mut m, msg);
        Error { err: ErrorKind::Message, msg: m }
    }

    /// An error of the user's own. Only that it is one is kept, not the value
    /// `err`: the errors of this library do not carry a source.
    pub fn custom<T>(err: T) -> (r: Self)
        ensures
            r.kind() == ErrorKind::<E>::Custom,
            r.msg() == Seq::<char>::empty(),
    {
        Error { err: ErrorKind::Custom, msg: new_string() }
    }

    /// This error with its message replaced by `msg`.
    pub fn with_message(self, msg: &str) -> (r: Self)
        ensures
            r.kind() == self.kind(),
            r.msg() == msg@,
    {
        let mut m = new_string();
        push_str(&mut m, msg);
        Error { err: self.err, msg: m }
    }

    /// Whether a sink refused a write.
    pub fn is_write(&self) -> (b: bool)
        ensures
            b == (self.kind() is Write),
    {
        match &self.err {
            ErrorKind::Write(_) => true,
            _ => false,
        }
    }

    /// Whether this is an error with a message of its own.
    pub fn is_message(&self) -> (b: bool)
        ensures
            b == (self.kind() is Message),
    {
        match &self.err {
            ErrorKind::Message => true,
            _ => false,
        }
    }

    /// Whether this is an error of the user's own.
    pub fn is_custom(&self) -> (b: bool)
        ensures
            b == (self.kind() is Custom),
    {
        match &self.err {
            ErrorKind::Custom => true,
            _ => false,
        }
    }

    /// The error of the sink, if a sink refused a write.
    pub fn as_write(&self) -> (r: Option<&E>)
        ensures
            match self.kind() {
                ErrorKind::Write(e) => r == Some(&e),
                _ => r is None,
            },
    {
        match &self.err {
            ErrorKind::Write(e) => Some(e),
            _ => None,
        }
    }

    /// The error of the sink, if a sink refused a write.
    pub fn into_write(self) -> (r: Option<E>)
        ensures
            match self.kind() {
                ErrorKind::Write(e) => r == Some(e),
                _ => r is None,
            },
    {
        match self.err {
            ErrorKind::Write(e) => Some(e),
            _ => None,
        }
    }

    /// What went wrong, as text.
    pub fn to_string(&self) -> (s: String)
        ensures
            s@ == match self.kind() {
                ErrorKind::Message => self.msg(),
                ErrorKind::Write(_) => if self.msg().len() == 0 {
                    "write error"@
                } else {
                    "write error: "@ + self.msg()
                },
                ErrorKind::Custom => if self.msg().len() == 0 {
                    "encode error"@
                } else {
                    "encode error: "@ + self.msg()
                },
            },
    {
        let mut s = new_string();
        match &self.err {
            ErrorKind::Message => {
                push_str(&mut s, self.msg.as_str());
            },
            ErrorKind::Write(_) => {
                if self.msg.as_str().is_empty() {
                    push_str(&mut s, "write error");
                } else {
                    push_str(&mut s, "write error: ");
                    push_str(&mut s, self.msg.as_str());
                }
            },
            ErrorKind::Custom => {
                if self.msg.as_str().is_empty() {
                    push_str(&mut s, "encode error");
                } else {
                    push_str(&mut s, "encode error: ");
                    push_str(&mut s, self.msg.as_str());
                }
            },
        }
        s
    }
}

} // verus!
