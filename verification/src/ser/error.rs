//! Serialization error types

use vstd::prelude::*;
use vstd::string::StringExecFns;

use crate::de::error::{framed, lemma_framed};
use crate::text::{debug_str, io_debug, io_display, str_debug};

verus! {

/// The kind of a serialization error.
#[derive(Debug, Clone)]
pub enum ErrorKind {
    // Serialization
    /// Unsupported Rust value
    UnsupportedValue(&'static str),
    /// Unsupported Rust type
    UnsupportedType(&'static str),
    /// Duplicate key in table
    DuplicateKey(String),

    // Misc
    /// IO Error
    Io(std::sync::Arc<std::io::Error>),
    /// Formatting error
    Fmt,
    /// Custom error message
    Custom(String),
}

impl ErrorKind {
    /// The message of this error (for an I/O error, the words before the I/O error's own text,
    /// which std writes).
    pub open spec fn spec_message(&self) -> Seq<char> {
        match self {
            ErrorKind::UnsupportedValue(m) => "unsupported value: "@ + m@,
            ErrorKind::UnsupportedType(m) => "unsupported type: "@ + m@,
            ErrorKind::DuplicateKey(k) => "duplicate key \""@ + k@ + "\" in table"@,
            ErrorKind::Io(_) => "IO error: "@,
            ErrorKind::Fmt => "formatting error: an error occurred when formatting an argument"@,
            ErrorKind::Custom(m) => m@,
        }
    }

    /// This error as `{:?}` shows it (for an I/O error, what comes before the I/O error as std
    /// shows it, which is followed by `)`).
    pub open spec fn spec_debug(&self) -> Seq<char> {
        match self {
            ErrorKind::UnsupportedValue(m) => "UnsupportedValue"@ + seq!['('] + str_debug(m@) + seq![')'],
            ErrorKind::UnsupportedType(m) => "UnsupportedType"@ + seq!['('] + str_debug(m@) + seq![')'],
            ErrorKind::DuplicateKey(k) => "DuplicateKey"@ + seq!['('] + str_debug(k@) + seq![')'],
            ErrorKind::Io(_) => "Io("@,
            ErrorKind::Fmt => "Fmt(Error)"@,
            ErrorKind::Custom(m) => "Custom"@ + seq!['('] + str_debug(m@) + seq![')'],
        }
    }

    /// The message of this error (what `Display` shows).
    pub fn message(&self) -> (r: String)
        ensures
            !(self is Io) ==> r@ == self.spec_message(),
            self is Io ==> framed(r@, self.spec_message(), Seq::empty()),
    {
        let mut s = String::new();
        match self {
            ErrorKind::UnsupportedValue(m) => {
                s.append("unsupported value: ");
                s.append(m);
            },
            ErrorKind::UnsupportedType(m) => {
                s.append("unsupported type: ");
                s.append(m);
            },
            ErrorKind::DuplicateKey(k) => {
                s.append("duplicate key \"");
                s.append(k.as_str());
                s.append("\" in table");
            },
            ErrorKind::Io(e) => {
                s.append("IO error: ");
                let t = io_display(e);
                s.append(t.as_str());
                proof {
                    lemma_framed("IO error: "@, t@, Seq::empty());
                    assert(s@ =~= "IO error: "@ + t@ + Seq::empty());
                }
                return s;
            },
            ErrorKind::Fmt => s.append("formatting error: an error occurred when formatting an argument"),
            ErrorKind::Custom(m) => s.append(m.as_str()),
        }
        assert(s@ =~= self.spec_message());
        s
    }

    /// This error as `{:?}` shows it.
    pub fn debug_string(&self) -> (r: String)
        ensures
            !(self is Io) ==> r@ == self.spec_debug(),
            self is Io ==> framed(r@, self.spec_debug(), ")"@),
    {
        let mut s = String::new();
        let (name, field): (&str, &str) = match self {
            ErrorKind::UnsupportedValue(m) => ("UnsupportedValue", m),
            ErrorKind::UnsupportedType(m) => ("UnsupportedType", m),
            ErrorKind::DuplicateKey(k) => ("DuplicateKey", k.as_str()),
            ErrorKind::Io(e) => {
                s.append("Io(");
                let t = io_debug(e);
                s.append(t.as_str());
                s.append(")");
                proof {
                    reveal_strlit("Io(");
                    lemma_framed("Io("@, t@, ")"@);
                    assert(s@ =~= "Io("@ + t@ + ")"@);
                }
                return s;
            },
            ErrorKind::Fmt => {
                s.append("Fmt(Error)");
                assert(s@ =~= self.spec_debug());
                return s;
            },
            ErrorKind::Custom(m) => ("Custom", m.as_str()),
        };
        s.append(name);
        s.append("(");
        s.append(debug_str(field).as_str());
        s.append(")");
        proof {
            reveal_strlit("(");
            reveal_strlit(")");
        }
        assert(s@ =~= self.spec_debug());
        s
    }
}

/// A TOML serialization error
#[derive(Clone, Debug)]
pub struct Error {
    kind: ErrorKind,
}

impl Error {
    /// The kind of this error.
    pub closed spec fn spec_kind(&self) -> ErrorKind {
        self.kind
    }

    /// Creates an error of the given kind.
    pub fn from_kind(kind: ErrorKind) -> (r: Error)
        ensures
            r.spec_kind() == kind,
    {
        Error { kind }
    }

    /// The kind of this error.
    pub fn kind(&self) -> (r: &ErrorKind)
        ensures
            *r == self.spec_kind(),
    {
        &self.kind
    }

    /// A custom error with the given message.
    pub fn custom(msg: String) -> (r: Error)
        ensures
            r.spec_kind() == ErrorKind::Custom(msg),
    {
        Error { kind: ErrorKind::Custom(msg) }
    }

    /// The message of this error (what `Display` shows).
    pub fn message(&self) -> (r: String)
        ensures
            !(self.spec_kind() is Io) ==> r@ == self.spec_kind().spec_message(),
            self.spec_kind() is Io ==> framed(r@, self.spec_kind().spec_message(), Seq::empty()),
    {
        self.kind.message()
    }

    /// This error as `{:?}` shows it: `Error { type: <kind>, .. }`.
    pub fn debug_string(&self) -> (r: String)
        ensures
            !(self.spec_kind() is Io) ==> r@ == "Error { type: "@ + self.spec_kind().spec_debug() + ", .. }"@,
            self.spec_kind() is Io ==> framed(r@, "Error { type: Io("@, "), .. }"@),
    {
        let mut s = String::new();
        s.append("Error { type: ");
        let k = self.kind.debug_string();
        s.append(k.as_str());
        s.append(", .. }");
        proof {
            reveal_strlit("Error { type: ");
            reveal_strlit(", .. }");
            reveal_strlit("Error { type: Io(");
            reveal_strlit("), .. }");
            reveal_strlit("Io(");
            reveal_strlit(")");
            if self.spec_kind() is Io {
                let m = k@.subrange(3, k@.len() - 1);
                assert(self.spec_kind().spec_debug() == "Io("@);
                assert("Io("@.len() == 3);
                assert(")"@.len() == 1);
                assert(k@.take(3) == "Io("@);
                assert(k@.skip(k@.len() - 1) == ")"@);
                assert(k@ =~= k@.take(3) + m + k@.skip(k@.len() - 1));
                assert(k@ =~= "Io("@ + m + ")"@);
                lemma_framed("Error { type: Io("@, m, "), .. }"@);
                assert(s@ =~= "Error { type: Io("@ + m + "), .. }"@);
            }
        }
        s
    }
}

/// Type alias for [`std::result::Result`] using [`Error`] for its error type
pub type Result<T> = std::result::Result<T, Error>;

} // verus!
