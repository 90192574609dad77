use crate::text;
use vstd::prelude::*;
use vstd::string::*;

verus! {

/// What can be wrong with a Matroska stream or with a request on one.
#[derive(Debug)]
pub enum Error {
    /// The source ended inside an element. Carries the field being read.
    UnexpectedEof(&'static str),
    /// The first byte of a variable-length integer was zero.
    InvalidVint,
    /// An element's size runs past what contains it.
    SizeOverflow,
    /// No EBML header, or a DocType other than `matroska` and `webm`.
    NotMatroska,
    /// A feature outside the supported subset.
    Unsupported { what: &'static str },
    /// An element outside the bounded streaming allowlist.
    UnsupportedElement { parent: u64, element: u64 },
    /// A payload that does not match its element's declared type.
    Malformed(&'static str),
}

impl Error {
    /// What is said of the error.
    pub open spec fn said(&self) -> Seq<char> {
        match *self {
            Error::UnexpectedEof(what) => "unexpected EOF while reading "@ + what@,
            Error::InvalidVint => "invalid EBML VINT (zero width byte)"@,
            Error::SizeOverflow => "element size exceeds reader bounds"@,
            Error::NotMatroska => "not a Matroska or WebM file"@,
            Error::Unsupported { what } => "unsupported: "@ + what@,
            Error::UnsupportedElement { parent, element } => "unsupported: element 0x"@
                + text::short_hex(element as nat) + " in parent 0x"@ + text::short_hex(
                parent as nat,
            ) + " is outside the bounded streaming allowlist"@,
            Error::Malformed(what) => "malformed "@ + what@,
        }
    }

    /// What to tell a user.
    pub fn message(&self) -> (r: String)
        ensures
            r@ == self.said(),
    {
        match self {
            Error::UnexpectedEof(what) => {
                let mut s: String = "unexpected EOF while reading ".to_owned();
                s.append(what);
                s
            },
            Error::InvalidVint => "invalid EBML VINT (zero width byte)".to_owned(),
            Error::SizeOverflow => "element size exceeds reader bounds".to_owned(),
            Error::NotMatroska => "not a Matroska or WebM file".to_owned(),
            Error::Unsupported { what } => {
                let mut s: String = "unsupported: ".to_owned();
                s.append(what);
                s
            },
            Error::UnsupportedElement { parent, element } => {
                let mut s: String = "unsupported: element 0x".to_owned();
                text::put_short_hex(&mut s, *element);
                s.append(" in parent 0x");
                text::put_short_hex(&mut s, *parent);
                s.append(" is outside the bounded streaming allowlist");
                s
            },
            Error::Malformed(what) => {
                let mut s: String = "malformed ".to_owned();
                s.append(what);
                s
            },
        }
    }
}

} // verus!
