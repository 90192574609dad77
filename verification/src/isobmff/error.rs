use vstd::prelude::*;
use vstd::string::*;

verus! {

/// What can be wrong with a file or with a request on one.
#[derive(Debug)]
pub enum IsobmffError {
    /// A box that does not hold what it must.
    Malformed(String),
    /// A feature outside the supported subset.
    Unsupported(String),
    /// A box that must be there and is not.
    MissingBox(&'static str),
    /// A HEIF file without what a still image needs.
    Heif(String),
}

impl IsobmffError {
    /// What is said of the error.
    pub open spec fn said(&self) -> Seq<char> {
        match *self {
            IsobmffError::Malformed(what) => "malformed box: "@ + what@,
            IsobmffError::Unsupported(what) => "unsupported box variant: "@ + what@,
            IsobmffError::MissingBox(what) => "required box missing: "@ + what@,
            IsobmffError::Heif(what) => "heif: "@ + what@,
        }
    }

    /// What to tell a user.
    pub fn message(&self) -> (r: String)
        ensures
            r@ == self.said(),
    {
        let (head, what): (&str, &str) = match self {
            IsobmffError::Malformed(what) => ("malformed box: ", what.as_str()),
            IsobmffError::Unsupported(what) => ("unsupported box variant: ", what.as_str()),
            IsobmffError::MissingBox(what) => ("required box missing: ", what),
            IsobmffError::Heif(what) => ("heif: ", what.as_str()),
        };
        let mut s: String = head.to_owned();
        s.append(what);
        s
    }
}

pub type IsobmffResult<T> = Result<T, IsobmffError>;

/// The call failed on malformed input, with this text.
pub open spec fn malformed<T>(r: IsobmffResult<T>, text: Seq<char>) -> bool {
    r matches Err(IsobmffError::Malformed(s)) && s@ == text
}

/// The call failed on an unsupported feature, with this text.
pub open spec fn unsupported<T>(r: IsobmffResult<T>, text: Seq<char>) -> bool {
    r matches Err(IsobmffError::Unsupported(s)) && s@ == text
}

/// The call failed on a HEIF file, with this text.
pub open spec fn heif<T>(r: IsobmffResult<T>, text: Seq<char>) -> bool {
    r matches Err(IsobmffError::Heif(s)) && s@ == text
}

} // verus!
