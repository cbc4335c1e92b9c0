//! The error type shared by the search operations around this library.
use vstd::prelude::*;

verus! {

/// Declares `std::io::Error` so that [`Error`] can carry one; the value is
/// opaque here and nothing is assumed about it.
#[verifier::external_type_specification]
#[verifier::external_body]
pub struct ExIoError(std::io::Error);

/// What a search can fail with: an invalid selector expression, or an I/O
/// failure of the underlying stream.
#[derive(Debug)]
pub enum Error {
    Parse,
    Io(std::io::Error),
}

impl Error {
    /// A short fixed description of the error's class.
    pub fn description(&self) -> (r: &'static str)
        ensures
            self is Parse ==> r@ == "invalid selector"@,
            self is Io ==> r@ == "i/o error"@,
    {
        match self {
            Error::Parse => "invalid selector",
            Error::Io(_) => "i/o error",
        }
    }
}

impl From<std::io::Error> for Error {
    fn from(err: std::io::Error) -> (r: Self) {
        Error::Io(err)
    }
}

impl vstd::std_specs::convert::FromSpecImpl<std::io::Error> for Error {
    open spec fn obeys_from_spec() -> bool {
        true
    }

    open spec fn from_spec(t: std::io::Error) -> Error {
        Error::Io(t)
    }
}

} // verus!
