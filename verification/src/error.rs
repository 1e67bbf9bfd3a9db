//! The error type shared by every stage.

use vstd::prelude::*;
use vstd::std_specs::convert::FromSpecImpl;

verus! {

/// `std::io::Error`, carried through untouched: nothing is known of its contents.
#[verifier::external_type_specification]
#[verifier::external_body]
pub struct ExIoError(std::io::Error);

/// What can go wrong while compiling or running a program.
#[derive(Debug)]
pub enum Error {
    /// The brackets of a program do not pair up; the message names the offending bracket.
    Syntax(String),
    /// A byte source or sink reported a failure.
    Io(std::io::Error),
    /// The tape pointer would have moved to or past the end of the tape.
    PointerOverflow,
    /// The tape pointer would have moved below the first cell.
    PointerUnderflow,
}

impl Error {
    /// This is a syntax error with exactly this message.
    pub open spec fn is_syntax(self, message: Seq<char>) -> bool {
        self matches Error::Syntax(text) && text@ == message
    }
}

pub type Result<T> = std::result::Result<T, Error>;

impl From<std::io::Error> for Error {
    fn from(io_error: std::io::Error) -> (error: Self) {
        Error::Io(io_error)
    }
}

impl FromSpecImpl<std::io::Error> for Error {
    open spec fn obeys_from_spec() -> bool {
        true
    }

    open spec fn from_spec(io_error: std::io::Error) -> Self {
        Error::Io(io_error)
    }
}

} // verus!
