//! The library's error type.
use vstd::prelude::*;

use crate::text::{decimal, push_decimal};

verus! {

/// Makes `std::io::Error` known to Verus as an opaque type, so that the
/// `Io` variant can carry one.
#[verifier::external_type_specification]
#[verifier::external_body]
pub struct ExIoError(std::io::Error);

/// An error of this library.
#[derive(Debug)]
pub enum Error {
    /// A line of a `.tool-versions` text could not be read; `line` counts
    /// from 1.
    ParseError { line: usize, message: String },
    /// Reading or writing a file failed.
    Io(std::io::Error),
}

/// The text of a parse error: `parse error at line {line}: {message}`.
pub open spec fn parse_error_text(line: nat, message: Seq<char>) -> Seq<char> {
    "parse error at line "@ + decimal(line) + ": "@ + message
}

/// The text of an I/O error, from `ToString::to_string` on `std::io::Error`
/// (its `Display` implementation). Trusted, with no contract: for an error
/// of the operating system the text comes from the operating system, so
/// nothing is claimed of it.
#[verifier::external_body]
fn io_error_text(e: &std::io::Error) -> String {
    e.to_string()
}

/// The text of an I/O error whose cause reads `cause`:
/// `I/O error: {cause}`.
pub fn io_error_message(cause: &str) -> (r: String)
    ensures
        r@ == "I/O error: "@ + cause@,
{
    let mut s = String::from_str("I/O error: ");
    s.append(cause);
    s
}

impl Error {
    /// The human-readable description of the error:
    /// `parse error at line {line}: {message}` or `I/O error: {cause}`.
    pub fn to_string(&self) -> (r: String)
        ensures
            match self {
                Error::ParseError { line, message } => r@ == parse_error_text(
                    *line as nat,
                    message@,
                ),
                Error::Io(_) => exists|cause: Seq<char>| r@ == "I/O error: "@ + cause,
            },
    {
        match self {
            Error::ParseError { line, message } => {
                let mut s = String::from_str("parse error at line ");
                push_decimal(&mut s, *line);
                s.append(": ");
                s.append(message.as_str());
                s
            },
            Error::Io(e) => {
                let cause = io_error_text(e);
                io_error_message(cause.as_str())
            },
        }
    }
}

impl From<std::io::Error> for Error {
    fn from(e: std::io::Error) -> (r: Self) {
        Error::Io(e)
    }
}

impl vstd::std_specs::convert::FromSpecImpl<std::io::Error> for Error {
    open spec fn obeys_from_spec() -> bool {
        true
    }

    open spec fn from_spec(e: std::io::Error) -> Self {
        Error::Io(e)
    }
}

} // verus!
