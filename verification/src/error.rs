//! What can go wrong while a SAG description is read.

use vstd::prelude::*;

verus! {

/// `std::io::Error`, which the library carries and never looks into.
#[verifier::external_type_specification]
#[verifier::external_body]
pub struct ExIoError(std::io::Error);

/// Errors that can occur while a SAG description is read.
#[derive(Debug)]
pub enum SagError {
    /// The source could not be read.
    Io(std::io::Error),
    /// The text breaks the structure of the language at the given line, counted
    /// from 1.
    Parse { line: usize, message: String },
    /// The text stands where an address belongs and writes none.
    InvalidAddress(String),
}

/// A `SagError` as specifications see it.
pub enum Failure {
    Io(std::io::Error),
    Parse { line: nat, message: Seq<char> },
    InvalidAddress(Seq<char>),
}

impl View for SagError {
    type V = Failure;

    open spec fn view(&self) -> Failure {
        match self {
            SagError::Io(inner) => Failure::Io(*inner),
            SagError::Parse { line, message } => Failure::Parse {
                line: *line as nat,
                message: message@,
            },
            SagError::InvalidAddress(text) => Failure::InvalidAddress(text@),
        }
    }
}

} // verus!
