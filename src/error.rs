//! The ways in which reading a record can fail.
use vstd::prelude::*;

verus! {

/// Why a record could not be read. Every one of them stops the reading of the record:
/// nothing is skipped and nothing is filled in with a default.
#[derive(Clone, Copy, Debug, PartialEq, Eq, Structural)]
pub enum Error {
    /// A header lacks a delimiter or a field that it needs.
    MalformedHeader,
    /// The peaks read do not match the count that the record declares, or the input ended
    /// inside a record.
    IncompletePeakList,
    /// A field that must hold a number does not.
    InvalidNumericLiteral,
    /// A peak annotation does not follow the annotation grammar.
    InvalidAnnotationSyntax,
}

impl Error {
    /// A sentence that says what went wrong.
    pub fn message(&self) -> (r: &'static str)
        ensures
            r@ == match self {
                Error::MalformedHeader => "malformed header"@,
                Error::IncompletePeakList => "incomplete peak list"@,
                Error::InvalidNumericLiteral => "invalid numeric literal"@,
                Error::InvalidAnnotationSyntax => "invalid annotation syntax"@,
            },
    {
        match self {
            Error::MalformedHeader => "malformed header",
            Error::IncompletePeakList => "incomplete peak list",
            Error::InvalidNumericLiteral => "invalid numeric literal",
            Error::InvalidAnnotationSyntax => "invalid annotation syntax",
        }
    }
}

} // verus!
