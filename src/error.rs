//! The errors of reading a calendar and building its report.
use vstd::prelude::*;

verus! {

#[verifier::external_type_specification]
#[verifier::external_body]
pub struct ExParserError(ical::parser::ParserError);

/// Why a calendar could not be read or reported on.
#[derive(Debug)]
pub enum Error {
    /// The calendar text holds no calendar at all.
    IterError,
    /// The calendar text could not be decoded.
    ParseError(ical::parser::ParserError),
    /// An event with a yearly rule has no name, or its rule gives no date
    /// this year.
    IncorrectRrule,
}

} // verus!
