use vstd::prelude::*;

verus! {

/// What can go wrong while decoding attribution data.
///
/// A `line` is the index of a line of the decoded text, counted from zero.
#[derive(Clone, Copy, Debug, PartialEq, Eq, Structural)]
pub enum BlameError {
    /// A record header that does not hold exactly four fields.
    MalformedHeader { line: usize },
    /// A numeric field that is not a decimal integer of the expected range.
    InvalidNumber { line: usize },
    /// A time zone offset that is not a signed integer, or lies a day or more from UTC.
    InvalidTimezone,
    /// A timestamp outside the range of representable dates.
    TimestampOutOfRange,
}

} // verus!
