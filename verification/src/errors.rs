use vstd::prelude::*;

verus! {

/// The error kinds surfaced while reading calendar data.
#[derive(Debug, Copy, Clone, PartialEq, Eq, Structural)]
pub enum EventError {
    /// The underlying iCalendar stream was malformed.
    IcalError,
    /// A numeric field failed to parse or was out of range.
    IntError,
    /// An unknown `STATUS` value.
    StatusError,
    /// An unknown `FREQ` keyword.
    FreqError,
    /// An unknown weekday code in `BYDAY`.
    BydayError,
}

} // verus!
