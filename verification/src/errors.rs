use vstd::prelude::*;

verus! {

/// The single error surface of the library: every parse entry point fails
/// with exactly one of these kinds, so a caller can tell a bad document
/// from a bad recurrence rule from a bad date.
#[derive(Debug, Clone, PartialEq, Eq)]
pub enum EventError {
    /// A malformed token reported by the upstream property parser,
    /// passed through as its message.
    IcalError(String),
    /// An integer field (interval, count, duration amount) did not parse
    /// or does not fit.
    IntError,
    /// A status value outside the closed enumeration.
    StatusError,
    /// A frequency value outside Daily/Weekly/Monthly/Yearly.
    FreqError,
    /// A malformed weekday-selector token in a recurrence rule.
    BydayError,
    /// An unparseable date value.
    DateError,
}

} // verus!
