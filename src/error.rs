use vstd::prelude::*;

verus! {

/// Why a line could not be applied to the book.
#[derive(Clone, Debug, PartialEq, Eq)]
pub enum BookError {
    /// An integer field or directive argument is not a valid integer.
    BadInteger,
    /// The date field is not a date in the fixed `YYYY-MM-DD` pattern.
    BadDate,
    /// A data line has fewer than five comma-separated fields.
    MalformedRecord,
    /// A directive that needs an argument came without one.
    MissingArgument,
    /// `%S` was given a key outside `1..=5`.
    InvalidSortKey,
    /// A `%` directive that is not known; holds the directive as written.
    UnknownDirective(String),
    /// Opening, reading or writing a file failed; holds the reason.
    Io(String),
}

} // verus!
