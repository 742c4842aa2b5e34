use vstd::prelude::*;

verus! {

/// Why a piece of user input (a date, a range or a subject) was rejected.
#[derive(Debug, Clone, Copy, PartialEq, Eq, Structural)]
pub enum InputParseError {
    MissingMonth,
    MissingDay,
    InvalidYear,
    InvalidMonth,
    InvalidDay,
    TooManyComponents,
    MonthOutOfRange,
    DayOutOfRange,
    MissingRangeDelimiter,
    StartAfterEnd,
    UnknownSubject,
}

/// Failures while reading the store.
#[derive(Debug, Clone, Copy, PartialEq, Eq, Structural)]
pub enum ReadError {
    EntryNotFound,
    DeserializationFailure,
}

/// Failures while writing the store.
#[derive(Debug, Clone, Copy, PartialEq, Eq, Structural)]
pub enum WriteError {
    SerializationFailure,
}

/// Any failure of a store operation. The file and format failures carry the
/// message of the layer that reported them.
#[derive(Debug, Clone, PartialEq, Eq)]
pub enum DataStoreError {
    ReadError(ReadError),
    WriteError(WriteError),
    IOError(String),
    RonError(String),
    RonSpannedError(String),
}

} // verus!
