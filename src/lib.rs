//! Attendance records: validated dates, subjects and date ranges, and the
//! query and merge rules of the store of entries.

pub mod cli;
pub mod date;
pub mod errors;
pub mod range;
pub mod store;
pub mod subject;
