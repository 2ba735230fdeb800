//! An event calendar core: a date value type with parsing, validation and
//! canonical formatting; a command model over whitespace-separated tokens;
//! and an ordered event store mapping dates to sets of event payloads.

pub mod command;
pub mod date;
pub mod error;
pub mod storage;
pub mod text;
