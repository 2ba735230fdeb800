//! Structured errors for date and command parsing.

use vstd::prelude::*;

verus! {

/// Everything that can go wrong while turning user text into a command.
///
/// Date text faults are split into three conditions: the text does not have
/// the `year-month-day` shape, a field is not a non-negative base-10 integer
/// that fits the machine word, or a field is out of its calendar range
/// (the offending value is carried along).
#[derive(Debug)]
pub enum AppError {
    /// Date text does not split on `-` into exactly three fields.
    InvalidDateFormat,
    /// A date field is empty, holds a non-digit, or is too large to store.
    InvalidDateNumber,
    /// The month field is 0 or greater than 12; carries the rejected month.
    InvalidMonth(usize),
    /// The day field is 0 or greater than 31; carries the rejected day.
    InvalidDay(usize),
    /// The first token of a command line names no known command.
    UnknownCommand(String),
    /// A recognized command came with the wrong number of tokens.
    MalformedCommand,
}

} // verus!
