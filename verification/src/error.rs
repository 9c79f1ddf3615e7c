//! Error taxonomy of the aggregation core.
//!
//! Opening and reading the log file happens outside the library, so the
//! corresponding I/O failures are reported there; the library itself can
//! fail only on a malformed log line inside the retained window or on a
//! configuration value it must reject.
use vstd::prelude::*;

verus! {

/// An error raised by the aggregation core.
#[derive(Debug, Clone, PartialEq)]
pub enum CoreError {
    /// A log line inside the retained window could not be parsed; the
    /// offending line is carried for diagnostics.
    Format { line: String },
    /// A configuration value that would make the aggregation meaningless
    /// (a zero sampling interval or a zero smoothing divisor).
    InvalidConfig,
}

impl CoreError {
    /// A short description for operators; the daemon around the library
    /// decides how to surface it.
    pub fn describe(&self) -> (r: String)
        ensures
            self matches CoreError::Format { line } ==> r@ == "malformed log line: "@ + line@,
            self is InvalidConfig ==> r@ == "invalid configuration value"@,
    {
        match self {
            CoreError::Format { line } => {
                let mut s = String::from_str("malformed log line: ");
                s.append(line.as_str());
                s
            },
            CoreError::InvalidConfig => String::from_str("invalid configuration value"),
        }
    }
}

} // verus!
