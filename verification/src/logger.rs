//! What the logger is to do, by the settings of a run.

use crate::text::{same_text, slice_view};
use vstd::prelude::*;

verus! {

/// How much is logged, from the least to the most.
#[derive(Clone, Copy, Debug, PartialEq, Eq, Structural)]
pub enum LogLevel {
    Error,
    Warn,
    Info,
    Debug,
    Trace,
}

/// Where the log goes.
#[derive(Clone, Copy, Debug, PartialEq, Eq, Structural)]
pub enum LogTarget {
    /// To the standard output.
    Stdout,
    /// To the end of the file that the settings name.
    File,
}

/// The level that a name stands for: each level for its own name in lower
/// case, `Info` for every other name and where no name is given.
pub open spec fn level_of(name: Option<Seq<char>>) -> LogLevel {
    match name {
        None => LogLevel::Info,
        Some(n) => if n == "error"@ {
            LogLevel::Error
        } else if n == "warn"@ {
            LogLevel::Warn
        } else if n == "info"@ {
            LogLevel::Info
        } else if n == "debug"@ {
            LogLevel::Debug
        } else if n == "trace"@ {
            LogLevel::Trace
        } else {
            LogLevel::Info
        },
    }
}

/// The target that a file name asks for: the file where a name is given
/// that is not empty, else the standard output.
pub open spec fn target_of(log_file: Option<Seq<char>>) -> LogTarget {
    match log_file {
        Some(name) => if name.len() > 0 {
            LogTarget::File
        } else {
            LogTarget::Stdout
        },
        None => LogTarget::Stdout,
    }
}

impl LogLevel {
    /// The level that a name stands for.
    pub fn from_name(name: Option<&str>) -> (level: LogLevel)
        ensures
            level == level_of(slice_view(name)),
    {
        match name {
            None => LogLevel::Info,
            Some(n) => {
                if same_text(n, "error") {
                    LogLevel::Error
                } else if same_text(n, "warn") {
                    LogLevel::Warn
                } else if same_text(n, "info") {
                    LogLevel::Info
                } else if same_text(n, "debug") {
                    LogLevel::Debug
                } else if same_text(n, "trace") {
                    LogLevel::Trace
                } else {
                    LogLevel::Info
                }
            },
        }
    }
}

impl LogTarget {
    /// The target that a file name asks for.
    pub fn from_file_name(log_file: Option<&str>) -> (target: LogTarget)
        ensures
            target == target_of(slice_view(log_file)),
    {
        match log_file {
            Some(name) => {
                if name.is_empty() {
                    LogTarget::Stdout
                } else {
                    LogTarget::File
                }
            },
            None => LogTarget::Stdout,
        }
    }
}

} // verus!
