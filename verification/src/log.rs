//! Log severity levels; the sink that prints them lives with the
//! command-line front end.
use vstd::prelude::*;

verus! {

/// The severity of a log line.
#[derive(Debug, Clone, Copy, PartialEq, Eq, Structural)]
pub enum LogLevel {
    Info,
    Warn,
    Error,
    Debug,
}

/// The tag a severity prints as.
pub open spec fn spec_label(l: LogLevel) -> Seq<char> {
    match l {
        LogLevel::Info => "INFO"@,
        LogLevel::Warn => "WARN"@,
        LogLevel::Error => "ERROR"@,
        LogLevel::Debug => "DEBUG"@,
    }
}

impl LogLevel {
    /// The tag this severity prints as.
    pub fn label(&self) -> (r: String)
        ensures
            r@ == spec_label(*self),
    {
        broadcast use vstd::string::to_string_from_display_ensures_for_str;

        match self {
            LogLevel::Info => "INFO".to_string(),
            LogLevel::Warn => "WARN".to_string(),
            LogLevel::Error => "ERROR".to_string(),
            LogLevel::Debug => "DEBUG".to_string(),
        }
    }
}

} // verus!
