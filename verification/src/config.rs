//! Plain configuration values: the tool's arguments and the log-line style.
//! Argument parsing and the logger itself live outside the library.
use vstd::prelude::*;

verus! {

/// The tool's arguments: the files or folders to repack, whether folders are
/// walked recursively, and whether logging is verbose.
pub struct CLI {
    pub files: Vec<String>,
    pub recursive: bool,
    pub verbose: bool,
}

/// A diagnostic's severity.
#[derive(Clone, Copy, PartialEq, Eq, Structural, Debug)]
pub enum LogLevel {
    Error,
    Warn,
    Info,
    Debug,
    Trace,
}

/// The token a log line of each severity is prefixed with.
pub open spec fn spec_level_token(level: LogLevel) -> Seq<char> {
    match level {
        LogLevel::Error => "ERROR"@,
        LogLevel::Warn => "WARN"@,
        LogLevel::Info => "INFO"@,
        LogLevel::Debug => "DEBUG"@,
        LogLevel::Trace => "TRACE"@,
    }
}

/// The log-line style of this tool: plain upper-case level tokens.
pub struct CustomLog;

impl CustomLog {
    /// The token a message of severity `level` is prefixed with.
    pub fn level_token(&self, level: &LogLevel) -> (r: &'static str)
        ensures
            r@ == spec_level_token(*level),
    {
        match *level {
            LogLevel::Error => "ERROR",
            LogLevel::Warn => "WARN",
            LogLevel::Info => "INFO",
            LogLevel::Debug => "DEBUG",
            LogLevel::Trace => "TRACE",
        }
    }
}

} // verus!
