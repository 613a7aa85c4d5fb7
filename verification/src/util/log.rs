//! Log levels and log lines. Lines are timestamped (UTC) and tagged with a
//! level; warnings and errors go to standard error, the rest to standard
//! output. Writing them is left to the program around the library.
use vstd::prelude::*;

use super::text::{push_str, string_of};
use super::time::{format_utc, utc_text};

verus! {

/// Severity, ordered most to least important. A setting enables a level and
/// everything more important than it.
#[derive(Clone, Copy, PartialEq, Eq, Structural, Debug)]
pub enum Level {
    Error,
    Warn,
    Info,
    Debug,
}

/// Rank of a level: 0 for `Error` up to 3 for `Debug`.
pub open spec fn level_rank(l: Level) -> u8 {
    match l {
        Level::Error => 0,
        Level::Warn => 1,
        Level::Info => 2,
        Level::Debug => 3,
    }
}

/// The tag of a level in a log line.
pub open spec fn level_tag(l: Level) -> Seq<char> {
    match l {
        Level::Error => "ERROR"@,
        Level::Warn => "WARN"@,
        Level::Info => "INFO"@,
        Level::Debug => "DEBUG"@,
    }
}

impl Level {
    /// Rank of this level: 0 for `Error` up to 3 for `Debug`.
    pub fn rank(self) -> (r: u8)
        ensures
            r == level_rank(self),
    {
        match self {
            Level::Error => 0,
            Level::Warn => 1,
            Level::Info => 2,
            Level::Debug => 3,
        }
    }

    /// The tag printed in a log line.
    pub fn tag(self) -> (r: &'static str)
        ensures
            r@ == level_tag(self),
    {
        match self {
            Level::Error => "ERROR",
            Level::Warn => "WARN",
            Level::Info => "INFO",
            Level::Debug => "DEBUG",
        }
    }
}

/// Is a line of `level` emitted when the most verbose enabled level is `max`?
pub fn enabled(level: Level, max: Level) -> (r: bool)
    ensures
        r == (level_rank(level) <= level_rank(max)),
{
    level.rank() <= max.rank()
}


/// Does a line of `level` go to standard error? Warnings and errors do;
/// informational and debug lines go to standard output.
pub fn to_stderr(level: Level) -> (r: bool)
    ensures
        r == (level_rank(level) <= level_rank(Level::Warn)),
{
    level.rank() <= Level::Warn.rank()
}

/// The log line for `msg` at `level`, written at Unix time `secs`:
/// `<UTC timestamp> [<TAG>] <msg>`.
pub fn log_line(secs: u64, level: Level, msg: &str) -> (r: String)
    ensures
        r@ == utc_text(secs) + " ["@ + level_tag(level) + "] "@ + msg@,
{
    let ts = format_utc(secs);
    let mut out: Vec<char> = Vec::new();
    push_str(&mut out, ts.as_str());
    push_str(&mut out, " [");
    push_str(&mut out, level.tag());
    push_str(&mut out, "] ");
    push_str(&mut out, msg);
    string_of(&out)
}
}
