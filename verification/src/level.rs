//! Log levels and the line classifiers of tier 1: level detection by
//! keyword and stack-trace recognition.
use vstd::prelude::*;

use crate::text::{ascii_lower, chars_of, contains, contains_chars, lower_ascii, starts_with, starts_with_chars, trim_start, trim_start_chars};

verus! {

/// The semantic severity of a log line.
#[derive(Debug, Clone, Copy, PartialEq, Eq, Structural)]
pub enum LogLevel {
    Panic,
    Fatal,
    Error,
    Warn,
    Info,
    Debug,
    Trace,
    Unknown,
}

/// Panic, Fatal, Error and Warn are the levels that keep stack traces and
/// survive budget sampling.
pub open spec fn is_error_or_warn_level(l: LogLevel) -> bool {
    l is Panic || l is Fatal || l is Error || l is Warn
}

/// The label under which a level is rendered.
pub open spec fn level_name(l: LogLevel) -> Seq<char> {
    match l {
        LogLevel::Panic => "PANIC"@,
        LogLevel::Fatal => "FATAL"@,
        LogLevel::Error => "ERROR"@,
        LogLevel::Warn => "WARN"@,
        LogLevel::Info => "INFO"@,
        LogLevel::Debug => "DEBUG"@,
        LogLevel::Trace => "TRACE"@,
        LogLevel::Unknown => "LOG"@,
    }
}

impl LogLevel {
    /// Determines whether the log level represents an error, panic, or warning condition.
    /// This is used by the pipeline to decide whether to attach stack traces and retain
    /// events during budget filtering when non-error logs are downsampled.
    pub fn is_error_or_warn(&self) -> (b: bool)
        ensures
            b == is_error_or_warn_level(*self),
    {
        match self {
            LogLevel::Panic | LogLevel::Fatal | LogLevel::Error | LogLevel::Warn => true,
            _ => false,
        }
    }

    /// Returns the label of the level for rendering and CLI display.
    pub fn as_str(&self) -> (s: &'static str)
        ensures
            s@ == level_name(*self),
    {
        match self {
            LogLevel::Panic => "PANIC",
            LogLevel::Fatal => "FATAL",
            LogLevel::Error => "ERROR",
            LogLevel::Warn => "WARN",
            LogLevel::Info => "INFO",
            LogLevel::Debug => "DEBUG",
            LogLevel::Trace => "TRACE",
            LogLevel::Unknown => "LOG",
        }
    }
}

/// The level of a line: the first keyword group, in order of severity, that
/// occurs in the ASCII-lowercased line decides.
pub open spec fn level_of(line: Seq<char>) -> LogLevel {
    let l = ascii_lower(line);
    if contains(l, "panic"@) {
        LogLevel::Panic
    } else if contains(l, "fatal"@) || contains(l, "critical"@) {
        LogLevel::Fatal
    } else if contains(l, "error"@) || contains(l, "exception"@) || contains(l, "fail"@) {
        LogLevel::Error
    } else if contains(l, "warn"@) {
        LogLevel::Warn
    } else if contains(l, "info"@) {
        LogLevel::Info
    } else if contains(l, "debug"@) {
        LogLevel::Debug
    } else if contains(l, "trace"@) {
        LogLevel::Trace
    } else {
        LogLevel::Unknown
    }
}

/// Whether a line belongs to a multi-line stack trace (Java, Python, Go,
/// Rust or Node.js), judged after its leading whitespace.
pub open spec fn is_stack_trace(line: Seq<char>) -> bool {
    let t = trim_start(line);
    ||| starts_with(t, "at "@)
    ||| starts_with(t, "Caused by:"@)
    ||| starts_with(t, "File "@)
    ||| starts_with(t, "Traceback (most recent call last):"@)
    ||| starts_with(t, "goroutine "@)
    ||| starts_with(t, "... "@)
    ||| (contains(t, ".rs:"@) && contains(t, ":"@))
    ||| (contains(t, ".go:"@) && contains(t, ":"@))
    ||| contains(t, ".py\", line "@)
    ||| contains(t, ".java:"@)
}

fn has(s: &[char], p: &str) -> (b: bool)
    ensures
        b == contains(s@, p@),
{
    let pv = chars_of(p);
    contains_chars(s, pv.as_slice())
}

fn begins(s: &[char], p: &str) -> (b: bool)
    ensures
        b == starts_with(s@, p@),
{
    let pv = chars_of(p);
    starts_with_chars(s, pv.as_slice())
}

/// `detect_level` on a line given as characters.
pub fn detect_level_chars(line: &[char]) -> (l: LogLevel)
    ensures
        l == level_of(line@),
{
    let lower = lower_ascii(line);
    let l = lower.as_slice();
    if has(l, "panic") {
        LogLevel::Panic
    } else if has(l, "fatal") || has(l, "critical") {
        LogLevel::Fatal
    } else if has(l, "error") || has(l, "exception") || has(l, "fail") {
        LogLevel::Error
    } else if has(l, "warn") {
        LogLevel::Warn
    } else if has(l, "info") {
        LogLevel::Info
    } else if has(l, "debug") {
        LogLevel::Debug
    } else if has(l, "trace") {
        LogLevel::Trace
    } else {
        LogLevel::Unknown
    }
}

/// Detects the semantic log level of a single log line using case-insensitive keyword inspection.
/// Categorizes lines into Panic, Fatal, Error, Warn, Info, Debug, Trace, or Unknown.
pub fn detect_level(line: &str) -> (l: LogLevel)
    ensures
        l == level_of(line@),
{
    let v = chars_of(line);
    detect_level_chars(v.as_slice())
}

/// `is_stack_trace_line` on a line given as characters.
pub fn is_stack_trace_chars(line: &[char]) -> (b: bool)
    ensures
        b == is_stack_trace(line@),
{
    let tv = trim_start_chars(line);
    let t = tv.as_slice();
    begins(t, "at ") || begins(t, "Caused by:") || begins(t, "File ") || begins(
        t,
        "Traceback (most recent call last):",
    ) || begins(t, "goroutine ") || begins(t, "... ") || (has(t, ".rs:") && has(t, ":")) || (
    has(t, ".go:") && has(t, ":")) || has(t, ".py\", line ") || has(t, ".java:")
}

/// Checks if a log line is part of a multi-line language exception stack trace.
/// Supports standard stack trace formats for Python tracebacks, Go goroutines,
/// Java caused-by exceptions, Rust source backtraces, and Node.js call stacks.
pub fn is_stack_trace_line(line: &str) -> (b: bool)
    ensures
        b == is_stack_trace(line@),
{
    let v = chars_of(line);
    is_stack_trace_chars(v.as_slice())
}

} // verus!
