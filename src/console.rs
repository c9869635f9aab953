//! What the console and the kernel logger emit, as bytes; the byte-by-byte
//! output itself belongs to the platform.
use vstd::prelude::*;
use vstd::string::StringSliceAdditionalSpecFns;

verus! {

/// The bytes the console emits for `s`, one character write each, in order.
pub fn print(s: &str) -> (r: Vec<u8>)
    ensures
        r@ == s.spec_bytes(),
{
    let b = s.as_bytes();
    let mut out: Vec<u8> = Vec::new();
    let mut i: usize = 0;
    while i < b.len()
        invariant
            i <= b@.len(),
            b@ == s.spec_bytes(),
            out@ == b@.take(i as int),
        decreases b@.len() - i,
    {
        out.push(b[i]);
        proof {
            assert(b@.take(i as int + 1) =~= b@.take(i as int).push(b@[i as int]));
        }
        i += 1;
    }
    proof {
        assert(b@.take(b@.len() as int) =~= b@);
    }
    out
}

/// Severity of a log record.
#[derive(Debug, Clone, Copy, PartialEq, Eq, Structural)]
pub enum LogLevel {
    Error,
    Warn,
    Info,
    Debug,
    Trace,
}

/// The kernel's logger: each record goes out in the color of its level.
pub struct Logger;

/// ANSI color code of each level.
pub open spec fn color_of(level: LogLevel) -> u8 {
    match level {
        LogLevel::Error => 31,
        LogLevel::Warn => 93,
        LogLevel::Info => 34,
        LogLevel::Debug => 32,
        LogLevel::Trace => 90,
    }
}

impl Logger {
    /// Every level is written.
    pub fn enabled(&self, level: LogLevel) -> (r: bool)
        ensures
            r,
    {
        true
    }

    /// The ANSI color code a record of `level` is written in: red, bright
    /// yellow, blue, green and bright black, from errors down to traces.
    pub fn color_code(level: LogLevel) -> (r: u8)
        ensures
            r == color_of(level),
    {
        match level {
            LogLevel::Error => 31,
            LogLevel::Warn => 93,
            LogLevel::Info => 34,
            LogLevel::Debug => 32,
            LogLevel::Trace => 90,
        }
    }
}

} // verus!
