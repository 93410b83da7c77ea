//! What goes into `viewer.log`, next to the executable.
//!
//! There is no rotation by design; the file is meant to be deleted by hand.
use vstd::prelude::*;

use crate::text::{decimal, push_decimal, chars_of};

verus! {

/// How serious a log record is.
#[derive(Clone, Copy, Debug, PartialEq, Eq, Structural)]
pub enum Level {
    Error,
    Warn,
    Info,
    Debug,
    Trace,
}

/// The most detailed level that is recorded at all.
#[derive(Clone, Copy, Debug, PartialEq, Eq, Structural)]
pub enum LevelFilter {
    Off,
    Error,
    Warn,
    Info,
    Debug,
    Trace,
}

/// The viewer's own log target prefix, used to keep the very chatty debug
/// output of the window toolkit out of `viewer.log`.
pub const OWN_TARGET: &'static str = "imageviewer";

/// Whether `prefix` starts `s`.
pub open spec fn starts_with(s: Seq<char>, prefix: Seq<char>) -> bool {
    prefix.len() <= s.len() && s.take(prefix.len() as int) == prefix
}

/// Whether a record of `level` from `target` is written: problems always,
/// whoever reported them; detail only in verbose mode and only from the
/// viewer itself.
pub open spec fn is_recorded(level: Level, target: Seq<char>, verbose: bool) -> bool {
    match level {
        Level::Error | Level::Warn => true,
        _ => verbose && starts_with(target, OWN_TARGET@),
    }
}

fn has_prefix(s: &str, prefix: &str) -> (r: bool)
    ensures
        r == starts_with(s@, prefix@),
{
    let sv = chars_of(s);
    let pv = chars_of(prefix);
    if pv.len() > sv.len() {
        return false;
    }
    let mut k: usize = 0;
    while k < pv.len()
        invariant
            k <= pv@.len() <= sv@.len(),
            sv@ == s@,
            pv@ == prefix@,
            forall|m: int| 0 <= m < k ==> sv@[m] == pv@[m],
        decreases pv.len() - k,
    {
        if sv[k] != pv[k] {
            assert(sv@.take(pv@.len() as int)[k as int] != pv@[k as int]);
            return false;
        }
        k = k + 1;
    }
    assert(sv@.take(pv@.len() as int) =~= pv@);
    true
}

/// A prefix is exactly what some continuation completes to the whole: `s`
/// starts with `prefix` when `s` is `prefix` followed by something, nothing
/// included.
pub proof fn starts_with_means_prefix(s: Seq<char>, prefix: Seq<char>)
    ensures
        starts_with(s, prefix) <==> exists|rest: Seq<char>| s == prefix + rest,
{
    if starts_with(s, prefix) {
        assert(s =~= prefix + s.skip(prefix.len() as int));
    }
    if exists|rest: Seq<char>| s == prefix + rest {
        let rest = choose|rest: Seq<char>| s == prefix + rest;
        assert(s.take(prefix.len() as int) =~= prefix);
    }
}

/// What the log keeps: errors and warnings from anyone, always; in verbose
/// mode every record whose target is the viewer's own name or lies beneath
/// it (`imageviewer`, `imageviewer::viewer`, ...); outside verbose mode no
/// detail at all.
pub proof fn what_the_log_keeps(level: Level, target: Seq<char>, rest: Seq<char>)
    ensures
        level == Level::Error || level == Level::Warn ==> is_recorded(level, target, false),
        is_recorded(level, OWN_TARGET@ + rest, true),
        !(level == Level::Error || level == Level::Warn) ==> !is_recorded(level, target, false),
{
    starts_with_means_prefix(OWN_TARGET@ + rest, OWN_TARGET@);
}

/// Whether a record of `level` from `target` is written.
pub fn enabled(level: Level, target: &str, verbose: bool) -> (r: bool)
    ensures
        r == is_recorded(level, target@, verbose),
{
    match level {
        Level::Error | Level::Warn => true,
        _ => verbose && has_prefix(target, OWN_TARGET),
    }
}

/// How the logger is set up.
pub struct LoggerSettings {
    /// Whether `viewer.log` is opened at all.
    pub open_file: bool,
    /// Whether detail from the viewer itself is recorded.
    pub verbose: bool,
    /// The most detailed level that is recorded.
    pub max_level: LevelFilter,
}

/// The logger's settings: no file and nothing recorded when logging is off;
/// otherwise debug detail in verbose mode and warnings and errors only
/// without it.
pub fn init(enabled: bool, verbose: bool) -> (s: LoggerSettings)
    ensures
        s.open_file == enabled,
        s.verbose == verbose,
        s.max_level == if !enabled {
            LevelFilter::Off
        } else if verbose {
            LevelFilter::Debug
        } else {
            LevelFilter::Warn
        },
{
    let max_level = if !enabled {
        LevelFilter::Off
    } else if verbose {
        LevelFilter::Debug
    } else {
        LevelFilter::Warn
    };
    LoggerSettings { open_file: enabled, verbose, max_level }
}

/// A level's name, padded to five characters.
pub open spec fn level_column(level: Level) -> Seq<char> {
    match level {
        Level::Error => "ERROR"@,
        Level::Warn => "WARN "@,
        Level::Info => "INFO "@,
        Level::Debug => "DEBUG"@,
        Level::Trace => "TRACE"@,
    }
}

/// Where a record came from: its target, or its source file when the target
/// is empty (the toolkit's own helpers log with an empty target).
pub open spec fn origin_of(target: Seq<char>, file: Option<Seq<char>>) -> Seq<char> {
    if target.len() == 0 {
        match file {
            Some(f) => f,
            None => "unknown"@,
        }
    } else {
        target
    }
}

/// `:<line>`, or nothing when the line is unknown.
pub open spec fn line_column(line: Option<u32>) -> Seq<char> {
    match line {
        Some(l) => seq![':'] + decimal(l as nat),
        None => Seq::empty(),
    }
}

/// One line of `viewer.log`: `<time> [<level>] <origin><:line> - <message>`.
pub open spec fn log_line_text(
    timestamp: Seq<char>,
    level: Level,
    target: Seq<char>,
    file: Option<Seq<char>>,
    line: Option<u32>,
    message: Seq<char>,
) -> Seq<char> {
    timestamp + " ["@ + level_column(level) + "] "@ + origin_of(target, file) + line_column(line) + " - "@
        + message + seq!['\n']
}

/// Formats one line of `viewer.log`.
pub fn log_line(
    timestamp: &str,
    level: Level,
    target: &str,
    file: Option<&str>,
    line: Option<u32>,
    message: &str,
) -> (out: String)
    ensures
        out@ == log_line_text(
            timestamp@,
            level,
            target@,
            match file {
                Some(f) => Some(f@),
                None => None,
            },
            line,
            message@,
        ),
{
    let mut out = String::new();
    out.push_str(timestamp);
    out.push_str(" [");
    match level {
        Level::Error => out.push_str("ERROR"),
        Level::Warn => out.push_str("WARN "),
        Level::Info => out.push_str("INFO "),
        Level::Debug => out.push_str("DEBUG"),
        Level::Trace => out.push_str("TRACE"),
    }
    out.push_str("] ");
    let ghost before_origin = out@;
    if chars_of(target).len() == 0 {
        match file {
            Some(f) => out.push_str(f),
            None => out.push_str("unknown"),
        }
    } else {
        out.push_str(target);
    }
    assert(out@ =~= before_origin + origin_of(
        target@,
        match file {
            Some(f) => Some(f@),
            None => None,
        },
    ));
    let ghost before_line = out@;
    if let Some(l) = line {
        out.push(':');
        push_decimal(&mut out, l as u64);
    }
    assert(out@ =~= before_line + line_column(line));
    out.push_str(" - ");
    out.push_str(message);
    out.push('\n');
    proof {
        assert(out@ =~= log_line_text(
            timestamp@,
            level,
            target@,
            match file {
                Some(f) => Some(f@),
                None => None,
            },
            line,
            message@,
        ));
    }
    out
}

} // verus!
