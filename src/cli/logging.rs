use vstd::prelude::*;

verus! {

/// Logging configuration: how many times `-v` was given.
pub struct Opts {
    pub verbose: u8,
}

#[derive(Clone, Copy, Debug, PartialEq, Eq, Structural)]
pub enum LogLevel {
    Error,
    Warn,
    Info,
    Debug,
    Trace,
}

/// The level of the tool's own messages for a verbosity: info, debug, then trace.
pub open spec fn self_level(level: u8) -> LogLevel {
    if level == 0 {
        LogLevel::Info
    } else if level == 1 {
        LogLevel::Debug
    } else {
        LogLevel::Trace
    }
}

/// The level of the dependencies' messages for a verbosity: info up to two, debug at
/// three, then trace.
pub open spec fn deps_level(level: u8) -> LogLevel {
    if level <= 2 {
        LogLevel::Info
    } else if level == 3 {
        LogLevel::Debug
    } else {
        LogLevel::Trace
    }
}

/// The name of a level in a log filter.
pub open spec fn level_name(l: LogLevel) -> Seq<char> {
    match l {
        LogLevel::Error => "ERROR"@,
        LogLevel::Warn => "WARN"@,
        LogLevel::Info => "INFO"@,
        LogLevel::Debug => "DEBUG"@,
        LogLevel::Trace => "TRACE"@,
    }
}

/// `s` with every `from` replaced by `to`.
pub open spec fn replace_char_spec(s: Seq<char>, from: char, to: char) -> Seq<char> {
    s.map_values(|c: char| if c == from { to } else { c })
}

/// Relies on str::replace with a character pattern: every occurrence of `from` gives
/// way to `to`, a one-character text; all other characters stay.
#[verifier::external_body]
fn replace_char(s: &str, from: char, to: &str) -> (r: String)
    requires
        to@.len() == 1,
    ensures
        r@ == replace_char_spec(s@, from, to@[0]),
{
    s.replace(from, to)
}

pub fn self_log_level_from_num(level: u8) -> (r: LogLevel)
    ensures
        r == self_level(level),
{
    match level {
        0 => LogLevel::Info,
        1 => LogLevel::Debug,
        _ => LogLevel::Trace,
    }
}

pub fn deps_log_level_from_num(level: u8) -> (r: LogLevel)
    ensures
        r == deps_level(level),
{
    match level {
        0 => LogLevel::Info,
        1 => LogLevel::Info,
        2 => LogLevel::Info,
        3 => LogLevel::Debug,
        _ => LogLevel::Trace,
    }
}

impl LogLevel {
    /// The name of the level in a log filter.
    pub fn name(&self) -> (r: &'static str)
        ensures
            r@ == level_name(*self),
    {
        match self {
            LogLevel::Error => "ERROR",
            LogLevel::Warn => "WARN",
            LogLevel::Info => "INFO",
            LogLevel::Debug => "DEBUG",
            LogLevel::Trace => "TRACE",
        }
    }
}

/// The log filter for a verbosity: the dependencies' level, then the tool's own level
/// under its package name as given and with `_` for `-`, then the filter the user set.
pub fn log_filter(level: u8, pkg: &str, pkg_underscored: &str, preferred: &str) -> (r: String)
    ensures
        r@ == level_name(deps_level(level)) + ","@ + pkg@ + "="@ + level_name(self_level(level)) + ","@
            + pkg_underscored@ + "="@ + level_name(self_level(level)) + ","@ + preferred@,
{
    let own = self_log_level_from_num(level).name();
    let mut f = String::from_str(deps_log_level_from_num(level).name());
    f.append(",");
    f.append(pkg);
    f.append("=");
    f.append(own);
    f.append(",");
    f.append(pkg_underscored);
    f.append("=");
    f.append(own);
    f.append(",");
    f.append(preferred);
    f
}

/// The log filter for a verbosity, for the package `pkg` (see `log_filter`).
pub fn log_level_from_num(level: u8, pkg: &str, preferred: &str) -> (r: String)
    ensures
        r@ == level_name(deps_level(level)) + ","@ + pkg@ + "="@ + level_name(self_level(level)) + ","@
            + replace_char_spec(pkg@, '-', '_') + "="@ + level_name(self_level(level)) + ","@ + preferred@,
{
    proof {
        reveal_strlit("_");
    }
    let u = replace_char(pkg, '-', "_");
    log_filter(level, pkg, u.as_str(), preferred)
}

} // verus!
