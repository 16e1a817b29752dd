//! Choosing how much the game logs.
use vstd::prelude::*;

use crate::text::chars_of;

verus! {

/// How much is logged, from nothing to everything.
#[derive(Clone, Copy, Debug, PartialEq, Eq, Structural)]
pub enum LogLevel {
    Off,
    Error,
    Warn,
    Info,
    Debug,
    Trace,
}

/// The level that `name` spells: one of "trace", "debug", "info", "warn", "error" and "off",
/// in lower case; any other name spells none.
pub open spec fn level_named(name: Seq<char>) -> Option<LogLevel> {
    if name == seq!['t', 'r', 'a', 'c', 'e'] {
        Some(LogLevel::Trace)
    } else if name == seq!['d', 'e', 'b', 'u', 'g'] {
        Some(LogLevel::Debug)
    } else if name == seq!['i', 'n', 'f', 'o'] {
        Some(LogLevel::Info)
    } else if name == seq!['w', 'a', 'r', 'n'] {
        Some(LogLevel::Warn)
    } else if name == seq!['e', 'r', 'r', 'o', 'r'] {
        Some(LogLevel::Error)
    } else if name == seq!['o', 'f', 'f'] {
        Some(LogLevel::Off)
    } else {
        None
    }
}

/// The level logged when none is asked for: `Debug` in a debug build, `Info` otherwise.
pub open spec fn default_level(debug_build: bool) -> LogLevel {
    if debug_build {
        LogLevel::Debug
    } else {
        LogLevel::Info
    }
}

/// The level chosen: the one asked for on the command line, else the one the build was
/// configured with, else the default; `None` when the name asked for spells no level.
pub open spec fn chosen_level(
    command_line: Option<Seq<char>>,
    built_in: Option<Seq<char>>,
    debug_build: bool,
) -> Option<LogLevel> {
    match command_line {
        Some(name) => level_named(name),
        None => match built_in {
            Some(name) => level_named(name),
            None => Some(default_level(debug_build)),
        },
    }
}

/// A level named on the command line decides, whatever the build's setting and kind; with
/// no name there, the build's setting decides, whatever the kind; only with neither does
/// the kind of build matter.
pub proof fn lemma_command_line_takes_precedence(
    name: Seq<char>,
    built_in: Option<Seq<char>>,
    other_built_in: Option<Seq<char>>,
    debug_build: bool,
    other_debug_build: bool,
)
    ensures
        chosen_level(Some(name), built_in, debug_build) == level_named(name),
        chosen_level(Some(name), built_in, debug_build) == chosen_level(
            Some(name),
            other_built_in,
            other_debug_build,
        ),
        chosen_level(None, Some(name), debug_build) == level_named(name),
        chosen_level(None, Some(name), debug_build) == chosen_level(
            None,
            Some(name),
            other_debug_build,
        ),
        chosen_level(None, None, true) == Some(LogLevel::Debug),
        chosen_level(None, None, false) == Some(LogLevel::Info),
{
}

/// Each level has one name: two names that spell the same level are the same name.
pub proof fn lemma_level_names_distinct(a: Seq<char>, b: Seq<char>)
    requires
        level_named(a) is Some,
        level_named(a) == level_named(b),
    ensures
        a == b,
{
}

fn same_chars(a: &Vec<char>, b: &Vec<char>) -> (res: bool)
    ensures
        res == (a@ == b@),
{
    if a.len() != b.len() {
        return false;
    }
    let n = a.len();
    for i in 0..n
        invariant
            n == a@.len(),
            n == b@.len(),
            forall|j: int| 0 <= j < i ==> a@[j] == b@[j],
    {
        if a[i] != b[i] {
            return false;
        }
    }
    assert(a@ =~= b@);
    true
}

/// The level that `name` spells, or `None` when it spells none.
pub fn parse_log_level(name: &str) -> (res: Option<LogLevel>)
    ensures
        res == level_named(name@),
{
    let cs = chars_of(name);
    if same_chars(&cs, &vec!['t', 'r', 'a', 'c', 'e']) {
        Some(LogLevel::Trace)
    } else if same_chars(&cs, &vec!['d', 'e', 'b', 'u', 'g']) {
        Some(LogLevel::Debug)
    } else if same_chars(&cs, &vec!['i', 'n', 'f', 'o']) {
        Some(LogLevel::Info)
    } else if same_chars(&cs, &vec!['w', 'a', 'r', 'n']) {
        Some(LogLevel::Warn)
    } else if same_chars(&cs, &vec!['e', 'r', 'r', 'o', 'r']) {
        Some(LogLevel::Error)
    } else if same_chars(&cs, &vec!['o', 'f', 'f']) {
        Some(LogLevel::Off)
    } else {
        None
    }
}

/// The level to log at: the one named on the command line takes precedence over the one the
/// build was configured with; with neither, a debug build logs at `Debug` and any other at
/// `Info`. `None` when the name that applies spells no level.
pub fn log_level(command_line: Option<&str>, built_in: Option<&str>, debug_build: bool) -> (res:
    Option<LogLevel>)
    ensures
        res == chosen_level(
            match command_line {
                Some(s) => Some(s@),
                None => None,
            },
            match built_in {
                Some(s) => Some(s@),
                None => None,
            },
            debug_build,
        ),
{
    match command_line {
        Some(name) => parse_log_level(name),
        None => match built_in {
            Some(name) => parse_log_level(name),
            None => {
                if debug_build {
                    Some(LogLevel::Debug)
                } else {
                    Some(LogLevel::Info)
                }
            },
        },
    }
}

} // verus!
