//! A plain log file next to the health reports (`<data>/logs/notizli.log`),
//! so a problem during a meeting leaves a trace to send to support.

use vstd::prelude::*;

use crate::clock;
use crate::paths;
use crate::paths::FilePath;
use crate::text;
use crate::text_laws;

verus! {

/// The log starts anew when it gets larger than this.
pub const MAX_BYTES: u64 = 1_000_000;

#[derive(Clone, Copy, Debug, PartialEq, Eq, Structural)]
pub enum Level {
    Error,
    Warn,
    Info,
    Debug,
    Trace,
}

impl Level {
    pub open spec fn text(self) -> Seq<char> {
        match self {
            Level::Error => "ERROR"@,
            Level::Warn => "WARN"@,
            Level::Info => "INFO"@,
            Level::Debug => "DEBUG"@,
            Level::Trace => "TRACE"@,
        }
    }

    pub fn as_str(self) -> (s: &'static str)
        ensures
            s@ == self.text(),
    {
        match self {
            Level::Error => "ERROR",
            Level::Warn => "WARN",
            Level::Info => "INFO",
            Level::Debug => "DEBUG",
            Level::Trace => "TRACE",
        }
    }

    /// What is written to the log: information and anything more pressing.
    pub fn enabled(self) -> (r: bool)
        ensures
            r == (self is Error || self is Warn || self is Info),
    {
        match self {
            Level::Error => true,
            Level::Warn => true,
            Level::Info => true,
            Level::Debug => false,
            Level::Trace => false,
        }
    }
}

/// A line of the log: when, how pressing, where, and what.
pub open spec fn entry(when: Seq<char>, level: Level, target: Seq<char>, message: Seq<char>) -> Seq<
    char,
> {
    when + " "@ + text::padded_right(level.text(), 5, ' ') + " "@ + target + ": "@ + message
        + "\n"@
}

/// A line of the log, for a moment given by its text.
pub fn line_at(when: &str, level: Level, target: &str, message: &str) -> (l: String)
    ensures
        l@ == entry(when@, level, target@, message@),
{
    let mut l = when.to_owned();
    l.append(" ");
    l.append(&text::pad_right(level.as_str(), 5, ' '));
    l.append(" ");
    l.append(target);
    l.append(": ");
    l.append(message);
    l.append("\n");
    l
}

/// A line of the log, for a moment in nanoseconds since the start of 1970; `None`
/// outside the years that are known.
pub fn line(now_ns: i128, level: Level, target: &str, message: &str) -> (r: Option<String>)
    ensures
        (r is Some) == clock::is_known(now_ns),
        r matches Some(l) ==> l@ == entry(
            clock::spelled(clock::utc_of(now_ns)),
            level,
            target@,
            message@,
        ),
{
    match clock::utc(now_ns) {
        None => None,
        Some(u) => {
            proof {
                clock::law_a_moment_has_one_date(u, now_ns);
                clock::lemma_known_moments(now_ns);
            }
            let when = clock::spelled_of(u);
            Some(line_at(when.as_str(), level, target, message))
        },
    }
}

/// Whether the log starts anew before the next line; `None` when it is not open.
pub fn rotates(len: Option<u64>) -> (r: bool)
    ensures
        r == (len matches Some(n) && n > 1_000_000),
{
    match len {
        Some(n) => n > MAX_BYTES,
        None => false,
    }
}

/// Where the log is.
pub fn log_path(logs_dir: &str) -> (p: FilePath)
    ensures
        p@ == (paths::Place { folder: paths::at(logs_dir@), name: "notizli.log"@ }),
{
    FilePath::new(logs_dir, "notizli.log")
}

/// Where it goes when it starts anew.
pub fn old_log_path(log: &FilePath) -> (p: FilePath)
    ensures
        p@ == (paths::Place { folder: log@.folder, name: paths::renamed(log@.name, "old.log"@) }),
{
    log.with_extension("old.log")
}

/// A line of the log is one line: the moment, how pressing it is in five characters,
/// where it comes from, and the message.
pub proof fn law_lines_hold_what_happened(
    when: Seq<char>,
    level: Level,
    target: Seq<char>,
    message: Seq<char>,
)
    ensures
        ({
            let l = entry(when, level, target, message);
            let n = when.len() as int;
            let t = target.len() as int;
            &&& l.len() == n + t + message.len() + 10
            &&& l.take(n) == when
            &&& l[n] == ' ' && l[n + 6] == ' '
            &&& l.subrange(n + 7, n + 7 + t) == target
            &&& l[n + 7 + t] == ':' && l[n + 8 + t] == ' '
            &&& l.subrange(n + 9 + t, l.len() - 1) == message
            &&& l.last() == '\n'
            &&& l.subrange(n + 1, n + 6) == match level {
                Level::Error => "ERROR"@,
                Level::Warn => "WARN "@,
                Level::Info => "INFO "@,
                Level::Debug => "DEBUG"@,
                Level::Trace => "TRACE"@,
            }
        }),
{
    reveal_strlit("ERROR");
    reveal_strlit("WARN");
    reveal_strlit("INFO");
    reveal_strlit("WARN ");
    reveal_strlit("INFO ");
    reveal_strlit("DEBUG");
    reveal_strlit("TRACE");
    reveal_strlit(" ");
    reveal_strlit(": ");
    reveal_strlit("\n");
    let l = entry(when, level, target, message);
    let n = when.len() as int;
    let t = target.len() as int;
    let p = text::padded_right(level.text(), 5, ' ');
    text_laws::law_filling_up_makes_a_text_wide_enough(level.text(), 5, ' ');
    assert(p.len() == 5);
    assert(l.take(n) =~= when);
    assert(l.subrange(n + 1, n + 6) =~= p);
    assert(p =~= match level {
        Level::Error => "ERROR"@,
        Level::Warn => "WARN "@,
        Level::Info => "INFO "@,
        Level::Debug => "DEBUG"@,
        Level::Trace => "TRACE"@,
    });
    assert(l.subrange(n + 7, n + 7 + t) =~= target);
    assert(l.subrange(n + 9 + t, l.len() - 1) =~= message);
}

} // verus!
