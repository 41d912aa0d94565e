//! Log levels and the logger handle. The handle only decides what is worth
//! emitting; the process wires it to an output sink.

use crate::hashing::push_char;
use vstd::prelude::*;
use vstd::string::{StrSliceExecFns, StringExecFns};

verus! {

#[derive(Clone, Copy, Debug, PartialEq, Eq, Structural)]
pub enum Level {
    Error,
    Warn,
    Info,
    Debug,
}

impl Default for Level {
    fn default() -> (r: Level)
        ensures
            r == Level::Info,
    {
        Level::Info
    }
}

/// How severe a level is; smaller is more severe.
pub open spec fn severity(l: Level) -> int {
    match l {
        Level::Error => 0,
        Level::Warn => 1,
        Level::Info => 2,
        Level::Debug => 3,
    }
}

/// An upper-case ASCII letter mapped to lower case; all else unchanged.
pub open spec fn lower_char(c: char) -> char {
    if 'A' <= c && c <= 'Z' {
        (((c as u8) + 32) as u8) as char
    } else {
        c
    }
}

/// The text with its upper-case ASCII letters lowered.
pub open spec fn lower_chars(s: Seq<char>) -> Seq<char> {
    s.map_values(|c: char| lower_char(c))
}

/// Lowers the upper-case ASCII letters of `s`.
fn to_ascii_lower(s: &str) -> (r: String)
    ensures
        r@ == lower_chars(s@),
{
    let len = s.unicode_len();
    let mut r = String::new();
    let mut i: usize = 0;
    while i < len
        invariant
            i <= len,
            len == s@.len(),
            r@ == lower_chars(s@).take(i as int),
        decreases len - i,
    {
        let c = s.get_char(i);
        if 'A' <= c && c <= 'Z' {
            push_char(&mut r, ((c as u8) + 32) as char);
        } else {
            push_char(&mut r, c);
        }
        proof {
            assert(lower_chars(s@)[i as int] == lower_char(s@[i as int]));
            assert(r@ =~= lower_chars(s@).take(i + 1));
        }
        i = i + 1;
    }
    proof {
        assert(r@ =~= lower_chars(s@));
    }
    r
}

impl Level {
    /// Reads a level name, upper or lower case; valid values are
    /// error|warn|info|debug.
    pub fn from_string(s: &str) -> (res: Result<Level, String>)
        ensures
            match res {
                Ok(l) => (lower_chars(s@) == "error"@ && l == Level::Error) || (lower_chars(s@)
                    == "warn"@ && l == Level::Warn) || (lower_chars(s@) == "info"@ && l
                    == Level::Info) || (lower_chars(s@) == "debug"@ && l == Level::Debug),
                Err(m) => lower_chars(s@) != "error"@ && lower_chars(s@) != "warn"@
                    && lower_chars(s@) != "info"@ && lower_chars(s@) != "debug"@ && m@ == s@
                    + " is not a valid level"@,
            },
    {
        let lowered = to_ascii_lower(s);
        if lowered == "error".to_owned() {
            Ok(Level::Error)
        } else if lowered == "warn".to_owned() {
            Ok(Level::Warn)
        } else if lowered == "info".to_owned() {
            Ok(Level::Info)
        } else if lowered == "debug".to_owned() {
            Ok(Level::Debug)
        } else {
            Err(s.to_owned().concat(" is not a valid level"))
        }
    }

    /// Reads a level from its numeric code, 0 (error) through 3 (debug).
    pub fn from_u8(x: &u8) -> (res: Result<Level, String>)
        ensures
            match res {
                Ok(l) => severity(l) == *x as int && *x <= 3,
                Err(_) => *x > 3,
            },
    {
        match *x {
            0 => Ok(Level::Error),
            1 => Ok(Level::Warn),
            2 => Ok(Level::Info),
            3 => Ok(Level::Debug),
            _ => Err("not a valid level".to_owned()),
        }
    }
}

/// A logger handle: a configured verbosity threshold. What to do with an
/// enabled line (format it, write it) is the caller's business.
#[derive(Clone, Copy, Debug)]
pub struct Logger {
    pub level: Level,
}

/// A logger at the given threshold.
pub fn new(level: Level) -> (l: Logger)
    ensures
        l.level == level,
{
    Logger { level }
}

impl Logger {
    /// Whether a line at `level` clears this logger's threshold.
    pub fn enabled(&self, level: Level) -> (b: bool)
        ensures
            b == (severity(level) <= severity(self.level)),
    {
        let line = match level {
            Level::Error => 0u8,
            Level::Warn => 1u8,
            Level::Info => 2u8,
            Level::Debug => 3u8,
        };
        let mine = match self.level {
            Level::Error => 0u8,
            Level::Warn => 1u8,
            Level::Info => 2u8,
            Level::Debug => 3u8,
        };
        line <= mine
    }
}

} // verus!
