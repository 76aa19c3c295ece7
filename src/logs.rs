//! Log levels and user names as they appear in the daemon's logs.

use vstd::prelude::*;
use crate::text::{chars_of, str_eq};

verus! {

/// The uppercase form of a text, as `str::to_uppercase` gives it.
pub uninterp spec fn uppercase_of(s: Seq<char>) -> Seq<char>;

/// Relies on `str::to_uppercase`, whose result depends on the text alone.
#[verifier::external_body]
fn uppercase(s: &str) -> (r: String)
    ensures
        r@ == uppercase_of(s@),
{
    s.to_uppercase()
}

/// Whether `char::is_alphanumeric` holds of a character.
pub uninterp spec fn alphanumeric(c: char) -> bool;

/// Relies on `char::is_alphanumeric`: alphabetic or numeric in Unicode,
/// which among ASCII characters are exactly the letters and digits.
#[verifier::external_body]
fn is_alphanumeric(c: char) -> (r: bool)
    ensures
        r == alphanumeric(c),
        (c as u32) < 128 ==> (r <==> (('a' <= c && c <= 'z') || ('A' <= c && c <= 'Z') || ('0' <= c
            && c <= '9'))),
{
    c.is_alphanumeric()
}

/// Severity of a log entry.
#[derive(Debug, Clone, Copy, PartialEq, Eq, Structural)]
pub enum LogLevel {
    Error,
    Warn,
    Info,
    Debug,
}

/// The level that an uppercase name denotes.
pub open spec fn level_named(u: Seq<char>) -> Option<LogLevel> {
    if u == "ERROR"@ || u == "ERR"@ {
        Some(LogLevel::Error)
    } else if u == "WARN"@ || u == "WARNING"@ {
        Some(LogLevel::Warn)
    } else if u == "INFO"@ {
        Some(LogLevel::Info)
    } else if u == "DEBUG"@ || u == "DBG"@ {
        Some(LogLevel::Debug)
    } else {
        None
    }
}

impl LogLevel {
    /// The level named by an uppercase text: `ERROR`/`ERR`, `WARN`/`WARNING`,
    /// `INFO`, `DEBUG`/`DBG`.
    pub fn from_upper(u: &str) -> (r: Option<LogLevel>)
        ensures
            r == level_named(u@),
    {
        if str_eq(u, "ERROR") || str_eq(u, "ERR") {
            Some(LogLevel::Error)
        } else if str_eq(u, "WARN") || str_eq(u, "WARNING") {
            Some(LogLevel::Warn)
        } else if str_eq(u, "INFO") {
            Some(LogLevel::Info)
        } else if str_eq(u, "DEBUG") || str_eq(u, "DBG") {
            Some(LogLevel::Debug)
        } else {
            None
        }
    }

    /// The level named by a text, in any case.
    pub fn parse_opt(s: &str) -> (r: Option<LogLevel>)
        ensures
            r == level_named(uppercase_of(s@)),
    {
        let u = uppercase(s);
        LogLevel::from_upper(u.as_str())
    }
}

impl std::str::FromStr for LogLevel {
    type Err = ();

    /// The level named by a text, in any case.
    fn from_str(s: &str) -> Result<LogLevel, ()> {
        match LogLevel::parse_opt(s) {
            Some(level) => Ok(level),
            None => Err(()),
        }
    }
}

/// A character kept in a user name.
pub open spec fn name_char(c: char) -> bool {
    alphanumeric(c) || c == '_' || c == '-'
}

/// The characters of `s` that may stand in a user name, in order.
pub open spec fn name_chars(s: Seq<char>) -> Seq<char>
    decreases s.len(),
{
    if s.len() == 0 {
        s
    } else if name_char(s.last()) {
        name_chars(s.drop_last()).push(s.last())
    } else {
        name_chars(s.drop_last())
    }
}

/// Keeps only alphanumeric characters, `_` and `-`, so that the name
/// cannot reach outside a path component.
pub fn sanitize_username(username: &str) -> (r: String)
    ensures
        r@ == name_chars(username@),
{
    let v = chars_of(username);
    let mut r = String::new();
    let mut i: usize = 0;
    while i < v.len()
        invariant
            i <= v@.len(),
            v@ == username@,
            r@ == name_chars(v@.subrange(0, i as int)),
        decreases v@.len() - i,
    {
        let ghost pre = v@.subrange(0, i as int + 1);
        assert(pre.drop_last() =~= v@.subrange(0, i as int));
        let c = v[i];
        if is_alphanumeric(c) || c == '_' || c == '-' {
            r.push(c);
        }
        i = i + 1;
    }
    assert(v@.subrange(0, v@.len() as int) =~= v@);
    r
}

} // verus!
