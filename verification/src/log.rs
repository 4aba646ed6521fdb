//! Log levels, the level filter, the text of a log line and when the log
//! file is rotated. Writing the log file is left to the caller.

use vstd::prelude::*;
use vstd::string::StringExecFns;
use crate::text::{chars_of, trim_bounds, trim_seq, digit_char, push_digit};
use crate::control::{codes, lower_seq};

verus! {

/// Severity of a log line, from most to least severe.
#[derive(Clone, Copy, Debug, PartialEq, Eq, Structural)]
pub enum Level {
    Error,
    Warn,
    Info,
    Debug,
}

/// Threshold that lets no line through.
pub const LEVEL_OFF: u8 = 255;

impl Level {
    /// Rank of the level: 0 for `Error` up to 3 for `Debug`.
    pub open spec fn spec_rank(self) -> u8 {
        match self {
            Level::Error => 0,
            Level::Warn => 1,
            Level::Info => 2,
            Level::Debug => 3,
        }
    }

    /// Rank of the level (see [`Level::spec_rank`]).
    pub fn rank(self) -> (r: u8)
        ensures
            r == self.spec_rank(),
    {
        match self {
            Level::Error => 0,
            Level::Warn => 1,
            Level::Info => 2,
            Level::Debug => 3,
        }
    }

    /// The tag written in front of a log line.
    pub fn as_str(self) -> (r: &'static str)
        ensures
            r@ == match self {
                Level::Error => "ERROR"@,
                Level::Warn => "WARN"@,
                Level::Info => "INFO"@,
                Level::Debug => "DEBUG"@,
            },
    {
        match self {
            Level::Error => "ERROR",
            Level::Warn => "WARN",
            Level::Info => "INFO",
            Level::Debug => "DEBUG",
        }
    }
}

/// Whether lines of level `lv` pass the threshold `current`: a rank lets
/// that level and the more severe ones through; [`LEVEL_OFF`] lets nothing
/// through.
pub fn enabled(lv: Level, current: u8) -> (r: bool)
    ensures
        r == (current != LEVEL_OFF && lv.spec_rank() <= current),
{
    current != LEVEL_OFF && lv.rank() <= current
}

/// The threshold named by a level setting, ignoring surrounding whitespace
/// and ASCII case: `off`, `error`, `warn`, `info` or `debug`.
pub open spec fn level_named(s: Seq<char>) -> Option<u8> {
    let t = lower_seq(trim_seq(s));
    if t == codes("off"@) {
        Some(LEVEL_OFF)
    } else if t == codes("error"@) {
        Some(Level::Error.spec_rank())
    } else if t == codes("warn"@) {
        Some(Level::Warn.spec_rank())
    } else if t == codes("info"@) {
        Some(Level::Info.spec_rank())
    } else if t == codes("debug"@) {
        Some(Level::Debug.spec_rank())
    } else {
        None
    }
}

/// Whether the lower-cased `v[a..b]` spells `lit`.
fn lower_span_is(v: &Vec<char>, a: usize, b: usize, lit: &str) -> (r: bool)
    requires
        a <= b <= v@.len(),
    ensures
        r == (lower_seq(v@.subrange(a as int, b as int)) == codes(lit@)),
{
    let l = chars_of(lit);
    if b - a != l.len() {
        assert(lower_seq(v@.subrange(a as int, b as int)).len() != codes(lit@).len());
        return false;
    }
    let mut i: usize = 0;
    while i < l.len()
        invariant
            a <= b <= v@.len(),
            b - a == l@.len(),
            l@ == lit@,
            i <= l@.len(),
            forall|k: int| 0 <= k < i ==> crate::control::ascii_lower(v@[a + k]) == l@[k] as u32,
        decreases l@.len() - i,
    {
        let c = v[a + i];
        let lc: u32 = if 'A' <= c && c <= 'Z' {
            c as u32 + 32
        } else {
            c as u32
        };
        if lc != l[i] as u32 {
            assert(lower_seq(v@.subrange(a as int, b as int))[i as int] != codes(lit@)[i as int]);
            return false;
        }
        i += 1;
    }
    assert(lower_seq(v@.subrange(a as int, b as int)) =~= codes(lit@));
    true
}

/// The threshold named by `s` (see [`level_named`]).
pub fn parse_level(s: &str) -> (r: Option<u8>)
    ensures
        r == level_named(s@),
{
    let v = chars_of(s);
    let (a, b) = trim_bounds(&v, 0, v.len());
    proof {
        assert(v@.subrange(0, v@.len() as int) =~= s@);
    }
    if lower_span_is(&v, a, b, "off") {
        Some(LEVEL_OFF)
    } else if lower_span_is(&v, a, b, "error") {
        Some(Level::Error.rank())
    } else if lower_span_is(&v, a, b, "warn") {
        Some(Level::Warn.rank())
    } else if lower_span_is(&v, a, b, "info") {
        Some(Level::Info.rank())
    } else if lower_span_is(&v, a, b, "debug") {
        Some(Level::Debug.rank())
    } else {
        None
    }
}

/// Applies a level setting to the threshold `current`: a recognised name
/// sets it, anything else leaves it as it was. Returns whether it was set.
pub fn set_level_str(s: &str, current: &mut u8) -> (r: bool)
    ensures
        match level_named(s@) {
            Some(t) => r && *final(current) == t,
            None => !r && *final(current) == *old(current),
        },
{
    match parse_level(s) {
        Some(t) => {
            *current = t;
            true
        },
        None => false,
    }
}

/// A number below 100 as two decimal digits.
pub open spec fn two_digits(n: nat) -> Seq<char> {
    seq![digit_char(n / 10 % 10), digit_char(n % 10)]
}

/// A number below 1000 as three decimal digits.
pub open spec fn three_digits(n: nat) -> Seq<char> {
    seq![digit_char(n / 100 % 10), digit_char(n / 10 % 10), digit_char(n % 10)]
}

/// The level tag of a log line, padded with spaces to five characters.
pub open spec fn level_label(lv: Level) -> Seq<char> {
    match lv {
        Level::Error => "ERROR"@,
        Level::Warn => "WARN "@,
        Level::Info => "INFO "@,
        Level::Debug => "DEBUG"@,
    }
}

/// The time of a log line `secs` seconds and `millis` milliseconds after the
/// Unix epoch: `HH:MM:SS.mmm` (hours of the day).
pub open spec fn timestamp_text(secs: nat, millis: nat) -> Seq<char> {
    two_digits(secs / 3600 % 24) + ":"@ + two_digits(secs / 60 % 60) + ":"@ + two_digits(secs % 60) + "."@
        + three_digits(millis)
}

/// A log line: `[time] [LEVEL] message` and a line break.
pub open spec fn log_line_text(secs: nat, millis: nat, lv: Level, msg: Seq<char>) -> Seq<char> {
    "["@ + timestamp_text(secs, millis) + "] ["@ + level_label(lv) + "] "@ + msg + "\n"@
}

fn push_two(s: &mut String, n: u64)
    requires
        n < 100,
    ensures
        final(s)@ == old(s)@ + two_digits(n as nat),
{
    push_digit(s, n / 10 % 10);
    push_digit(s, n % 10);
    assert(final(s)@ =~= old(s)@ + two_digits(n as nat));
}

fn push_three(s: &mut String, n: u64)
    requires
        n < 1000,
    ensures
        final(s)@ == old(s)@ + three_digits(n as nat),
{
    push_digit(s, n / 100 % 10);
    push_digit(s, n / 10 % 10);
    push_digit(s, n % 10);
    assert(final(s)@ =~= old(s)@ + three_digits(n as nat));
}

fn push_timestamp(s: &mut String, secs: u64, millis: u32)
    requires
        millis < 1000,
    ensures
        final(s)@ == old(s)@ + timestamp_text(secs as nat, millis as nat),
{
    let ghost s0 = s@;
    push_two(s, secs / 3600 % 24);
    s.append(":");
    push_two(s, secs / 60 % 60);
    s.append(":");
    push_two(s, secs % 60);
    s.append(".");
    push_three(s, millis as u64);
    assert(s@ =~= s0 + timestamp_text(secs as nat, millis as nat));
}

/// Writes the time of a log line (see [`timestamp_text`]).
pub fn timestamp(secs: u64, millis: u32) -> (r: String)
    requires
        millis < 1000,
    ensures
        r@ == timestamp_text(secs as nat, millis as nat),
{
    let mut s = String::new();
    push_timestamp(&mut s, secs, millis);
    assert(Seq::<char>::empty() + timestamp_text(secs as nat, millis as nat) =~= timestamp_text(
        secs as nat,
        millis as nat,
    ));
    s
}

/// Writes a log line (see [`log_line_text`]).
pub fn log_line(secs: u64, millis: u32, lv: Level, msg: &str) -> (r: String)
    requires
        millis < 1000,
    ensures
        r@ == log_line_text(secs as nat, millis as nat, lv, msg@),
{
    let mut s = String::from_str("[");
    push_timestamp(&mut s, secs, millis);
    s.append("] [");
    let label = match lv {
        Level::Error => "ERROR",
        Level::Warn => "WARN ",
        Level::Info => "INFO ",
        Level::Debug => "DEBUG",
    };
    s.append(label);
    s.append("] ");
    s.append(msg);
    s.append("\n");
    s
}

/// Size above which the log file is moved aside before the next line.
pub const MAX_LOG_BYTES: u64 = 1048576;

/// Whether a log file of `len` bytes is rotated before the next line.
pub fn needs_rotation(len: u64) -> (r: bool)
    ensures
        r == (len > MAX_LOG_BYTES),
{
    len > MAX_LOG_BYTES
}

/// The filter is a threshold: whenever a level passes, every more severe
/// level passes too; `off` lets nothing through and `debug` everything.
pub proof fn level_filter_is_a_threshold(lv: Level, more_severe: Level, current: u8)
    requires
        more_severe.spec_rank() <= lv.spec_rank(),
    ensures
        (current != LEVEL_OFF && lv.spec_rank() <= current) ==> (current != LEVEL_OFF && more_severe.spec_rank()
            <= current),
        !(LEVEL_OFF != LEVEL_OFF && lv.spec_rank() <= LEVEL_OFF),
        Level::Debug.spec_rank() != LEVEL_OFF && lv.spec_rank() <= Level::Debug.spec_rank(),
{
}

} // verus!
