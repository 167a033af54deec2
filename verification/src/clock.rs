//! The time stamp that opens each line of the record.
use vstd::prelude::*;

use crate::record::{record_line, record_text};

verus! {

/// The characters that the time stamp of a record line is made of.
pub open spec fn is_stamp_char(c: char) -> bool {
    ('0' <= c && c <= '9') || c == '-' || c == '+' || c == ':' || c == '.' || c == ' '
}

/// Whether `c` is a decimal digit.
pub open spec fn is_digit(c: char) -> bool {
    '0' <= c && c <= '9'
}

/// Whether `t` has the shape of a time stamp: made of stamp characters,
/// starting with a digit or `-` (the year), and ending with a space and
/// the offset from UTC, written `+hh:mm:ss` or `-hh:mm:ss`.
pub open spec fn stamp_shaped(t: Seq<char>) -> bool {
    let n = t.len() as int;
    &&& n >= 10
    &&& forall|i: int| 0 <= i < n ==> is_stamp_char(#[trigger] t[i])
    &&& is_digit(t[0]) || t[0] == '-'
    &&& t[n - 10] == ' '
    &&& t[n - 9] == '+' || t[n - 9] == '-'
    &&& is_digit(t[n - 8]) && is_digit(t[n - 7])
    &&& t[n - 6] == ':'
    &&& is_digit(t[n - 5]) && is_digit(t[n - 4])
    &&& t[n - 3] == ':'
    &&& is_digit(t[n - 2]) && is_digit(t[n - 1])
}

/// Calls `time::OffsetDateTime::now_utc` and writes the result with its
/// `Display` impl.  Trusted: the text is claimed to have the shape of a
/// stamp: only decimal digits and `-`, `+`, `:`, `.` and space, the date
/// first (its year starts with a digit, or `-` before the year 0), and a
/// space and the offset `±hh:mm:ss` last, which is what that impl writes
/// for a date, a time and an offset.  What the time is, is not stated: it
/// is read from the clock.
#[verifier::external_body]
fn now_utc_text() -> (t: String)
    ensures
        t@.len() > 0,
        stamp_shaped(t@),
{
    time::OffsetDateTime::now_utc().to_string()
}

/// The record line for the burial of `source` at `dest`, stamped with the
/// current time in UTC (a non-empty stamp).
pub fn log_line(source: &str, dest: &str) -> (line: String)
    ensures
        exists|stamp: Seq<char>|
            stamp.len() > 0 && stamp_shaped(stamp) && (forall|i: int|
                0 <= i < stamp.len() ==> is_stamp_char(#[trigger] stamp[i])) && line@
                == record_text(stamp, source@, dest@),
{
    let stamp = now_utc_text();
    let line = record_line(stamp.as_str(), source, dest);
    assert(line@ == record_text(stamp@, source@, dest@));
    line
}

} // verus!
