//! The daemon's log lines (`[I] MM-DD HH:MM:SS: message`) and when its log
//! file is rotated.
use vstd::prelude::*;

use crate::text::{decimal, push_char, push_decimal};

verus! {

/// The log file is rotated once it grows past this many bytes.
pub const MAX_LOG_SIZE: u64 = 524288;

/// The size of the log file is looked at once every this many lines.
pub const CHECK_EVERY: usize = 512;

/// A number printed with at least two digits (`{:02}`); a negative number
/// is its sign and its digits.
pub open spec fn pad2(n: int) -> Seq<char> {
    if n < 0 {
        seq!['-'] + decimal((-n) as nat)
    } else if n < 10 {
        seq!['0'] + decimal(n as nat)
    } else {
        decimal(n as nat)
    }
}

/// The log line for a message of level `level` at the given local time
/// (`month0` counts months from 0, as `struct tm` does).
pub open spec fn log_text(
    level: char,
    month0: int,
    day: int,
    hour: int,
    min: int,
    sec: int,
    msg: Seq<char>,
) -> Seq<char> {
    seq!['[', level, ']', ' '] + pad2(month0 + 1) + seq!['-'] + pad2(day) + seq![' '] + pad2(hour)
        + seq![':'] + pad2(min) + seq![':'] + pad2(sec) + seq![':', ' '] + msg + seq!['\n']
}

fn push_pad2(out: &mut String, n: i64)
    ensures
        final(out)@ == old(out)@ + pad2(n as int),
{
    if n < 0 {
        push_char(out, '-');
        let m: i128 = -(n as i128);
        push_decimal(out, m as u64);
    } else {
        if n < 10 {
            push_char(out, '0');
        }
        push_decimal(out, n as u64);
    }
    assert(final(out)@ =~= old(out)@ + pad2(n as int));
}

/// The log line for a message; see `log_text`.
pub fn log_line(level: char, month0: i32, day: i32, hour: i32, min: i32, sec: i32, msg: &str) -> (r:
    String)
    requires
        month0 < i32::MAX,
    ensures
        r@ == log_text(level, month0 as int, day as int, hour as int, min as int, sec as int, msg@),
{
    let mut out = String::new();
    push_char(&mut out, '[');
    push_char(&mut out, level);
    push_char(&mut out, ']');
    push_char(&mut out, ' ');
    push_pad2(&mut out, (month0 + 1) as i64);
    push_char(&mut out, '-');
    push_pad2(&mut out, day as i64);
    push_char(&mut out, ' ');
    push_pad2(&mut out, hour as i64);
    push_char(&mut out, ':');
    push_pad2(&mut out, min as i64);
    push_char(&mut out, ':');
    push_pad2(&mut out, sec as i64);
    push_char(&mut out, ':');
    push_char(&mut out, ' ');
    out.append(msg);
    push_char(&mut out, '\n');
    assert(out@ =~= log_text(level, month0 as int, day as int, hour as int, min as int, sec as int, msg@));
    out
}

/// Whether the `n`th line written (counting from 1) is one after which the
/// log file's size is looked at.
pub fn size_check_due(n: usize) -> (r: bool)
    ensures
        r == (n % CHECK_EVERY == 0),
{
    n % CHECK_EVERY == 0
}

/// Whether a log file of `len` bytes is to be rotated.
pub fn rotation_due(len: u64) -> (r: bool)
    ensures
        r == (len > MAX_LOG_SIZE),
{
    len > MAX_LOG_SIZE
}

} // verus!
