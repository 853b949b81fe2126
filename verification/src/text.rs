//! Numbers and times as text.

use crate::util::INF;
use vstd::prelude::*;
use vstd::string::*;

verus! {

/// A decimal digit.
pub open spec fn digit_text(d: int) -> Seq<char> {
    if d == 0 {
        "0"@
    } else if d == 1 {
        "1"@
    } else if d == 2 {
        "2"@
    } else if d == 3 {
        "3"@
    } else if d == 4 {
        "4"@
    } else if d == 5 {
        "5"@
    } else if d == 6 {
        "6"@
    } else if d == 7 {
        "7"@
    } else if d == 8 {
        "8"@
    } else {
        "9"@
    }
}

/// A number in decimal.
pub open spec fn decimal_text(n: nat) -> Seq<char>
    decreases n,
{
    if n < 10 {
        digit_text(n as int)
    } else {
        decimal_text(n / 10) + digit_text((n % 10) as int)
    }
}

fn digit(d: u64) -> (s: &'static str)
    requires
        d < 10,
    ensures
        s@ == digit_text(d as int),
{
    if d == 0 {
        "0"
    } else if d == 1 {
        "1"
    } else if d == 2 {
        "2"
    } else if d == 3 {
        "3"
    } else if d == 4 {
        "4"
    } else if d == 5 {
        "5"
    } else if d == 6 {
        "6"
    } else if d == 7 {
        "7"
    } else if d == 8 {
        "8"
    } else {
        "9"
    }
}

/// A number in decimal.
pub fn decimal(n: u64) -> (s: String)
    ensures
        s@ == decimal_text(n as nat),
    decreases n,
{
    if n < 10 {
        digit(n).to_string()
    } else {
        decimal(n / 10).concat(digit(n % 10))
    }
}

/// A truth value as text.
pub open spec fn bool_text(b: bool) -> Seq<char> {
    if b {
        "true"@
    } else {
        "false"@
    }
}

/// A truth value as text.
pub fn yes_no(b: bool) -> (s: &'static str)
    ensures
        s@ == bool_text(b),
{
    if b {
        "true"
    } else {
        "false"
    }
}

/// A span of microseconds in milliseconds, to three places.
pub open spec fn millis_text(span: nat) -> Seq<char> {
    decimal_text(span / 1000) + "."@ + digit_text((span / 100 % 10) as int) + digit_text(
        (span / 10 % 10) as int,
    ) + digit_text((span % 10) as int) + "ms"@
}

fn millis(span: u64) -> (s: String)
    ensures
        s@ == millis_text(span as nat),
{
    decimal(span / 1000).concat(".").concat(digit(span / 100 % 10)).concat(
        digit(span / 10 % 10),
    ).concat(digit(span % 10)).concat("ms")
}

/// A time as seen from another one.
pub open spec fn rel_time_text(time: u64, now: u64) -> Seq<char> {
    if time == INF {
        "infinity"@
    } else if time > now {
        "+"@ + millis_text((time - now) as nat)
    } else if time < now {
        "-"@ + millis_text((now - time) as nat)
    } else {
        millis_text(0)
    }
}

/// `time` as seen from `now`, in milliseconds.
pub fn rel_time(time: u64, now: u64) -> (s: String)
    ensures
        s@ == rel_time_text(time, now),
{
    if time == INF {
        "infinity".to_string()
    } else if time > now {
        "+".to_string().concat(millis(time - now).as_str())
    } else if time < now {
        "-".to_string().concat(millis(now - time).as_str())
    } else {
        millis(0)
    }
}

} // verus!
