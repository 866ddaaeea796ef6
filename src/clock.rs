//! The time stamps of log lines.

use vstd::prelude::*;
use vstd::string::*;

use crate::text::{decimal, push_decimal};

verus! {

/// Whether `year` is a leap year of the Gregorian calendar.
pub open spec fn is_leap(year: nat) -> bool {
    year % 4 == 0 && !(year % 100 == 0 && year % 400 != 0)
}

/// The number of days of month `i` (from zero), with `feb` days in February.
pub open spec fn month_length(i: nat, feb: nat) -> nat {
    if i == 1 {
        feb
    } else if i == 3 || i == 5 || i == 8 || i == 10 {
        30
    } else {
        31
    }
}

/// The month (from one) and day of month (from one) that day `day` of the year falls
/// on, counting months from `i`; month zero when the day lies past December.
pub open spec fn month_and_day(day: nat, i: nat, feb: nat) -> (nat, nat)
    decreases 12 - i,
{
    if i >= 12 {
        (0, day)
    } else if day < month_length(i, feb) {
        (i + 1, day + 1)
    } else {
        month_and_day((day - month_length(i, feb)) as nat, i + 1, feb)
    }
}

/// `n` written with at least two digits.
pub open spec fn two_digits(n: nat) -> Seq<char> {
    if n < 10 {
        "0"@ + decimal(n)
    } else {
        decimal(n)
    }
}

/// The fields of the log time stamp of `t` seconds after the Unix epoch. The year is
/// estimated from an average year of 365.2425 days and the day of the year from one
/// leap day in four years; where that estimate would place the day before the year's
/// start, the year's first day is taken.
pub open spec fn stamp_fields(t: nat) -> (nat, nat, nat, nat, nat, nat) {
    let days = t / 86400;
    let years = days * 400 / 146097;
    let year = years + 1970;
    let feb: nat = if is_leap(year) {
        29
    } else {
        28
    };
    let start = days - years / 4 - years * 365;
    let (month, day) = month_and_day(
        if start < 0 {
            0
        } else {
            start as nat
        },
        0,
        feb,
    );
    (year, month, day, t / 3600 % 24, t / 60 % 60, t % 60)
}

/// The log time stamp `YYYY-MM-DD_hh:mm:ss` of `t` seconds after the Unix epoch.
pub open spec fn stamp_text(t: nat) -> Seq<char> {
    let (year, month, day, hour, minute, second) = stamp_fields(t);
    decimal(year) + "-"@ + two_digits(month) + "-"@ + two_digits(day) + "_"@ + two_digits(hour)
        + ":"@ + two_digits(minute) + ":"@ + two_digits(second)
}

fn push_two_digits(out: &mut String, n: u64)
    ensures
        final(out)@ == old(out)@ + two_digits(n as nat),
{
    if n < 10 {
        out.append("0");
    }
    push_decimal(out, n);
}

fn month_days(i: u64, feb: u64) -> (r: u64)
    ensures
        r == month_length(i as nat, feb as nat),
{
    if i == 1 {
        feb
    } else if i == 3 || i == 5 || i == 8 || i == 10 {
        30
    } else {
        31
    }
}

/// Formats the time stamp that log lines carry, from seconds since the Unix epoch.
pub fn formatted_time(unix_time: u64) -> (r: String)
    ensures
        r@ == stamp_text(unix_time as nat),
{
    let ghost fields = stamp_fields(unix_time as nat);
    let second = unix_time % 60;
    let minute = unix_time / 60 % 60;
    let hour = unix_time / 3600 % 24;
    let days = unix_time / (3600 * 24);
    assert(days <= u64::MAX / 86400);
    let years = (days * 400) / 146097;
    assert(years <= days) by (nonlinear_arith)
        requires
            years == (days * 400) / 146097,
    ;
    let year = years + 1970;
    let leap = (year % 4 == 0) && !((year % 100 == 0) && !(year % 400 == 0));
    let feb: u64 = if leap {
        29
    } else {
        28
    };
    let mut day = days.saturating_sub(years / 4).saturating_sub(years * 365);
    assert(day == if days - years / 4 - years * 365 < 0 {
        0
    } else {
        days - years / 4 - years * 365
    });
    let mut month: u64 = 0;
    let mut i: u64 = 0;
    while i < 12
        invariant_except_break
            month == 0,
            month_and_day(day as nat, i as nat, feb as nat) == (fields.1, fields.2),
        invariant
            i <= 12,
            day <= u64::MAX - 1,
            fields == stamp_fields(unix_time as nat),
            feb == if is_leap(fields.0) {
                29nat
            } else {
                28nat
            },
        ensures
            month == fields.1,
            day == fields.2,
        decreases 12 - i,
    {
        let len = month_days(i, feb);
        if day < len {
            month = i + 1;
            day = day + 1;
            break;
        }
        day -= len;
        i += 1;
    }
    assert(fields.0 == year && fields.3 == hour && fields.4 == minute && fields.5 == second);
    let mut out = String::new();
    push_decimal(&mut out, year);
    out.append("-");
    push_two_digits(&mut out, month);
    out.append("-");
    push_two_digits(&mut out, day);
    out.append("_");
    push_two_digits(&mut out, hour);
    out.append(":");
    push_two_digits(&mut out, minute);
    out.append(":");
    push_two_digits(&mut out, second);
    assert(out@ =~= stamp_text(unix_time as nat));
    out
}

} // verus!
