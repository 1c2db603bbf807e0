//! Calendar dates, and the time stamps that file names carry.

use vstd::prelude::*;
use crate::text::{push_decimal, push_padded};
use crate::text;

verus! {

/// A day of the calendar.
#[derive(Debug, Clone, Copy, PartialEq, Eq, Structural)]
pub struct Date {
    pub year: u64,
    pub month: u64,
    pub day: u64,
}

/// A year has a 29th of February.
pub open spec fn leap(year: int) -> bool {
    year % 4 == 0 && (year % 100 != 0 || year % 400 == 0)
}

/// Days of a year.
pub open spec fn year_days(year: int) -> int {
    if leap(year) {
        366
    } else {
        365
    }
}

/// Days of a month.
pub open spec fn month_days(year: int, month: int) -> int {
    if month == 2 {
        if leap(year) {
            29
        } else {
            28
        }
    } else if month == 4 || month == 6 || month == 9 || month == 11 {
        30
    } else {
        31
    }
}

/// Days from the start of 1970 to the start of a year.
pub open spec fn year_start(year: int) -> int
    decreases year,
{
    if year <= 1970 {
        0
    } else {
        year_start(year - 1) + year_days(year - 1)
    }
}

/// Days from the start of a year to the start of a month.
pub open spec fn month_start(year: int, month: int) -> int
    decreases month,
{
    if month <= 1 {
        0
    } else {
        month_start(year, month - 1) + month_days(year, month - 1)
    }
}

impl Date {
    /// A day that the calendar has, from 1970 on.
    pub open spec fn valid(self) -> bool {
        &&& self.year >= 1970
        &&& 1 <= self.month <= 12
        &&& 1 <= self.day <= month_days(self.year as int, self.month as int)
    }

    /// Days since the first of January 1970.
    pub open spec fn number(self) -> int {
        year_start(self.year as int) + month_start(self.year as int, self.month as int) + self.day
            - 1
    }
}

fn is_leap(year: u64) -> (r: bool)
    ensures
        r == leap(year as int),
{
    year % 4 == 0 && (year % 100 != 0 || year % 400 == 0)
}

fn days_of_month(year: u64, month: u64) -> (r: u64)
    ensures
        r == month_days(year as int, month as int),
{
    if month == 2 {
        if is_leap(year) {
            29
        } else {
            28
        }
    } else if month == 4 || month == 6 || month == 9 || month == 11 {
        30
    } else {
        31
    }
}

/// The date of the day that is `days` days after the first of January 1970.
pub fn date_of(days: u64) -> (r: Date)
    requires
        days <= 0xffff_ffff_ffff,
    ensures
        r.valid(),
        r.number() == days,
        r.year <= 1970 + days / 365,
{
    let mut year: u64 = 1970;
    let mut left: u64 = days;
    loop
        invariant
            year >= 1970,
            year_start(year as int) + left == days,
            (year - 1970) * 365 + left <= days,
            days <= 0xffff_ffff_ffff,
        ensures
            left < year_days(year as int),
        decreases left,
    {
        let n: u64 = if is_leap(year) {
            366
        } else {
            365
        };
        if left < n {
            break;
        }
        left = left - n;
        year = year + 1;
    }
    let mut month: u64 = 1;
    proof {
        lemma_year_of_months(year as int);
    }
    loop
        invariant
            year >= 1970,
            1 <= month <= 12,
            year_start(year as int) + month_start(year as int, month as int) + left == days,
            month_start(year as int, month as int) + left < year_days(year as int),
            month_start(year as int, 12) + 31 == year_days(year as int),
        ensures
            left < month_days(year as int, month as int),
        decreases left,
    {
        let n = days_of_month(year, month);
        if left < n {
            break;
        }
        left = left - n;
        month = month + 1;
    }
    Date { year, month, day: left + 1 }
}

/// The months of a year are the year.
proof fn lemma_year_of_months(year: int)
    ensures
        month_start(year, 12) + 31 == year_days(year),
{
    reveal_with_fuel(month_start, 12);
}

/// No two dates are the same day.
pub proof fn a_day_has_one_date(a: Date, b: Date)
    requires
        a.valid(),
        b.valid(),
        a.number() == b.number(),
    ensures
        a == b,
{
    lemma_within_year(a);
    lemma_within_year(b);
    if a.year < b.year {
        lemma_years_grow(a.year + 1, b.year as int);
    } else if b.year < a.year {
        lemma_years_grow(b.year + 1, a.year as int);
    }
    if a.month < b.month {
        lemma_months_grow(a.year as int, a.month + 1, b.month as int);
    } else if b.month < a.month {
        lemma_months_grow(a.year as int, b.month + 1, a.month as int);
    }
}

proof fn lemma_years_grow(a: int, b: int)
    requires
        1970 <= a <= b,
    ensures
        year_start(a) <= year_start(b),
    decreases b - a,
{
    if a < b {
        lemma_years_grow(a, b - 1);
    }
}

proof fn lemma_months_grow(year: int, a: int, b: int)
    requires
        1 <= a <= b,
    ensures
        month_start(year, a) <= month_start(year, b),
    decreases b - a,
{
    if a < b {
        lemma_months_grow(year, a, b - 1);
    }
}

proof fn lemma_within_year(d: Date)
    requires
        d.valid(),
    ensures
        0 <= d.number() - year_start(d.year as int) < year_days(d.year as int),
{
    let y = d.year as int;
    lemma_year_of_months(y);
    lemma_months_grow(y, 1, d.month as int);
    lemma_months_grow(y, d.month as int, 12);
    if d.month < 12 {
        lemma_months_grow(y, d.month + 1, 12);
    }
}

/// The stamp of a time of a day.
pub open spec fn stamp(date: Date, seconds: int) -> Seq<char> {
    text::padded(date.year as nat, 4) + text::padded(date.month as nat, 2) + text::padded(
        date.day as nat,
        2,
    ) + seq!['-'] + text::padded((seconds / 3600) as nat, 2) + text::padded(
        (seconds % 3600 / 60) as nat,
        2,
    ) + text::padded((seconds % 60) as nat, 2)
}

/// The stamp `yyyymmdd-hhmmss` of a time, given in nanoseconds since 1970.
pub fn utc_stamp(realtime_ns: u64) -> (r: String)
    ensures
        exists|date: Date|
            {
                &&& date.valid()
                &&& date.number() == realtime_ns as int / 1_000_000_000 / 86_400
                &&& r@ == #[trigger] stamp(date, realtime_ns as int / 1_000_000_000 % 86_400)
            },
        r@.len() == 15,
        r@[8] == '-',
{
    let s: u64 = realtime_ns / 1_000_000_000;
    let days: u64 = s / 86_400;
    let sod: u64 = s % 86_400;
    let date = date_of(days);
    let mut out = String::new();
    push_padded(&mut out, date.year, 4);
    push_padded(&mut out, date.month, 2);
    push_padded(&mut out, date.day, 2);
    out.push('-');
    push_padded(&mut out, sod / 3600, 2);
    push_padded(&mut out, sod % 3600 / 60, 2);
    push_padded(&mut out, sod % 60, 2);
    proof {
        assert(out@ =~= stamp(date, sod as int));
        text::lemma_padded_four(date.year as nat);
        text::lemma_padded_two(date.month as nat);
        text::lemma_padded_two(date.day as nat);
        text::lemma_padded_two((sod / 3600) as nat);
        text::lemma_padded_two((sod % 3600 / 60) as nat);
        text::lemma_padded_two((sod % 60) as nat);
    }
    out
}

/// The name of the `n`th file of a trace.
pub open spec fn trace_file(role: Seq<char>, stamp: Seq<char>, pid: nat, n: nat) -> Seq<char> {
    role.push('-') + stamp.push('-') + text::decimal(pid).push('-') + text::padded(n, 3) + ".evt"@
}

/// Names the `n`th file of a trace.
pub fn trace_file_name(role: &str, stamp: &str, pid: u32, n: u32) -> (r: String)
    ensures
        r@ == trace_file(role@, stamp@, pid as nat, n as nat),
{
    let mut out = String::new();
    crate::text::push_text(&mut out, role);
    out.push('-');
    crate::text::push_text(&mut out, stamp);
    out.push('-');
    push_decimal(&mut out, pid as u64);
    out.push('-');
    push_padded(&mut out, n as u64, 3);
    crate::text::push_text(&mut out, ".evt");
    assert(out@ =~= trace_file(role@, stamp@, pid as nat, n as nat));
    out
}

} // verus!
