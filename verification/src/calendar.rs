//! Dates and times of day, from seconds since the Unix epoch.

use crate::clock::{clock_bits, clock_seconds};
use crate::numbers::is_time;
use crate::text::{padded, push_padded};
use vstd::prelude::*;

verus! {

/// Whether `year` is a leap year of the Gregorian calendar.
pub open spec fn leap(year: int) -> bool {
    (year % 4 == 0 && year % 100 != 0) || year % 400 == 0
}

/// Days in `year`.
pub open spec fn year_length(year: int) -> int {
    if leap(year) {
        366
    } else {
        365
    }
}

/// Days in month `month` of `year`.
pub open spec fn month_length(year: int, month: int) -> int {
    if month == 2 {
        if leap(year) {
            29
        } else {
            28
        }
    } else if month == 4 || month == 6 || month == 9 || month == 11 {
        30
    } else {
        31
    }
}

/// Days in the `count` years that start with `year`.
pub open spec fn years_length(year: int, count: int) -> int
    decreases count,
{
    if count <= 0 {
        0
    } else {
        years_length(year, count - 1) + year_length(year + count - 1)
    }
}

/// Days in `year` before the first of `month`.
pub open spec fn months_length(year: int, month: int) -> int
    decreases month,
{
    if month <= 1 {
        0
    } else {
        months_length(year, month - 1) + month_length(year, month - 1)
    }
}

/// Whether the three numbers name a day, from 1970 on.
pub open spec fn valid_date(year: int, month: int, day: int) -> bool {
    &&& 1970 <= year
    &&& 1 <= month <= 12
    &&& 1 <= day <= month_length(year, month)
}

/// Days from 1 January 1970 to the given day.
pub open spec fn day_number(year: int, month: int, day: int) -> int {
    years_length(1970, year - 1970) + months_length(year, month) + day - 1
}

/// The year in which the day falls that comes `days` days after the start of `year`.
pub open spec fn year_of(days: int, year: int) -> int
    decreases days,
{
    if days < year_length(year) {
        year
    } else {
        year_of(days - year_length(year), year + 1)
    }
}

/// How many days of its own year come before the day that comes `days` days
/// after the start of `year`.
pub open spec fn day_of_year(days: int, year: int) -> int
    decreases days,
{
    if days < year_length(year) {
        days
    } else {
        day_of_year(days - year_length(year), year + 1)
    }
}

/// Month and day of the month, `days` days after the first of `month` in `year`.
pub open spec fn month_and_day(days: int, year: int, month: int) -> (int, int)
    decreases 12 - month,
{
    if month >= 12 || days < month_length(year, month) {
        (month, days + 1)
    } else {
        month_and_day(days - month_length(year, month), year, month + 1)
    }
}

/// Year, month and day of the month of the day `days` days after 1 January 1970.
pub open spec fn date_of(days: int) -> (int, int, int) {
    let year = year_of(days, 1970);
    let (month, day) = month_and_day(day_of_year(days, 1970), year, 1);
    (year, month, day)
}

/// Date and time of day of the second `secs` after the epoch, with `between`
/// between the two.
pub open spec fn date_time_text(secs: nat, between: char) -> Seq<char> {
    let (year, month, day) = date_of((secs / 86_400) as int);
    padded_text(year, 4) + seq!['-'] + padded_text(month, 2) + seq!['-'] + padded_text(day, 2)
        + seq![between] + padded_text(((secs / 3600) % 24) as int, 2) + seq![':'] + padded_text(
        ((secs / 60) % 60) as int,
        2,
    ) + seq![':'] + padded_text((secs % 60) as int, 2)
}

/// `n` in decimal with at least `width` digits.
pub open spec fn padded_text(n: int, width: nat) -> Seq<char> {
    padded(n as nat, width)
}

/// Whether `year` is a leap year.
pub fn is_leap(year: u32) -> (r: bool)
    ensures
        r == leap(year as int),
{
    leap_year(year as u64)
}

/// `is_leap`, for years of any size.
fn leap_year(year: u64) -> (r: bool)
    ensures
        r == leap(year as int),
{
    (year % 4 == 0 && year % 100 != 0) || (year % 400 == 0)
}

/// Year, month and day of the day that lies `total_days` after 1 January 1970.
pub fn days_to_ymd(total_days: u64) -> (r: (u32, u32, u32))
    requires
        year_of(total_days as int, 1970) <= u32::MAX,
    ensures
        (r.0 as int, r.1 as int, r.2 as int) == date_of(total_days as int),
{
    let (year, month, day): (u64, u32, u32) = civil_date(total_days);
    (year as u32, month, day)
}

/// `days_to_ymd`, for dates of any size.
fn civil_date(total_days: u64) -> (r: (u64, u32, u32))
    ensures
        (r.0 as int, r.1 as int, r.2 as int) == date_of(total_days as int),
{
    // The calendar repeats every 400 years.
    let cycles: u64 = total_days / 146_097;
    let mut remaining: u64 = total_days % 146_097;
    let mut year: u64 = 1970 + 400 * cycles;
    proof {
        lemma_cycles(remaining as int, 1970, cycles as int);
    }
    while remaining >= year_days(year)
        invariant
            year as int + remaining as int <= 1970 + 400 * (u64::MAX / 146_097) + 146_097,
            year_of(total_days as int, 1970) == year_of(remaining as int, year as int),
            day_of_year(total_days as int, 1970) == day_of_year(remaining as int, year as int),
        decreases remaining,
    {
        remaining = remaining - year_days(year);
        year = year + 1;
    }
    let ghost in_year = remaining as int;
    let mut month: u32 = 1;
    while month < 12 && remaining >= month_days(year, month) as u64
        invariant
            1 <= month <= 12,
            remaining < 366,
            month_and_day(in_year, year as int, 1) == month_and_day(
                remaining as int,
                year as int,
                month as int,
            ),
        decreases 12 - month,
    {
        remaining = remaining - month_days(year, month) as u64;
        month = month + 1;
    }
    (year, month, remaining as u32 + 1)
}

/// Days in `year`.
fn year_days(year: u64) -> (r: u64)
    ensures
        r == year_length(year as int),
{
    if leap_year(year) {
        366
    } else {
        365
    }
}

/// Days in month `month` of `year`.
fn month_days(year: u64, month: u32) -> (r: u32)
    ensures
        r == month_length(year as int, month as int),
        28 <= r <= 31,
{
    if month == 2 {
        if leap_year(year) {
            29
        } else {
            28
        }
    } else if month == 4 || month == 6 || month == 9 || month == 11 {
        30
    } else {
        31
    }
}

/// Appends date and time of day of the second `secs`, with `between` between the two.
fn push_date_time(out: &mut String, secs: u64, between: &str)
    requires
        between@.len() == 1,
    ensures
        final(out)@ == old(out)@ + date_time_text(secs as nat, between@[0]),
{
    let ghost before = out@;
    let (year, month, day): (u64, u32, u32) = civil_date(secs / 86_400);
    proof {
        reveal_strlit("-");
        reveal_strlit(":");
        assert("-"@ =~= seq!['-']);
        assert(":"@ =~= seq![':']);
        assert(between@ =~= seq![between@[0]]);
    }
    push_padded(out, year, 4);
    out.append("-");
    push_padded(out, month as u64, 2);
    out.append("-");
    push_padded(out, day as u64, 2);
    out.append(between);
    push_padded(out, (secs / 3600) % 24, 2);
    out.append(":");
    push_padded(out, (secs / 60) % 60, 2);
    out.append(":");
    push_padded(out, secs % 60, 2);
    assert(out@ =~= before + date_time_text(secs as nat, between@[0]));
}

/// Formats a Unix timestamp as `YYYY-MM-DD HH:MM:SS`.
pub fn format_unix_secs(secs: u64) -> (text: String)
    ensures
        text@ == date_time_text(secs as nat, ' '),
{
    proof {
        reveal_strlit(" ");
    }
    let mut out: String = String::new();
    push_date_time(&mut out, secs, " ");
    assert(out@ =~= date_time_text(secs as nat, ' '));
    out
}

/// `YYYY-MM-DDTHH:MM:SSZ` of the second `secs`.
pub open spec fn iso8601_text(secs: nat) -> Seq<char> {
    date_time_text(secs, 'T').push('Z')
}

/// Formats a Unix timestamp as `YYYY-MM-DDTHH:MM:SSZ`.
pub fn format_iso8601(secs: u64) -> (text: String)
    ensures
        text@ == iso8601_text(secs as nat),
{
    proof {
        reveal_strlit("T");
        reveal_strlit("Z");
    }
    let mut out: String = String::new();
    push_date_time(&mut out, secs, "T");
    out.append("Z");
    assert(out@ =~= iso8601_text(secs as nat));
    out
}

/// The time on the system clock as `YYYY-MM-DDTHH:MM:SSZ`. Which second it is,
/// the clock decides.
pub fn now_iso8601() -> (text: String)
    ensures
        exists|secs: u64| text@ == #[trigger] iso8601_text(secs as nat),
{
    let secs: u64 = clock_seconds();
    format_iso8601(secs)
}

/// The time on the system clock, in seconds since the Unix epoch, as the bit
/// pattern of a double. Which instant it is, the clock decides.
pub fn now_f64() -> (bits: u64)
    ensures
        is_time(bits),
{
    clock_bits()
}

/// Counts the leap years from year 1 to `year`.
spec fn leap_count(year: int) -> int {
    year / 4 - year / 100 + year / 400
}

proof fn lemma_years_length(year: int, count: int)
    requires
        1 <= year,
        0 <= count,
    ensures
        years_length(year, count) == 365 * count + leap_count(year + count - 1) - leap_count(
            year - 1,
        ),
    decreases count,
{
    if count > 0 {
        lemma_years_length(year, count - 1);
        let last = year + count - 1;
        assert(leap_count(last) - leap_count(last - 1) == (if leap(last) { 1int } else { 0 }));
    }
}

proof fn lemma_skip_years(days: int, year: int, count: int)
    requires
        1 <= year,
        0 <= count,
        years_length(year, count) <= days,
    ensures
        year_of(days, year) == year_of(days - years_length(year, count), year + count),
        day_of_year(days, year) == day_of_year(days - years_length(year, count), year + count),
    decreases count,
{
    if count > 0 {
        lemma_skip_years(days, year, count - 1);
    }
}

proof fn lemma_cycle_length(year: int)
    requires
        1 <= year,
    ensures
        years_length(year, 400) == 146_097,
{
    lemma_years_length(year, 400);
    let before = year - 1;
    assert((before + 400) / 4 == before / 4 + 100);
    assert((before + 400) / 100 == before / 100 + 4);
    assert((before + 400) / 400 == before / 400 + 1);
}

proof fn lemma_cycles(days: int, year: int, cycles: int)
    requires
        1 <= year,
        0 <= cycles,
        0 <= days,
    ensures
        year_of(days + 146_097 * cycles, year) == year_of(days, year + 400 * cycles),
        day_of_year(days + 146_097 * cycles, year) == day_of_year(days, year + 400 * cycles),
    decreases cycles,
{
    if cycles > 0 {
        lemma_cycle_length(year);
        lemma_skip_years(days + 146_097 * cycles, year, 400);
        lemma_cycles(days, year + 400, cycles - 1);
    }
}

} // verus!
