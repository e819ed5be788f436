//! Calendar dates and times of day in the form that library files carry.

use vstd::arithmetic::div_mod::{lemma_hoist_over_denominator, lemma_mod_multiples_vanish};
use vstd::prelude::*;
use crate::text::{decimal, decimal_text};

verus! {

/// Whether `year` is a leap year of the Gregorian calendar.
pub open spec fn is_leap(year: int) -> bool {
    year % 4 == 0 && (year % 100 != 0 || year % 400 == 0)
}

/// How many days `month` of `year` has.
pub open spec fn days_in_month(year: int, month: int) -> int {
    if month == 2 {
        if is_leap(year) {
            29
        } else {
            28
        }
    } else if month == 4 || month == 6 || month == 9 || month == 11 {
        30
    } else {
        31
    }
}

pub open spec fn is_date(year: int, month: int, day: int) -> bool {
    1 <= month <= 12 && 1 <= day <= days_in_month(year, month)
}

/// The number of days before the first of January of `year`, counted from the
/// first of January of the year 0.
pub open spec fn days_before_year(year: int) -> int {
    365 * year + (year + 3) / 4 - (year + 99) / 100 + (year + 399) / 400
}

/// The number of days of `year` before the first of `month`.
pub open spec fn days_before_month(year: int, month: int) -> int
    decreases month,
{
    if month <= 1 {
        0
    } else {
        days_before_month(year, month - 1) + days_in_month(year, month - 1)
    }
}

/// The number of days from the first of January 1970 to a date.
pub open spec fn days_from_epoch(year: int, month: int, day: int) -> int {
    days_before_year(year) + days_before_month(year, month) + (day - 1) - 719528
}

proof fn lemma_months(year: int)
    ensures
        days_before_month(year, 1) == 0,
        days_before_month(year, 2) == 31,
        days_before_month(year, 3) == 59 + (if is_leap(year) {
            1int
        } else {
            0
        }),
        days_before_month(year, 4) == days_before_month(year, 3) + 31,
        days_before_month(year, 5) == days_before_month(year, 3) + 61,
        days_before_month(year, 6) == days_before_month(year, 3) + 92,
        days_before_month(year, 7) == days_before_month(year, 3) + 122,
        days_before_month(year, 8) == days_before_month(year, 3) + 153,
        days_before_month(year, 9) == days_before_month(year, 3) + 184,
        days_before_month(year, 10) == days_before_month(year, 3) + 214,
        days_before_month(year, 11) == days_before_month(year, 3) + 245,
        days_before_month(year, 12) == days_before_month(year, 3) + 275,
{
    reveal_with_fuel(days_before_month, 13);
}

/// Years repeat after four hundred of them.
proof fn lemma_year_split(era: int, r: int)
    requires
        0 <= r <= 400,
    ensures
        days_before_year(400 * era + r) == 146_097 * era + days_before_year(r),
        is_leap(400 * era + r) == is_leap(r),
{
    lemma_hoist_over_denominator(r + 3, 100 * era, 4);
    lemma_hoist_over_denominator(r + 99, 4 * era, 100);
    lemma_hoist_over_denominator(r + 399, era, 400);
    lemma_mod_multiples_vanish(100 * era, r, 4);
    lemma_mod_multiples_vanish(4 * era, r, 100);
    lemma_mod_multiples_vanish(era, r, 400);
}

/// The days before the first of March, and the days before the next year.
proof fn lemma_march(r: int)
    requires
        0 <= r < 400,
    ensures
        days_before_year(r) + 59 + (if is_leap(r) {
            1int
        } else {
            0
        }) == 365 * r + r / 4 - r / 100 + 60,
        days_before_year(r + 1) == 365 * r + r / 4 - r / 100 + 366,
{
    assert((r + 3) / 4 == r / 4 + if r % 4 == 0 {
        0int
    } else {
        1
    });
    assert((r + 99) / 100 == r / 100 + if r % 100 == 0 {
        0int
    } else {
        1
    });
    assert((r + 399) / 400 == if r == 0 {
        0int
    } else {
        1
    });
    assert((r + 4) / 4 == r / 4 + 1);
    assert((r + 100) / 100 == r / 100 + 1);
    assert((r + 400) / 400 == 1);
}

/// A year has as many days as its months have together, and the count of days
/// starts with the first of January 1970.
pub proof fn law_year_lengths(year: int)
    ensures
        days_before_year(year + 1) - days_before_year(year) == if is_leap(year) {
            366int
        } else {
            365
        },
        days_before_month(year, 13) == days_before_year(year + 1) - days_before_year(year),
        days_from_epoch(1970, 1, 1) == 0,
{
    let era = year / 400;
    let r = year % 400;
    lemma_year_split(era, r);
    lemma_year_split(era, r + 1);
    lemma_march(r);
    lemma_months(year);
    assert(days_before_month(year, 13) == days_before_month(year, 12) + 31);
    assert(days_before_month(1970, 1) == 0);
}

/// Whether a day of the era, counted from the first of March, falls into the
/// given year of the era and day of that year.
spec fn splits_era(day_of_era: int, year_of_era: int, day_of_year: int) -> bool {
    &&& 0 <= year_of_era < 400
    &&& 0 <= day_of_year <= 365
    &&& day_of_era == 365 * year_of_era + year_of_era / 4 - year_of_era / 100 + day_of_year
    &&& day_of_year == 365 ==> (year_of_era + 1) % 4 == 0 && ((year_of_era + 1) % 100 != 0
        || year_of_era == 399)
}

proof fn lemma_era(day_of_era: int)
    requires
        0 <= day_of_era <= 146096,
    ensures
        ({
            let y = (day_of_era - day_of_era / 1460 + day_of_era / 36524 - day_of_era / 146096)
                / 365;
            splits_era(day_of_era, y, day_of_era - (365 * y + y / 4 - y / 100))
        }),
{
}

/// Whether the date lies `days` days after the first of January 1970.
pub open spec fn is_date_of(days: int, date: (int, int, int)) -> bool {
    is_date(date.0, date.1, date.2) && days_from_epoch(date.0, date.1, date.2) == days
}

/// The date that lies `days` days after the first of January 1970, as year,
/// month and day.
pub fn civil_from_days(days_since_unix_epoch: i64) -> (r: (i64, i64, i64))
    requires
        days_since_unix_epoch <= i64::MAX - 719_468,
    ensures
        is_date_of(days_since_unix_epoch as int, (r.0 as int, r.1 as int, r.2 as int)),
{
    let z: i64 = days_since_unix_epoch + 719_468;
    let era: i64 = if z >= 0 {
        z / 146_097
    } else {
        -((146_096 - z) / 146_097)
    };
    proof {
        assert(era == z as int / 146_097);
    }
    let day_of_era: i64 = z - era * 146_097;
    let year_of_era: i64 = (day_of_era - day_of_era / 1_460 + day_of_era / 36_524 - day_of_era
        / 146_096) / 365;
    proof {
        lemma_era(day_of_era as int);
    }
    let mut year: i64 = year_of_era + era * 400;
    let day_of_year: i64 = day_of_era - (365 * year_of_era + year_of_era / 4 - year_of_era / 100);
    let month_prime: i64 = (5 * day_of_year + 2) / 153;
    let day: i64 = day_of_year - (153 * month_prime + 2) / 5 + 1;
    let month: i64 = if month_prime < 10 {
        month_prime + 3
    } else {
        month_prime - 9
    };
    if month <= 2 {
        year += 1;
    }
    proof {
        lemma_from_march(
            era as int,
            year_of_era as int,
            day_of_year as int,
            month_prime as int,
            day as int,
        );
    }
    (year, month, day)
}

proof fn lemma_from_march(era: int, year_of_era: int, day_of_year: int, month_prime: int, day: int)
    requires
        splits_era(
            365 * year_of_era + year_of_era / 4 - year_of_era / 100 + day_of_year,
            year_of_era,
            day_of_year,
        ),
        month_prime == (5 * day_of_year + 2) / 153,
        day == day_of_year - (153 * month_prime + 2) / 5 + 1,
    ensures
        ({
            let month = if month_prime < 10 {
                month_prime + 3
            } else {
                month_prime - 9
            };
            let year = year_of_era + era * 400 + if month <= 2 {
                1int
            } else {
                0
            };
            &&& is_date(year, month, day)
            &&& days_from_epoch(year, month, day) == era * 146_097 + 365 * year_of_era
                + year_of_era / 4 - year_of_era / 100 + day_of_year - 719_468
        }),
{
    let start = year_of_era + era * 400;
    lemma_months(start);
    lemma_months(start + 1);
    lemma_year_split(era, year_of_era);
    lemma_year_split(era, year_of_era + 1);
    lemma_march(year_of_era);
    let offset = (153 * month_prime + 2) / 5;
    assert(0 <= month_prime <= 11);
    if month_prime < 10 {
        lemma_spring_month(month_prime, day_of_year);
        assert(days_before_month(start, month_prime + 3) == days_before_month(start, 3) + offset);
    } else if month_prime == 10 {
        assert(offset == 306);
    } else {
        assert(offset == 337);
        assert(is_leap(year_of_era + 1) || day_of_year < 365);
    }
}

/// The month and day that a day of a year from March falls on.
proof fn lemma_spring_month(month_prime: int, day_of_year: int)
    requires
        0 <= month_prime < 10,
        month_prime == (5 * day_of_year + 2) / 153,
    ensures
        1 <= day_of_year - (153 * month_prime + 2) / 5 + 1 <= days_in_month(0, month_prime + 3),
{
    assert(month_prime == 0 || month_prime == 1 || month_prime == 2 || month_prime == 3
        || month_prime == 4 || month_prime == 5 || month_prime == 6 || month_prime == 7
        || month_prime == 8 || month_prime == 9);
}

proof fn lemma_years_grow(m: int, n: int)
    requires
        m <= n,
    ensures
        days_before_year(m) <= days_before_year(n),
    decreases n - m,
{
    if m < n {
        lemma_years_grow(m, n - 1);
        law_year_lengths(n - 1);
    }
}

proof fn lemma_months_grow(year: int, m: int, n: int)
    requires
        1 <= m <= n,
    ensures
        days_before_month(year, m) <= days_before_month(year, n),
    decreases n - m,
{
    if m < n {
        lemma_months_grow(year, m, n - 1);
    }
}

proof fn lemma_date_in_year(year: int, month: int, day: int)
    requires
        is_date(year, month, day),
    ensures
        days_before_year(year) <= days_from_epoch(year, month, day) + 719_528 < days_before_year(
            year + 1,
        ),
{
    law_year_lengths(year);
    lemma_months_grow(year, 1, month);
    lemma_months_grow(year, month + 1, 13);
}

/// Different dates are different numbers of days after the first of January 1970.
pub proof fn law_dates_differ(y1: int, m1: int, d1: int, y2: int, m2: int, d2: int)
    requires
        is_date(y1, m1, d1),
        is_date(y2, m2, d2),
        days_from_epoch(y1, m1, d1) == days_from_epoch(y2, m2, d2),
    ensures
        y1 == y2 && m1 == m2 && d1 == d2,
{
    lemma_date_in_year(y1, m1, d1);
    lemma_date_in_year(y2, m2, d2);
    if y1 < y2 {
        lemma_years_grow(y1 + 1, y2);
    } else if y2 < y1 {
        lemma_years_grow(y2 + 1, y1);
    } else if m1 < m2 {
        lemma_months_grow(y1, m1 + 1, m2);
    } else if m2 < m1 {
        lemma_months_grow(y1, m2 + 1, m1);
    }
}

/// The day after a date: the next of the month, the first of the next month, or
/// the first of the next year.
pub open spec fn day_after(date: (int, int, int)) -> (int, int, int) {
    let (year, month, day) = date;
    if day < days_in_month(year, month) {
        (year, month, day + 1)
    } else if month < 12 {
        (year, month + 1, 1)
    } else {
        (year + 1, 1, 1)
    }
}

/// Successive numbers of days give successive days of the calendar, and no days
/// give the first of January 1970.
pub proof fn law_days_succeed(days: int, date: (int, int, int), next: (int, int, int))
    requires
        is_date_of(days, date),
        is_date_of(days + 1, next),
    ensures
        next == day_after(date),
        days == 0 ==> date == (1970int, 1int, 1int),
{
    let (year, month, day) = date;
    let after = day_after(date);
    law_year_lengths(year);
    assert(days_before_month(year, month + 1) == days_before_month(year, month) + days_in_month(
        year,
        month,
    ));
    assert(days_before_month(year, 1) == 0 && days_before_month(year + 1, 1) == 0);
    assert(is_date_of(days + 1, after));
    law_dates_differ(next.0, next.1, next.2, after.0, after.1, after.2);
    if days == 0 {
        assert(is_date(1970, 1, 1));
        law_dates_differ(year, month, day, 1970, 1, 1);
    }
}

/// The date that lies `days` days after the first of January 1970, as month,
/// day and year.
pub open spec fn date_text(days: int) -> Seq<char> {
    let date = choose|date: (int, int, int)| is_date_of(days, date);
    decimal(date.1 as nat) + seq!['/'] + decimal(date.2 as nat) + seq!['/'] + decimal(
        date.0 as nat,
    )
}

/// A number below a hundred in two digits.
pub open spec fn two_digits(n: nat) -> Seq<char> {
    if n < 10 {
        seq!['0'] + decimal(n)
    } else {
        decimal(n)
    }
}

pub fn two_digit_text(n: u64) -> (text: String)
    ensures
        text@ == two_digits(n as nat),
{
    let digits = decimal_text(n as u128);
    if n < 10 {
        let mut text = String::new();
        text.push('0');
        text.append(digits.as_str());
        assert(text@ =~= seq!['0'] + digits@);
        text
    } else {
        digits
    }
}

/// The hour on a twelve hour clock.
pub open spec fn clock_hour(hour: nat) -> nat {
    if hour % 12 == 0 {
        12
    } else {
        hour % 12
    }
}

/// A time of day, in seconds since midnight, on a twelve hour clock.
pub open spec fn time_text(second_of_day: nat) -> Seq<char> {
    decimal(clock_hour(second_of_day / 3600)) + seq![':'] + two_digits(second_of_day / 60 % 60)
        + seq![':'] + two_digits(second_of_day % 60) + if second_of_day < 43_200 {
        " AM"@
    } else {
        " PM"@
    }
}

fn library_date(days: u64) -> (date: String)
    requires
        days <= i64::MAX - 719_468,
    ensures
        date@ == date_text(days as int),
{
    let (year, month, day) = civil_from_days(days as i64);
    proof {
        let date = (year as int, month as int, day as int);
        assert(is_date_of(days as int, date));
        let chosen = choose|date: (int, int, int)| is_date_of(days as int, date);
        law_dates_differ(date.0, date.1, date.2, chosen.0, chosen.1, chosen.2);
        lemma_year_not_negative(year as int, month as int, day as int);
    }
    let mut date = decimal_text(month as u128);
    let day_digits = decimal_text(day as u128);
    let year_digits = decimal_text(year as u128);
    date.push('/');
    date.append(day_digits.as_str());
    date.push('/');
    date.append(year_digits.as_str());
    assert(date@ =~= date_text(days as int));
    date
}

fn library_time(second_of_day: u64) -> (time: String)
    requires
        second_of_day < 86_400,
    ensures
        time@ == time_text(second_of_day as nat),
{
    let hour: u64 = second_of_day / 3_600;
    let minute: u64 = second_of_day / 60 % 60;
    let second: u64 = second_of_day % 60;
    let hour12: u64 = if hour % 12 == 0 {
        12
    } else {
        hour % 12
    };
    let minute_digits = two_digit_text(minute);
    let second_digits = two_digit_text(second);
    let mut time = decimal_text(hour12 as u128);
    time.push(':');
    time.append(minute_digits.as_str());
    time.push(':');
    time.append(second_digits.as_str());
    time.append(
        if second_of_day < 43_200 {
            " AM"
        } else {
            " PM"
        },
    );
    assert(time@ =~= time_text(second_of_day as nat));
    time
}

/// The date and the time of day, `seconds` seconds after the first of January
/// 1970, in the form that library files carry.
pub fn current_library_date_time(seconds: u64) -> (r: (String, String))
    requires
        seconds <= i64::MAX,
    ensures
        r.0@ == date_text(seconds as int / 86_400),
        r.1@ == time_text(seconds as nat % 86_400),
{
    (library_date(seconds / 86_400), library_time(seconds % 86_400))
}

proof fn lemma_year_not_negative(year: int, month: int, day: int)
    requires
        is_date(year, month, day),
        days_from_epoch(year, month, day) >= 0,
    ensures
        year >= 0,
{
    lemma_date_in_year(year, month, day);
    if year < 0 {
        lemma_years_grow(year + 1, 0);
    }
}

} // verus!
