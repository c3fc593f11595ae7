//! Dates of the Gregorian calendar as days and seconds since the first of January 1970.

use vstd::prelude::*;

verus! {

/// Whether a year has a leap day.
pub open spec fn is_leap(year: int) -> bool {
    (year % 4 == 0 && year % 100 != 0) || year % 400 == 0
}

/// How many days a month has, none where there is no such month.
pub open spec fn month_len(year: int, month: int) -> int {
    if month == 1 || month == 3 || month == 5 || month == 7 || month == 8 || month == 10 || month == 12 {
        31
    } else if month == 4 || month == 6 || month == 9 || month == 11 {
        30
    } else if month == 2 {
        if is_leap(year) {
            29
        } else {
            28
        }
    } else {
        0
    }
}

/// Whether there is such a day.
pub open spec fn is_date(year: int, month: int, day: int) -> bool {
    1 <= month <= 12 && 1 <= day <= month_len(year, month)
}

/// How many days the years before a year have, counted from the year one on.
pub open spec fn days_before_year(year: int) -> int {
    365 * (year - 1) + (year - 1) / 4 - (year - 1) / 100 + (year - 1) / 400
}

/// How many days the months before a month have.
pub open spec fn days_before_month(year: int, month: int) -> int
    decreases month,
{
    if month <= 1 {
        0
    } else {
        days_before_month(year, month - 1) + month_len(year, month - 1)
    }
}

/// The number of a day: how many days after the first of January 1970 it comes.
pub open spec fn day_number(year: int, month: int, day: int) -> int {
    days_before_year(year) + days_before_month(year, month) + day - 1 - days_before_year(1970)
}

/// Whether a year has a leap day.
#[must_use]
pub fn is_leap_year(year: i32) -> (r: bool)
    ensures
        r == is_leap(year as int),
{
    let shifted: i64 = year as i64 + 2_147_484_000;
    proof {
        vstd::arithmetic::div_mod::lemma_mod_multiples_vanish(536_871_000, year as int, 4);
        vstd::arithmetic::div_mod::lemma_mod_multiples_vanish(21_474_840, year as int, 100);
        vstd::arithmetic::div_mod::lemma_mod_multiples_vanish(5_368_710, year as int, 400);
    }
    (shifted % 4 == 0 && shifted % 100 != 0) || shifted % 400 == 0
}

/// How many days a month has, none where there is no such month.
#[must_use]
pub fn days_in_month(year: i32, month: u32) -> (r: u32)
    ensures
        r == month_len(year as int, month as int),
{
    match month {
        1 | 3 | 5 | 7 | 8 | 10 | 12 => 31,
        4 | 6 | 9 | 11 => 30,
        2 => if is_leap_year(year) {
            29
        } else {
            28
        },
        _ => 0,
    }
}

proof fn lemma_days_before_month(year: int)
    ensures
        days_before_month(year, 1) == 0,
        days_before_month(year, 2) == 31,
        forall|month: int|
            3 <= month <= 12 ==> #[trigger] days_before_month(year, month) == 59 + (if is_leap(year) {
                1int
            } else {
                0int
            }) + (153 * (month - 3) + 2) / 5,
{
    reveal_with_fuel(days_before_month, 13);
    let leap: int = if is_leap(year) {
        1
    } else {
        0
    };
    assert(days_before_month(year, 3) == 59 + leap);
    assert(days_before_month(year, 4) == 90 + leap);
    assert(days_before_month(year, 5) == 120 + leap);
    assert(days_before_month(year, 6) == 151 + leap);
    assert(days_before_month(year, 7) == 181 + leap);
    assert(days_before_month(year, 8) == 212 + leap);
    assert(days_before_month(year, 9) == 243 + leap);
    assert(days_before_month(year, 10) == 273 + leap);
    assert(days_before_month(year, 11) == 304 + leap);
    assert(days_before_month(year, 12) == 334 + leap);
}

/// The number of a day, where there is such a day.
#[must_use]
pub fn days_from_civil(year: i32, month: u32, day: u32) -> (r: Option<i64>)
    ensures
        r is Some == is_date(year as int, month as int, day as int),
        r matches Some(n) ==> n == day_number(year as int, month as int, day as int),
{
    if month < 1 || month > 12 || day == 0 || day > days_in_month(year, month) {
        return None;
    }
    // Years begin in March, and are counted in cycles of 400 from far enough back.
    let early: i64 = if month <= 2 {
        1
    } else {
        0
    };
    let shifted: i64 = year as i64 + 2_147_484_000 - early;
    let era: i64 = shifted / 400;
    let year_of_era: i64 = shifted % 400;
    let month_of_year: i64 = if month > 2 {
        month as i64 - 3
    } else {
        month as i64 + 9
    };
    let day_of_year: i64 = (153 * month_of_year + 2) / 5 + day as i64 - 1;
    let day_of_era: i64 = year_of_era * 365 + year_of_era / 4 - year_of_era / 100 + day_of_year;
    proof {
        let y = year - early;
        let cycles = era - 5_368_710;
        assert(y == 400 * cycles + year_of_era);
        assert(y / 4 == 100 * cycles + year_of_era / 4);
        assert(y / 100 == 4 * cycles + year_of_era / 100);
        assert(y / 400 == cycles);
        lemma_days_before_month(year as int);
        if month > 2 {
            lemma_leap_step(year as int);
        }
    }
    Some(era * 146_097 + day_of_era - 784_353_144_338)
}

/// A year is as long as the distance between it and the next.
proof fn lemma_leap_step(year: int)
    ensures
        365 * year + year / 4 - year / 100 + year / 400 == days_before_year(year) + 365 + if is_leap(
            year,
        ) {
            1int
        } else {
            0int
        },
{
    let last = year - 1;
    assert(year / 4 == last / 4 + if year % 4 == 0 {
        1int
    } else {
        0int
    });
    assert(year / 100 == last / 100 + if year % 100 == 0 {
        1int
    } else {
        0int
    });
    assert(year / 400 == last / 400 + if year % 400 == 0 {
        1int
    } else {
        0int
    });
}

/// Days are numbered one after the other: within a month, from one month to the next, and from one
/// year to the next.
pub proof fn days_follow_each_other(year: int, month: int, day: int)
    requires
        is_date(year, month, day),
    ensures
        day_number(1970, 1, 1) == 0,
        day < month_len(year, month) ==> day_number(year, month, day + 1) == day_number(
            year,
            month,
            day,
        ) + 1,
        day == month_len(year, month) && month < 12 ==> day_number(year, month + 1, 1) == day_number(
            year,
            month,
            day,
        ) + 1,
        day == month_len(year, month) && month == 12 ==> day_number(year + 1, 1, 1) == day_number(
            year,
            month,
            day,
        ) + 1,
{
    if month == 12 {
        lemma_days_before_month(year);
        lemma_leap_step(year);
    }
}

/// From January to July the odd months are the long ones, from August on the even ones; February alone
/// is shorter than either, and a day longer in a leap year than in any other.
pub proof fn long_and_short_months_alternate(year: int, month: int)
    requires
        1 <= month <= 12,
    ensures
        month != 2 ==> month_len(year, month) == 30 + (month + month / 8) % 2,
        month_len(year, 2) == if is_leap(year) {
            29int
        } else {
            28int
        },
{
}

proof fn lemma_four_centuries(year: int)
    ensures
        (year + 400) % 4 == year % 4,
        (year + 400) % 100 == year % 100,
        (year + 400) % 400 == year % 400,
        (year + 400) / 4 == year / 4 + 100,
        (year + 400) / 100 == year / 100 + 4,
        (year + 400) / 400 == year / 400 + 1,
{
}

/// A year has 365 days and a leap year one more; four centuries have as many days as any other four.
pub proof fn years_follow_each_other(year: int)
    ensures
        day_number(year + 1, 1, 1) - day_number(year, 1, 1) == if is_leap(year) {
            366int
        } else {
            365int
        },
        day_number(year + 400, 1, 1) - day_number(year, 1, 1) == 146_097,
        is_leap(year + 400) == is_leap(year),
        year % 100 != 0 ==> is_leap(year) == (year % 4 == 0),
        year % 100 == 0 && year % 400 != 0 ==> !is_leap(year),
        year % 400 == 0 ==> is_leap(year),
{
    lemma_leap_step(year);
    lemma_four_centuries(year);
    lemma_four_centuries(year - 1);
    assert(year % 400 == 0 ==> year % 100 == 0 && year % 4 == 0);
}

} // verus!
