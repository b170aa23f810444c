//! Proleptic Gregorian calendar arithmetic: dates to day numbers and back.
//!
//! Day 0 is 1970-01-01. Years are counted astronomically, so year 0 and
//! negative years are dates like any other.

use vstd::prelude::*;

verus! {

/// Whether `y` is a leap year.
pub open spec fn is_leap(y: int) -> bool {
    y % 4 == 0 && (y % 100 != 0 || y % 400 == 0)
}

/// The number of days in month `m` of year `y`.
pub open spec fn month_len(y: int, m: int) -> int {
    if m == 2 {
        if is_leap(y) {
            29
        } else {
            28
        }
    } else if m == 4 || m == 6 || m == 9 || m == 11 {
        30
    } else {
        31
    }
}

/// The number of days of year `y` before the first of month `m`.
pub open spec fn days_before_month(y: int, m: int) -> int
    decreases m,
{
    if m <= 1 {
        0
    } else {
        days_before_month(y, m - 1) + month_len(y, m - 1)
    }
}

/// The number of leap years before year `y`, counted from year 1; negative
/// for earlier years.
pub open spec fn leaps_before(y: int) -> int {
    (y - 1) / 4 - (y - 1) / 100 + (y - 1) / 400
}

/// Whether `y`-`m`-`d` names a day of the calendar.
pub open spec fn is_date(y: int, m: int, d: int) -> bool {
    1 <= m <= 12 && 1 <= d <= month_len(y, m)
}

/// The number of days from 1970-01-01 to day `d` of month `m` of year `y`,
/// where `d` counts on past either end of the month.
pub open spec fn day_number(y: int, m: int, d: int) -> int {
    365 * (y - 1970) + leaps_before(y) - leaps_before(1970) + days_before_month(y, m) + d - 1
}

/// The date that day `z` falls on, as year, month and day.
pub open spec fn date_of(z: int) -> (int, int, int) {
    choose|date: (int, int, int)|
        #![trigger is_date(date.0, date.1, date.2)]
        is_date(date.0, date.1, date.2) && day_number(date.0, date.1, date.2) == z
}

/// The day number computed with years that begin in March, for any month
/// number: months past February count from March of year `y`, the others from
/// March of the year before.
pub open spec fn shifted_day_number(y: int, m: int, d: int) -> int {
    let y1 = if m <= 2 {
        y - 1
    } else {
        y
    };
    let mp = if m > 2 {
        m - 3
    } else {
        m + 9
    };
    365 * y1 + y1 / 4 - y1 / 100 + y1 / 400 + (153 * mp + 2) / 5 + d - 1 - 719468
}

/// A year has one more leap year before it than the last year had exactly if
/// the last year was one.
pub proof fn lemma_leaps_step(y: int)
    ensures
        leaps_before(y + 1) == leaps_before(y) + (if is_leap(y) {
            1int
        } else {
            0
        }),
{
    assert(y / 4 == (y - 1) / 4 + (if y % 4 == 0 {
        1int
    } else {
        0
    }));
    assert(y / 100 == (y - 1) / 100 + (if y % 100 == 0 {
        1int
    } else {
        0
    }));
    assert(y / 400 == (y - 1) / 400 + (if y % 400 == 0 {
        1int
    } else {
        0
    }));
    assert(y % 100 == 0 ==> y % 4 == 0);
    assert(y % 400 == 0 ==> y % 100 == 0);
}

proof fn lemma_month_table(y: int)
    ensures
        days_before_month(y, 1) == 0,
        days_before_month(y, 2) == 31,
        days_before_month(y, 3) == 31 + month_len(y, 2),
        days_before_month(y, 4) == 62 + month_len(y, 2),
        days_before_month(y, 5) == 92 + month_len(y, 2),
        days_before_month(y, 6) == 123 + month_len(y, 2),
        days_before_month(y, 7) == 153 + month_len(y, 2),
        days_before_month(y, 8) == 184 + month_len(y, 2),
        days_before_month(y, 9) == 215 + month_len(y, 2),
        days_before_month(y, 10) == 245 + month_len(y, 2),
        days_before_month(y, 11) == 276 + month_len(y, 2),
        days_before_month(y, 12) == 306 + month_len(y, 2),
        days_before_month(y, 13) == 337 + month_len(y, 2),
{
    reveal_with_fuel(days_before_month, 14);
}

/// For the twelve months, counting from March gives the day number.
pub proof fn lemma_shifted_day_number(y: int, m: int, d: int)
    requires
        1 <= m <= 12,
    ensures
        shifted_day_number(y, m, d) == day_number(y, m, d),
{
    lemma_month_table(y);
    lemma_leaps_step(y);
    assert(leaps_before(1970) == 477);
}

/// A date of year `y` has a day number from that of the year's first day up
/// to that of the next year's.
proof fn lemma_within_year(y: int, m: int, d: int)
    requires
        is_date(y, m, d),
    ensures
        day_number(y, 1, 1) <= day_number(y, m, d) < day_number(y + 1, 1, 1),
{
    lemma_month_table(y);
    lemma_month_table(y + 1);
    lemma_leaps_step(y);
}

/// A later year begins later.
proof fn lemma_years_ordered(a: int, b: int)
    requires
        a <= b,
    ensures
        day_number(a, 1, 1) <= day_number(b, 1, 1),
{
    lemma_month_table(a);
    lemma_month_table(b);
}

/// Two dates with the same day number are the same date.
pub proof fn lemma_day_number_injective(y: int, m: int, d: int, y2: int, m2: int, d2: int)
    requires
        is_date(y, m, d),
        is_date(y2, m2, d2),
        day_number(y, m, d) == day_number(y2, m2, d2),
    ensures
        y == y2,
        m == m2,
        d == d2,
{
    lemma_within_year(y, m, d);
    lemma_within_year(y2, m2, d2);
    if y < y2 {
        lemma_years_ordered(y + 1, y2);
    }
    if y2 < y {
        lemma_years_ordered(y2 + 1, y);
    }
    lemma_month_table(y);
}

/// Law: turning a date into its day number and back gives the date.
pub proof fn law_date_round_trip(y: int, m: int, d: int)
    requires
        is_date(y, m, d),
    ensures
        date_of(day_number(y, m, d)) == (y, m, d),
{
    let z = day_number(y, m, d);
    let date = (y, m, d);
    assert(is_date(date.0, date.1, date.2) && day_number(date.0, date.1, date.2) == z);
    let found = date_of(z);
    lemma_day_number_injective(y, m, d, found.0, found.1, found.2);
}

/// The year within a 400-year cycle that begins in March, for a day of the
/// cycle.
proof fn lemma_year_of_era(doe: int)
    requires
        0 <= doe <= 146096,
    ensures
        ({
            let yoe = (doe - doe / 1460 + doe / 36524 - doe / 146096) / 365;
            let doy = doe - (365 * yoe + yoe / 4 - yoe / 100);
            &&& 0 <= yoe <= 399
            &&& 0 <= doy <= 365
            &&& doy == 365 ==> (yoe + 1) % 4 == 0 && ((yoe + 1) % 100 != 0 || yoe == 399)
        }),
{
}

/// Law: every day number has a date, and turning it into that date and back
/// gives the day number.
pub proof fn law_days_round_trip(z: int)
    ensures
        ({
            let date = date_of(z);
            is_date(date.0, date.1, date.2) && day_number(date.0, date.1, date.2) == z
        }),
{
    let (y, m, d) = march_date(z);
    lemma_march_date(z);
    let date = (y, m, d);
    assert(is_date(date.0, date.1, date.2) && day_number(date.0, date.1, date.2) == z);
}

/// The date of day `z`, computed with 400-year cycles that begin in March.
spec fn march_date(z: int) -> (int, int, int) {
    let z1 = z + 719468;
    let era = z1 / 146097;
    let doe = z1 - era * 146097;
    let yoe = (doe - doe / 1460 + doe / 36524 - doe / 146096) / 365;
    let doy = doe - (365 * yoe + yoe / 4 - yoe / 100);
    let mp = (5 * doy + 2) / 153;
    let m = if mp < 10 {
        mp + 3
    } else {
        mp - 9
    };
    let y = yoe + era * 400;
    (
        if m <= 2 {
            y + 1
        } else {
            y
        },
        m,
        doy - (153 * mp + 2) / 5 + 1,
    )
}

/// The day of a month, for a day of a year that begins in March.
proof fn lemma_month_of_year(doy: int)
    requires
        0 <= doy <= 365,
    ensures
        ({
            let mp = (5 * doy + 2) / 153;
            let d = doy - (153 * mp + 2) / 5 + 1;
            &&& 0 <= mp <= 11
            &&& 1 <= d <= 31
            &&& mp == 1 || mp == 3 || mp == 6 || mp == 8 ==> d <= 30
            &&& mp == 11 ==> d <= 29
            &&& mp == 11 && d == 29 ==> doy == 365
        }),
{
}

/// Whole cycles shift the rounded quotients by whole numbers.
proof fn lemma_cycles(yoe: int, era: int)
    requires
        0 <= yoe <= 399,
    ensures
        (yoe + era * 400) / 4 == yoe / 4 + era * 100,
        (yoe + era * 400) / 100 == yoe / 100 + era * 4,
        (yoe + era * 400) / 400 == era,
        (yoe + 1) % 4 == 0 && ((yoe + 1) % 100 != 0 || yoe == 399) ==> is_leap(
            yoe + era * 400 + 1,
        ),
{
    let y1 = yoe + era * 400;
    assert(y1 == 4 * (era * 100) + yoe);
    assert(y1 == 100 * (era * 4) + yoe);
    if (yoe + 1) % 4 == 0 && ((yoe + 1) % 100 != 0 || yoe == 399) {
        assert((y1 + 1) % 4 == 0);
        if yoe == 399 {
            assert(y1 + 1 == 400 * (era + 1));
        } else {
            assert((y1 + 1) % 100 == (yoe + 1) % 100);
        }
    }
}

proof fn lemma_march_date(z: int)
    ensures
        ({
            let (y, m, d) = march_date(z);
            is_date(y, m, d) && day_number(y, m, d) == z
        }),
{
    let z1 = z + 719468;
    let era = z1 / 146097;
    let doe = z1 - era * 146097;
    let yoe = (doe - doe / 1460 + doe / 36524 - doe / 146096) / 365;
    let doy = doe - (365 * yoe + yoe / 4 - yoe / 100);
    let (y, m, d) = march_date(z);
    lemma_year_of_era(doe);
    lemma_month_of_year(doy);
    lemma_cycles(yoe, era);
    lemma_from_march(yoe + era * 400, doy, y, m, d);
    assert(shifted_day_number(y, m, d) == z);
    lemma_shifted_day_number(y, m, d);
}

/// The date on day `doy` of the year that begins in March of `y1`.
proof fn lemma_from_march(y1: int, doy: int, y: int, m: int, d: int)
    requires
        0 <= doy <= 365,
        doy == 365 ==> is_leap(y1 + 1),
        ({
            let mp = (5 * doy + 2) / 153;
            &&& m == (if mp < 10 {
                mp + 3
            } else {
                mp - 9
            })
            &&& y == (if m <= 2 {
                y1 + 1
            } else {
                y1
            })
            &&& d == doy - (153 * mp + 2) / 5 + 1
        }),
    ensures
        is_date(y, m, d),
        shifted_day_number(y, m, d) == 365 * y1 + y1 / 4 - y1 / 100 + y1 / 400 + doy - 719468,
{
    lemma_month_of_year(doy);
}

/// The year, month and day that a day number falls on.
pub fn civil_from_days(z: i64) -> (r: (i64, u32, u32))
    requires
        z + 719_468 <= i64::MAX,
    ensures
        is_date(r.0 as int, r.1 as int, r.2 as int),
        day_number(r.0 as int, r.1 as int, r.2 as int) == z,
        (r.0 as int, r.1 as int, r.2 as int) == date_of(z as int),
{
    let z1: i64 = z + 719_468;
    let floor: i64 = if z1 >= 0 {
        z1
    } else {
        z1 - 146_096
    };
    let era: i64 = floor / 146_097;
    assert(era == (z + 719468int) / 146097) by {
        lemma_floor(z1 as int, 146_097);
    }
    let doe: u64 = (z1 - era * 146_097) as u64;
    proof {
        lemma_year_of_era(doe as int);
        lemma_march_date(z as int);
    }
    let yoe: u64 = (doe - doe / 1460 + doe / 36524 - doe / 146_096) / 365;
    let y: i64 = yoe as i64 + era * 400;
    let doy: u64 = doe - (365 * yoe + yoe / 4 - yoe / 100);
    let mp: u64 = (5 * doy + 2) / 153;
    let d: u32 = (doy - (153 * mp + 2) / 5 + 1) as u32;
    let m: u32 = if mp < 10 {
        (mp + 3) as u32
    } else {
        (mp - 9) as u32
    };
    let year: i64 = if m <= 2 {
        y + 1
    } else {
        y
    };
    assert((year as int, m as int, d as int) == march_date(z as int));
    proof {
        law_date_round_trip(year as int, m as int, d as int);
    }
    (year, m, d)
}

/// Rounding towards zero after moving a negative number down by one less than
/// the divisor rounds down.
proof fn lemma_floor(x: int, n: int)
    requires
        n == 146_097 || n == 400,
    ensures
        x >= 0 ==> x / n >= 0,
        x < 0 ==> -((-(x - (n - 1))) / n) == x / n,
{
}

/// Whether computing the day number of the given year, month and day stays
/// within 64-bit arithmetic.
pub open spec fn day_number_fits(y: int, m: int, d: int) -> bool {
    let y1 = if m <= 2 {
        y - 1
    } else {
        y
    };
    let era = y1 / 400;
    let yoe = y1 - era * 400;
    let mp = if m > 2 {
        m - 3
    } else {
        m + 9
    };
    let doy = (153 * mp + 2) / 5 + d - 1;
    let doe = yoe * 365 + yoe / 4 - yoe / 100 + doy;
    &&& i64::MIN <= y1
    &&& y1 >= 0 || i64::MIN <= y1 - 399
    &&& doy >= 0
    &&& i64::MIN <= era * 146_097
    &&& era * 146_097 + doe <= i64::MAX
    &&& i64::MIN <= era * 146_097 + doe - 719_468
}

/// The number of days from 1970-01-01 to the given date.
///
/// Month and day numbers outside the calendar's ranges count on from March of
/// the shifted year.
pub fn days_from_civil(y: i64, m: u32, d: u32) -> (r: i64)
    requires
        day_number_fits(y as int, m as int, d as int),
    ensures
        r == shifted_day_number(y as int, m as int, d as int),
        1 <= m <= 12 ==> r == day_number(y as int, m as int, d as int),
{
    let y1: i64 = if m <= 2 {
        y - 1
    } else {
        y
    };
    let floor: i64 = if y1 >= 0 {
        y1
    } else {
        y1 - 399
    };
    let era: i64 = floor / 400;
    assert(era == y1 as int / 400) by {
        lemma_floor(y1 as int, 400);
    }
    let yoe: u64 = (y1 - era * 400) as u64;
    let mp: u64 = if m > 2 {
        (m - 3) as u64
    } else {
        (m + 9) as u64
    };
    let doy: u64 = (153 * mp + 2) / 5 + d as u64 - 1;
    let doe: u64 = yoe * 365 + yoe / 4 - yoe / 100 + doy;
    proof {
        assert(y1 as int / 4 == yoe as int / 4 + era * 100);
        assert(y1 as int / 100 == yoe as int / 100 + era * 4);
        if 1 <= m <= 12 {
            lemma_shifted_day_number(y as int, m as int, d as int);
        }
    }
    era * 146_097 + doe as i64 - 719_468
}

/// The date after the given one.
pub open spec fn following_date(y: int, m: int, d: int) -> (int, int, int) {
    if d < month_len(y, m) {
        (y, m, d + 1)
    } else if m < 12 {
        (y, m + 1, 1)
    } else {
        (y + 1, 1, 1)
    }
}

/// A day on or after day 0 is in 1970 or later.
pub proof fn lemma_year_not_before(y: int, m: int, d: int)
    requires
        is_date(y, m, d),
        day_number(y, m, d) >= 0,
    ensures
        y >= 1970,
{
    lemma_within_year(y, m, d);
    if y < 1970 {
        lemma_years_ordered(y + 1, 1970);
        lemma_month_table(1970);
    }
}

/// Law: the day after a day number falls on the calendar's following date.
pub proof fn law_following_day(z: int)
    ensures
        ({
            let date = date_of(z);
            date_of(z + 1) == following_date(date.0, date.1, date.2)
        }),
{
    law_days_round_trip(z);
    let date = date_of(z);
    let next = following_date(date.0, date.1, date.2);
    lemma_month_table(date.0);
    lemma_month_table(date.0 + 1);
    lemma_leaps_step(date.0);
    assert(day_number(next.0, next.1, next.2) == z + 1);
    law_date_round_trip(next.0, next.1, next.2);
}

/// Law: April, June, September and November have 30 days, February has 28, or 29 in
/// a year that 4 divides unless 100 does and 400 does not, and the others have 31.
pub proof fn law_month_lengths(y: int)
    ensures
        month_len(y, 1) == 31 && month_len(y, 3) == 31 && month_len(y, 5) == 31,
        month_len(y, 7) == 31 && month_len(y, 8) == 31 && month_len(y, 10) == 31,
        month_len(y, 12) == 31,
        month_len(y, 4) == 30 && month_len(y, 6) == 30 && month_len(y, 9) == 30,
        month_len(y, 11) == 30,
        y % 400 == 0 ==> month_len(y, 2) == 29,
        y % 100 == 0 && y % 400 != 0 ==> month_len(y, 2) == 28,
        y % 4 == 0 && y % 100 != 0 ==> month_len(y, 2) == 29,
        y % 4 != 0 ==> month_len(y, 2) == 28,
{
    assert(y % 400 == 0 ==> y % 4 == 0);
    assert(y % 4 != 0 ==> y % 400 != 0);
}

/// Law: day 0 is the first of January 1970.
pub proof fn law_epoch()
    ensures
        date_of(0) == (1970int, 1int, 1int),
        day_number(1970, 1, 1) == 0,
{
    lemma_month_table(1970);
    law_date_round_trip(1970, 1, 1);
}

/// A day past the end of a month is one of the next month.
pub proof fn lemma_day_counts_on(y: int, m: int, d: int)
    requires
        1 <= m < 12,
    ensures
        day_number(y, m, d) == day_number(y, m + 1, d - month_len(y, m)),
{
    lemma_month_table(y);
}

} // verus!
