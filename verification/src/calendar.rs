//! Days and seconds since the Unix epoch.

use vstd::prelude::*;

verus! {

/// Days from 1970-01-01 to day `d` of month `mo` of year `y`, counted in years
/// that begin in March, so that the leap day comes last. Months and days beyond
/// the calendar's are counted on.
pub open spec fn epoch_days(y: int, mo: int, d: int) -> int {
    let march_year = if mo <= 2 {
        y - 1
    } else {
        y
    };
    let march_month = if mo <= 2 {
        mo + 9
    } else {
        mo - 3
    };
    365 * march_year + march_year / 4 - march_year / 100 + march_year / 400 + (153 * march_month
        + 2) / 5 + (d - 1) - 719468
}

/// Whether a year has a leap day.
pub open spec fn is_leap(y: int) -> bool {
    y % 4 == 0 && (y % 100 != 0 || y % 400 == 0)
}

/// The number of days in a month.
pub open spec fn month_len(y: int, mo: int) -> int {
    if mo == 2 {
        if is_leap(y) {
            29
        } else {
            28
        }
    } else if mo == 4 || mo == 6 || mo == 9 || mo == 11 {
        30
    } else {
        31
    }
}

/// The count starts at the epoch and follows the Gregorian calendar: the next day
/// of a month is one day later, the first of the next month is one month's length
/// later, and the new year follows the last of December.
pub proof fn law_gregorian(y: int, mo: int, d: int)
    requires
        1 <= mo <= 12,
    ensures
        epoch_days(1970, 1, 1) == 0,
        epoch_days(y, mo, d + 1) == epoch_days(y, mo, d) + 1,
        mo < 12 ==> epoch_days(y, mo + 1, 1) == epoch_days(y, mo, 1) + month_len(y, mo),
        mo == 12 ==> epoch_days(y + 1, 1, 1) == epoch_days(y, 12, 1) + month_len(y, 12),
{
    if mo == 2 {
        assert(y / 4 - (y - 1) / 4 == if y % 4 == 0 {
            1int
        } else {
            0
        });
        assert(y / 100 - (y - 1) / 100 == if y % 100 == 0 {
            1int
        } else {
            0
        });
        assert(y / 400 - (y - 1) / 400 == if y % 400 == 0 {
            1int
        } else {
            0
        });
        assert(y % 400 == 0 ==> y % 100 == 0);
        assert(y % 100 == 0 ==> y % 4 == 0);
    }
}

/// The months of a year follow one another.
proof fn lemma_months(y: int, a: int, b: int)
    requires
        1 <= a < b <= 12,
    ensures
        epoch_days(y, a, 1) + month_len(y, a) <= epoch_days(y, b, 1),
    decreases b - a,
{
    law_gregorian(y, b - 1, 1);
    if a < b - 1 {
        lemma_months(y, a, b - 1);
    }
}

/// The years follow one another.
proof fn lemma_years(y: int, z: int)
    requires
        y < z,
    ensures
        epoch_days(y, 12, 1) + 31 <= epoch_days(z, 1, 1),
    decreases z - y,
{
    law_gregorian(z - 1, 12, 1);
    if y < z - 1 {
        lemma_years(y, z - 1);
        lemma_months(z - 1, 1, 12);
    }
}

/// Whether a date is one of the calendar's.
pub open spec fn is_date(y: int, mo: int, d: int) -> bool {
    1 <= mo <= 12 && 1 <= d <= month_len(y, mo)
}

/// Of two dates of the calendar, the later one has the larger count.
pub proof fn law_later_dates_count_more(y: int, mo: int, d: int, y2: int, mo2: int, d2: int)
    requires
        is_date(y, mo, d),
        is_date(y2, mo2, d2),
        y < y2 || (y == y2 && (mo < mo2 || (mo == mo2 && d < d2))),
    ensures
        epoch_days(y, mo, d) < epoch_days(y2, mo2, d2),
{
    if y == y2 {
        if mo < mo2 {
            lemma_months(y, mo, mo2);
        }
    } else {
        if mo < 12 {
            lemma_months(y, mo, 12);
        }
        lemma_years(y, y2);
        if 1 < mo2 {
            lemma_months(y2, 1, mo2);
        }
    }
}

/// Quotients of a year by the terms of the leap rule, taken apart by eras of
/// four hundred years.
proof fn lemma_era(y: int)
    ensures
        0 <= y - (y / 400) * 400 < 400,
        y / 4 == 100 * (y / 400) + (y - (y / 400) * 400) / 4,
        y / 100 == 4 * (y / 400) + (y - (y / 400) * 400) / 100,
{
}

/// Days from 1970-01-01 to a date.
pub fn days_since_epoch(y: i64, mo: i64, d: i64) -> (days: i64)
    requires
        -999 <= y <= 9999,
        -9 <= mo <= 99,
        -9 <= d <= 99,
    ensures
        days == epoch_days(y as int, mo as int, d as int),
        -1_100_000 <= days <= 3_000_000,
{
    let y_adj: i64 = if mo <= 2 {
        y - 1
    } else {
        y
    };
    let era: i64 = if y_adj >= 0 {
        y_adj / 400
    } else {
        (y_adj - 399) / 400
    };
    assert(era == y_adj as int / 400);
    let yoe: i64 = y_adj - era * 400;
    proof {
        lemma_era(y_adj as int);
    }
    let march_month: i64 = if mo > 2 {
        mo - 3
    } else {
        mo + 9
    };
    let doy: i64 = (153 * march_month + 2) / 5 + d - 1;
    let doe: i64 = yoe * 365 + yoe / 4 - yoe / 100 + doy;
    let days: i64 = era * 146097 + doe - 719468;
    days
}

/// The years have the lengths of the Gregorian calendar: from one first of March to
/// the next there are 366 days if a leap day lies between, else 365, and four hundred
/// years always have the same number of days.
pub proof fn law_year_lengths(y: int, mo: int, d: int)
    ensures
        epoch_days(y + 1, 3, 1) - epoch_days(y, 3, 1) == if (y + 1) % 4 == 0 && ((y + 1) % 100 != 0
            || (y + 1) % 400 == 0) {
            366int
        } else {
            365
        },
        epoch_days(y + 400, mo, d) == epoch_days(y, mo, d) + 146097,
{
    lemma_quotients(y);
    lemma_four_centuries(y, mo, d);
}

/// Four hundred years have the same number of days, wherever they begin.
proof fn lemma_four_centuries(y: int, mo: int, d: int)
    ensures
        epoch_days(y + 400, mo, d) == epoch_days(y, mo, d) + 146097,
{
    let march_year = if mo <= 2 {
        y - 1
    } else {
        y
    };
    lemma_quotient_4(march_year);
    lemma_quotient_100(march_year);
    lemma_quotient_400(march_year);
    assert(y + 400 - 1 == y - 1 + 400);
}

/// How the quotients of the leap rule grow from one year to the next, and over four
/// hundred years.
proof fn lemma_quotients(y: int)
    ensures
        (y + 1) / 4 - y / 4 == if (y + 1) % 4 == 0 {
            1int
        } else {
            0
        },
        (y + 1) / 100 - y / 100 == if (y + 1) % 100 == 0 {
            1int
        } else {
            0
        },
        (y + 1) / 400 - y / 400 == if (y + 1) % 400 == 0 {
            1int
        } else {
            0
        },
        (y + 1) % 400 == 0 ==> (y + 1) % 100 == 0,
        (y + 1) % 100 == 0 ==> (y + 1) % 4 == 0,
        (y + 400) / 4 == y / 4 + 100,
        (y + 400) / 100 == y / 100 + 4,
        (y + 400) / 400 == y / 400 + 1,
{
    lemma_quotient_4(y);
    lemma_quotient_100(y);
    lemma_quotient_400(y);
    lemma_divides(y + 1);
}

/// How the quotient by four grows.
proof fn lemma_quotient_4(y: int)
    ensures
        (y + 1) / 4 - y / 4 == if (y + 1) % 4 == 0 {
            1int
        } else {
            0
        },
        (y + 400) / 4 == y / 4 + 100,
{
}

/// How the quotient by a hundred grows.
proof fn lemma_quotient_100(y: int)
    ensures
        (y + 1) / 100 - y / 100 == if (y + 1) % 100 == 0 {
            1int
        } else {
            0
        },
        (y + 400) / 100 == y / 100 + 4,
{
}

/// How the quotient by four hundred grows.
proof fn lemma_quotient_400(y: int)
    ensures
        (y + 1) / 400 - y / 400 == if (y + 1) % 400 == 0 {
            1int
        } else {
            0
        },
        (y + 400) / 400 == y / 400 + 1,
{
}

/// What four hundred divides, a hundred divides, and what a hundred divides, four
/// divides.
proof fn lemma_divides(y: int)
    ensures
        y % 400 == 0 ==> y % 100 == 0,
        y % 100 == 0 ==> y % 4 == 0,
{
}

/// Months have their lengths: from the first of one to the first of the next there
/// are 31, 30, or in February 28 or 29 days.
pub proof fn law_month_lengths(y: int)
    ensures
        epoch_days(y, 2, 1) - epoch_days(y, 1, 1) == 31,
        epoch_days(y, 3, 1) - epoch_days(y, 2, 1) == if y % 4 == 0 && (y % 100 != 0 || y % 400 == 0) {
            29int
        } else {
            28
        },
        epoch_days(y, 4, 1) - epoch_days(y, 3, 1) == 31,
        epoch_days(y, 5, 1) - epoch_days(y, 4, 1) == 30,
        epoch_days(y, 6, 1) - epoch_days(y, 5, 1) == 31,
        epoch_days(y, 7, 1) - epoch_days(y, 6, 1) == 30,
        epoch_days(y, 8, 1) - epoch_days(y, 7, 1) == 31,
        epoch_days(y, 9, 1) - epoch_days(y, 8, 1) == 31,
        epoch_days(y, 10, 1) - epoch_days(y, 9, 1) == 30,
        epoch_days(y, 11, 1) - epoch_days(y, 10, 1) == 31,
        epoch_days(y, 12, 1) - epoch_days(y, 11, 1) == 30,
        epoch_days(y + 1, 1, 1) - epoch_days(y, 12, 1) == 31,
{
    law_gregorian(y, 2, 1);
    lemma_quotients(y - 1);
}

/// Days and months beyond the calendar's are counted on: a day more is a day later, a
/// month up to February counts as one of the year before, twelve months on, and five
/// months on there are always 153 days more.
pub proof fn law_counts_on(y: int, mo: int, d: int, more: int)
    ensures
        epoch_days(y, mo, d + more) == epoch_days(y, mo, d) + more,
        -10 < mo <= 2 ==> epoch_days(y, mo, d) == epoch_days(y - 1, mo + 12, d),
        mo > 2 ==> epoch_days(y, mo + 5, d) == epoch_days(y, mo, d) + 153,
{
}

} // verus!
