//! Calendar dates and RFC 3339 timestamps.

use vstd::prelude::*;

verus! {

/// A year with a 29th of February.
pub open spec fn leap(y: int) -> bool {
    y % 4 == 0 && (y % 100 != 0 || y % 400 == 0)
}

/// How many days a month has.
pub open spec fn month_days(y: int, m: int) -> int {
    if m == 2 {
        if leap(y) {
            29
        } else {
            28
        }
    } else if m == 4 || m == 6 || m == 9 || m == 11 {
        30
    } else {
        31
    }
}

/// The days of the months before one.
pub open spec fn days_before_month(y: int, m: int) -> int
    decreases m,
{
    if m <= 1 {
        0
    } else {
        days_before_month(y, m - 1) + month_days(y, m - 1)
    }
}

/// The days of the years from year 1 up to one, counted backward before it.
pub open spec fn days_before_year(y: int) -> int {
    365 * (y - 1) + (y - 1) / 4 - (y - 1) / 100 + (y - 1) / 400
}

/// Days since 1970-01-01 in the proleptic Gregorian calendar.
pub open spec fn day_number(y: int, m: int, d: int) -> int {
    days_before_year(y) + days_before_month(y, m) + (d - 1) - 719_162
}

/// A date of the calendar.
pub open spec fn is_date(y: int, m: int, d: int) -> bool {
    1 <= m <= 12 && 1 <= d <= month_days(y, m)
}

/// A year has 365 days, a leap year one more.
pub proof fn years_follow(y: int)
    ensures
        days_before_year(y + 1) == days_before_year(y) + (if leap(y) {
            366int
        } else {
            365int
        }),
        days_before_month(y, 13) == (if leap(y) {
            366int
        } else {
            365int
        }),
{
    reveal_with_fuel(days_before_month, 14);
}

proof fn years_grow(y: int, z: int)
    requires
        y <= z,
    ensures
        days_before_year(z) - days_before_year(y) >= 365 * (z - y),
    decreases z - y,
{
    if y < z {
        years_grow(y, z - 1);
        years_follow(z - 1);
    }
}

proof fn months_grow(y: int, m: int, n: int)
    requires
        1 <= m <= n <= 13,
    ensures
        days_before_month(y, m) <= days_before_month(y, n),
        m < n ==> days_before_month(y, m) + month_days(y, m) <= days_before_month(y, n),
    decreases n - m,
{
    if m < n {
        months_grow(y, m, n - 1);
    }
}

/// Two dates with the same day number are one date.
pub proof fn day_numbers_differ(y: int, m: int, d: int, y2: int, m2: int, d2: int)
    requires
        is_date(y, m, d),
        is_date(y2, m2, d2),
        day_number(y, m, d) == day_number(y2, m2, d2),
    ensures
        y == y2,
        m == m2,
        d == d2,
{
    months_grow(y, m, 13);
    months_grow(y2, m2, 13);
    months_grow(y, 1, m);
    months_grow(y2, 1, m2);
    years_follow(y);
    years_follow(y2);
    if y < y2 {
        years_grow(y + 1, y2);
    } else if y2 < y {
        years_grow(y2 + 1, y);
    } else if m < m2 {
        months_grow(y, m, m2);
    } else if m2 < m {
        months_grow(y, m2, m);
    }
}

/// How many days a month has.
pub fn days_in_month(y: i64, m: i64) -> (r: i64)
    ensures
        r == month_days(y as int, m as int),
{
    if m == 2 {
        if floor_mod(y, 4) == 0 && (floor_mod(y, 100) != 0 || floor_mod(y, 400) == 0) {
            29
        } else {
            28
        }
    } else if m == 4 || m == 6 || m == 9 || m == 11 {
        30
    } else {
        31
    }
}

/// The days of the months from March up to one, by a linear rule.
proof fn march_rule(y: int, m: int)
    requires
        1 <= m <= 12,
    ensures
        m > 2 ==> (153 * (m - 3) + 2) / 5 == days_before_month(y, m) - days_before_month(y, 3),
        m <= 2 ==> (153 * (m + 9) + 2) / 5 == days_before_month(y, m) + 306,
        days_before_month(y, 3) == 59 + (if leap(y) {
            1int
        } else {
            0int
        }),
{
    reveal_with_fuel(days_before_month, 14);
}

/// Days since 1970-01-01 in the proleptic Gregorian calendar.
pub fn days_from_civil(y: i64, m: i64, d: i64) -> (r: i64)
    requires
        -20_000_000_000_000_000 <= y <= 20_000_000_000_000_000,
        1 <= m <= 12,
        1 <= d <= 31,
    ensures
        r == day_number(y as int, m as int, d as int),
{
    let ghost y0 = y as int;
    let y: i64 = if m <= 2 {
        y - 1
    } else {
        y
    };
    let era: i64 = floor_div(y, 400);
    let yoe: i64 = y - era * 400;
    let mp: i64 = if m > 2 {
        m - 3
    } else {
        m + 9
    };
    let doy: i64 = (153 * mp + 2) / 5 + d - 1;
    let doe: i64 = yoe * 365 + yoe / 4 - yoe / 100 + doy;
    proof {
        march_rule(y0, m as int);
        years_follow(y0);
        assert(0 <= yoe < 400);
        assert(y as int == 400 * era + yoe);
        let q = y as int;
        assert(q / 4 == 100 * era + yoe as int / 4);
        assert(q / 100 == 4 * era + yoe as int / 100);
        assert(q / 400 == era as int);
    }
    era * 146_097 + doe - 719_468
}

/// Division that rounds down.
pub fn floor_div(a: i64, b: i64) -> (r: i64)
    requires
        b > 0,
    ensures
        r == a as int / b as int,
{
    if a >= 0 {
        a / b
    } else {
        let q: i64 = (-(a + 1)) / b;
        proof {
            let n = -(a + 1);
            let k = n as int / b as int;
            assert(n == k * b + n as int % b as int) by {
                vstd::arithmetic::div_mod::lemma_fundamental_div_mod(n as int, b as int);
            }
            let rest = b - 1 - n as int % b as int;
            assert(a as int == (-k - 1) * b + rest) by (nonlinear_arith)
                requires
                    n == k * b + n as int % b as int,
                    n == -(a + 1),
                    rest == b - 1 - n as int % b as int,
            ;
            assert(0 <= rest < b) by {
                vstd::arithmetic::div_mod::lemma_mod_bound(n as int, b as int);
            }
            vstd::arithmetic::div_mod::lemma_fundamental_div_mod_converse(
                a as int,
                b as int,
                -k - 1,
                rest,
            );
            assert(k >= 0) by {
                vstd::arithmetic::div_mod::lemma_div_pos_is_pos(n as int, b as int);
            }
        }
        -q - 1
    }
}

/// What division that rounds down leaves over.
pub fn floor_mod(a: i64, b: i64) -> (r: i64)
    requires
        b > 0,
    ensures
        r == a as int % b as int,
{
    if a >= 0 {
        a % b
    } else {
        let over: i64 = (-(a + 1)) % b;
        proof {
            let n = -(a + 1);
            let k = n as int / b as int;
            assert(n == k * b + n as int % b as int) by {
                vstd::arithmetic::div_mod::lemma_fundamental_div_mod(n as int, b as int);
            }
            let rest = b - 1 - n as int % b as int;
            assert(a as int == (-k - 1) * b + rest) by (nonlinear_arith)
                requires
                    n == k * b + n as int % b as int,
                    n == -(a + 1),
                    rest == b - 1 - n as int % b as int,
            ;
            assert(0 <= rest < b) by {
                vstd::arithmetic::div_mod::lemma_mod_bound(n as int, b as int);
            }
            vstd::arithmetic::div_mod::lemma_fundamental_div_mod_converse(
                a as int,
                b as int,
                -k - 1,
                rest,
            );
        }
        b - 1 - over
    }
}

/// The year of an era that a day of the era falls into.
proof fn year_of_era(doe: int)
    requires
        0 <= doe < 146_097,
    ensures
        ({
            let yoe = (doe - doe / 1460 + doe / 36524 - doe / 146_096) / 365;
            &&& 0 <= yoe < 400
            &&& 365 * yoe + yoe / 4 - yoe / 100 <= doe
            &&& doe < 365 * (yoe + 1) + (yoe + 1) / 4 - (yoe + 1) / 100 + (yoe + 1) / 400
        }),
{
}

/// The month, counted from March, that a day of a year from March falls
/// into.
proof fn month_of_march_year(doy: int)
    requires
        0 <= doy <= 365,
    ensures
        ({
            let mp = (5 * doy + 2) / 153;
            &&& 0 <= mp <= 11
            &&& (153 * mp + 2) / 5 <= doy
            &&& doy < (153 * (mp + 1) + 2) / 5
        }),
{
}

/// The date of a day of a year from March.
proof fn march_date(y: int, doy: int)
    requires
        0 <= doy < 365 + (if leap(y + 1) {
            1int
        } else {
            0int
        }),
    ensures
        ({
            let mp = (5 * doy + 2) / 153;
            let d = doy - (153 * mp + 2) / 5 + 1;
            let m = if mp < 10 {
                mp + 3
            } else {
                mp - 9
            };
            let year = if m <= 2 {
                y + 1
            } else {
                y
            };
            &&& 0 <= mp <= 11
            &&& is_date(year, m, d)
            &&& day_number(year, m, d) == 365 * y + y / 4 - y / 100 + y / 400 + doy - 719_468
        }),
{
    month_of_march_year(doy);
    let mp = (5 * doy + 2) / 153;
    let d = doy - (153 * mp + 2) / 5 + 1;
    let m = if mp < 10 {
        mp + 3
    } else {
        mp - 9
    };
    let year = if m <= 2 {
        y + 1
    } else {
        y
    };
    march_rule(year, m);
    years_follow(y);
    assert(month_days(year, m) >= d) by {
        if mp < 11 {
            march_step(mp);
        } else {
            assert(m == 2);
        }
    }
}

/// The linear rule steps by the days of the months.
proof fn march_step(mp: int)
    requires
        0 <= mp < 11,
    ensures
        (153 * (mp + 1) + 2) / 5 - (153 * mp + 2) / 5 == month_days(1, if mp < 10 {
            mp + 3
        } else {
            mp - 9
        }),
{
}

/// The date of a day number.
pub fn civil_from_days(z: i64) -> (r: (i64, i64, i64))
    requires
        -9_000_000_000_000_000_000 <= z <= 9_000_000_000_000_000_000,
    ensures
        is_date(r.0 as int, r.1 as int, r.2 as int),
        day_number(r.0 as int, r.1 as int, r.2 as int) == z,
{
    let ghost z0 = z as int;
    let z: i64 = z + 719_468;
    let era: i64 = floor_div(z, 146_097);
    let doe: i64 = z - era * 146_097;
    assert(0 <= doe < 146_097);
    proof {
        year_of_era(doe as int);
    }
    let yoe: i64 = (doe - doe / 1460 + doe / 36524 - doe / 146_096) / 365;
    let y: i64 = yoe + era * 400;
    let doy: i64 = doe - (365 * yoe + yoe / 4 - yoe / 100);
    proof {
        era_years(era as int, yoe as int);
        march_date(y as int, doy as int);
    }
    let mp: i64 = (5 * doy + 2) / 153;
    let d: i64 = doy - (153 * mp + 2) / 5 + 1;
    let m: i64 = if mp < 10 {
        mp + 3
    } else {
        mp - 9
    };
    (
        if m <= 2 {
            y + 1
        } else {
            y
        },
        m,
        d,
    )
}

/// The leap days of a year inside its era.
proof fn era_years(era: int, yoe: int)
    requires
        0 <= yoe < 400,
    ensures
        ({
            let y = yoe + era * 400;
            &&& 365 * y + y / 4 - y / 100 + y / 400 == era * 146_097 + 365 * yoe + yoe / 4 - yoe
                / 100
            &&& leap(y + 1) == ((yoe + 1) / 4 - (yoe + 1) / 100 + (yoe + 1) / 400 - (yoe / 4 - yoe
                / 100) == 1)
            &&& !leap(y + 1) ==> (yoe + 1) / 4 - (yoe + 1) / 100 + (yoe + 1) / 400 - (yoe / 4 - yoe
                / 100) == 0
        }),
{
    let y = yoe + era * 400;
    let next = yoe + 1;
    assert(y / 4 == 100 * era + yoe / 4 && (y + 1) % 4 == next % 4);
    assert(y / 100 == 4 * era + yoe / 100 && (y + 1) % 100 == next % 100);
    assert(y / 400 == era && (y + 1) % 400 == next % 400);
    one_up(yoe, 4);
    one_up(yoe, 100);
    one_up(yoe, 400);
    assert(yoe / 400 == 0);
    assert(next % 400 == 0 ==> next % 100 == 0);
    assert(next % 100 == 0 ==> next % 4 == 0);
}

/// A quotient grows where the dividend comes to a multiple.
proof fn one_up(a: int, d: int)
    requires
        0 <= a,
        d == 4 || d == 100 || d == 400,
    ensures
        (a + 1) / d - a / d == (if (a + 1) % d == 0 {
            1int
        } else {
            0int
        }),
{
    if d == 4 {
        assert((a + 1) / 4 - a / 4 == (if (a + 1) % 4 == 0 {
            1int
        } else {
            0int
        }));
    } else if d == 100 {
        assert((a + 1) / 100 - a / 100 == (if (a + 1) % 100 == 0 {
            1int
        } else {
            0int
        }));
    } else {
        assert((a + 1) / 400 - a / 400 == (if (a + 1) % 400 == 0 {
            1int
        } else {
            0int
        }));
    }
}

/// Every day has a date.
pub proof fn date_of_day(z: int) -> (t: (int, int, int))
    ensures
        is_date(t.0, t.1, t.2),
        day_number(t.0, t.1, t.2) == z,
{
    let n = z + 719_468;
    let era = n / 146_097;
    let doe = n - era * 146_097;
    year_of_era(doe);
    let yoe = (doe - doe / 1460 + doe / 36524 - doe / 146_096) / 365;
    let y = yoe + era * 400;
    let doy = doe - (365 * yoe + yoe / 4 - yoe / 100);
    era_years(era, yoe);
    march_date(y, doy);
    let mp = (5 * doy + 2) / 153;
    let d = doy - (153 * mp + 2) / 5 + 1;
    let m = if mp < 10 {
        mp + 3
    } else {
        mp - 9
    };
    (
        if m <= 2 {
            y + 1
        } else {
            y
        },
        m,
        d,
    )
}

/// The calendar is the Gregorian one: four months have thirty days, February
/// has twenty-eight or, every fourth year but not in three of four years
/// that end a century, twenty-nine, and the others have thirty-one.
pub proof fn months_are_as_long_as_they_are(y: int, m: int)
    requires
        1 <= m <= 12,
    ensures
        m == 4 || m == 6 || m == 9 || m == 11 ==> month_days(y, m) == 30,
        m == 2 ==> month_days(y, m) == (if y % 400 == 0 {
            29
        } else if y % 100 == 0 {
            28
        } else if y % 4 == 0 {
            29
        } else {
            28int
        }),
        m != 2 && m != 4 && m != 6 && m != 9 && m != 11 ==> month_days(y, m) == 31,
{
}

/// Each day is one after the day before, over the ends of months and years,
/// and days are counted from the first of January 1970.
pub proof fn days_follow_each_other(y: int, m: int, d: int)
    requires
        is_date(y, m, d),
    ensures
        d < month_days(y, m) ==> day_number(y, m, d + 1) == day_number(y, m, d) + 1,
        d == month_days(y, m) && m < 12 ==> day_number(y, m + 1, 1) == day_number(y, m, d) + 1,
        d == month_days(y, m) && m == 12 ==> day_number(y + 1, 1, 1) == day_number(y, m, d) + 1,
        day_number(1970, 1, 1) == 0,
{
    years_follow(y);
    reveal_with_fuel(days_before_month, 2);
}

} // verus!
