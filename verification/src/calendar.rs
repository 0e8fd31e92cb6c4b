//! The Gregorian calendar that log timestamps are written in, and the proof
//! that the day-count conversion used for them follows it day by day.
use vstd::prelude::*;

use crate::logfmt::civil_spec;

verus! {

pub open spec fn is_leap_year(y: int) -> bool {
    y % 4 == 0 && (y % 100 != 0 || y % 400 == 0)
}

pub open spec fn days_in_month(y: int, m: int) -> int {
    if m == 2 {
        if is_leap_year(y) {
            29
        } else {
            28
        }
    } else if m == 4 || m == 6 || m == 9 || m == 11 {
        30
    } else {
        31
    }
}

/// A date that exists: a month of the year and a day of that month.
pub open spec fn valid_date(date: (int, int, int)) -> bool {
    1 <= date.1 <= 12 && 1 <= date.2 <= days_in_month(date.0, date.1)
}

/// The date after `date`.
pub open spec fn next_day(date: (int, int, int)) -> (int, int, int) {
    let (y, m, d) = date;
    if d < days_in_month(y, m) {
        (y, m, d + 1)
    } else if m < 12 {
        (y, m + 1, 1)
    } else {
        (y + 1, 1, 1)
    }
}

// Within an era of 400 years counted from March 1: the day on which year
// `k` of the era starts, how long that year is, and the year a day falls in.
spec fn year_start(k: int) -> int {
    365 * k + k / 4 - k / 100
}

spec fn year_len(k: int) -> int {
    if is_leap_year(k + 1) {
        366
    } else {
        365
    }
}

spec fn year_of_day(doe: int) -> int {
    (doe - doe / 1460 + doe / 36524 - doe / 146096) / 365
}

proof fn lemma_year_bounds(k: int)
    requires
        0 <= k < 400,
    ensures
        year_of_day(year_start(k)) == k,
        year_of_day(year_start(k) + year_len(k) - 1) == k,
        k < 399 ==> year_start(k + 1) == year_start(k) + year_len(k),
        k == 399 ==> year_start(k) + year_len(k) == 146097,
        year_len(k) == 365 || year_len(k) == 366,
{
    let c = k / 100;
    let q = (k % 100) / 4;
    let r = k % 4;
    assert(k == 100 * c + 4 * q + r);
    assert(0 <= c < 4 && 0 <= q < 25 && 0 <= r < 4);
    assert(k / 4 == 25 * c + q);
    assert(year_start(k) == 36524 * c + 1461 * q + 365 * r);
    assert((k + 1) % 4 == 0 <==> r == 3);
    assert((k + 1) % 100 == 0 <==> (q == 24 && r == 3));
    assert((k + 1) % 400 == 0 <==> (c == 3 && q == 24 && r == 3));
    if k < 399 {
        let k1 = k + 1;
        let c1 = k1 / 100;
        let q1 = (k1 % 100) / 4;
        let r1 = k1 % 4;
        assert(k1 == 100 * c1 + 4 * q1 + r1);
        assert(k1 / 4 == 25 * c1 + q1);
    }
}

spec fn day_count_core(x: int) -> int {
    x - x / 1460 + x / 36524 - x / 146096
}

proof fn lemma_core_step(x: int)
    requires
        0 <= x < 146096,
    ensures
        day_count_core(x) <= day_count_core(x + 1),
{
    assert(146096int % 1460 != 0);
}

proof fn lemma_year_of_day_monotone(x: int, y: int)
    requires
        0 <= x <= y <= 146096,
    ensures
        year_of_day(x) <= year_of_day(y),
    decreases y - x,
{
    if x < y {
        lemma_year_of_day_monotone(x, y - 1);
        lemma_core_step(y - 1);
        lemma_core_monotone(x, y - 1);
    }
}

proof fn lemma_core_monotone(x: int, y: int)
    requires
        0 <= x <= y <= 146096,
    ensures
        day_count_core(x) <= day_count_core(y),
    decreases y - x,
{
    if x < y {
        lemma_core_monotone(x, y - 1);
        lemma_core_step(y - 1);
    }
}

proof fn lemma_year_start_increasing(j: int, k: int)
    requires
        0 <= j < k < 400,
    ensures
        year_start(j) + year_len(j) <= year_start(k),
    decreases k - j,
{
    lemma_year_bounds(j);
    lemma_year_bounds(k - 1);
    if j < k - 1 {
        lemma_year_start_increasing(j, k - 1);
    }
}

/// The year of the era that day `doe` falls in starts on or before it and
/// has not ended by it.
proof fn lemma_year_bracket(doe: int)
    requires
        0 <= doe < 146097,
    ensures
        0 <= year_of_day(doe) < 400,
        year_start(year_of_day(doe)) <= doe < year_start(year_of_day(doe)) + year_len(
            year_of_day(doe),
        ),
{
    let k = year_of_day(doe);
    assert(0 <= k < 400) by {
        lemma_year_of_day_monotone(0, doe);
        lemma_year_of_day_monotone(doe, 146096);
        lemma_year_bounds(399);
        lemma_year_bounds(0);
    }
    lemma_year_bounds(k);
    if doe < year_start(k) {
        assert(k >= 1) by {
            lemma_year_bounds(0);
        }
        lemma_year_bounds(k - 1);
        lemma_year_of_day_monotone(doe, year_start(k - 1) + year_len(k - 1) - 1);
        assert(false);
    }
    if doe >= year_start(k) + year_len(k) {
        assert(k < 399);
        lemma_year_bounds(k + 1);
        lemma_year_of_day_monotone(year_start(k + 1), doe);
        assert(false);
    }
}

/// Two years of an era that both hold a day are the same year.
proof fn lemma_year_unique(doe: int, j: int)
    requires
        0 <= j < 400,
        year_start(j) <= doe < year_start(j) + year_len(j),
    ensures
        year_of_day(doe) == j,
{
    lemma_year_bounds(j);
    let k = year_of_day(doe);
    lemma_year_bracket(doe);
    if k < j {
        lemma_year_start_increasing(k, j);
    }
    if j < k {
        lemma_year_start_increasing(j, k);
    }
}

// Within a year counted from March 1: the month (0 for March) and the day
// of the month of day `doy` of the year.
spec fn month_index(doy: int) -> int {
    (5 * doy + 2) / 153
}

spec fn day_of_month(doy: int) -> int {
    doy - (153 * month_index(doy) + 2) / 5 + 1
}

spec fn civil_month(mp: int) -> int {
    if mp < 10 {
        mp + 3
    } else {
        mp - 9
    }
}

/// Length of the months March to January, which do not depend on the year.
spec fn fixed_month_len(mp: int) -> int {
    days_in_month(1, civil_month(mp))
}

proof fn lemma_month_bounds(doy: int)
    requires
        0 <= doy <= 365,
    ensures
        0 <= month_index(doy) <= 11,
        1 <= day_of_month(doy),
        month_index(doy) < 11 ==> day_of_month(doy) <= fixed_month_len(month_index(doy)),
        month_index(doy) == 11 ==> day_of_month(doy) == doy - 336,
{
    let mp = month_index(doy);
    assert(0 <= mp <= 11);
    assert(mp == 0 || mp == 1 || mp == 2 || mp == 3 || mp == 4 || mp == 5 || mp == 6 || mp == 7
        || mp == 8 || mp == 9 || mp == 10 || mp == 11);
}

proof fn lemma_month_step(doy: int)
    requires
        0 <= doy < 365,
    ensures
        ({
            let mp = month_index(doy);
            let d = day_of_month(doy);
            ||| month_index(doy + 1) == mp && day_of_month(doy + 1) == d + 1 && (mp == 11 || d
                < fixed_month_len(mp))
            ||| mp < 11 && month_index(doy + 1) == mp + 1 && day_of_month(doy + 1) == 1 && d
                == fixed_month_len(mp)
        }),
{
    let mp = month_index(doy);
    assert(mp == 0 || mp == 1 || mp == 2 || mp == 3 || mp == 4 || mp == 5 || mp == 6 || mp == 7
        || mp == 8 || mp == 9 || mp == 10 || mp == 11);
    let mp1 = month_index(doy + 1);
    assert(mp1 == mp || mp1 == mp + 1);
}

/// The date of day `doe` of era `era` (eras of 400 years start on March 1
/// of years divisible by 400).
spec fn date_in_era(era: int, doe: int) -> (int, int, int) {
    let yoe = year_of_day(doe);
    let doy = doe - year_start(yoe);
    let m = civil_month(month_index(doy));
    let y = yoe + era * 400;
    (if m <= 2 {
        y + 1
    } else {
        y
    }, m, day_of_month(doy))
}

proof fn lemma_leap_shift(x: int, e: int)
    ensures
        is_leap_year(x + 400 * e) == is_leap_year(x),
{
    assert((x + 400 * e) % 4 == x % 4) by (nonlinear_arith);
    assert((x + 400 * e) % 100 == x % 100) by (nonlinear_arith);
    assert((x + 400 * e) % 400 == x % 400) by (nonlinear_arith);
}

proof fn lemma_days_in_month_fixed(y: int, mp: int)
    requires
        0 <= mp < 11,
    ensures
        days_in_month(y, civil_month(mp)) == fixed_month_len(mp),
{
}

proof fn lemma_date_in_era_valid(era: int, doe: int)
    requires
        0 <= doe < 146097,
    ensures
        valid_date(date_in_era(era, doe)),
{
    lemma_year_bracket(doe);
    let yoe = year_of_day(doe);
    lemma_year_bounds(yoe);
    let doy = doe - year_start(yoe);
    lemma_month_bounds(doy);
    let mp = month_index(doy);
    let date = date_in_era(era, doe);
    if mp < 11 {
        lemma_days_in_month_fixed(date.0, mp);
    } else {
        lemma_leap_shift(yoe + 1, era);
        assert(date.0 == yoe + 1 + 400 * era);
    }
}

proof fn lemma_date_in_era_next(era: int, doe: int)
    requires
        0 <= doe < 146096,
    ensures
        date_in_era(era, doe + 1) == next_day(date_in_era(era, doe)),
{
    lemma_year_bracket(doe);
    let yoe = year_of_day(doe);
    lemma_year_bounds(yoe);
    let doy = doe - year_start(yoe);
    lemma_month_bounds(doy);
    let mp = month_index(doy);
    let date = date_in_era(era, doe);
    lemma_leap_shift(yoe + 1, era);
    if doe + 1 < year_start(yoe) + year_len(yoe) {
        lemma_year_unique(doe + 1, yoe);
        lemma_month_step(doy);
        if mp < 11 {
            lemma_days_in_month_fixed(date.0, mp);
        }
        if month_index(doy + 1) < 11 {
            lemma_days_in_month_fixed(date.0, month_index(doy + 1));
        }
    } else {
        assert(yoe < 399);
        lemma_year_bounds(yoe + 1);
        lemma_year_unique(doe + 1, yoe + 1);
        assert(doe + 1 - year_start(yoe + 1) == 0);
        assert(month_index(0) == 0 && day_of_month(0) == 1);
        assert(doy == year_len(yoe) - 1);
        assert(mp == 11);
    }
}

proof fn lemma_date_in_era_wraps(era: int)
    ensures
        date_in_era(era + 1, 0) == next_day(date_in_era(era, 146096)),
{
    lemma_year_bracket(146096);
    lemma_year_bounds(399);
    lemma_year_unique(146096, 399);
    lemma_year_bounds(0);
    lemma_year_unique(0, 0);
    lemma_leap_shift(400, era);
    assert(is_leap_year(400));
    assert(146096 - year_start(399) == 365);
    assert(month_index(365) == 11 && day_of_month(365) == 29);
    assert(month_index(0) == 0 && day_of_month(0) == 1);
    assert(399 + era * 400 + 1 == 400 + 400 * era);
    assert(0 + (era + 1) * 400 == 400 + 400 * era) by (nonlinear_arith);
}

proof fn lemma_civil_in_era(days: int)
    ensures
        civil_spec(days) == date_in_era(
            (days + 719468) / 146097,
            (days + 719468) % 146097,
        ),
{
    let z = days + 719468;
    assert(z - (z / 146097) * 146097 == z % 146097) by (nonlinear_arith);
}

/// Timestamps follow the Gregorian calendar: day 0 is 1970-01-01, every day
/// count gives a date that exists, and each next day count gives the next
/// date.
pub proof fn lemma_civil_is_gregorian(days: int)
    ensures
        civil_spec(0) == (1970int, 1int, 1int),
        valid_date(civil_spec(days)),
        civil_spec(days + 1) == next_day(civil_spec(days)),
{
    lemma_civil_in_era(0);
    assert(719468int / 146097 == 4 && 719468int % 146097 == 135080);
    lemma_year_bounds(369);
    lemma_year_unique(135080, 369);
    assert(135080 - year_start(369) == 306);
    assert(month_index(306) == 10 && day_of_month(306) == 1);
    lemma_civil_in_era(days);
    lemma_civil_in_era(days + 1);
    let z = days + 719468;
    let era = z / 146097;
    let doe = z % 146097;
    lemma_date_in_era_valid(era, doe);
    if doe < 146096 {
        assert((z + 1) / 146097 == era && (z + 1) % 146097 == doe + 1);
        lemma_date_in_era_next(era, doe);
    } else {
        assert((z + 1) / 146097 == era + 1 && (z + 1) % 146097 == 0);
        lemma_date_in_era_wraps(era);
    }
}

} // verus!

verus! {

/// `a` is an earlier date than `b`.
pub open spec fn date_before(a: (int, int, int), b: (int, int, int)) -> bool {
    a.0 < b.0 || (a.0 == b.0 && (a.1 < b.1 || (a.1 == b.1 && a.2 < b.2)))
}

/// Later day counts give later dates.
pub proof fn lemma_civil_increasing(d1: int, d2: int)
    requires
        d1 < d2,
    ensures
        date_before(civil_spec(d1), civil_spec(d2)),
    decreases d2 - d1,
{
    lemma_civil_is_gregorian(d2 - 1);
    if d1 < d2 - 1 {
        lemma_civil_increasing(d1, d2 - 1);
    }
}

} // verus!
