//! The civil calendar: which dates exist, and which day each of them is.
use vstd::prelude::*;

verus! {

/// Leap years of the Gregorian calendar.
pub open spec fn leap(y: int) -> bool {
    y % 4 == 0 && (y % 100 != 0 || y % 400 == 0)
}

pub open spec fn month_len(y: int, m: int) -> int {
    if m == 2 {
        if leap(y) {
            29
        } else {
            28
        }
    } else if m == 4 || m == 6 || m == 9 || m == 11 {
        30
    } else {
        31
    }
}

/// Year, month and day that exist.
pub open spec fn valid_date(t: (int, int, int)) -> bool {
    1 <= t.1 <= 12 && 1 <= t.2 <= month_len(t.0, t.1)
}

/// How many leap years lie between year 1 and year `y`, `y` not counted.
pub open spec fn leaps_before(y: int) -> int {
    (y - 1) / 4 - (y - 1) / 100 + (y - 1) / 400
}

/// Days of year `y` that lie before month `m`.
pub open spec fn days_before_month(y: int, m: int) -> int
    decreases m,
{
    if m <= 1 {
        0
    } else {
        days_before_month(y, m - 1) + month_len(y, m - 1)
    }
}

/// Days from 1 January 1970 to a date.
pub open spec fn day_number(t: (int, int, int)) -> int {
    365 * (t.0 - 1970) + leaps_before(t.0) - leaps_before(1970) + days_before_month(t.0, t.1) + t.2 - 1
}

/// The date that lies `day` days after 1 January 1970.
pub open spec fn date_of(day: int) -> (int, int, int) {
    choose|t: (int, int, int)| #[trigger] valid_date(t) && day_number(t) == day
}

pub proof fn lemma_months(y: int)
    ensures
        days_before_month(y, 1) == 0,
        days_before_month(y, 2) == 31,
        days_before_month(y, 3) == 59 + if leap(y) { 1int } else { 0 },
        days_before_month(y, 4) == 90 + if leap(y) { 1int } else { 0 },
        days_before_month(y, 5) == 120 + if leap(y) { 1int } else { 0 },
        days_before_month(y, 6) == 151 + if leap(y) { 1int } else { 0 },
        days_before_month(y, 7) == 181 + if leap(y) { 1int } else { 0 },
        days_before_month(y, 8) == 212 + if leap(y) { 1int } else { 0 },
        days_before_month(y, 9) == 243 + if leap(y) { 1int } else { 0 },
        days_before_month(y, 10) == 273 + if leap(y) { 1int } else { 0 },
        days_before_month(y, 11) == 304 + if leap(y) { 1int } else { 0 },
        days_before_month(y, 12) == 334 + if leap(y) { 1int } else { 0 },
{
    reveal_with_fuel(days_before_month, 13);
}

/// A year is followed by the next.
proof fn lemma_year_step(y: int)
    ensures
        leaps_before(y + 1) == leaps_before(y) + if leap(y) { 1int } else { 0 },
{
    assert(y / 4 == (y - 1) / 4 + if y % 4 == 0 { 1int } else { 0 });
    assert(y / 100 == (y - 1) / 100 + if y % 100 == 0 { 1int } else { 0 });
    assert(y / 400 == (y - 1) / 400 + if y % 400 == 0 { 1int } else { 0 });
    assert(y % 400 == 0 ==> y % 100 == 0);
    assert(y % 100 == 0 ==> y % 4 == 0);
}

/// The days of a year lie between its first day and the first of the next.
pub proof fn lemma_within_year(t: (int, int, int))
    requires
        valid_date(t),
    ensures
        day_number((t.0, 1, 1)) <= day_number(t) < day_number((t.0 + 1, 1, 1)),
{
    lemma_months(t.0);
    lemma_months(t.0 + 1);
    lemma_year_step(t.0);
}

/// One date for one day.
pub proof fn lemma_date_unique(a: (int, int, int), b: (int, int, int))
    requires
        valid_date(a),
        valid_date(b),
        day_number(a) == day_number(b),
    ensures
        a == b,
{
    lemma_within_year(a);
    lemma_within_year(b);
    lemma_months(a.0);
    lemma_months(b.0);
    lemma_months(a.0 + 1);
    lemma_months(b.0 + 1);
    if a.0 < b.0 {
        assert(day_number((a.0 + 1, 1, 1)) <= day_number((b.0, 1, 1)));
    }
    if b.0 < a.0 {
        assert(day_number((b.0 + 1, 1, 1)) <= day_number((a.0, 1, 1)));
    }
}

/// Start of a year of the era that runs from March to February.
spec fn march_start(y: int) -> int {
    365 * y + y / 4 - y / 100 + y / 400
}

/// The year of the era in which a day of the era lies.
#[verifier::rlimit(30)]
proof fn lemma_year_of_era(doe: int)
    requires
        0 <= doe <= 146096,
    ensures
        ({
            let yoe = (doe - doe / 1460 + doe / 36524 - doe / 146096) / 365;
            &&& 0 <= yoe <= 399
            &&& march_start(yoe) <= doe < march_start(yoe + 1)
        }),
{
}

/// A day of a March-based year, turned into month and day of the month.
proof fn lemma_month_of_year(doy: int)
    requires
        0 <= doy <= 365,
    ensures
        ({
            let mp = (5 * doy + 2) / 153;
            let first = (153 * mp + 2) / 5;
            let next = (153 * (mp + 1) + 2) / 5;
            &&& 0 <= mp <= 11
            &&& first <= doy
            &&& mp < 11 ==> doy < next
        }),
{
}

/// The day number of the date that the era arithmetic finds.
proof fn lemma_era_date(era: int, yoe: int, mp: int, d: int)
    requires
        0 <= yoe <= 399,
        0 <= mp <= 11,
    ensures
        ({
            let m = if mp < 10 { mp + 3 } else { mp - 9 };
            let y = yoe + era * 400 + if m <= 2 { 1int } else { 0 };
            day_number((y, m, d)) == era * 146097 + 365 * yoe + yoe / 4 - yoe / 100 + (153 * mp + 2) / 5 + d - 1
                - 719468
        }),
{
    let m = if mp < 10 { mp + 3 } else { mp - 9 };
    let y = yoe + era * 400 + if m <= 2 { 1int } else { 0 };
    lemma_months(y);
    let yp = yoe + era * 400;
    assert(yp / 4 == yoe / 4 + 100 * era);
    assert(yp / 100 == yoe / 100 + 4 * era);
    assert(yp / 400 == era);
    lemma_year_step(yp);
}

/// A March-based year has 366 days when the February at its end is a leap one.
proof fn lemma_march_step(y: int)
    ensures
        march_start(y + 1) == march_start(y) + 365 + if leap(y + 1) { 1int } else { 0 },
{
    lemma_year_step(y + 1);
}

/// The era arithmetic finds a date that exists, and the right one.
#[verifier::rlimit(30)]
proof fn lemma_era_valid(era: int, doe: int, yoe: int, mp: int)
    requires
        0 <= yoe <= 399,
        march_start(yoe) <= doe < march_start(yoe + 1),
        mp == (5 * (doe - (365 * yoe + yoe / 4 - yoe / 100)) + 2) / 153,
    ensures
        ({
            let doy = doe - (365 * yoe + yoe / 4 - yoe / 100);
            let d = doy - (153 * mp + 2) / 5 + 1;
            let m = if mp < 10 { mp + 3 } else { mp - 9 };
            let y = yoe + era * 400 + if m <= 2 { 1int } else { 0 };
            &&& 0 <= doy <= 365
            &&& 0 <= mp <= 11
            &&& valid_date((y, m, d))
            &&& day_number((y, m, d)) == era * 146097 + doe - 719468
        }),
{
    let doy = doe - (365 * yoe + yoe / 4 - yoe / 100);
    let d = doy - (153 * mp + 2) / 5 + 1;
    let m = if mp < 10 { mp + 3 } else { mp - 9 };
    let y = yoe + era * 400 + if m <= 2 { 1int } else { 0 };
    assert(yoe / 400 == 0);
    lemma_march_step(yoe);
    lemma_month_of_year(doy);
    lemma_era_date(era, yoe, mp, d);
    if mp == 11 {
        let q = yoe + 1;
        assert(y == q + 400 * era);
        assert(y % 4 == q % 4 && y % 100 == q % 100 && y % 400 == q % 400);
    }
}

/// Every day has a date, which is the one `date_of` names.
pub proof fn lemma_date_is(day: int, t: (int, int, int))
    requires
        valid_date(t),
        day_number(t) == day,
    ensures
        date_of(day) == t,
{
    let u = date_of(day);
    assert(valid_date(u) && day_number(u) == day);
    lemma_date_unique(t, u);
}

/// Every day has a date.
pub proof fn lemma_date_exists(day: int)
    ensures
        valid_date(date_of(day)),
        day_number(date_of(day)) == day,
{
    let z = day + 719468;
    let era = z / 146097;
    let doe = z % 146097;
    let yoe = (doe - doe / 1460 + doe / 36524 - doe / 146096) / 365;
    lemma_year_of_era(doe);
    let mp = (5 * (doe - (365 * yoe + yoe / 4 - yoe / 100)) + 2) / 153;
    lemma_era_valid(era, doe, yoe, mp);
    let d = doe - (365 * yoe + yoe / 4 - yoe / 100) - (153 * mp + 2) / 5 + 1;
    let m = if mp < 10 { mp + 3 } else { mp - 9 };
    let y = yoe + era * 400 + if m <= 2 { 1int } else { 0 };
    lemma_date_is(day, (y, m, d));
}

/// The date behind a date.
pub open spec fn tomorrow(t: (int, int, int)) -> (int, int, int) {
    if t.2 < month_len(t.0, t.1) {
        (t.0, t.1, t.2 + 1)
    } else if t.1 < 12 {
        (t.0, t.1 + 1, 1)
    } else {
        (t.0 + 1, 1, 1)
    }
}

/// The next date is the next day.
pub proof fn law_next_day(t: (int, int, int))
    requires
        valid_date(t),
    ensures
        valid_date(tomorrow(t)),
        day_number(tomorrow(t)) == day_number(t) + 1,
        date_of(day_number(t) + 1) == tomorrow(t),
{
    lemma_months(t.0);
    lemma_months(t.0 + 1);
    lemma_year_step(t.0);
    lemma_date_is(day_number(t) + 1, tomorrow(t));
}

/// The date that lies `days` days after 1 January 1970: year, month, day.
pub fn civil_from_days(days: u64) -> (r: (u64, u64, u64))
    requires
        days <= u64::MAX / 86400,
    ensures
        valid_date((r.0 as int, r.1 as int, r.2 as int)),
        day_number((r.0 as int, r.1 as int, r.2 as int)) == days,
        (r.0 as int, r.1 as int, r.2 as int) == date_of(days as int),
{
    let z: u64 = days + 719_468;
    let era: u64 = z / 146_097;
    let doe: u64 = z % 146_097;
    let yoe: u64 = (doe - doe / 1460 + doe / 36_524 - doe / 146_096) / 365;
    let ghost mp0 = (5 * (doe - (365 * yoe + yoe / 4 - yoe / 100)) + 2) / 153;
    proof {
        lemma_year_of_era(doe as int);
        lemma_era_valid(era as int, doe as int, yoe as int, mp0);
    }
    let doy: u64 = doe - (365 * yoe + yoe / 4 - yoe / 100);
    let mp: u64 = (5 * doy + 2) / 153;
    let d: u64 = doy - (153 * mp + 2) / 5 + 1;
    let m: u64 = if mp < 10 {
        mp + 3
    } else {
        mp - 9
    };
    let y: u64 = yoe + era * 400 + if m <= 2 {
        1
    } else {
        0
    };
    proof {
        let t = (y as int, m as int, d as int);
        lemma_date_is(days as int, t);
    }
    (y, m, d)
}

pub fn is_leap(y: i64) -> (r: bool)
    ensures
        r == leap(y as int),
{
    y % 4 == 0 && (y % 100 != 0 || y % 400 == 0)
}

pub fn days_in_month(y: i64, m: u64) -> (r: Option<u64>)
    ensures
        match r {
            Some(n) => 1 <= m <= 12 && n == month_len(y as int, m as int),
            None => !(1 <= m <= 12),
        },
{
    if m == 2 {
        Some(if is_leap(y) { 29 } else { 28 })
    } else if m == 4 || m == 6 || m == 9 || m == 11 {
        Some(30)
    } else if 1 <= m && m <= 12 {
        Some(31)
    } else {
        None
    }
}

/// Years whose day numbers fit in 64 bits.
pub const YEAR_LIMIT: i64 = 25_252_734_927_760_000;

/// Days from 1 January 1970 to a date; `None` when there is no such date.
pub fn days_from_civil(y: i64, m: u64, d: u64) -> (r: Option<i64>)
    requires
        -YEAR_LIMIT <= y <= YEAR_LIMIT,
    ensures
        match r {
            Some(n) => valid_date((y as int, m as int, d as int)) && n == day_number(
                (y as int, m as int, d as int),
            ),
            None => !valid_date((y as int, m as int, d as int)),
        },
{
    match days_in_month(y, m) {
        None => {
            return None;
        },
        Some(n) => {
            if d < 1 || d > n {
                return None;
            }
        },
    }
    let yy: i64 = if m <= 2 {
        y - 1
    } else {
        y
    };
    let era: i64 = if yy >= 0 {
        yy / 400
    } else {
        -((399 - yy) / 400)
    };
    let yoe: i64 = yy - era * 400;
    let mp: i64 = if m > 2 {
        m as i64 - 3
    } else {
        m as i64 + 9
    };
    let doy: i64 = (153 * mp + 2) / 5 + d as i64 - 1;
    let doe: i64 = yoe * 365 + yoe / 4 - yoe / 100 + doy;
    proof {
        lemma_era_date(era as int, yoe as int, mp as int, d as int);
    }
    Some(era * 146097 + doe - 719468)
}

/// The length of a year is 366 days in leap years and 365 in others, and leap years
/// are those that four divides, but not the centuries that four hundred does not.
/// Counting starts at the epoch, and each month is as long as the calendar has it.
#[verifier::rlimit(30)]
pub proof fn law_lengths(y: int, m: int)
    requires
        1 <= m < 12,
    ensures
        day_number((1970, 1, 1)) == 0,
        day_number((y + 1, 1, 1)) - day_number((y, 1, 1)) == (if (y % 4 == 0 && y % 100 != 0) || y % 400 == 0 {
            366int
        } else {
            365int
        }),
        day_number((y, m + 1, 1)) - day_number((y, m, 1)) == (if m == 2 {
            if (y % 4 == 0 && y % 100 != 0) || y % 400 == 0 {
                29int
            } else {
                28int
            }
        } else if m == 4 || m == 6 || m == 9 || m == 11 {
            30int
        } else {
            31int
        }),
        forall|d: int| valid_date((y, m, d)) <==> 1 <= d <= day_number((y, m + 1, 1)) - day_number((y, m, 1)),
        forall|d: int| valid_date((y, 12, d)) <==> 1 <= d <= 31,
{
    lemma_months(y);
    lemma_months(y + 1);
    lemma_months(1970);
    lemma_year_step(y);
    assert(y % 400 == 0 ==> y % 100 == 0 && y % 4 == 0);
}

} // verus!
