//! HTTP dates (RFC 7231, 7.1.1.1): written as IMF-fixdate, read in all three
//! formats that a recipient must accept.
//!
//! The weekday is checked for shape only, and a leap second folds into the next
//! minute.
use vstd::prelude::*;
use vstd::slice::slice_subrange;
use vstd::string::*;

use crate::buf::{pad2, pad4, push2, push4, Out};
use crate::bytes::{
    ascii_alpha, ascii_digit, find_byte, index_of, is_alpha, is_digit, law_trimmed, lemma_index_of_is,
    lemma_trim_back, lemma_trim_front, same_bytes, text, trim, trimmed, COLON, COMMA, DASH, SP, ZERO,
};
use crate::calendar::{
    civil_from_days, date_of, day_number, days_from_civil, lemma_date_exists, lemma_date_is, lemma_months, lemma_within_year,
    valid_date, YEAR_LIMIT,
};
use crate::clock::unix_now;

verus! {

// ---- what the dates look like -----------------------------------------------

/// Weekday names; day 0 is Sunday.
pub open spec fn day_name(wd: int) -> Seq<u8> {
    if wd == 0 {
        text("Sun")
    } else if wd == 1 {
        text("Mon")
    } else if wd == 2 {
        text("Tue")
    } else if wd == 3 {
        text("Wed")
    } else if wd == 4 {
        text("Thu")
    } else if wd == 5 {
        text("Fri")
    } else {
        text("Sat")
    }
}

pub open spec fn month_name(m: int) -> Seq<u8> {
    if m == 1 {
        text("Jan")
    } else if m == 2 {
        text("Feb")
    } else if m == 3 {
        text("Mar")
    } else if m == 4 {
        text("Apr")
    } else if m == 5 {
        text("May")
    } else if m == 6 {
        text("Jun")
    } else if m == 7 {
        text("Jul")
    } else if m == 8 {
        text("Aug")
    } else if m == 9 {
        text("Sep")
    } else if m == 10 {
        text("Oct")
    } else if m == 11 {
        text("Nov")
    } else {
        text("Dec")
    }
}

/// The IMF-fixdate of a moment, such as `Sun, 06 Nov 1994 08:49:37 GMT`.
pub open spec fn imf_fixdate(secs: int) -> Seq<u8> {
    let (y, m, d) = date_of(secs / 86400);
    let time = secs % 86400;
    day_name((secs / 86400 + 4) % 7) + text(", ") + pad2(d) + text(" ") + month_name(m) + text(" ") + pad4(y) + text(
        " ",
    ) + pad2(time / 3600) + text(":") + pad2((time / 60) % 60) + text(":") + pad2(time % 60) + text(" GMT")
}

/// What the clock shows as a date: the epoch when it stands before it.
pub open spec fn clock_date(now: Option<u64>) -> Seq<u8> {
    match now {
        Some(secs) => imf_fixdate(secs as int),
        None => text("Thu, 01 Jan 1970 00:00:00 GMT"),
    }
}

// ---- what the dates mean ----------------------------------------------------

pub open spec fn digit(b: u8) -> int {
    b - ZERO
}

/// A two-digit number.
pub open spec fn two_digits(s: Seq<u8>) -> Option<int> {
    if s.len() == 2 && is_digit(s[0]) && is_digit(s[1]) {
        Some(digit(s[0]) * 10 + digit(s[1]))
    } else {
        None
    }
}

/// A four-digit number.
pub open spec fn four_digits(s: Seq<u8>) -> Option<int> {
    if s.len() == 4 && is_digit(s[0]) && is_digit(s[1]) && is_digit(s[2]) && is_digit(s[3]) {
        Some(digit(s[0]) * 1000 + digit(s[1]) * 100 + digit(s[2]) * 10 + digit(s[3]))
    } else {
        None
    }
}

/// A day in two columns, padded with a space, and not zero.
pub open spec fn padded_day(s: Seq<u8>) -> Option<int> {
    if s.len() == 2 && (s[0] == SP || is_digit(s[0])) && is_digit(s[1]) {
        let v = if s[0] == SP {
            digit(s[1])
        } else {
            digit(s[0]) * 10 + digit(s[1])
        };
        if v == 0 {
            None
        } else {
            Some(v)
        }
    } else {
        None
    }
}

/// The month that a name stands for.
pub open spec fn month_number(s: Seq<u8>) -> Option<int> {
    if s == month_name(1) {
        Some(1)
    } else if s == month_name(2) {
        Some(2)
    } else if s == month_name(3) {
        Some(3)
    } else if s == month_name(4) {
        Some(4)
    } else if s == month_name(5) {
        Some(5)
    } else if s == month_name(6) {
        Some(6)
    } else if s == month_name(7) {
        Some(7)
    } else if s == month_name(8) {
        Some(8)
    } else if s == month_name(9) {
        Some(9)
    } else if s == month_name(10) {
        Some(10)
    } else if s == month_name(11) {
        Some(11)
    } else if s == month_name(12) {
        Some(12)
    } else {
        None
    }
}

/// Seconds since the epoch of a date and a time of day; `None` when one of them
/// does not exist, lies before the epoch or does not fit.
pub open spec fn moment(t: (int, int, int), hh: int, mm: int, ss: int) -> Option<int> {
    let v = day_number(t) * 86400 + hh * 3600 + mm * 60 + ss;
    if hh <= 23 && mm <= 59 && ss <= 60 && valid_date(t) && day_number(t) >= 0 && v <= u64::MAX {
        Some(v)
    } else {
        None
    }
}

/// A moment read from six fields, each of which may be unreadable.
pub open spec fn moment_of(
    y: Option<int>,
    m: Option<int>,
    d: Option<int>,
    hh: Option<int>,
    mm: Option<int>,
    ss: Option<int>,
) -> Option<int> {
    match (y, m, d, hh, mm, ss) {
        (Some(y), Some(m), Some(d), Some(hh), Some(mm), Some(ss)) => moment((y, m, d), hh, mm, ss),
        _ => None,
    }
}

/// Three letters.
pub open spec fn three_letters(s: Seq<u8>) -> bool {
    s.len() == 3 && all_letters(s)
}

pub open spec fn all_letters(s: Seq<u8>) -> bool {
    forall|i: int| 0 <= i < s.len() ==> is_alpha(#[trigger] s[i])
}

/// What an IMF-fixdate means.
pub open spec fn imf_value(s: Seq<u8>) -> Option<int> {
    if s.len() == 29 && three_letters(s.subrange(0, 3)) && s[3] == COMMA && s[4] == SP && s[7] == SP && s[11] == SP
        && s[16] == SP && s[19] == COLON && s[22] == COLON && s[25] == SP && s.subrange(26, 29) == text("GMT") {
        moment_of(
            four_digits(s.subrange(12, 16)),
            month_number(s.subrange(8, 11)),
            two_digits(s.subrange(5, 7)),
            two_digits(s.subrange(17, 19)),
            two_digits(s.subrange(20, 22)),
            two_digits(s.subrange(23, 25)),
        )
    } else {
        None
    }
}

/// The year that two digits mean in year `now`: not more than fifty years
/// ahead.
pub open spec fn pivoted(yy: int, now: int) -> int {
    if 2000 + yy > now + 50 {
        2000 + yy - 100
    } else {
        2000 + yy
    }
}

pub open spec fn pivoted_year(yy: Option<int>, now: int) -> Option<int> {
    match yy {
        Some(v) => Some(pivoted(v, now)),
        None => None,
    }
}

/// What an RFC 850 date, such as `Sunday, 06-Nov-94 08:49:37 GMT`, means in
/// year `now`.
pub open spec fn rfc850_value(s: Seq<u8>, now: int) -> Option<int> {
    let o = index_of(s, COMMA);
    if 6 <= o <= 9 && s.len() == o + 24 && all_letters(s.take(o)) && s[o + 1] == SP && s[o + 4] == DASH && s[o + 8]
        == DASH && s[o + 11] == SP && s[o + 14] == COLON && s[o + 17] == COLON && s[o + 20] == SP && s.subrange(
        o + 21,
        o + 24,
    ) == text("GMT") {
        moment_of(
            pivoted_year(two_digits(s.subrange(o + 9, o + 11)), now),
            month_number(s.subrange(o + 5, o + 8)),
            two_digits(s.subrange(o + 2, o + 4)),
            two_digits(s.subrange(o + 12, o + 14)),
            two_digits(s.subrange(o + 15, o + 17)),
            two_digits(s.subrange(o + 18, o + 20)),
        )
    } else {
        None
    }
}

/// What an asctime date, such as `Sun Nov  6 08:49:37 1994`, means.
pub open spec fn asctime_value(s: Seq<u8>) -> Option<int> {
    if s.len() == 24 && three_letters(s.subrange(0, 3)) && s[3] == SP && s[7] == SP && s[10] == SP && s[13] == COLON
        && s[16] == COLON && s[19] == SP {
        moment_of(
            four_digits(s.subrange(20, 24)),
            month_number(s.subrange(4, 7)),
            padded_day(s.subrange(8, 10)),
            two_digits(s.subrange(11, 13)),
            two_digits(s.subrange(14, 16)),
            two_digits(s.subrange(17, 19)),
        )
    } else {
        None
    }
}

/// What an HTTP date means in year `now`, in the first format that reads it.
pub open spec fn http_date_value(value: Seq<u8>, now: int) -> Option<int> {
    let s = trimmed(value);
    if imf_value(s) is Some {
        imf_value(s)
    } else if rfc850_value(s, now) is Some {
        rfc850_value(s, now)
    } else {
        asctime_value(s)
    }
}

/// The year that the clock shows: 1970 before the epoch and past year 9999.
pub open spec fn clock_year(now: Option<u64>) -> int {
    match now {
        Some(secs) => {
            match four_digits(pad4(date_of(secs as int / 86400).0)) {
                Some(y) => y,
                None => 1970,
            }
        },
        None => 1970,
    }
}

/// The number a machine word holds, where there is one.
pub open spec fn as_number(r: Option<u64>) -> Option<int> {
    match r {
        Some(v) => Some(v as int),
        None => None,
    }
}

// ---- writing ----------------------------------------------------------------

fn weekday_str(wd: u64) -> (r: &'static str)
    requires
        wd < 7,
    ensures
        text(r) == day_name(wd as int),
{
    if wd == 0 {
        "Sun"
    } else if wd == 1 {
        "Mon"
    } else if wd == 2 {
        "Tue"
    } else if wd == 3 {
        "Wed"
    } else if wd == 4 {
        "Thu"
    } else if wd == 5 {
        "Fri"
    } else {
        "Sat"
    }
}

fn month_str(m: u64) -> (r: &'static str)
    requires
        1 <= m <= 12,
    ensures
        text(r) == month_name(m as int),
{
    if m == 1 {
        "Jan"
    } else if m == 2 {
        "Feb"
    } else if m == 3 {
        "Mar"
    } else if m == 4 {
        "Apr"
    } else if m == 5 {
        "May"
    } else if m == 6 {
        "Jun"
    } else if m == 7 {
        "Jul"
    } else if m == 8 {
        "Aug"
    } else if m == 9 {
        "Sep"
    } else if m == 10 {
        "Oct"
    } else if m == 11 {
        "Nov"
    } else {
        "Dec"
    }
}

/// The bytes of an ASCII literal of a known length.
proof fn lemma_names()
    ensures
        forall|wd: int| 0 <= wd < 7 ==> #[trigger] three_letters(day_name(wd)),
        forall|m: int| 1 <= m <= 12 ==> (#[trigger] month_name(m)).len() == 3,
        forall|m: int| 1 <= m <= 12 ==> month_number(#[trigger] month_name(m)) == Some(m),
        text(", ") == seq![COMMA, SP],
        text(" ") == seq![SP],
        text(":") == seq![COLON],
        text("GMT") == seq![71u8, 77u8, 84u8],
        text(" GMT") == seq![SP, 71u8, 77u8, 84u8],
        text("Thu, 01 Jan 1970 00:00:00 GMT").len() == 29,
{
    reveal_strlit("Sun");
    reveal_strlit("Mon");
    reveal_strlit("Tue");
    reveal_strlit("Wed");
    reveal_strlit("Thu");
    reveal_strlit("Fri");
    reveal_strlit("Sat");
    reveal_strlit("Jan");
    reveal_strlit("Feb");
    reveal_strlit("Mar");
    reveal_strlit("Apr");
    reveal_strlit("May");
    reveal_strlit("Jun");
    reveal_strlit("Jul");
    reveal_strlit("Aug");
    reveal_strlit("Sep");
    reveal_strlit("Oct");
    reveal_strlit("Nov");
    reveal_strlit("Dec");
    reveal_strlit(", ");
    reveal_strlit(" ");
    reveal_strlit(":");
    reveal_strlit("GMT");
    reveal_strlit(" GMT");
    reveal_strlit("Thu, 01 Jan 1970 00:00:00 GMT");
    is_ascii_spec_bytes("Sun");
    is_ascii_spec_bytes("Mon");
    is_ascii_spec_bytes("Tue");
    is_ascii_spec_bytes("Wed");
    is_ascii_spec_bytes("Thu");
    is_ascii_spec_bytes("Fri");
    is_ascii_spec_bytes("Sat");
    is_ascii_spec_bytes("Jan");
    is_ascii_spec_bytes("Feb");
    is_ascii_spec_bytes("Mar");
    is_ascii_spec_bytes("Apr");
    is_ascii_spec_bytes("May");
    is_ascii_spec_bytes("Jun");
    is_ascii_spec_bytes("Jul");
    is_ascii_spec_bytes("Aug");
    is_ascii_spec_bytes("Sep");
    is_ascii_spec_bytes("Oct");
    is_ascii_spec_bytes("Nov");
    is_ascii_spec_bytes("Dec");
    is_ascii_spec_bytes(", ");
    is_ascii_spec_bytes(" ");
    is_ascii_spec_bytes(":");
    is_ascii_spec_bytes("GMT");
    is_ascii_spec_bytes(" GMT");
    is_ascii_spec_bytes("Thu, 01 Jan 1970 00:00:00 GMT");
    assert(month_name(1) =~= seq![74u8, 97u8, 110u8]);
    assert(month_name(2) =~= seq![70u8, 101u8, 98u8]);
    assert(month_name(3) =~= seq![77u8, 97u8, 114u8]);
    assert(month_name(4) =~= seq![65u8, 112u8, 114u8]);
    assert(month_name(5) =~= seq![77u8, 97u8, 121u8]);
    assert(month_name(6) =~= seq![74u8, 117u8, 110u8]);
    assert(month_name(7) =~= seq![74u8, 117u8, 108u8]);
    assert(month_name(8) =~= seq![65u8, 117u8, 103u8]);
    assert(month_name(9) =~= seq![83u8, 101u8, 112u8]);
    assert(month_name(10) =~= seq![79u8, 99u8, 116u8]);
    assert(month_name(11) =~= seq![78u8, 111u8, 118u8]);
    assert(month_name(12) =~= seq![68u8, 101u8, 99u8]);
    assert(text(", ") =~= seq![COMMA, SP]);
    assert(text(" ") =~= seq![SP]);
    assert(text(":") =~= seq![COLON]);
    assert(text("GMT") =~= seq![71u8, 77u8, 84u8]);
    assert(text(" GMT") =~= seq![SP, 71u8, 77u8, 84u8]);
}

/// Writes the IMF-fixdate of a moment.
pub fn http_date_unix(secs: u64, out: &mut [u8; 29])
    ensures
        final(out)@ == imf_fixdate(secs as int),
{
    let days: u64 = secs / 86_400;
    let time: u64 = secs % 86_400;
    let (y, m, d) = civil_from_days(days);
    let mut o = Out::new(out);
    o.push_str(weekday_str((days + 4) % 7));
    assert(o.pushed() =~= day_name((secs as int / 86400 + 4) % 7));
    o.push_str(", ");
    push2(&mut o, d);
    o.push_str(" ");
    o.push_str(month_str(m));
    o.push_str(" ");
    push4(&mut o, y);
    o.push_str(" ");
    push2(&mut o, time / 3600);
    o.push_str(":");
    push2(&mut o, (time / 60) % 60);
    o.push_str(":");
    push2(&mut o, time % 60);
    o.push_str(" GMT");
    proof {
        assert(o.pushed() == imf_fixdate(secs as int));
        lemma_imf_fields(secs as int);
        assert(o.buf@ =~= o.buf@.take(29));
    }
}

/// Writes what a clock reading shows.
pub fn date_at(now: Option<u64>, out: &mut [u8; 29])
    ensures
        final(out)@ == clock_date(now),
{
    match now {
        Some(secs) => http_date_unix(secs, out),
        None => {
            proof {
                lemma_names();
            }
            let mut o = Out::new(out);
            o.push_str("Thu, 01 Jan 1970 00:00:00 GMT");
            proof {
                assert(o.pushed() =~= text("Thu, 01 Jan 1970 00:00:00 GMT"));
                assert(o.buf@ =~= o.buf@.take(29));
            }
        },
    }
}

/// A date is 29 bytes long.
pub proof fn lemma_clock_date_len(now: Option<u64>)
    ensures
        clock_date(now).len() == 29,
{
    match now {
        Some(secs) => {
            let (y, m, d) = date_of(secs as int / 86400);
            let wd = (secs as int / 86400 + 4) % 7;
            assert(month_name(m).len() == 3 && day_name(wd).len() == 3 && text(", ").len() == 2 && text(" ").len() == 1
                && text(":").len() == 1 && text(" GMT").len() == 4) by {
                lemma_names();
                assert(three_letters(day_name(wd)));
                if !(1 <= m <= 12) {
                    assert(month_name(m) == month_name(12));
                }
            }
        },
        None => {
            lemma_names();
        },
    }
}

/// Writes the current date.
pub fn date_now(out: &mut [u8; 29])
    ensures
        exists|now: Option<u64>| final(out)@ == #[trigger] clock_date(now),
{
    let now: Option<u64> = unix_now();
    date_at(now, out);
}

// ---- reading ----------------------------------------------------------------

pub fn two(d: &[u8]) -> (r: Option<u64>)
    ensures
        as_number(r) == two_digits(d@),
{
    if d.len() != 2 || !ascii_digit(d[0]) || !ascii_digit(d[1]) {
        return None;
    }
    Some((d[0] - ZERO) as u64 * 10 + (d[1] - ZERO) as u64)
}

pub fn four(d: &[u8]) -> (r: Option<u64>)
    ensures
        as_number(r) == four_digits(d@),
{
    if d.len() != 4 {
        return None;
    }
    if !ascii_digit(d[0]) || !ascii_digit(d[1]) || !ascii_digit(d[2]) || !ascii_digit(d[3]) {
        return None;
    }
    Some(
        (d[0] - ZERO) as u64 * 1000 + (d[1] - ZERO) as u64 * 100 + (d[2] - ZERO) as u64 * 10 + (d[3] - ZERO) as u64,
    )
}

pub fn day2(d: &[u8]) -> (r: Option<u64>)
    ensures
        as_number(r) == padded_day(d@),
{
    if d.len() != 2 {
        return None;
    }
    let tens: u64 = if d[0] == SP {
        0
    } else if ascii_digit(d[0]) {
        (d[0] - ZERO) as u64
    } else {
        return None;
    };
    if !ascii_digit(d[1]) {
        return None;
    }
    let v: u64 = tens * 10 + (d[1] - ZERO) as u64;
    if v == 0 {
        return None;
    }
    Some(v)
}

pub fn month(m: &[u8]) -> (r: Option<u64>)
    ensures
        as_number(r) == month_number(m@),
{
    let mut k: u64 = 1;
    while k <= 12
        invariant
            1 <= k <= 13,
            forall|j: int| 1 <= j < k ==> m@ != #[trigger] month_name(j),
        decreases 13 - k,
    {
        if same_bytes(m, month_str(k).as_bytes()) {
            proof {
                lemma_names();
            }
            return Some(k);
        }
        k += 1;
    }
    proof {
        assert(m@ != month_name(1) && m@ != month_name(2) && m@ != month_name(3) && m@ != month_name(4));
        assert(m@ != month_name(5) && m@ != month_name(6) && m@ != month_name(7) && m@ != month_name(8));
        assert(m@ != month_name(9) && m@ != month_name(10) && m@ != month_name(11) && m@ != month_name(12));
    }
    None
}

/// Seconds since the epoch of a date and a time of day.
pub fn combine(y: u64, m: u64, d: u64, hh: u64, mm: u64, ss: u64) -> (r: Option<u64>)
    requires
        y <= YEAR_LIMIT,
    ensures
        as_number(r) == moment((y as int, m as int, d as int), hh as int, mm as int, ss as int),
{
    if hh > 23 || mm > 59 || ss > 60 {
        return None;
    }
    match days_from_civil(y as i64, m, d) {
        None => None,
        Some(days) => {
            if days < 0 {
                return None;
            }
            let tod: u64 = hh * 3600 + mm * 60 + ss;
            match (days as u64).checked_mul(86_400) {
                None => None,
                Some(x) => x.checked_add(tod),
            }
        },
    }
}

/// `combine`, where any of the fields may have been unreadable.
fn combine_read(
    y: Option<u64>,
    m: Option<u64>,
    d: Option<u64>,
    hh: Option<u64>,
    mm: Option<u64>,
    ss: Option<u64>,
) -> (r: Option<u64>)
    requires
        y matches Some(v) ==> v <= YEAR_LIMIT,
    ensures
        as_number(r) == moment_of(
            as_number(y),
            as_number(m),
            as_number(d),
            as_number(hh),
            as_number(mm),
            as_number(ss),
        ),
{
    match (y, m, d, hh, mm, ss) {
        (Some(y), Some(m), Some(d), Some(hh), Some(mm), Some(ss)) => combine(y, m, d, hh, mm, ss),
        _ => None,
    }
}

/// The year that a clock reading shows.
pub fn year_at(now: Option<u64>) -> (r: u64)
    ensures
        r == clock_year(now),
        r <= 9999,
{
    match now {
        None => 1970,
        Some(secs) => {
            let mut out: [u8; 29] = [0u8; 29];
            http_date_unix(secs, &mut out);
            proof {
                lemma_imf_fields(secs as int);
            }
            match four(slice_subrange(&out, 12, 16)) {
                Some(y) => y,
                None => 1970,
            }
        },
    }
}

/// The current year.
pub fn current_year() -> (r: u64)
    ensures
        exists|now: Option<u64>| r == #[trigger] clock_year(now),
        r <= 9999,
{
    let now: Option<u64> = unix_now();
    year_at(now)
}

/// The year that two digits mean in year `now`.
pub fn pivot_at(yy: u64, now: u64) -> (r: u64)
    requires
        yy <= u64::MAX - 2000,
        now <= u64::MAX - 50,
    ensures
        r == pivoted(yy as int, now as int),
{
    let y: u64 = 2000 + yy;
    if y > now + 50 {
        y - 100
    } else {
        y
    }
}

/// The year that two digits mean now.
pub fn pivot_2digit(yy: u64) -> (r: u64)
    requires
        yy <= u64::MAX - 2000,
    ensures
        exists|now: Option<u64>| r == pivoted(yy as int, #[trigger] clock_year(now)),
{
    let year: u64 = current_year();
    pivot_at(yy, year)
}

pub fn alpha3(s: &[u8]) -> (r: bool)
    ensures
        r == three_letters(s@),
{
    s.len() == 3 && letters(s)
}

fn letters(s: &[u8]) -> (r: bool)
    ensures
        r == all_letters(s@),
{
    let mut i: usize = 0;
    while i < s.len()
        invariant
            i <= s@.len(),
            forall|j: int| 0 <= j < i ==> is_alpha(#[trigger] s@[j]),
        decreases s@.len() - i,
    {
        if !ascii_alpha(s[i]) {
            assert(!is_alpha(s@[i as int]));
            return false;
        }
        i += 1;
    }
    true
}

pub fn parse_imf(s: &[u8]) -> (r: Option<u64>)
    ensures
        as_number(r) == imf_value(s@),
{
    if s.len() != 29 || !alpha3(slice_subrange(s, 0, 3)) || s[3] != COMMA || s[4] != SP || s[7] != SP || s[11] != SP
        || s[16] != SP || s[19] != COLON || s[22] != COLON || s[25] != SP || !same_bytes(
        slice_subrange(s, 26, 29),
        "GMT".as_bytes(),
    ) {
        return None;
    }
    combine_read(
        four(slice_subrange(s, 12, 16)),
        month(slice_subrange(s, 8, 11)),
        two(slice_subrange(s, 5, 7)),
        two(slice_subrange(s, 17, 19)),
        two(slice_subrange(s, 20, 22)),
        two(slice_subrange(s, 23, 25)),
    )
}

/// Reads an RFC 850 date in year `now`.
pub fn parse_rfc850_at(s: &[u8], now: u64) -> (r: Option<u64>)
    requires
        now <= 9999,
    ensures
        as_number(r) == rfc850_value(s@, now as int),
{
    let o: usize = match find_byte(s, COMMA) {
        Some(p) => p,
        None => {
            return None;
        },
    };
    if o < 6 || o > 9 || s.len() != o + 24 {
        return None;
    }
    assert(s@.subrange(0, o as int) =~= s@.take(o as int));
    if !letters(slice_subrange(s, 0, o)) || s[o + 1] != SP {
        return None;
    }
    if s[o + 4] != DASH || s[o + 8] != DASH || s[o + 11] != SP || s[o + 14] != COLON || s[o + 17] != COLON || s[o + 20]
        != SP || !same_bytes(slice_subrange(s, o + 21, o + 24), "GMT".as_bytes()) {
        return None;
    }
    let y: Option<u64> = match two(slice_subrange(s, o + 9, o + 11)) {
        Some(yy) => Some(pivot_at(yy, now)),
        None => None,
    };
    combine_read(
        y,
        month(slice_subrange(s, o + 5, o + 8)),
        two(slice_subrange(s, o + 2, o + 4)),
        two(slice_subrange(s, o + 12, o + 14)),
        two(slice_subrange(s, o + 15, o + 17)),
        two(slice_subrange(s, o + 18, o + 20)),
    )
}

/// Reads an RFC 850 date today.
pub fn parse_rfc850(s: &[u8]) -> (r: Option<u64>)
    ensures
        exists|now: Option<u64>| as_number(r) == rfc850_value(s@, #[trigger] clock_year(now)),
{
    let year: u64 = current_year();
    parse_rfc850_at(s, year)
}

pub fn parse_asctime(s: &[u8]) -> (r: Option<u64>)
    ensures
        as_number(r) == asctime_value(s@),
{
    if s.len() != 24 || !alpha3(slice_subrange(s, 0, 3)) || s[3] != SP || s[7] != SP || s[10] != SP || s[13] != COLON
        || s[16] != COLON || s[19] != SP {
        return None;
    }
    combine_read(
        four(slice_subrange(s, 20, 24)),
        month(slice_subrange(s, 4, 7)),
        day2(slice_subrange(s, 8, 10)),
        two(slice_subrange(s, 11, 13)),
        two(slice_subrange(s, 14, 16)),
        two(slice_subrange(s, 17, 19)),
    )
}

/// Reads an HTTP date in year `now`.
pub fn parse_http_date_at(value: &[u8], now: u64) -> (r: Option<u64>)
    requires
        now <= 9999,
    ensures
        as_number(r) == http_date_value(value@, now as int),
{
    let s = trim(value);
    match parse_imf(s) {
        Some(t) => {
            return Some(t);
        },
        None => {},
    }
    match parse_rfc850_at(s, now) {
        Some(t) => {
            return Some(t);
        },
        None => {},
    }
    parse_asctime(s)
}

/// Reads an HTTP date today.
pub fn parse_http_date(value: &[u8]) -> (r: Option<u64>)
    ensures
        exists|now: Option<u64>| as_number(r) == http_date_value(value@, #[trigger] clock_year(now)),
{
    let year: u64 = current_year();
    parse_http_date_at(value, year)
}

// ---- laws -------------------------------------------------------------------

/// Where the fields of an IMF-fixdate stand.
proof fn lemma_imf_fields(secs: int)
    requires
        0 <= secs,
    ensures
        ({
            let s = imf_fixdate(secs);
            let (y, m, d) = date_of(secs / 86400);
            let time = secs % 86400;
            &&& s.len() == 29
            &&& s.subrange(0, 3) == day_name((secs / 86400 + 4) % 7)
            &&& s[3] == COMMA && s[4] == SP && s[7] == SP && s[11] == SP && s[16] == SP && s[25] == SP
            &&& s[19] == COLON && s[22] == COLON
            &&& s.subrange(26, 29) == text("GMT")
            &&& s.subrange(5, 7) == pad2(d)
            &&& s.subrange(8, 11) == month_name(m)
            &&& s.subrange(12, 16) == pad4(y)
            &&& s.subrange(17, 19) == pad2(time / 3600)
            &&& s.subrange(20, 22) == pad2((time / 60) % 60)
            &&& s.subrange(23, 25) == pad2(time % 60)
        }),
{
    lemma_names();
    let s = imf_fixdate(secs);
    let (y, m, d) = date_of(secs / 86400);
    let time = secs % 86400;
    lemma_date_exists(secs / 86400);
    assert(three_letters(day_name((secs / 86400 + 4) % 7)));
    assert(s.subrange(0, 3) =~= day_name((secs / 86400 + 4) % 7));
    assert(s.subrange(26, 29) =~= text("GMT"));
    assert(s.subrange(5, 7) =~= pad2(d));
    assert(s.subrange(8, 11) =~= month_name(m));
    assert(s.subrange(12, 16) =~= pad4(y));
    assert(s.subrange(17, 19) =~= pad2(time / 3600));
    assert(s.subrange(20, 22) =~= pad2((time / 60) % 60));
    assert(s.subrange(23, 25) =~= pad2(time % 60));
}

/// The first second of year 10000.
pub const YEAR_10000: u64 = 253_402_300_800;

proof fn lemma_year_in_range(secs: int)
    requires
        0 <= secs < YEAR_10000,
    ensures
        1970 <= date_of(secs / 86400).0 <= 9999,
{
    let t = date_of(secs / 86400);
    lemma_date_exists(secs / 86400);
    lemma_within_year(t);
    lemma_months(t.0);
    lemma_months(t.0 + 1);
}

/// Reading what was written gives back the moment: every date before the year
/// 10000 that this library sends is one that it reads as the same second, whatever
/// the current year.
#[verifier::rlimit(30)]
pub proof fn law_date_round_trip(secs: int, now: int)
    requires
        0 <= secs < YEAR_10000,
    ensures
        http_date_value(imf_fixdate(secs), now) == Some(secs),
{
    let day = secs / 86400;
    let t = date_of(day);
    assert(valid_date(t) && day_number(t) == day && 1970 <= t.0 <= 9999) by {
        lemma_date_exists(day);
        lemma_year_in_range(secs);
    }
    lemma_imf_fields(secs);
    lemma_imf_reads(imf_fixdate(secs), (day + 4) % 7, t, secs % 86400);
}

/// A string with the fields of an IMF-fixdate is read as what they say.
proof fn lemma_imf_reads(s: Seq<u8>, wd: int, t: (int, int, int), time: int)
    requires
        0 <= wd < 7,
        valid_date(t),
        0 <= t.0 <= 9999,
        0 <= time < 86400,
        day_number(t) >= 0,
        s.len() == 29,
        s.subrange(0, 3) == day_name(wd),
        s[3] == COMMA && s[4] == SP && s[7] == SP && s[11] == SP && s[16] == SP && s[25] == SP,
        s[19] == COLON && s[22] == COLON,
        s.subrange(26, 29) == text("GMT"),
        s.subrange(5, 7) == pad2(t.2),
        s.subrange(8, 11) == month_name(t.1),
        s.subrange(12, 16) == pad4(t.0),
        s.subrange(17, 19) == pad2(time / 3600),
        s.subrange(20, 22) == pad2((time / 60) % 60),
        s.subrange(23, 25) == pad2(time % 60),
        day_number(t) * 86400 + time <= u64::MAX,
    ensures
        forall|now: int| http_date_value(s, now) == Some(day_number(t) * 86400 + time),
{
    lemma_names();
    lemma_time_of_day(time);
    lemma_two_digits(t.2);
    lemma_two_digits(time / 3600);
    lemma_two_digits((time / 60) % 60);
    lemma_two_digits(time % 60);
    lemma_four_digits(t.0);
    assert(three_letters(day_name(wd)));
    assert(is_alpha(s.subrange(0, 3)[0]));
    lemma_trim_front(s, 0);
    assert(s.skip(0) =~= s);
    assert(s.subrange(26, 29)[2] == 84u8);
    lemma_trim_back(s, 29);
    assert(s.take(29) =~= s);
    assert(month_number(month_name(t.1)) == Some(t.1));
    assert(imf_value(s) == moment(t, time / 3600, (time / 60) % 60, time % 60));
}

proof fn lemma_hundreds(y: int)
    ensures
        y / 100 == (y / 10) / 10,
        y / 1000 == (y / 100) / 10,
{
}

proof fn lemma_four_digits(y: int)
    requires
        0 <= y <= 9999,
    ensures
        four_digits(pad4(y)) == Some(y),
{
    lemma_hundreds(y);
    let p = y / 10;
    let q = y / 100;
    assert(q == 10 * (q / 10) + q % 10);
    assert(p == 10 * (p / 10) + p % 10);
    assert(y == 10 * p + y % 10);
}

proof fn lemma_two_digits(v: int)
    requires
        0 <= v <= 99,
    ensures
        two_digits(pad2(v)) == Some(v),
{
}

proof fn lemma_time_of_day(time: int)
    requires
        0 <= time < 86400,
    ensures
        0 <= time / 3600 <= 23,
        0 <= (time / 60) % 60 <= 59,
        0 <= time % 60 <= 59,
        time == (time / 3600) * 3600 + ((time / 60) % 60) * 60 + time % 60,
{
    let p = time / 60;
    assert(time / 3600 == p / 60);
    assert(p == 60 * (p / 60) + p % 60);
}

/// A leap second is accepted, and is the second after the fifty-ninth.
pub proof fn law_leap_second_folds(t: (int, int, int), hh: int, mm: int)
    requires
        valid_date(t),
        0 <= day_number(t) <= u64::MAX / 86400 - 1,
        0 <= hh <= 23,
        0 <= mm <= 59,
    ensures
        moment(t, hh, mm, 59) is Some,
        moment(t, hh, mm, 60) == Some(moment(t, hh, mm, 59)->0 + 1),
{
}

/// A two-digit year keeps its digits and is never read as more than fifty years
/// ahead; it is the one of this century where that is not too far ahead, and the one
/// of the last century only where it is.
pub proof fn law_pivot(yy: int, now: int)
    requires
        0 <= yy <= 99,
        1949 <= now,
    ensures
        pivoted(yy, now) % 100 == yy,
        pivoted(yy, now) <= now + 50,
        pivoted(yy, now) == 2000 + yy || pivoted(yy, now) == 1900 + yy,
        pivoted(yy, now) == 2000 + yy <==> 2000 + yy <= now + 50,
{
}

/// The names of the months stand in their order, each stands for its month, and no
/// other word does.
pub proof fn law_month_names(m: int, s: Seq<u8>)
    requires
        1 <= m <= 12,
    ensures
        month_name(m) == text("JanFebMarAprMayJunJulAugSepOctNovDec").subrange(3 * (m - 1), 3 * m),
        month_number(month_name(m)) == Some(m),
        month_number(s) matches Some(k) ==> 1 <= k <= 12 && s == month_name(k),
{
    lemma_names();
    reveal_strlit("JanFebMarAprMayJunJulAugSepOctNovDec");
    is_ascii_spec_bytes("JanFebMarAprMayJunJulAugSepOctNovDec");
    reveal_strlit("Jan");
    reveal_strlit("Feb");
    reveal_strlit("Mar");
    reveal_strlit("Apr");
    reveal_strlit("May");
    reveal_strlit("Jun");
    reveal_strlit("Jul");
    reveal_strlit("Aug");
    reveal_strlit("Sep");
    reveal_strlit("Oct");
    reveal_strlit("Nov");
    reveal_strlit("Dec");
    is_ascii_spec_bytes("Jan");
    is_ascii_spec_bytes("Feb");
    is_ascii_spec_bytes("Mar");
    is_ascii_spec_bytes("Apr");
    is_ascii_spec_bytes("May");
    is_ascii_spec_bytes("Jun");
    is_ascii_spec_bytes("Jul");
    is_ascii_spec_bytes("Aug");
    is_ascii_spec_bytes("Sep");
    is_ascii_spec_bytes("Oct");
    is_ascii_spec_bytes("Nov");
    is_ascii_spec_bytes("Dec");
    let all = text("JanFebMarAprMayJunJulAugSepOctNovDec");
    assert(month_name(m) =~= all.subrange(3 * (m - 1), 3 * m));
}

/// The weekday of a date moves on by one from day to day, from Sunday to Saturday
/// and round again; the epoch was a Thursday.
pub proof fn law_weekdays(secs: int)
    requires
        0 <= secs,
    ensures
        imf_fixdate(secs).take(3) == text("SunMonTueWedThuFriSat").subrange(
            3 * ((secs / 86400 + 4) % 7),
            3 * ((secs / 86400 + 4) % 7) + 3,
        ),
{
    lemma_imf_fields(secs);
    lemma_take_three(imf_fixdate(secs));
    lemma_weekday_names((secs / 86400 + 4) % 7);
}

proof fn lemma_take_three(s: Seq<u8>)
    requires
        s.len() >= 3,
    ensures
        s.take(3) == s.subrange(0, 3),
{
    assert(s.take(3) =~= s.subrange(0, 3));
}

proof fn lemma_weekday_names(wd: int)
    requires
        0 <= wd < 7,
    ensures
        day_name(wd) == text("SunMonTueWedThuFriSat").subrange(3 * wd, 3 * wd + 3),
{
    reveal_strlit("SunMonTueWedThuFriSat");
    reveal_strlit("Sun");
    reveal_strlit("Mon");
    reveal_strlit("Tue");
    reveal_strlit("Wed");
    reveal_strlit("Thu");
    reveal_strlit("Fri");
    reveal_strlit("Sat");
    is_ascii_spec_bytes("SunMonTueWedThuFriSat");
    is_ascii_spec_bytes("Sun");
    is_ascii_spec_bytes("Mon");
    is_ascii_spec_bytes("Tue");
    is_ascii_spec_bytes("Wed");
    is_ascii_spec_bytes("Thu");
    is_ascii_spec_bytes("Fri");
    is_ascii_spec_bytes("Sat");
    let all = text("SunMonTueWedThuFriSat");
    assert(day_name(wd) =~= all.subrange(3 * wd, 3 * wd + 3));
}

/// A moment as seconds since the epoch.
pub open spec fn seconds(t: (int, int, int), hh: int, mm: int, ss: int) -> int {
    day_number(t) * 86400 + hh * 3600 + mm * 60 + ss
}

/// The time of a day, as it is written.
pub open spec fn clock_text(hh: int, mm: int, ss: int) -> Seq<u8> {
    pad2(hh) + seq![COLON] + pad2(mm) + seq![COLON] + pad2(ss)
}

/// A date of asctime, `day` being the name of the weekday.
pub open spec fn asctime_text(day: Seq<u8>, t: (int, int, int), hh: int, mm: int, ss: int) -> Seq<u8> {
    day + seq![SP] + month_name(t.1) + seq![SP] + (if t.2 < 10 {
        seq![SP, (0x30 + t.2) as u8]
    } else {
        pad2(t.2)
    }) + seq![SP] + clock_text(hh, mm, ss) + seq![SP] + pad4(t.0)
}

/// A date of RFC 850, `day` being the name of the weekday.
pub open spec fn rfc850_text(day: Seq<u8>, t: (int, int, int), hh: int, mm: int, ss: int) -> Seq<u8> {
    day + seq![COMMA, SP] + pad2(t.2) + seq![DASH] + month_name(t.1) + seq![DASH] + pad2(t.0 % 100) + seq![SP]
        + clock_text(hh, mm, ss) + seq![SP, 0x47u8, 0x4d, 0x54]
}

/// An IMF-fixdate, `day` being the name of the weekday.
pub open spec fn imf_text(day: Seq<u8>, t: (int, int, int), hh: int, mm: int, ss: int) -> Seq<u8> {
    day + seq![COMMA, SP] + pad2(t.2) + seq![SP] + month_name(t.1) + seq![SP] + pad4(t.0) + seq![SP] + clock_text(
        hh,
        mm,
        ss,
    ) + seq![SP, 0x47u8, 0x4d, 0x54]
}

/// A date that exists and a time of day, a leap second included.
pub open spec fn moment_exists(t: (int, int, int), hh: int, mm: int, ss: int) -> bool {
    valid_date(t) && 1970 <= t.0 <= 9999 && 0 <= hh <= 23 && 0 <= mm <= 59 && 0 <= ss <= 60
}

proof fn lemma_moment_exists(t: (int, int, int), hh: int, mm: int, ss: int)
    requires
        moment_exists(t, hh, mm, ss),
    ensures
        moment(t, hh, mm, ss) == Some(seconds(t, hh, mm, ss)),
        1 <= t.2 <= 31,
{
    lemma_within_year(t);
    lemma_months(t.0);
    lemma_months(t.0 + 1);
}

/// The name of a month is three letters and stands for it.
proof fn lemma_month_name(m: int)
    requires
        1 <= m <= 12,
    ensures
        three_letters(month_name(m)),
        month_number(month_name(m)) == Some(m),
{
    let all = text("JanFebMarAprMayJunJulAugSepOctNovDec");
    law_month_names(m, all);
    reveal_strlit("JanFebMarAprMayJunJulAugSepOctNovDec");
    is_ascii_spec_bytes("JanFebMarAprMayJunJulAugSepOctNovDec");
    assert forall|i: int| 0 <= i < 36 implies is_alpha(#[trigger] all[i]) by {}
    lemma_letters_of(all, 3 * (m - 1), 3 * m);
}

proof fn lemma_letters_of(s: Seq<u8>, a: int, b: int)
    requires
        0 <= a <= b <= s.len(),
        forall|i: int| 0 <= i < s.len() ==> is_alpha(#[trigger] s[i]),
    ensures
        all_letters(s.subrange(a, b)),
{
    assert forall|i: int| 0 <= i < b - a implies is_alpha(#[trigger] s.subrange(a, b)[i]) by {
        assert(s.subrange(a, b)[i] == s[a + i]);
    }
}

/// Where the fields of an asctime date stand.
proof fn lemma_asctime_fields(
    day: Seq<u8>,
    mon: Seq<u8>,
    d: Seq<u8>,
    hh: Seq<u8>,
    mm: Seq<u8>,
    ss: Seq<u8>,
    y: Seq<u8>,
)
    requires
        three_letters(day),
        three_letters(mon),
        d.len() == 2 && hh.len() == 2 && mm.len() == 2 && ss.len() == 2 && y.len() == 4,
        forall|i: int| 0 <= i < 2 ==> #[trigger] d[i] != COMMA && hh[i] != COMMA && mm[i] != COMMA && ss[i] != COMMA,
        forall|i: int| 0 <= i < 4 ==> is_digit(#[trigger] y[i]),
    ensures
        ({
            let s = day + seq![SP] + mon + seq![SP] + d + seq![SP] + (hh + seq![COLON] + mm + seq![COLON] + ss)
                + seq![SP] + y;
            &&& s.len() == 24
            &&& s.subrange(0, 3) == day && s.subrange(4, 7) == mon && s.subrange(8, 10) == d
            &&& s.subrange(11, 13) == hh && s.subrange(14, 16) == mm && s.subrange(17, 19) == ss
            &&& s.subrange(20, 24) == y
            &&& s[3] == SP && s[7] == SP && s[10] == SP && s[13] == COLON && s[16] == COLON && s[19] == SP
            &&& index_of(s, COMMA) == 24
            &&& trimmed(s) == s
        }),
{
    let none = Seq::<u8>::empty();
    let s = day + seq![SP] + mon + seq![SP] + d + seq![SP] + (hh + seq![COLON] + mm + seq![COLON] + ss) + seq![SP] + y;
    assert(s.subrange(0, 3) =~= day);
    assert(s.subrange(4, 7) =~= mon);
    assert(s.subrange(8, 10) =~= d);
    assert(s.subrange(11, 13) =~= hh);
    assert(s.subrange(14, 16) =~= mm);
    assert(s.subrange(17, 19) =~= ss);
    assert(s.subrange(20, 24) =~= y);
    assert forall|j: int| 0 <= j < s.len() implies s[j] != COMMA by {
        if j < 3 {
            assert(is_alpha(day[j]));
        } else if 4 <= j < 7 {
            assert(is_alpha(mon[j - 4]));
        } else if 8 <= j < 10 {
            assert(d[j - 8] != COMMA);
        } else if 11 <= j < 13 {
            assert(d[j - 11] != COMMA);
        } else if 14 <= j < 16 {
            assert(d[j - 14] != COMMA);
        } else if 17 <= j < 19 {
            assert(d[j - 17] != COMMA);
        } else if 20 <= j {
            assert(is_digit(y[j - 20]));
        }
    }
    lemma_index_of_is(s, COMMA, 24);
    assert(is_alpha(day[0]));
    assert(is_digit(y[3]));
    assert(s[0] == day[0] && s.last() == y[3]);
    law_trimmed(none, s, none);
    assert(none + s + none =~= s);
}

/// A date in the format of asctime reads as the moment that it names.
#[verifier::rlimit(40)]
#[verifier::spinoff_prover]
pub proof fn law_asctime_reads_back(day: Seq<u8>, t: (int, int, int), hh: int, mm: int, ss: int, now: int)
    requires
        three_letters(day),
        moment_exists(t, hh, mm, ss),
    ensures
        http_date_value(asctime_text(day, t, hh, mm, ss), now) == Some(seconds(t, hh, mm, ss)),
{
    let s = asctime_text(day, t, hh, mm, ss);
    let d = if t.2 < 10 {
        seq![SP, (0x30 + t.2) as u8]
    } else {
        pad2(t.2)
    };
    lemma_moment_exists(t, hh, mm, ss);
    lemma_month_name(t.1);
    lemma_two_digits(t.2);
    lemma_two_digits(hh);
    lemma_two_digits(mm);
    lemma_two_digits(ss);
    lemma_four_digits(t.0);
    assert(padded_day(d) == Some(t.2));
    lemma_pad_digits(t.2);
    lemma_pad_digits(hh);
    lemma_pad_digits(mm);
    lemma_pad_digits(ss);
    lemma_pad4_digits(t.0);
    lemma_asctime_fields(day, month_name(t.1), d, pad2(hh), pad2(mm), pad2(ss), pad4(t.0));
    lemma_asctime_read(s, t, hh, mm, ss, now);
}

proof fn lemma_pad_digits(v: int)
    requires
        0 <= v <= 99,
    ensures
        is_digit(pad2(v)[0]) && is_digit(pad2(v)[1]) && pad2(v).len() == 2,
{
}

proof fn lemma_pad4_digits(v: int)
    requires
        0 <= v <= 9999,
    ensures
        forall|i: int| 0 <= i < 4 ==> is_digit(#[trigger] pad4(v)[i]),
        pad4(v).len() == 4,
{
}

/// Fields that stand where they should are read as a moment.
proof fn lemma_asctime_read(s: Seq<u8>, t: (int, int, int), hh: int, mm: int, ss: int, now: int)
    requires
        s.len() == 24,
        trimmed(s) == s,
        index_of(s, COMMA) == 24,
        three_letters(s.subrange(0, 3)),
        s[3] == SP && s[7] == SP && s[10] == SP && s[13] == COLON && s[16] == COLON && s[19] == SP,
        four_digits(s.subrange(20, 24)) == Some(t.0),
        month_number(s.subrange(4, 7)) == Some(t.1),
        padded_day(s.subrange(8, 10)) == Some(t.2),
        two_digits(s.subrange(11, 13)) == Some(hh),
        two_digits(s.subrange(14, 16)) == Some(mm),
        two_digits(s.subrange(17, 19)) == Some(ss),
    ensures
        http_date_value(s, now) == moment(t, hh, mm, ss),
{
}

/// Where the fields of an RFC 850 date stand.
proof fn lemma_rfc850_fields(
    day: Seq<u8>,
    d: Seq<u8>,
    mon: Seq<u8>,
    y: Seq<u8>,
    hh: Seq<u8>,
    mm: Seq<u8>,
    ss: Seq<u8>,
)
    requires
        6 <= day.len() <= 9,
        all_letters(day),
        mon.len() == 3,
        d.len() == 2 && hh.len() == 2 && mm.len() == 2 && ss.len() == 2 && y.len() == 2,
    ensures
        ({
            let o = day.len() as int;
            let s = day + seq![COMMA, SP] + d + seq![DASH] + mon + seq![DASH] + y + seq![SP] + (hh + seq![COLON] + mm
                + seq![COLON] + ss) + seq![SP, 0x47u8, 0x4d, 0x54];
            &&& s.len() == o + 24
            &&& index_of(s, COMMA) == o
            &&& s.take(o) == day && s.subrange(o + 2, o + 4) == d && s.subrange(o + 5, o + 8) == mon
            &&& s.subrange(o + 9, o + 11) == y && s.subrange(o + 12, o + 14) == hh
            &&& s.subrange(o + 15, o + 17) == mm && s.subrange(o + 18, o + 20) == ss
            &&& s.subrange(o + 21, o + 24) == seq![0x47u8, 0x4d, 0x54]
            &&& s[o + 1] == SP && s[o + 4] == DASH && s[o + 8] == DASH && s[o + 11] == SP && s[o + 14] == COLON
            &&& s[o + 17] == COLON && s[o + 20] == SP
            &&& trimmed(s) == s
        }),
{
    let none = Seq::<u8>::empty();
    let o = day.len() as int;
    let s = day + seq![COMMA, SP] + d + seq![DASH] + mon + seq![DASH] + y + seq![SP] + (hh + seq![COLON] + mm
        + seq![COLON] + ss) + seq![SP, 0x47u8, 0x4d, 0x54];
    assert forall|j: int| 0 <= j < o implies s[j] != COMMA by {
        assert(is_alpha(day[j]));
    }
    lemma_index_of_is(s, COMMA, o);
    assert(s.take(o) =~= day);
    assert(s.subrange(o + 2, o + 4) =~= d);
    assert(s.subrange(o + 5, o + 8) =~= mon);
    assert(s.subrange(o + 9, o + 11) =~= y);
    assert(s.subrange(o + 12, o + 14) =~= hh);
    assert(s.subrange(o + 15, o + 17) =~= mm);
    assert(s.subrange(o + 18, o + 20) =~= ss);
    assert(s.subrange(o + 21, o + 24) =~= seq![0x47u8, 0x4d, 0x54]);
    assert(is_alpha(day[0]));
    assert(s[0] == day[0] && s.last() == 0x54);
    law_trimmed(none, s, none);
    assert(none + s + none =~= s);
}

/// A date in the format of RFC 850 reads as the moment that it names, for the years
/// around the present one.
#[verifier::rlimit(40)]
#[verifier::spinoff_prover]
pub proof fn law_rfc850_reads_back(day: Seq<u8>, t: (int, int, int), hh: int, mm: int, ss: int, now: int)
    requires
        6 <= day.len() <= 9,
        all_letters(day),
        moment_exists(t, hh, mm, ss),
        t.0 <= 2099,
        now - 50 < t.0 <= now + 50,
    ensures
        http_date_value(rfc850_text(day, t, hh, mm, ss), now) == Some(seconds(t, hh, mm, ss)),
{
    let s = rfc850_text(day, t, hh, mm, ss);
    let yy = t.0 % 100;
    lemma_moment_exists(t, hh, mm, ss);
    lemma_month_name(t.1);
    lemma_two_digits(t.2);
    lemma_two_digits(yy);
    lemma_two_digits(hh);
    lemma_two_digits(mm);
    lemma_two_digits(ss);
    lemma_rfc850_fields(day, pad2(t.2), month_name(t.1), pad2(yy), pad2(hh), pad2(mm), pad2(ss));
    assert(text("GMT") =~= seq![0x47u8, 0x4d, 0x54]) by {
        reveal_strlit("GMT");
        is_ascii_spec_bytes("GMT");
    }
    assert(pivoted(yy, now) == t.0);
    assert(rfc850_value(s, now) == moment(t, hh, mm, ss));
    assert(imf_value(s) is None);
}

/// An IMF-fixdate reads as the moment that it names, whatever weekday it names.
#[verifier::rlimit(40)]
#[verifier::spinoff_prover]
pub proof fn law_imf_reads_back(day: Seq<u8>, t: (int, int, int), hh: int, mm: int, ss: int, now: int)
    requires
        three_letters(day),
        moment_exists(t, hh, mm, ss),
    ensures
        http_date_value(imf_text(day, t, hh, mm, ss), now) == Some(seconds(t, hh, mm, ss)),
{
    let s = imf_text(day, t, hh, mm, ss);
    let none = Seq::<u8>::empty();
    lemma_moment_exists(t, hh, mm, ss);
    lemma_names();
    lemma_two_digits(t.2);
    lemma_two_digits(hh);
    lemma_two_digits(mm);
    lemma_two_digits(ss);
    lemma_four_digits(t.0);
    assert(month_name(t.1).len() == 3);
    assert(s.len() == 29);
    assert(s.subrange(0, 3) =~= day);
    assert(s.subrange(5, 7) =~= pad2(t.2));
    assert(s.subrange(8, 11) =~= month_name(t.1));
    assert(s.subrange(12, 16) =~= pad4(t.0));
    assert(s.subrange(17, 19) =~= pad2(hh));
    assert(s.subrange(20, 22) =~= pad2(mm));
    assert(s.subrange(23, 25) =~= pad2(ss));
    reveal_strlit("GMT");
    is_ascii_spec_bytes("GMT");
    assert(s.subrange(26, 29) =~= text("GMT"));
    assert(month_number(month_name(t.1)) == Some(t.1));
    assert(is_alpha(day[0]));
    assert(s[0] == day[0]);
    assert(s.last() == 0x54);
    law_trimmed(none, s, none);
    assert(none + s + none =~= s);
    assert(imf_value(s) == moment(t, hh, mm, ss));
}

/// No moment is read from a time that no clock shows or from a date that no calendar
/// has, nor from one before the epoch.
pub proof fn law_no_such_moment(t: (int, int, int), hh: int, mm: int, ss: int)
    ensures
        moment(t, hh, mm, ss) matches Some(v) ==> {
            &&& hh < 24 && mm < 60 && ss < 61
            &&& 1 <= t.1 <= 12 && 1 <= t.2
            &&& day_number(t) >= 0
            &&& v == seconds(t, hh, mm, ss)
        },
{
}

/// The date that is sent names its own moment: the date and the time of day that it
/// shows are those of the second.
#[verifier::rlimit(40)]
#[verifier::spinoff_prover]
pub proof fn law_date_sent(t: (int, int, int), hh: int, mm: int, ss: int)
    requires
        moment_exists(t, hh, mm, ss),
        ss < 60,
    ensures
        imf_fixdate(seconds(t, hh, mm, ss)) == imf_text(
            imf_fixdate(seconds(t, hh, mm, ss)).take(3),
            t,
            hh,
            mm,
            ss,
        ),
{
    let secs = seconds(t, hh, mm, ss);
    assert(day_number(t) >= 0) by {
        lemma_within_year(t);
        lemma_months(t.0);
    }
    lemma_seconds_split(day_number(t), hh, mm, ss);
    lemma_date_is(day_number(t), t);
    lemma_imf_fields(secs);
    lemma_take_three(imf_fixdate(secs));
    lemma_imf_marks();
    lemma_imf_shape(
        day_name((secs / 86400 + 4) % 7),
        pad2(t.2),
        month_name(t.1),
        pad4(t.0),
        pad2(hh),
        pad2(mm),
        pad2(ss),
    );
}

/// Seconds tell the day and the time of day.
proof fn lemma_seconds_split(day: int, hh: int, mm: int, ss: int)
    requires
        0 <= hh <= 23,
        0 <= mm <= 59,
        0 <= ss <= 59,
    ensures
        ({
            let secs = day * 86400 + hh * 3600 + mm * 60 + ss;
            let time = secs % 86400;
            &&& secs / 86400 == day
            &&& time / 3600 == hh
            &&& (time / 60) % 60 == mm
            &&& time % 60 == ss
        }),
{
    let time = hh * 3600 + mm * 60 + ss;
    assert(time / 60 == hh * 60 + mm);
    assert((time / 60) % 60 == mm);
}

/// The marks between the fields of an IMF-fixdate.
proof fn lemma_imf_marks()
    ensures
        text(", ") == seq![COMMA, SP],
        text(" ") == seq![SP],
        text(":") == seq![COLON],
        text(" GMT") == seq![SP, 0x47u8, 0x4d, 0x54],
{
    reveal_strlit(", ");
    reveal_strlit(" ");
    reveal_strlit(":");
    reveal_strlit(" GMT");
    is_ascii_spec_bytes(", ");
    is_ascii_spec_bytes(" ");
    is_ascii_spec_bytes(":");
    is_ascii_spec_bytes(" GMT");
    assert(text(", ") =~= seq![COMMA, SP]);
    assert(text(" ") =~= seq![SP]);
    assert(text(":") =~= seq![COLON]);
    assert(text(" GMT") =~= seq![SP, 0x47u8, 0x4d, 0x54]);
}

/// The time of day may be written on its own.
proof fn lemma_imf_shape(a: Seq<u8>, d: Seq<u8>, m: Seq<u8>, y: Seq<u8>, hh: Seq<u8>, mm: Seq<u8>, ss: Seq<u8>)
    ensures
        ({
            let end = seq![SP, 0x47u8, 0x4d, 0x54];
            let front = a + seq![COMMA, SP] + d + seq![SP] + m + seq![SP] + y + seq![SP];
            front + hh + seq![COLON] + mm + seq![COLON] + ss + end == front + (hh + seq![COLON] + mm + seq![COLON] + ss)
                + end
        }),
{
    let end = seq![SP, 0x47u8, 0x4d, 0x54];
    let front = a + seq![COMMA, SP] + d + seq![SP] + m + seq![SP] + y + seq![SP];
    assert(front + hh + seq![COLON] + mm + seq![COLON] + ss + end =~= front + (hh + seq![COLON] + mm + seq![COLON] + ss)
        + end);
}

/// What a clock shows is the date of its reading, up to the end of the year 9999; one
/// that stands before the epoch shows the epoch.
pub proof fn law_clock_date(secs: u64, now: int)
    ensures
        secs < 253_402_300_800 ==> http_date_value(clock_date(Some(secs)), now) == Some(secs as int),
        http_date_value(clock_date(None), now) == Some(0int),
{
    if secs < 253_402_300_800 {
        law_date_round_trip(secs as int, now);
    }
    lemma_epoch_reads(now);
}

proof fn lemma_epoch_reads(now: int)
    ensures
        http_date_value(text("Thu, 01 Jan 1970 00:00:00 GMT"), now) == Some(0int),
{
    assert(text("Thu, 01 Jan 1970 00:00:00 GMT") == imf_text(text("Thu"), (1970, 1, 1), 0, 0, 0)) by {
        lemma_epoch_text();
    }
    assert(three_letters(text("Thu"))) by {
        reveal_strlit("Thu");
        is_ascii_spec_bytes("Thu");
    }
    lemma_epoch_day();
    law_imf_reads_back(text("Thu"), (1970, 1, 1), 0, 0, 0, now);
}

proof fn lemma_epoch_day()
    ensures
        day_number((1970, 1, 1)) == 0,
        valid_date((1970, 1, 1)),
{
}

proof fn lemma_epoch_text()
    ensures
        text("Thu, 01 Jan 1970 00:00:00 GMT") == imf_text(text("Thu"), (1970, 1, 1), 0, 0, 0),
{
    reveal_strlit("Thu, 01 Jan 1970 00:00:00 GMT");
    reveal_strlit("Thu");
    reveal_strlit("Jan");
    is_ascii_spec_bytes("Thu, 01 Jan 1970 00:00:00 GMT");
    is_ascii_spec_bytes("Thu");
    is_ascii_spec_bytes("Jan");
    assert(month_name(1) == text("Jan"));
    assert(text("Thu, 01 Jan 1970 00:00:00 GMT") =~= imf_text(text("Thu"), (1970, 1, 1), 0, 0, 0));
}

/// The bytes from `a` up to `b` are decimal digits.
pub open spec fn digits_in(s: Seq<u8>, a: int, b: int) -> bool {
    forall|i: int| a <= i < b ==> 0x30 <= #[trigger] s[i] <= 0x39
}

/// ` GMT` stands at `a`.
pub open spec fn gmt_at(s: Seq<u8>, a: int) -> bool {
    s[a] == 0x20 && s[a + 1] == 0x47 && s[a + 2] == 0x4d && s[a + 3] == 0x54
}

/// Nothing but the three forms is a date: an IMF-fixdate has 29 bytes, an RFC 850 date
/// 24 from its comma on, an asctime date 24, each with its blanks, colons and digits in
/// their places, and the first two end in ` GMT`.
pub proof fn law_date_forms(v: Seq<u8>, now: int)
    requires
        http_date_value(v, now) is Some,
    ensures
        ({
            let s = trimmed(v);
            let o = index_of(s, 0x2c);
            ||| {
                &&& s.len() == 29
                &&& s[3] == 0x2c && s[4] == 0x20 && s[7] == 0x20 && s[11] == 0x20 && s[16] == 0x20
                &&& s[19] == 0x3a && s[22] == 0x3a
                &&& digits_in(s, 5, 7) && digits_in(s, 12, 16)
                &&& digits_in(s, 17, 19) && digits_in(s, 20, 22) && digits_in(s, 23, 25)
                &&& gmt_at(s, 25)
            }
            ||| {
                &&& 6 <= o <= 9 && s.len() == o + 24
                &&& s[o + 1] == 0x20 && s[o + 4] == 0x2d && s[o + 8] == 0x2d && s[o + 11] == 0x20
                &&& s[o + 14] == 0x3a && s[o + 17] == 0x3a
                &&& digits_in(s, o + 2, o + 4) && digits_in(s, o + 9, o + 11)
                &&& digits_in(s, o + 12, o + 14) && digits_in(s, o + 15, o + 17) && digits_in(s, o + 18, o + 20)
                &&& gmt_at(s, o + 20)
            }
            ||| {
                &&& s.len() == 24
                &&& s[3] == 0x20 && s[7] == 0x20 && s[10] == 0x20 && s[13] == 0x3a && s[16] == 0x3a && s[19] == 0x20
                &&& (s[8] == 0x20 || digits_in(s, 8, 9)) && digits_in(s, 9, 10)
                &&& digits_in(s, 11, 13) && digits_in(s, 14, 16) && digits_in(s, 17, 19) && digits_in(s, 20, 24)
            }
        }),
{
    let s = trimmed(v);
    if imf_value(s) is Some {
        lemma_imf_form(s);
    } else if rfc850_value(s, now) is Some {
        lemma_rfc850_form(s, now);
    } else {
        lemma_asctime_form(s);
    }
}

/// Digits in a part are digits of the whole.
proof fn lemma_digits_in(s: Seq<u8>, a: int, b: int)
    requires
        0 <= a <= b <= s.len(),
        forall|i: int| 0 <= i < b - a ==> is_digit(#[trigger] s.subrange(a, b)[i]),
    ensures
        digits_in(s, a, b),
{
    assert forall|i: int| a <= i < b implies 0x30 <= #[trigger] s[i] <= 0x39 by {
        assert(s.subrange(a, b)[i - a] == s[i]);
    }
}

proof fn lemma_gmt_at(s: Seq<u8>, a: int)
    requires
        0 <= a,
        a + 4 <= s.len(),
        s[a] == SP,
        s.subrange(a + 1, a + 4) == text("GMT"),
    ensures
        gmt_at(s, a),
{
    reveal_strlit("GMT");
    is_ascii_spec_bytes("GMT");
    let g = s.subrange(a + 1, a + 4);
    assert(g[0] == s[a + 1] && g[1] == s[a + 2] && g[2] == s[a + 3]);
}

proof fn lemma_imf_form(s: Seq<u8>)
    requires
        imf_value(s) is Some,
    ensures
        s.len() == 29,
        s[3] == 0x2c && s[4] == 0x20 && s[7] == 0x20 && s[11] == 0x20 && s[16] == 0x20,
        s[19] == 0x3a && s[22] == 0x3a,
        digits_in(s, 5, 7) && digits_in(s, 12, 16),
        digits_in(s, 17, 19) && digits_in(s, 20, 22) && digits_in(s, 23, 25),
        gmt_at(s, 25),
{
    lemma_gmt_at(s, 25);
    lemma_digits_in(s, 5, 7);
    lemma_digits_in(s, 12, 16);
    lemma_digits_in(s, 17, 19);
    lemma_digits_in(s, 20, 22);
    lemma_digits_in(s, 23, 25);
}

proof fn lemma_rfc850_form(s: Seq<u8>, now: int)
    requires
        rfc850_value(s, now) is Some,
    ensures
        ({
            let o = index_of(s, 0x2c);
            &&& 6 <= o <= 9 && s.len() == o + 24
            &&& s[o + 1] == 0x20 && s[o + 4] == 0x2d && s[o + 8] == 0x2d && s[o + 11] == 0x20
            &&& s[o + 14] == 0x3a && s[o + 17] == 0x3a
            &&& digits_in(s, o + 2, o + 4) && digits_in(s, o + 9, o + 11)
            &&& digits_in(s, o + 12, o + 14) && digits_in(s, o + 15, o + 17) && digits_in(s, o + 18, o + 20)
            &&& gmt_at(s, o + 20)
        }),
{
    let o = index_of(s, COMMA);
    lemma_gmt_at(s, o + 20);
    lemma_digits_in(s, o + 2, o + 4);
    lemma_digits_in(s, o + 9, o + 11);
    lemma_digits_in(s, o + 12, o + 14);
    lemma_digits_in(s, o + 15, o + 17);
    lemma_digits_in(s, o + 18, o + 20);
}

proof fn lemma_asctime_form(s: Seq<u8>)
    requires
        asctime_value(s) is Some,
    ensures
        s.len() == 24,
        s[3] == 0x20 && s[7] == 0x20 && s[10] == 0x20 && s[13] == 0x3a && s[16] == 0x3a && s[19] == 0x20,
        (s[8] == 0x20 || digits_in(s, 8, 9)) && digits_in(s, 9, 10),
        digits_in(s, 11, 13) && digits_in(s, 14, 16) && digits_in(s, 17, 19) && digits_in(s, 20, 24),
{
    let d = s.subrange(8, 10);
    assert(d[0] == s[8] && d[1] == s[9]);
    lemma_digits_in(s, 11, 13);
    lemma_digits_in(s, 14, 16);
    lemma_digits_in(s, 17, 19);
    lemma_digits_in(s, 20, 24);
}

} // verus!
