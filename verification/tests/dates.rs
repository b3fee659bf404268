use zahttp::calendar::{civil_from_days, days_from_civil, days_in_month, is_leap};
use zahttp::clock::whole_seconds;
use zahttp::dates::{
    alpha3, combine, current_year, date_at, date_now, day2, four, http_date_unix, month, parse_asctime, parse_http_date,
    parse_http_date_at, parse_imf, parse_rfc850, parse_rfc850_at, pivot_2digit, pivot_at, two, year_at,
};

fn shown(secs: u64) -> String {
    let mut d = [0u8; 29];
    http_date_unix(secs, &mut d);
    String::from_utf8(d.to_vec()).unwrap()
}

#[test]
fn dates_are_written_as_imf_fixdates() {
    assert_eq!(shown(0), "Thu, 01 Jan 1970 00:00:00 GMT");
    assert_eq!(shown(784111777), "Sun, 06 Nov 1994 08:49:37 GMT");
    assert_eq!(shown(951782400), "Tue, 29 Feb 2000 00:00:00 GMT");
    assert_eq!(shown(1709164800), "Thu, 29 Feb 2024 00:00:00 GMT");
    assert_eq!(shown(253402300799), "Fri, 31 Dec 9999 23:59:59 GMT");
}

#[test]
fn a_date_reads_back() {
    for secs in [0u64, 1, 59, 86399, 86400, 68169600, 784111777, 951782399, 951868800, 4102444800] {
        assert_eq!(parse_http_date_at(shown(secs).as_bytes(), 2024), Some(secs));
    }
}

#[test]
fn the_three_formats_agree() {
    assert_eq!(parse_imf(b"Sun, 06 Nov 1994 08:49:37 GMT"), Some(784111777));
    assert_eq!(parse_rfc850_at(b"Sunday, 06-Nov-94 08:49:37 GMT", 2026), Some(784111777));
    assert_eq!(parse_asctime(b"Sun Nov  6 08:49:37 1994"), Some(784111777));
    assert_eq!(parse_http_date(b"Sun, 06 Nov 1994 08:49:37 GMT"), Some(784111777));
    assert_eq!(parse_http_date(b"Sun Nov  6 08:49:37 1994"), Some(784111777));
    assert_eq!(parse_rfc850(b"Sunday, 06-Nov-94 08:49:37 GMT"), Some(784111777));
}

#[test]
fn malformed_dates_are_refused() {
    assert_eq!(parse_imf(b"Sun, 06 Nov 1994 08:49:37 UTC"), None);
    assert_eq!(parse_imf(b"Sun, 31 Feb 1994 08:49:37 GMT"), None);
    assert_eq!(parse_imf(b"Sun, 06 Nov 1994 24:49:37 GMT"), None);
    assert_eq!(parse_imf(b"Sun, 06 Nov 1969 08:49:37 GMT"), None);
    assert_eq!(parse_imf(b""), None);
    assert_eq!(parse_asctime(b"Sun Nov 6 08:49:37 1994"), None);
    assert_eq!(parse_http_date(b"yesterday"), None);
}

#[test]
fn a_leap_second_folds_into_the_next_minute() {
    assert_eq!(parse_imf(b"Sat, 31 Dec 2016 23:59:60 GMT"), Some(1483228800));
    assert_eq!(parse_imf(b"Sun, 01 Jan 2017 00:00:00 GMT"), Some(1483228800));
}

#[test]
fn two_digit_years_pivot_half_a_century_ahead() {
    assert_eq!(pivot_at(94, 2026), 1994);
    assert_eq!(pivot_at(76, 2026), 2076);
    assert_eq!(pivot_at(77, 2026), 1977);
    assert_eq!(pivot_at(0, 2026), 2000);
    assert_eq!(pivot_2digit(0), 2000);
}

#[test]
fn date_fields() {
    assert_eq!(two(b"07"), Some(7));
    assert_eq!(two(b"7"), None);
    assert_eq!(two(b"x7"), None);
    assert_eq!(four(b"1994"), Some(1994));
    assert_eq!(four(b"194"), None);
    assert_eq!(day2(b" 6"), Some(6));
    assert_eq!(day2(b"16"), Some(16));
    assert_eq!(month(b"Nov"), Some(11));
    assert_eq!(month(b"nov"), None);
    assert!(alpha3(b"Sun"));
    assert!(!alpha3(b"S1n"));
    assert_eq!(combine(1970, 1, 1, 0, 0, 1), Some(1));
    assert_eq!(combine(1970, 13, 1, 0, 0, 1), None);
}

#[test]
fn the_calendar() {
    assert!(is_leap(2000) && is_leap(2024) && !is_leap(1900) && !is_leap(2023));
    assert_eq!(days_in_month(2024, 2), Some(29));
    assert_eq!(days_in_month(2023, 2), Some(28));
    assert_eq!(days_in_month(2023, 0), None);
    assert_eq!(days_from_civil(1970, 1, 1), Some(0));
    assert_eq!(days_from_civil(1994, 11, 6), Some(9075));
    assert_eq!(days_from_civil(1969, 12, 31), Some(-1));
    assert_eq!(days_from_civil(2023, 2, 29), None);
    assert_eq!(civil_from_days(9075), (1994, 11, 6));
    assert_eq!(civil_from_days(0), (1970, 1, 1));
}

#[test]
fn a_clock_before_the_epoch_shows_the_epoch() {
    let mut d = [0u8; 29];
    date_at(None, &mut d);
    assert_eq!(&d, b"Thu, 01 Jan 1970 00:00:00 GMT");
    assert_eq!(year_at(None), 1970);
    assert_eq!(year_at(Some(784111777)), 1994);
}

#[test]
fn the_current_date_is_that_of_the_clock() {
    let before = std::time::UNIX_EPOCH.elapsed().unwrap().as_secs();
    let mut d = [0u8; 29];
    date_now(&mut d);
    let after = std::time::UNIX_EPOCH.elapsed().unwrap().as_secs();
    let shown = parse_http_date(&d).unwrap();
    assert!(before <= shown && shown <= after);
    assert_eq!(current_year(), year_at(Some(after)));
}

#[test]
fn readings_of_the_clock_come_to_whole_seconds() {
    let epoch = std::time::UNIX_EPOCH;
    let later = epoch + std::time::Duration::from_millis(1999);
    assert_eq!(whole_seconds(later.duration_since(epoch)), Some(1));
    assert_eq!(whole_seconds(epoch.duration_since(later)), None);
}

#[test]
fn the_next_date_is_the_next_day() {
    for (a, b) in [
        ((2024, 2, 28), (2024, 2, 29)),
        ((2024, 2, 29), (2024, 3, 1)),
        ((2023, 2, 28), (2023, 3, 1)),
        ((2100, 2, 28), (2100, 3, 1)),
        ((1999, 12, 31), (2000, 1, 1)),
        ((2024, 4, 30), (2024, 5, 1)),
    ] {
        let day = days_from_civil(a.0, a.1, a.2).unwrap();
        assert_eq!(days_from_civil(b.0, b.1, b.2), Some(day + 1));
        assert_eq!(civil_from_days(day as u64 + 1), (b.0 as u64, b.1, b.2));
    }
}
