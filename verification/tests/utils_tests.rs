#![allow(deprecated)]

use chrono::{Datelike, Local, TimeZone};
use tempus_cli::times::DateRange;
use tempus_cli::utils::{get_date_from_arg, parse_date_range};

#[test]
fn test_date_range() {
    let DateRange(start, end) = parse_date_range("2021-12-01..2021-12-13").unwrap();

    assert_eq!(
        Local.ymd(2021, 12, 1).and_hms(0, 0, 0).timestamp(),
        start.timestamp()
    );

    assert_eq!(
        Local.ymd(2021, 12, 13).and_hms(23, 59, 59).timestamp(),
        end.timestamp()
    );
}

#[test]
fn test_date_range_end_only() {
    let DateRange(start, end) = parse_date_range("2021-12-01").unwrap();

    assert_eq!(
        Local.ymd(1970, 1, 1).and_hms(0, 0, 0).timestamp(),
        start.timestamp()
    );

    assert_eq!(
        Local.ymd(2021, 12, 1).and_hms(23, 59, 59).timestamp(),
        end.timestamp()
    );
}

#[test]
fn test_date_range_start_only() {
    let DateRange(start, end) = parse_date_range("2021-12-01..").unwrap();

    assert_eq!(
        Local.ymd(2021, 12, 1).and_hms(0, 0, 0).timestamp(),
        start.timestamp()
    );

    assert_eq!(
        Local::today().and_hms(23, 59, 59).timestamp(),
        end.timestamp()
    );
}

#[test]
fn test_date_range_end_only_with_dots() {
    // ..12-01 should be identical to 12-01
    let DateRange(start, end) = parse_date_range("..12-01").unwrap();

    assert_eq!(
        Local.ymd(1970, 1, 1).and_hms(0, 0, 0).timestamp(),
        start.timestamp()
    );

    // a date without a year is in the current year
    assert_eq!(
        Local.ymd(Local::today().year(), 12, 1).and_hms(23, 59, 59).timestamp(),
        end.timestamp()
    );

    let DateRange(_, end_2021) = parse_date_range("..2021-12-01").unwrap();
    assert_eq!(
        Local.ymd(2021, 12, 1).and_hms(23, 59, 59).timestamp(),
        end_2021.timestamp()
    );
}

#[test]
fn test_date_range_today() {
    let DateRange(start, end) = parse_date_range("today").unwrap();

    assert_eq!(
        Local.ymd(1970, 1, 1).and_hms(0, 0, 0).timestamp(),
        start.timestamp()
    );

    assert_eq!(
        Local::today().and_hms(23, 59, 59).timestamp(),
        end.timestamp()
    );
}

#[test]
fn test_date_range_today_2() {
    let DateRange(start, end) = parse_date_range("today..2021-12-31").unwrap();

    assert_eq!(
        Local::today().and_hms(0, 0, 0).timestamp(),
        start.timestamp()
    );

    assert_eq!(
        Local.ymd(2021, 12, 31).and_hms(23, 59, 59).timestamp(),
        end.timestamp()
    );
}

#[test]
fn test_date_range_today_3() {
    let DateRange(start, end) = parse_date_range("2021-12-1..today").unwrap();

    assert_eq!(
        Local.ymd(2021, 12, 1).and_hms(0, 0, 0).timestamp(),
        start.timestamp()
    );

    assert_eq!(
        Local::today().and_hms(23, 59, 59).timestamp(),
        end.timestamp()
    );
}

#[test]
fn test_get_date_from_arg() {
    let d = get_date_from_arg("2021-12-01", false).unwrap();

    assert_eq!(
        Local.ymd(2021, 12, 1).and_hms(0, 0, 0).timestamp(),
        d.timestamp()
    );
}

#[test]
fn test_get_date_from_arg_end() {
    let d = get_date_from_arg("2021-12-01", true).unwrap();

    assert_eq!(
        Local.ymd(2021, 12, 1).and_hms(23, 59, 59).timestamp(),
        d.timestamp()
    );
}

#[test]
fn test_get_date_from_arg_one_digit_day() {
    let d = get_date_from_arg("2021-12-1", false).unwrap();

    assert_eq!(
        Local.ymd(2021, 12, 1).and_hms(0, 0, 0).timestamp(),
        d.timestamp()
    );
}

#[test]
fn test_get_date_from_arg_one_digit_month() {
    let d = get_date_from_arg("2021-1-10", false).unwrap();

    assert_eq!(
        Local.ymd(2021, 1, 10).and_hms(0, 0, 0).timestamp(),
        d.timestamp()
    );
}

#[test]
fn test_get_date_from_arg_one_digit_month_and_day() {
    let d = get_date_from_arg("2021-1-1", false).unwrap();

    assert_eq!(
        Local.ymd(2021, 1, 1).and_hms(0, 0, 0).timestamp(),
        d.timestamp()
    );
}

#[test]
fn test_get_date_from_arg_no_year() {
    let d = get_date_from_arg("12-01", false).unwrap();

    assert_eq!(
        Local
            .ymd(Local::today().year(), 12, 1)
            .and_hms(0, 0, 0)
            .timestamp(),
        d.timestamp()
    );
}

#[test]
fn test_get_date_from_arg_no_year_one_digit_day() {
    let d = get_date_from_arg("12-5", false).unwrap();

    assert_eq!(
        Local
            .ymd(Local::today().year(), 12, 5)
            .and_hms(0, 0, 0)
            .timestamp(),
        d.timestamp()
    );
}

#[test]
fn test_get_date_from_arg_today() {
    let d = get_date_from_arg("today", false).unwrap();

    assert_eq!(Local::today().and_hms(0, 0, 0).timestamp(), d.timestamp());
}
