#![allow(deprecated)]

use chrono::{Local, TimeZone};
use tempus_cli::datetime::{DateRange, DateTime};
use tempus_cli::session::{join_path, Session, SessionAction, SessionStatus};
use tempus_cli::times::Times;
use tempus_cli::utils::{
    bad_date_in_range, date_arg_ok, datetime_from_str, datetime_to_readable_str, format_datetime,
    get_date_from_arg, keep_local_reading,
    get_start_date, local_to_fixed_offset, parse_date_arg, parse_date_range, resolve_date_arg,
    system_time_to_datetime, try_datetime_from_str, valid_date, DateArg, DateError,
};
use tempus_cli::{get_project_dir_path, SESSION_NAME, TEMPUS_LOG_NAME};

fn est(secs: i64, nanos: u32) -> DateTime {
    DateTime { secs, nanos, offset: -5 * 3600 }
}

#[test]
fn project_dir_keeps_the_double_slashes() {
    assert_eq!(get_project_dir_path("/home/u", "work"), "/home/u//tempus//work");
}

#[test]
fn date_arg_forms() {
    assert_eq!(parse_date_arg("today"), Some(DateArg::Today));
    assert_eq!(
        parse_date_arg("2021-12-01"),
        Some(DateArg::Day { year: Some(2021), month: 12, day: 1 })
    );
    assert_eq!(
        parse_date_arg("2021-1-1"),
        Some(DateArg::Day { year: Some(2021), month: 1, day: 1 })
    );
    assert_eq!(parse_date_arg("12-5"), Some(DateArg::Day { year: None, month: 12, day: 5 }));
    assert_eq!(parse_date_arg("1-31"), Some(DateArg::Day { year: None, month: 1, day: 31 }));
    assert_eq!(
        parse_date_arg("0000-00-00"),
        Some(DateArg::Day { year: Some(0), month: 0, day: 0 })
    );
}

#[test]
fn date_arg_refusals() {
    for bad in [
        "", "Today", " today", "today ", "202-12-01", "20211-12-01", "2021-12-001", "12-123",
        "123-1", "12/01", "12-", "-12", "2021-12", "2021--12-01", "2021-12-01x", "１２-01",
        "12-0a", "..12-01",
    ] {
        assert_eq!(parse_date_arg(bad), None, "{:?}", bad);
    }
}

#[test]
fn calendar_validity() {
    assert!(valid_date(2000, 2, 29));
    assert!(valid_date(2024, 2, 29));
    assert!(!valid_date(1900, 2, 29));
    assert!(!valid_date(2021, 2, 29));
    assert!(!valid_date(2021, 4, 31));
    assert!(valid_date(2021, 12, 31));
    assert!(!valid_date(2021, 13, 1));
    assert!(!valid_date(2021, 0, 1));
    assert!(!valid_date(2021, 1, 0));
    assert!(valid_date(-4, 2, 29));
    assert!(!valid_date(262143, 1, 1));
}

#[test]
fn date_args_that_name_no_day() {
    for bad in ["yesterday", "2021-02-30", "2021-13-01", "02-30", "0-1", "2021-2-29", "4-31"] {
        assert!(!date_arg_ok(bad), "{:?}", bad);
    }
    for good in ["today", "2020-02-29", "2-29", "12-31", "2021-1-1", "0000-01-01"] {
        assert!(date_arg_ok(good), "{:?}", good);
    }
}

#[test]
fn date_arg_times_of_day() {
    let start = get_date_from_arg("2021-12-10", false).unwrap();
    let end = get_date_from_arg("2021-12-10", true).unwrap();
    assert_eq!(start.timestamp(), Local.ymd(2021, 12, 10).and_hms(0, 0, 0).timestamp());
    assert_eq!(end.timestamp() - start.timestamp(), 23 * 3600 + 59 * 60 + 59);
    assert_eq!(start.subsec_nanos(), 0);
    assert_eq!(datetime_to_readable_str(&end), "2021-12-10 23:59:59");
}

#[test]
fn start_date_is_local_epoch() {
    let t = get_start_date().unwrap();
    assert_eq!(t.timestamp(), Local.ymd(1970, 1, 1).and_hms(0, 0, 0).timestamp());
    assert_eq!(datetime_to_readable_str(&t), "1970-01-01 00:00:00");
}

#[test]
fn range_errors() {
    assert_eq!(parse_date_range(".."), Err(DateError::InvalidRange));
    assert_eq!(parse_date_range("12-01..12-02..12-03"), Err(DateError::InvalidRange));
    assert_eq!(parse_date_range("x..y..z"), Err(DateError::InvalidRange));
}

#[test]
fn range_dates_that_name_no_day() {
    assert_eq!(bad_date_in_range("12-01..x"), Some("x".to_string()));
    assert_eq!(bad_date_in_range("2021/12/01..2021-12-13"), Some("2021/12/01".to_string()));
    assert_eq!(bad_date_in_range("x"), Some("x".to_string()));
    assert_eq!(bad_date_in_range("..."), Some(".".to_string()));
    assert_eq!(bad_date_in_range("2021-02-30.."), Some("2021-02-30".to_string()));
    assert_eq!(bad_date_in_range("..13-01"), Some("13-01".to_string()));
    assert_eq!(bad_date_in_range("2021-12-01..2021-12-13"), None);
    assert_eq!(bad_date_in_range("2021-12-01.."), None);
    assert_eq!(bad_date_in_range("today"), None);
    assert_eq!(bad_date_in_range(".."), None);
    assert_eq!(bad_date_in_range("x..y..z"), None);
}

#[test]
fn leading_dots_name_the_same_range() {
    assert_eq!(parse_date_range("..2021-12-01"), parse_date_range("2021-12-01"));
    assert_eq!(parse_date_range("..12-01"), parse_date_range("12-01"));
}

#[test]
fn trailing_dots_run_until_today() {
    assert_eq!(parse_date_range("2021-12-01.."), parse_date_range("2021-12-01..today"));
}

#[test]
fn range_ends_are_whole_days() {
    let DateRange(start, end) = parse_date_range("2021-12-01..2021-12-01").unwrap();
    assert_eq!(end.timestamp() - start.timestamp(), 86399);
}

#[test]
fn rfc3339_text_of_moments() {
    let t = est(1639148368, 0);
    assert_eq!(format_datetime(&t), "2021-12-10T09:59:28-05:00");
    assert_eq!(format_datetime(&est(1639150574, 153827000)), "2021-12-10T10:36:14.153827-05:00");
    assert_eq!(format_datetime(&est(1639148368, 5_000_000)), "2021-12-10T09:59:28.005-05:00");
    assert_eq!(format_datetime(&est(1639148368, 1)), "2021-12-10T09:59:28.000000001-05:00");
    let utc = DateTime { secs: 0, nanos: 0, offset: 0 };
    assert_eq!(format_datetime(&utc), "1970-01-01T00:00:00+00:00");
    let ist = DateTime { secs: 0, nanos: 0, offset: 5 * 3600 + 30 * 60 };
    assert_eq!(format_datetime(&ist), "1970-01-01T05:30:00+05:30");
}

#[test]
fn rfc3339_reading() {
    let t = datetime_from_str("2021-12-10T10:36:14.153827-05:00");
    assert_eq!(t, est(1639150574, 153827000));
    assert_eq!(datetime_from_str("2021-12-11T01:01:09Z").timestamp(), 1639184469);
    assert_eq!(try_datetime_from_str("2021-12-10 10:36:14-05:00"), Some(est(1639150574, 0)));
    assert_eq!(try_datetime_from_str("2021-12-10"), None);
    assert_eq!(try_datetime_from_str(""), None);
    assert_eq!(try_datetime_from_str("2021-02-30T00:00:00Z"), None);
}

#[test]
fn rfc3339_round_trip() {
    for t in [est(1639148368, 0), est(1639150574, 153827000), est(-1, 999_999_999)] {
        assert_eq!(datetime_from_str(&format_datetime(&t)), t);
    }
}

#[test]
fn readable_text_of_moments() {
    assert_eq!(datetime_to_readable_str(&est(1639148368, 0)), "2021-12-10 09:59:28");
    assert_eq!(datetime_to_readable_str(&est(1639148368, 999)), "2021-12-10 09:59:28");
    let utc = DateTime { secs: 1639184469, nanos: 0, offset: 0 };
    assert_eq!(datetime_to_readable_str(&utc), "2021-12-11 01:01:09");
}

#[test]
fn timestamps_stay() {
    let t = system_time_to_datetime(1639148368).unwrap();
    assert_eq!(t.timestamp(), 1639148368);
    assert_eq!(t.subsec_nanos(), 0);
    assert_eq!(t.offset_seconds() % 60, 0);
    assert_eq!(system_time_to_datetime(0).unwrap().timestamp(), 0);
}

#[test]
fn session_lengths() {
    let r = DateRange(est(1639148368, 0), est(1639150574, 153827000));
    assert_eq!(r.length_seconds(), 2206);
}

#[test]
fn times_filter_inclusive_bounds() {
    let content = "2021-12-10T00:00:00-05:00,2021-12-10T01:00:00-05:00
2021-12-10T23:59:59-05:00,2021-12-11T01:00:00-05:00
2021-12-11T00:00:00-05:00,2021-12-11T01:00:00-05:00
2021-12-09T23:59:59-05:00,2021-12-10T01:00:00-05:00";
    let range = Some(DateRange(
        datetime_from_str("2021-12-10T00:00:00-05:00"),
        datetime_from_str("2021-12-10T23:59:59-05:00"),
    ));
    let times = Times::new(content, &range);
    assert_eq!(times.session_times.len(), 2);
    assert_eq!(times.session_times[0].0, datetime_from_str("2021-12-10T00:00:00-05:00"));
    assert_eq!(times.session_times[1].0, datetime_from_str("2021-12-10T23:59:59-05:00"));
    assert_eq!(Times::new(content, &None).session_times.len(), 4);
}

#[test]
fn times_ignore_surrounding_whitespace_and_extra_fields() {
    let content = "\n  2021-12-10T09:59:28-05:00,2021-12-10T10:36:14-05:00,3.2\n\n ";
    let times = Times::new(content, &None);
    assert_eq!(times.session_times.len(), 1);
    assert_eq!(times.session_times[0].1, est(1639150574, 0));
}

#[test]
fn times_report_first_bad_line() {
    let good = "2021-12-10T09:59:28-05:00,2021-12-10T10:36:14-05:00";
    assert_eq!(Times::try_new("", &None).err(), Some(0));
    assert_eq!(Times::try_new(&format!("{}\n{}", good, good), &None).map(|t| t.session_times.len()), Ok(2));
    assert_eq!(Times::try_new(&format!("{}\n2021-12-10T09:59:28-05:00", good), &None).err(), Some(1));
    assert_eq!(Times::try_new(&format!("{}\n\n{}", good, good), &None).err(), Some(1));
    assert_eq!(Times::try_new(&format!("{}\r\n{}", good, good), &None).err(), Some(0));
    assert_eq!(Times::try_new("a,b", &None).err(), Some(0));
}

#[test]
fn times_come_out_in_order() {
    let content = "2021-12-10T09:59:28-05:00,2021-12-10T10:36:14-05:00
2021-12-10T11:16:09-05:00,2021-12-10T12:49:13-05:00";
    let mut times = Times::new(content, &None);
    assert_eq!(times.next().map(|r| r.0), Some(est(1639148368, 0)));
    assert_eq!(times.next().map(|r| r.0.timestamp()), Some(1639152969));
    assert_eq!(times.next(), None);
    assert_eq!(times.next(), None);
}

#[test]
fn session_paths() {
    assert_eq!(join_path("/a/b", "c"), "/a/b/c");
    let s = Session::new("/p", SESSION_NAME, SessionStatus::NotStarted);
    assert_eq!(s.session_path, "/p/.session");
    assert_eq!(s.started_at, None);
    assert_eq!(s.ended_at, None);
    let t = est(1639148368, 0);
    let s = Session::new("/p", SESSION_NAME, SessionStatus::Started(t));
    assert_eq!(s.started_at, Some(t));
}

#[test]
fn start_time_is_the_creation_time() {
    let s = Session::new("/p", SESSION_NAME, SessionStatus::NotStarted);
    assert_eq!(s.start(1639148368).unwrap().timestamp(), 1639148368);
}

#[test]
fn ending_keeps_the_end_time() {
    let t = est(1639148368, 0);
    let mut s = Session::new("/p", SESSION_NAME, SessionStatus::Started(t));
    let end = s.end();
    assert_eq!(s.ended_at, Some(end));
    assert_eq!(s.started_at, Some(t));
    assert!(end.timestamp() > 1639148368);
}

#[test]
fn record_line_and_log_path() {
    let start = est(1639148368, 0);
    let mut s = Session::new("/p", SESSION_NAME, SessionStatus::Started(start));
    s.ended_at = Some(est(1639150574, 153827000));
    let (path, line) = s.record(TEMPUS_LOG_NAME);
    assert_eq!(path, "/p/tempus_log.txt");
    assert_eq!(line, "2021-12-10T09:59:28-05:00,2021-12-10T10:36:14.153827-05:00\n");
}

#[test]
fn recorded_sessions_read_back() {
    let sessions = [
        DateRange(est(1639148368, 0), est(1639150574, 153827000)),
        DateRange(est(1639152969, 0), DateTime { secs: 1639158553, nanos: 180945000, offset: 0 }),
    ];
    let mut log = String::new();
    for r in sessions.iter() {
        let mut s = Session::new("/p", SESSION_NAME, SessionStatus::Started(r.0));
        s.ended_at = Some(r.1);
        log.push_str(&s.record(TEMPUS_LOG_NAME).1);
    }
    let times = Times::new(&log, &None);
    assert_eq!(times.session_times, sessions.to_vec());
}

#[test]
fn date_args_resolve_against_today() {
    let today = (2021, 12, 10);
    assert_eq!(resolve_date_arg(DateArg::Today, false, today), Ok((2021, 12, 10, 0, 0, 0)));
    assert_eq!(resolve_date_arg(DateArg::Today, true, today), Ok((2021, 12, 10, 23, 59, 59)));
    let no_year = DateArg::Day { year: None, month: 12, day: 5 };
    assert_eq!(resolve_date_arg(no_year, false, today), Ok((2021, 12, 5, 0, 0, 0)));
    let feb29 = DateArg::Day { year: None, month: 2, day: 29 };
    assert_eq!(resolve_date_arg(feb29, true, today), Err(DateError::NoSuchDay));
    assert_eq!(resolve_date_arg(feb29, true, (2024, 1, 1)), Ok((2024, 2, 29, 23, 59, 59)));
    let with_year = DateArg::Day { year: Some(2020), month: 2, day: 29 };
    assert_eq!(resolve_date_arg(with_year, false, today), Ok((2020, 2, 29, 0, 0, 0)));
    let bad = DateArg::Day { year: Some(2021), month: 4, day: 31 };
    assert_eq!(resolve_date_arg(bad, false, today), Err(DateError::NoSuchDay));
}

#[test]
fn leap_seconds_round_trip() {
    let t = DateTime { secs: 1483228799, nanos: 1_500_000_000, offset: 0 };
    assert_eq!(format_datetime(&t), "2016-12-31T23:59:60.500+00:00");
    assert_eq!(datetime_from_str(&format_datetime(&t)), t);
    let whole = DateTime { secs: 1483228799, nanos: 1_000_000_000, offset: 3600 };
    assert_eq!(format_datetime(&whole), "2017-01-01T00:59:60+01:00");
    assert_eq!(datetime_from_str(&format_datetime(&whole)), whole);
}

#[test]
fn fixed_offsets_round_to_minutes() {
    let lmt = DateTime { secs: 0, nanos: 0, offset: 5 * 3600 + 53 * 60 + 28 };
    assert_eq!(format_datetime(&lmt), "1970-01-01T05:53:28+05:53");
    assert_eq!(
        local_to_fixed_offset(&lmt),
        Some(DateTime { secs: 28, nanos: 0, offset: 5 * 3600 + 53 * 60 })
    );
    let up = DateTime { secs: 100, nanos: 7, offset: -(44 * 60 + 30) };
    assert_eq!(
        local_to_fixed_offset(&up),
        Some(DateTime { secs: 130, nanos: 7, offset: -(45 * 60) })
    );
    let est_moment = est(1639148368, 0);
    assert_eq!(local_to_fixed_offset(&est_moment), Some(est_moment));
}

#[test]
fn narrower_range_keeps_what_the_wider_range_had() {
    let content = "2021-12-09T10:00:00-05:00,2021-12-09T11:00:00-05:00
2021-12-10T10:00:00-05:00,2021-12-10T11:00:00-05:00
2021-12-11T10:00:00-05:00,2021-12-11T11:00:00-05:00
2021-12-12T10:00:00-05:00,2021-12-12T11:00:00-05:00";
    let wide = DateRange(
        datetime_from_str("2021-12-09T00:00:00-05:00"),
        datetime_from_str("2021-12-11T23:59:59-05:00"),
    );
    let narrow = DateRange(
        datetime_from_str("2021-12-10T00:00:00-05:00"),
        datetime_from_str("2021-12-11T23:59:59-05:00"),
    );
    let from_wide: Vec<DateRange> = Times::new(content, &Some(wide))
        .session_times
        .into_iter()
        .filter(|r| narrow.0.timestamp() <= r.0.timestamp() && r.0.timestamp() <= narrow.1.timestamp())
        .collect();
    let direct = Times::new(content, &Some(narrow)).session_times;
    assert_eq!(direct.len(), 2);
    assert_eq!(from_wide, direct);
}

#[test]
fn the_same_command_starts_and_ends() {
    let s = Session::new("/p", SESSION_NAME, SessionStatus::NotStarted);
    assert_eq!(s.next_action(), SessionAction::Start);
    let s = Session::new("/p", SESSION_NAME, SessionStatus::Started(est(1639148368, 0)));
    assert_eq!(s.next_action(), SessionAction::End);
}

#[test]
fn local_readings_are_kept_as_their_text_reads_back() {
    let midnight = est(1638334800, 0);
    assert_eq!(keep_local_reading(&midnight), Ok(midnight));
    let lmt = DateTime { secs: -2, nanos: 0, offset: -(44 * 60 + 30) };
    assert_eq!(keep_local_reading(&lmt), Ok(DateTime { secs: 28, nanos: 0, offset: -(45 * 60) }));
    let far = DateTime { secs: 253402300800, nanos: 0, offset: 0 };
    assert_eq!(keep_local_reading(&far), Err(DateError::OutOfRange));
    let whole_day = DateTime { secs: 0, nanos: 0, offset: 86399 };
    assert_eq!(keep_local_reading(&whole_day), Err(DateError::OutOfRange));
    let odd_leap = DateTime { secs: 1483228799, nanos: 1_000_000_000, offset: 1 };
    assert_eq!(keep_local_reading(&odd_leap), Err(DateError::OutOfRange));
}
