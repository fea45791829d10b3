use tempus_cli::times::{DateRange, Times};
use tempus_cli::utils;

#[test]
fn different_timezones() {
    // top two are in est, bottom is utc
    // they should all be considered the same day
    let content = String::from(
        "2021-12-10T09:59:28-05:00,2021-12-10T10:36:14.153827-05:00
2021-12-10T11:16:09-05:00,2021-12-10T12:49:13.180945-05:00
2021-12-11T01:01:09+00:00,2021-12-11T02:00:13.180945+00:00",
    );

    let range: Option<DateRange> = Some(DateRange(
        utils::datetime_from_str("2021-12-10T00:00:00-05:00"),
        utils::datetime_from_str("2021-12-10T23:59:59-05:00"),
    ));

    let times = Times::new(&content, &range);

    assert_eq!(times.session_times.len(), 3);
}

#[test]
fn different_timezones_2() {
    // top two are in est, bottom is utc
    // they should all be considered the same day
    let content = String::from(
        "2021-12-10T09:59:28-05:00,2021-12-10T10:36:14.153827-05:00
2021-12-10T11:16:09-05:00,2021-12-10T12:49:13.180945-05:00
2021-12-10T01:01:09+00:00,2021-12-10T02:00:13.180945+00:00",
    );

    let range: Option<DateRange> = Some(DateRange(
        utils::datetime_from_str("2021-12-10T00:00:00-05:00"),
        utils::datetime_from_str("2021-12-10T23:59:59-05:00"),
    ));

    let times = Times::new(&content, &range);

    assert_eq!(times.session_times.len(), 2);
}
