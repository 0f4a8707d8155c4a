use chrono::{Local, NaiveDate, TimeZone};
use find_core::dates::{human_date, parse_date, parse_day, show_time, LocalTime};

#[test]
fn dates_are_shown_in_local_time() {
    for secs in [0, 1, -1, 1_700_000_000, 951_782_400, -62_167_219_200, 253_402_300_800] {
        let expected = Local.timestamp_opt(secs, 0).unwrap().format("%Y-%m-%d %H:%M").to_string();
        assert_eq!(human_date(secs), expected, "{secs}");
    }
    assert_eq!(human_date(i64::MAX), "");
    assert_eq!(human_date(i64::MIN), "");
}

#[test]
fn dates_are_read_as_local_midnight() {
    let midnight = |y, m, d| {
        let day = NaiveDate::from_ymd_opt(y, m, d).unwrap().and_hms_opt(0, 0, 0).unwrap();
        Local.from_local_datetime(&day).earliest().map(|t| t.timestamp())
    };
    assert_eq!(parse_date("2024-02-29"), midnight(2024, 2, 29));
    assert_eq!(parse_date("2024-02"), midnight(2024, 2, 1));
    assert_eq!(parse_date("2024"), midnight(2024, 1, 1));
    assert_eq!(parse_date("+2024-+2"), midnight(2024, 2, 1));
}

#[test]
fn days_that_do_not_exist_are_refused() {
    for text in [
        "", "-", "2023-02-29", "1900-02-29", "2024-13", "2024-00", "2024-01-00", "2024-04-31", "x",
        "2024-1-1-1", "2024-01-", "99999999999", "262143", " 2024",
    ] {
        assert_eq!(parse_day(text), None, "{text:?}");
        assert_eq!(parse_date(text), None, "{text:?}");
    }
    assert_eq!(parse_day("2000-02-29"), Some((2000, 2, 29)));
    assert_eq!(parse_day("0"), Some((0, 1, 1)));
    assert_eq!(parse_day("262142-12-31"), Some((262142, 12, 31)));
}

#[test]
fn times_are_padded() {
    let t = LocalTime { year: 7, month: 8, day: 9, hour: 1, minute: 2 };
    assert_eq!(show_time(&t), "0007-08-09 01:02");
}
