use groundhog::date::Date;
use groundhog::schedule::{parse_humantime_duration, Duration, DurationError, Issue, ScheduleError};

fn date(y: i32, m: u32, d: u32) -> Date {
    Date::from_ymd(y, m, d).expect("invalid date")
}

fn weekly(end: Option<Date>) -> Issue {
    Issue::new(
        "path/to/project".to_string(),
        date(2023, 11, 5),
        end,
        Duration { seconds: 7 * 86400 },
        Duration { seconds: 86400 },
        String::from("template.md"),
        Vec::default(),
        String::from("{}"),
    )
    .expect("valid schedule")
}

#[test]
fn most_recent_issue_day_before_start_with_notice() {
    // one day before the start, the one-day notice makes occurrence 0 due
    assert_eq!(weekly(None).most_recent_issue(date(2023, 11, 4)), Some(0));
}

#[test]
fn most_recent_issue_five_days_after_start() {
    assert_eq!(weekly(None).most_recent_issue(date(2023, 11, 10)), Some(0));
}

#[test]
fn most_recent_issue_six_days_after_start() {
    assert_eq!(weekly(None).most_recent_issue(date(2023, 11, 11)), Some(1));
}

#[test]
fn most_recent_issue_before_start_date() {
    assert_eq!(weekly(None).most_recent_issue(date(2022, 11, 11)), None);
}

#[test]
fn most_recent_issue_two_days_before_start_is_none() {
    // elapsed with notice is one day short of zero: nothing is due
    assert_eq!(weekly(None).most_recent_issue(date(2023, 11, 3)), None);
}

#[test]
fn most_recent_issue_frozen_at_end() {
    let issue = weekly(Some(date(2023, 11, 11)));
    assert_eq!(issue.most_recent_issue(date(2024, 6, 1)), Some(1));
    assert_eq!(issue.most_recent_issue(date(2023, 11, 10)), Some(0));
}

#[test]
fn due_date_of_second_occurrence() {
    assert_eq!(weekly(None).due_date(1), date(2023, 11, 12));
    assert_eq!(weekly(None).due_date(0), date(2023, 11, 5));
    assert_eq!(weekly(None).due_date(10), date(2024, 1, 14));
}

#[test]
fn due_dates_strictly_increase() {
    let issue = weekly(None);
    for n in 0..50u32 {
        assert!(issue.due_date(n).day < issue.due_date(n + 1).day);
    }
}

#[test]
fn due_date_drops_partial_days() {
    let issue = Issue::new(
        "p".to_string(),
        date(2024, 1, 1),
        None,
        Duration { seconds: 36 * 3600 },
        Duration { seconds: 0 },
        String::from("t.md"),
        Vec::new(),
        String::from("{}"),
    )
    .expect("valid schedule");
    assert_eq!(issue.due_date(1), date(2024, 1, 2));
    assert_eq!(issue.due_date(2), date(2024, 1, 4));
}

#[test]
fn zero_tempo_is_refused() {
    let r = Issue::new(
        "p".to_string(),
        date(2024, 1, 1),
        None,
        Duration { seconds: 0 },
        Duration { seconds: 0 },
        String::from("t.md"),
        Vec::new(),
        String::from("{}"),
    );
    assert_eq!(r.err(), Some(ScheduleError::ZeroTempo));
}

#[test]
fn oversized_notice_is_refused() {
    let r = Issue::new(
        "p".to_string(),
        date(2024, 1, 1),
        None,
        Duration { seconds: 60 },
        Duration { seconds: u64::MAX },
        String::from("t.md"),
        Vec::new(),
        String::from("{}"),
    );
    assert_eq!(r.err(), Some(ScheduleError::DurationOutOfRange));
}

#[test]
fn template_getter() {
    assert_eq!(weekly(None).template(), "template.md");
}

#[test]
fn parses_humantime_durations() {
    assert_eq!(parse_humantime_duration("1week"), Ok(Duration { seconds: 604800 }));
    assert_eq!(parse_humantime_duration("1day"), Ok(Duration { seconds: 86400 }));
    assert_eq!(parse_humantime_duration("2h 30min"), Ok(Duration { seconds: 9000 }));
    assert_eq!(parse_humantime_duration("0"), Ok(Duration { seconds: 0 }));
}

#[test]
fn rejects_invalid_durations() {
    assert_eq!(parse_humantime_duration(""), Err(DurationError::Invalid));
    assert_eq!(parse_humantime_duration("weekly"), Err(DurationError::Invalid));
}

#[test]
fn rejects_durations_beyond_chrono() {
    assert_eq!(parse_humantime_duration("99999999999y"), Err(DurationError::OutOfRange));
    assert_eq!(parse_humantime_duration("9007199254741s"), Err(DurationError::TooManyDigits));
    assert_eq!(parse_humantime_duration("9007199254s"), Ok(Duration { seconds: 9007199254 }));
}

#[test]
fn rejects_texts_with_too_many_digits() {
    assert_eq!(
        parse_humantime_duration("18446744073709551615.5s0.5s"),
        Err(DurationError::TooManyDigits)
    );
    assert_eq!(parse_humantime_duration("1y 2w 3d 4h 5m 6s"), Ok(Duration { seconds: 31557600 + 2 * 604800 + 3 * 86400 + 4 * 3600 + 5 * 60 + 6 }));
}

#[test]
fn dates_from_calendar() {
    assert_eq!(Date::from_ymd(1, 1, 1), Some(Date { day: 1 }));
    assert_eq!(Date::from_ymd(1970, 1, 1), Some(Date { day: 719_163 }));
    assert_eq!(Date::from_ymd(2023, 2, 29), None);
    assert_eq!(Date::from_ymd(2023, 13, 1), None);
    assert_eq!(date(2023, 11, 12).day - date(2023, 11, 5).day, 7);
}
