use datetime::Datetime;

fn at(text: &str) -> Datetime {
    Datetime::from_str(text).expect("six runs of digits")
}

fn shifted(moment: Option<Datetime>) -> Option<String> {
    moment.map(|dt| dt.to_string())
}

fn text(words: &str) -> Option<String> {
    Some(String::from(words))
}

#[test]
fn checked_shifts_agree_with_the_shifts() {
    let start = at("1999-12-31 23:59:59");
    for delta in [-100000i64, -367, -13, -1, 0, 1, 2, 59, 60, 61, 1440, 86400, 99999] {
        let mut by_years = start;
        by_years.add_years(delta);
        assert_eq!(start.checked_add_years(delta), Some(by_years));
        let mut by_months = start;
        by_months.add_months(delta);
        assert_eq!(start.checked_add_months(delta), Some(by_months));
        let mut by_days = start;
        by_days.add_days(delta);
        assert_eq!(start.checked_add_days(delta), Some(by_days));
        let mut by_hours = start;
        by_hours.add_hours(delta);
        assert_eq!(start.checked_add_hours(delta), Some(by_hours));
        let mut by_minutes = start;
        by_minutes.add_minutes(delta);
        assert_eq!(start.checked_add_minutes(delta), Some(by_minutes));
        let mut by_seconds = start;
        by_seconds.add_seconds(delta);
        assert_eq!(start.checked_add_seconds(delta), Some(by_seconds));
    }
}

#[test]
fn checked_shifts_leave_the_moment_alone() {
    let start = at("2020-02-29 12:00:00");
    assert_eq!(shifted(start.checked_add_years(1)), text("2021-02-28 12:00:00"));
    assert_eq!(shifted(start.checked_add_days(1)), text("2020-03-01 12:00:00"));
    assert_eq!(start.to_string(), "2020-02-29 12:00:00");
}

#[test]
fn checked_shifts_stop_at_the_last_year() {
    let last = at("9223372036854775807-12-31 23:59:59");
    assert_eq!(last.checked_add_years(1), None);
    assert_eq!(last.checked_add_months(1), None);
    assert_eq!(last.checked_add_days(1), None);
    assert_eq!(last.checked_add_hours(1), None);
    assert_eq!(last.checked_add_minutes(1), None);
    assert_eq!(last.checked_add_seconds(1), None);
    assert_eq!(last.checked_add_years(i64::MAX), None);
    assert_eq!(shifted(last.checked_add_years(0)), text("9223372036854775807-12-31 23:59:59"));
    assert_eq!(shifted(last.checked_add_seconds(-1)), text("9223372036854775807-12-31 23:59:58"));
    assert_eq!(shifted(last.checked_add_days(-31)), text("9223372036854775807-11-30 23:59:59"));
    assert_eq!(shifted(last.checked_add_years(-1)), text("9223372036854775806-12-31 23:59:59"));
}

#[test]
fn checked_shifts_stop_at_the_first_year() {
    let mut first = at("9223372036854775807-01-01 00:00:00 BC");
    first.add_years(-1);
    assert_eq!(first.year(), i64::MIN);
    assert_eq!(first.checked_add_years(-1), None);
    assert_eq!(first.checked_add_months(-1), None);
    assert_eq!(first.checked_add_days(-1), None);
    assert_eq!(first.checked_add_hours(-1), None);
    assert_eq!(first.checked_add_minutes(-1), None);
    assert_eq!(first.checked_add_seconds(-1), None);
    assert_eq!(first.checked_add_years(i64::MIN), None);
    let moved = first.checked_add_seconds(1).unwrap();
    assert_eq!(moved.year(), i64::MIN);
    assert_eq!((moved.month(), moved.day(), moved.hour(), moved.minute(), moved.second()), (1, 1, 0, 0, 1));
    assert_eq!(first.to_string(), "9223372036854775808-01-01 00:00:00 BC");
    assert_eq!(Datetime::from_str(&first.to_string()), None);
}

#[test]
fn checked_shift_across_the_whole_span_of_years() {
    let start = at("0001-06-15 00:00:00 BC");
    let moved = start.checked_add_years(i64::MAX).unwrap();
    assert_eq!(moved.year(), i64::MAX);
    let start = at("0001-06-15 00:00:00");
    let moved = start.checked_add_years(i64::MIN + 1).unwrap();
    assert_eq!(moved.year(), i64::MIN + 1);
    assert_eq!(start.checked_add_years(i64::MIN), Datetime::from_str("1-6-15").unwrap().checked_add_years(i64::MIN));
}

#[test]
fn checked_seconds_since_over_ten_thousand_years() {
    let early = at("0001-01-01 00:00:00");
    let late = at("10000-01-01 00:00:00");
    assert_eq!(late.checked_seconds_since(early), Some(315537897600));
    assert_eq!(early.checked_seconds_since(late), Some(-315537897600));
    assert_eq!(late.seconds_since(early), 315537897600);
}
