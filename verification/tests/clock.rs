use datetime::Datetime;

#[test]
fn now_is_the_timestamp_after_the_unix_epoch() {
    let epoch = Datetime::from_rfc3339("1970-01-01").unwrap();
    let before = Datetime::timestamp().as_secs() as i64;
    let now = Datetime::now();
    let after = Datetime::timestamp().as_secs() as i64;
    let seconds = now.seconds_since(epoch);
    assert!(before <= seconds && seconds <= after);
}

#[test]
fn now_is_the_unix_epoch_shifted_by_the_timestamp() {
    let before = Datetime::timestamp().as_secs() as i64;
    let now = Datetime::now();
    let after = Datetime::timestamp().as_secs() as i64;
    let mut low = Datetime::default();
    low.add_years(1970).add_months(1).add_days(1).add_seconds(before);
    let mut high = Datetime::default();
    high.add_years(1970).add_months(1).add_days(1).add_seconds(after);
    assert!(low <= now && now <= high);
}

#[test]
fn now_is_a_well_formed_moment_since_the_unix_epoch() {
    let now = Datetime::now();
    assert!(now.year() >= 1970);
    assert!(1 <= now.month() && now.month() <= 12);
    assert!(1 <= now.day() && now.day() <= 31);
    assert!(now.hour() < 24 && now.minute() < 60 && now.second() < 60);
}

#[test]
fn from_unix_seconds_counts_from_1970() {
    assert_eq!(Datetime::from_unix_seconds(0).to_string(), "1970-01-01 00:00:00");
    assert_eq!(Datetime::from_unix_seconds(946684800).to_string(), "2000-01-01 00:00:00");
    assert_eq!(Datetime::from_unix_seconds(1700000000).to_string(), "2023-11-14 22:13:20");
    assert_eq!(Datetime::from_unix_seconds(-1).to_string(), "1969-12-31 23:59:59");
    assert_eq!(Datetime::from_unix_seconds(2147483647).to_string(), "2038-01-19 03:14:07");
}
