use datetime::Datetime;

fn moment(text: &str) -> Datetime {
    Datetime::from_str(text).expect("six runs of digits")
}

#[test]
fn seconds_from_1970_to_2000() {
    let later = moment("2000-01-01 00:00:00");
    let earlier = moment("1970-01-01 00:00:00");
    assert_eq!(later.seconds_since(earlier), 946684800);
    assert_eq!(earlier.seconds_since(later), -946684800);
}

#[test]
fn seconds_between_two_times_of_day() {
    let later = moment("2024-02-29 12:30:45");
    let earlier = moment("1999-12-31 23:59:59");
    assert_eq!(later.seconds_since(earlier), 762525046);
}

#[test]
fn seconds_since_itself_is_zero() {
    let at = moment("2024-02-29 12:30:45");
    assert_eq!(at.seconds_since(at), 0);
}

#[test]
fn seconds_across_the_era() {
    let later = moment("0001-01-01 00:00:00");
    assert_eq!(later.seconds_since(moment("0001-12-31 00:00:00 BC")), 86400);
    assert_eq!(later.seconds_since(moment("0001-12-31 23:59:59 BC")), 1);
    assert_eq!(
        moment("0044-03-15 00:00:00 BC").seconds_since(moment("2000-01-01 00:00:00")),
        -64464508800
    );
}

#[test]
fn seconds_since_is_antisymmetric() {
    let moments = [
        "2024-02-29 12:30:45",
        "1999-12-31 23:59:59",
        "1970-01-01 00:00:00",
        "0001-01-01 00:00:00",
        "0001-12-31 23:59:59 BC",
        "0401-02-29 06:00:00 BC",
        "2400-03-01 00:00:01",
    ];
    for a in moments {
        for b in moments {
            let a = moment(a);
            let b = moment(b);
            assert_eq!(a.seconds_since(b), -b.seconds_since(a));
        }
    }
}

#[test]
fn seconds_since_undoes_add_seconds() {
    let start = moment("1987-06-05 04:03:02");
    for seconds in [0i64, 1, 59, 60, 3599, 86399, 86400, 31536000, 1234567890, -1, -86401, -987654321] {
        let mut moved = start;
        moved.add_seconds(seconds);
        assert_eq!(moved.seconds_since(start), seconds);
    }
}

#[test]
fn seconds_to_a_date_that_does_not_exist_stop_at_the_last_date_before_it() {
    let thirtieth = moment("2021-02-30 00:00:00");
    let first = moment("2021-03-01 00:00:00");
    assert_eq!(thirtieth.seconds_since(first), -86400);
    assert_eq!(first.seconds_since(thirtieth), -86400);
}

#[test]
fn checked_seconds_since_agrees() {
    let later = moment("2000-01-01 00:00:00");
    let earlier = moment("1970-01-01 00:00:00");
    assert_eq!(later.checked_seconds_since(earlier), Some(946684800));
    assert_eq!(earlier.checked_seconds_since(later), Some(-946684800));
}

#[test]
fn the_unix_epoch_was_a_thursday() {
    let epoch = Datetime::from_rfc3339("1970-01-01").expect("a date");
    assert_eq!(epoch.day_of_week(), "Thursday");
}

#[test]
fn days_of_the_week() {
    let expected = [
        ("2000-01-01 00:00:00", "Saturday"),
        ("2024-02-29 00:00:00", "Thursday"),
        ("0001-01-01 00:00:00", "Monday"),
        ("0001-03-01 00:00:00", "Thursday"),
        ("1600-02-29 00:00:00", "Tuesday"),
        ("1900-03-01 00:00:00", "Thursday"),
        ("2038-01-19 00:00:00", "Tuesday"),
        ("0000-03-01 00:00:00", "Wednesday"),
    ];
    for (text, name) in expected {
        assert_eq!(moment(text).day_of_week(), name);
    }
}

#[test]
fn days_of_the_week_go_round_in_order() {
    let names = ["Sunday", "Monday", "Tuesday", "Wednesday", "Thursday", "Friday", "Saturday"];
    let mut dt = moment("2023-12-31 00:00:00");
    assert_eq!(dt.day_of_week(), "Sunday");
    for step in 1usize..=1500 {
        dt.add_days(1);
        assert_eq!(dt.day_of_week(), names[step % 7]);
    }
}

#[test]
fn seven_days_on_is_the_same_day_of_the_week() {
    for start in ["0001-01-01 00:00:00", "1582-10-15 00:00:00", "1999-12-27 00:00:00", "2024-02-26 00:00:00"] {
        let mut dt = moment(start);
        let name = dt.day_of_week();
        for _ in 0..60 {
            dt.add_days(7);
            assert_eq!(dt.day_of_week(), name);
        }
    }
}

#[test]
fn seven_days_on_from_march_of_year_zero() {
    let mut dt = moment("0000-03-01 00:00:00");
    for _ in 0..120 {
        dt.add_days(7);
        assert_eq!(dt.day_of_week(), "Wednesday");
    }
    assert!(dt.year() >= 1);
}

#[test]
fn before_march_of_year_zero_the_day_of_the_week_is_not_meant() {
    assert_eq!(moment("0001-01-01 00:00:00 BC").day_of_week(), "Saturday");
    assert_eq!(moment("0044-03-15 00:00:00 BC").day_of_week(), "Saturday");
    assert_eq!(Datetime::default().day_of_week(), "Wednesday");
}

#[test]
fn year_minus_one_comes_before_year_one() {
    let before = moment("0001-12-31 23:59:59 BC");
    let after = moment("0001-01-01 00:00:00");
    assert!(before < after);
    assert!(after > before);
    assert!(before != after);
    assert!(before.before(&after));
    assert!(!after.before(&before));
}

#[test]
fn moments_are_ordered_field_by_field() {
    let ordered = [
        "0002-01-01 00:00:00 BC",
        "0001-01-01 00:00:00 BC",
        "0001-01-01 00:00:00",
        "2020-01-31 23:59:59",
        "2020-02-01 00:00:00",
        "2020-02-01 00:00:01",
        "2020-02-01 00:01:00",
        "2020-02-01 01:00:00",
        "2020-02-02 00:00:00",
        "2021-01-01 00:00:00",
    ];
    for i in 0..ordered.len() {
        for j in 0..ordered.len() {
            let a = moment(ordered[i]);
            let b = moment(ordered[j]);
            assert_eq!(a < b, i < j);
            assert_eq!(a > b, i > j);
            assert_eq!(a <= b, i <= j);
            assert_eq!(a >= b, i >= j);
            assert_eq!(a == b, i == j);
            assert_eq!(a.partial_cmp(&b), i.partial_cmp(&j));
        }
    }
}

#[test]
fn getters_give_the_fields() {
    let dt = moment("0044-03-15 10:20:30 BC");
    assert_eq!(dt.year(), -44);
    assert_eq!(dt.month(), 3);
    assert_eq!(dt.day(), 15);
    assert_eq!(dt.hour(), 10);
    assert_eq!(dt.minute(), 20);
    assert_eq!(dt.second(), 30);
}
