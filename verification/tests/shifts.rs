use datetime::Datetime;

fn read(text: &str) -> Datetime {
    Datetime::from_str(text).expect("six runs of digits")
}

fn fields(dt: &Datetime) -> (i64, i64, i64, i64, i64, i64) {
    (dt.year(), dt.month(), dt.day(), dt.hour(), dt.minute(), dt.second())
}

#[test]
fn default_is_all_zero() {
    assert_eq!(fields(&Datetime::default()), (0, 0, 0, 0, 0, 0));
}

#[test]
fn default_chain_reaches_the_unix_epoch() {
    let mut dt = Datetime::default();
    dt.add_years(1970).add_months(1).add_days(1);
    assert_eq!(fields(&dt), (1970, 1, 1, 0, 0, 0));
    assert_eq!(dt.to_string(), "1970-01-01 00:00:00");
}

#[test]
fn add_years_from_unset_year_sets_it() {
    let mut dt = Datetime::default();
    dt.add_years(-3);
    assert_eq!(fields(&dt), (-3, 0, 0, 0, 0, 0));
}

#[test]
fn leap_day_plus_one_year_is_28_february() {
    let mut dt = read("2020-02-29 00:00:00");
    dt.add_years(1);
    assert_eq!(dt.to_string(), "2021-02-28 00:00:00");
}

#[test]
fn leap_day_plus_400_years_stays() {
    let mut dt = read("2000-02-29 00:00:00");
    dt.add_years(400);
    assert_eq!(dt.to_string(), "2400-02-29 00:00:00");
}

#[test]
fn leap_day_before_the_common_era() {
    let mut dt = read("0005-02-29 00:00:00 BC");
    dt.add_years(4);
    assert_eq!(dt.to_string(), "0001-02-29 00:00:00 BC");
    let mut dt = read("0005-02-29 00:00:00 BC");
    dt.add_years(1);
    assert_eq!(dt.to_string(), "0004-02-28 00:00:00 BC");
}

#[test]
fn year_minus_one_plus_one_is_year_one() {
    let mut dt = read("0001-06-15 00:00:00 BC");
    dt.add_years(1);
    assert_eq!(fields(&dt), (1, 6, 15, 0, 0, 0));
}

#[test]
fn year_one_minus_one_is_year_minus_one() {
    let mut dt = read("0001-06-15 00:00:00");
    dt.add_years(-1);
    assert_eq!(fields(&dt), (-1, 6, 15, 0, 0, 0));
}

#[test]
fn years_step_over_year_zero() {
    let mut dt = read("0005-01-01 00:00:00 BC");
    dt.add_years(10);
    assert_eq!(dt.year(), 6);
    let mut dt = read("0005-01-01 00:00:00");
    dt.add_years(-10);
    assert_eq!(dt.year(), -6);
}

#[test]
fn years_added_and_taken_away_restore_the_moment() {
    let deltas: [i64; 9] = [-3000, -2021, -2020, -1, 0, 1, 5, 2020, 100000];
    let starts = ["2020-03-31 12:34:56", "0001-01-01 00:00:00", "0044-03-15 01:02:03 BC"];
    for start in starts {
        for delta in deltas {
            let before = read(start);
            let mut dt = before;
            dt.add_years(delta).add_years(-delta);
            assert_eq!(dt, before);
            assert_ne!(dt.year(), 0);
        }
    }
}

#[test]
fn years_added_and_taken_away_from_the_unset_year_do_not_return() {
    let mut dt = Datetime::default();
    dt.add_years(5).add_years(-5);
    assert_eq!(dt.year(), -1);
    let mut dt = Datetime::default();
    dt.add_years(-5).add_years(5);
    assert_eq!(dt.year(), 1);
}

#[test]
fn years_added_and_taken_away_lose_a_leap_day() {
    let mut dt = read("2020-02-29 00:00:00");
    dt.add_years(1).add_years(-1);
    assert_eq!(dt.to_string(), "2020-02-28 00:00:00");
    let mut dt = read("2020-02-29 00:00:00");
    dt.add_years(4).add_years(-4);
    assert_eq!(dt.to_string(), "2020-02-29 00:00:00");
}

#[test]
fn add_months_over_a_wide_range() {
    let expected: [(i64, &str); 15] = [
        (0, "2020-01-31 00:00:00"),
        (1, "2020-02-29 00:00:00"),
        (11, "2020-12-31 00:00:00"),
        (12, "2021-01-31 00:00:00"),
        (13, "2021-02-28 00:00:00"),
        (-1, "2019-12-31 00:00:00"),
        (-2, "2019-11-30 00:00:00"),
        (-11, "2019-02-28 00:00:00"),
        (-12, "2019-01-31 00:00:00"),
        (-13, "2018-12-31 00:00:00"),
        (-24, "2018-01-31 00:00:00"),
        (-25, "2017-12-31 00:00:00"),
        (25, "2022-02-28 00:00:00"),
        (100, "2028-05-31 00:00:00"),
        (-100, "2011-09-30 00:00:00"),
    ];
    for (delta, text) in expected {
        let mut dt = read("2020-01-31 00:00:00");
        dt.add_months(delta);
        assert_eq!(dt.to_string(), text);
    }
}

#[test]
fn add_months_agrees_with_counting_months() {
    for delta in -400i64..=400 {
        let mut dt = read("2000-06-15 00:00:00");
        dt.add_months(delta);
        let count = 2000 * 12 + 5 + delta;
        assert_eq!(dt.year(), count.div_euclid(12));
        assert_eq!(dt.month(), count.rem_euclid(12) + 1);
        assert_eq!(dt.day(), 15);
    }
}

#[test]
fn add_months_pulls_the_day_back_to_the_30th() {
    let mut dt = read("2021-03-31 00:00:00");
    dt.add_months(1);
    assert_eq!(dt.to_string(), "2021-04-30 00:00:00");
}

#[test]
fn add_months_across_the_era() {
    let mut dt = read("0001-01-15 00:00:00");
    dt.add_months(-1);
    assert_eq!(dt.to_string(), "0001-12-15 00:00:00 BC");
    let mut dt = read("0001-12-15 00:00:00 BC");
    dt.add_months(1);
    assert_eq!(dt.to_string(), "0001-01-15 00:00:00");
}

#[test]
fn add_days_from_the_first_day_of_2000() {
    let expected: [(i64, &str); 20] = [
        (0, "2000-01-01 00:00:00"),
        (1, "2000-01-02 00:00:00"),
        (-1, "1999-12-31 00:00:00"),
        (28, "2000-01-29 00:00:00"),
        (29, "2000-01-30 00:00:00"),
        (30, "2000-01-31 00:00:00"),
        (31, "2000-02-01 00:00:00"),
        (59, "2000-02-29 00:00:00"),
        (60, "2000-03-01 00:00:00"),
        (365, "2000-12-31 00:00:00"),
        (366, "2001-01-01 00:00:00"),
        (-365, "1999-01-01 00:00:00"),
        (-366, "1998-12-31 00:00:00"),
        (730, "2001-12-31 00:00:00"),
        (1000, "2002-09-27 00:00:00"),
        (-1000, "1997-04-06 00:00:00"),
        (10000, "2027-05-19 00:00:00"),
        (-10000, "1972-08-15 00:00:00"),
        (146097, "2400-01-01 00:00:00"),
        (-146097, "1600-01-01 00:00:00"),
    ];
    for (delta, text) in expected {
        let mut dt = read("2000-01-01 00:00:00");
        dt.add_days(delta);
        assert_eq!(dt.to_string(), text);
    }
}

#[test]
fn add_days_across_the_era() {
    let mut dt = read("0001-01-01 00:00:00");
    dt.add_days(-1);
    assert_eq!(dt.to_string(), "0001-12-31 00:00:00 BC");
    let mut dt = read("0001-12-31 00:00:00 BC");
    dt.add_days(1);
    assert_eq!(dt.to_string(), "0001-01-01 00:00:00");
    let mut dt = read("0001-01-01 00:00:00");
    dt.add_days(-366);
    assert_eq!(dt.to_string(), "0001-01-01 00:00:00 BC");
    let mut dt = read("0001-01-01 00:00:00");
    dt.add_days(-367);
    assert_eq!(dt.to_string(), "0002-12-31 00:00:00 BC");
    let mut dt = read("0001-01-01 00:00:00 BC");
    dt.add_days(366);
    assert_eq!(dt.to_string(), "0001-01-01 00:00:00");
}

#[test]
fn the_year_before_the_common_era_is_a_leap_year() {
    let mut dt = read("0001-02-28 00:00:00 BC");
    dt.add_days(1);
    assert_eq!(dt.to_string(), "0001-02-29 00:00:00 BC");
    let mut dt = read("0001-03-01 00:00:00 BC");
    dt.add_days(-1);
    assert_eq!(dt.to_string(), "0001-02-29 00:00:00 BC");
    let mut dt = read("0005-02-28 00:00:00 BC");
    dt.add_days(1);
    assert_eq!(dt.to_string(), "0005-02-29 00:00:00 BC");
}

#[test]
fn add_days_carries_a_day_that_its_month_does_not_have() {
    let mut dt = read("2021-02-30 00:00:00");
    dt.add_days(0);
    assert_eq!(dt.to_string(), "2021-03-02 00:00:00");
    let mut dt = read("2021-03-00 00:00:00");
    dt.add_days(0);
    assert_eq!(dt.to_string(), "2021-02-28 00:00:00");
}

#[test]
fn add_days_carries_a_month_beyond_the_twelve() {
    let mut dt = read("2021-13-01 00:00:00");
    dt.add_days(0);
    assert_eq!(dt.to_string(), "2022-02-01 00:00:00");
    let mut dt = read("2021-00-00 00:00:00");
    dt.add_days(1);
    assert_eq!(dt.to_string(), "2021-01-01 00:00:00");
}

#[test]
fn add_days_to_the_unset_moment_goes_back() {
    let mut dt = Datetime::default();
    dt.add_days(0);
    assert_eq!(dt.to_string(), "0001-11-30 00:00:00 BC");
}

#[test]
fn add_days_and_back_again() {
    for delta in [1i64, 27, 31, 365, 366, 1461, 36524, 146097, 500000] {
        for start in ["2020-02-29 10:20:30", "0001-01-01 00:00:00", "0100-03-01 23:59:59 BC"] {
            let before = read(start);
            let mut dt = before;
            dt.add_days(delta).add_days(-delta);
            assert_eq!(dt, before);
            let mut dt = before;
            dt.add_days(-delta).add_days(delta);
            assert_eq!(dt, before);
        }
    }
}

#[test]
fn add_days_one_by_one_is_add_days_at_once() {
    let mut stepped = read("1999-12-25 00:00:00");
    for count in 1i64..=800 {
        stepped.add_days(1);
        let mut jumped = read("1999-12-25 00:00:00");
        jumped.add_days(count);
        assert_eq!(stepped, jumped);
    }
}

#[test]
fn add_hours_carries_days() {
    let mut dt = read("2020-02-28 23:00:00");
    dt.add_hours(25);
    assert_eq!(dt.to_string(), "2020-03-01 00:00:00");
    let mut dt = read("2020-03-01 00:00:00");
    dt.add_hours(-1);
    assert_eq!(dt.to_string(), "2020-02-29 23:00:00");
    let mut dt = read("2020-03-01 05:00:00");
    dt.add_hours(-29);
    assert_eq!(dt.to_string(), "2020-02-29 00:00:00");
}

#[test]
fn add_minutes_carries_hours() {
    let mut dt = read("2020-03-01 00:00:00");
    dt.add_minutes(-1);
    assert_eq!(dt.to_string(), "2020-02-29 23:59:00");
    let mut dt = read("2020-12-31 23:59:00");
    dt.add_minutes(1);
    assert_eq!(dt.to_string(), "2021-01-01 00:00:00");
}

#[test]
fn add_seconds_carries_minutes() {
    let mut dt = read("2021-12-31 23:59:59");
    dt.add_seconds(1);
    assert_eq!(dt.to_string(), "2022-01-01 00:00:00");
    let mut dt = read("2021-01-01 00:00:00");
    dt.add_seconds(-1);
    assert_eq!(dt.to_string(), "2020-12-31 23:59:59");
}

#[test]
fn add_seconds_far() {
    let mut dt = read("1970-01-01 00:00:00");
    dt.add_seconds(1700000000);
    assert_eq!(dt.to_string(), "2023-11-14 22:13:20");
    let mut dt = read("1970-01-01 00:00:00");
    dt.add_seconds(-1000000000);
    assert_eq!(dt.to_string(), "1938-04-24 22:13:20");
    let mut dt = read("1970-01-01 00:00:00");
    dt.add_seconds(2147483647);
    assert_eq!(dt.to_string(), "2038-01-19 03:14:07");
}

#[test]
fn a_time_beyond_the_day_is_carried() {
    let mut dt = read("2020-01-01 25:61:61");
    dt.add_hours(0);
    assert_eq!(fields(&dt), (2020, 1, 2, 1, 61, 61));
    let mut dt = read("2020-01-01 25:61:61");
    dt.add_seconds(0);
    assert_eq!(dt.to_string(), "2020-01-02 02:02:01");
}

#[test]
fn adding_nothing_changes_nothing() {
    let starts = [
        "2020-02-29 23:59:59",
        "1999-12-31 00:00:00",
        "0001-01-01 12:00:00",
        "0001-12-31 06:07:08 BC",
        "2021-04-30 01:02:03",
    ];
    for start in starts {
        let before = read(start);
        let mut dt = before;
        dt.add_years(0);
        assert_eq!(dt, before);
        dt.add_months(0);
        assert_eq!(dt, before);
        dt.add_days(0);
        assert_eq!(dt, before);
        dt.add_hours(0);
        assert_eq!(dt, before);
        dt.add_minutes(0);
        assert_eq!(dt, before);
        dt.add_seconds(0);
        assert_eq!(dt, before);
    }
}

#[test]
fn a_day_of_seconds_is_a_day() {
    let starts = [
        "2020-02-28 13:14:15",
        "2020-12-31 23:59:59",
        "0001-12-31 00:00:00 BC",
        "2021-02-30 01:02:03",
        "2021-13-00 01:02:03",
    ];
    for start in starts {
        let mut by_seconds = read(start);
        by_seconds.add_seconds(86400);
        let mut by_days = read(start);
        by_days.add_days(1);
        assert_eq!(by_seconds, by_days);
        assert_eq!(by_seconds.hour(), read(start).hour());
        assert_eq!(by_seconds.minute(), read(start).minute());
        assert_eq!(by_seconds.second(), read(start).second());
    }
    let mut dt = read("2020-02-28 13:14:15");
    dt.add_seconds(86400);
    assert_eq!(dt.to_string(), "2020-02-29 13:14:15");
}

#[test]
fn shifts_chain_in_the_order_written() {
    let mut dt = read("2020-01-31 00:00:00");
    dt.add_months(1).add_days(1);
    assert_eq!(dt.to_string(), "2020-03-01 00:00:00");
    let mut dt = read("2020-01-31 00:00:00");
    dt.add_days(1).add_months(1);
    assert_eq!(dt.to_string(), "2020-03-01 00:00:00");
    let mut dt = read("2020-01-30 00:00:00");
    dt.add_months(1).add_days(1);
    assert_eq!(dt.to_string(), "2020-03-01 00:00:00");
    let mut dt = read("2020-01-30 00:00:00");
    dt.add_days(1).add_months(1);
    assert_eq!(dt.to_string(), "2020-02-29 00:00:00");
}

#[test]
fn from_fields_holds_the_fields_as_they_are() {
    assert_eq!(fields(&Datetime::from_fields(2020, 2, 29, 23, 59, 58)), (2020, 2, 29, 23, 59, 58));
    assert_eq!(fields(&Datetime::from_fields(-44, 3, 15, 0, 0, 0)), (-44, 3, 15, 0, 0, 0));
    assert_eq!(fields(&Datetime::from_fields(0, 255, 0, 99, 98, 97)), (0, 255, 0, 99, 98, 97));
    assert_eq!(Datetime::from_fields(0, 0, 0, 0, 0, 0), Datetime::default());
    assert_eq!(Datetime::from_fields(2020, 2, 29, 1, 2, 3), read("2020-02-29 01:02:03"));
}
