use datetime::Datetime;

fn written(moment: Option<Datetime>) -> Option<String> {
    moment.map(|dt| dt.to_string())
}

fn some(text: &str) -> Option<String> {
    Some(String::from(text))
}

fn parts(dt: Datetime) -> (i64, i64, i64, i64, i64, i64) {
    (dt.year(), dt.month(), dt.day(), dt.hour(), dt.minute(), dt.second())
}

#[test]
fn rfc3339_with_an_offset_is_brought_to_utc() {
    let dt = Datetime::from_rfc3339("2020-01-01 08:00:00+08:00").unwrap();
    assert_eq!(dt.to_string(), "2020-01-01 00:00:00");
}

#[test]
fn rfc3339_date_alone() {
    assert_eq!(written(Datetime::from_rfc3339("1970-01-01")), some("1970-01-01 00:00:00"));
    assert_eq!(written(Datetime::from_rfc3339("2020-01-01 00:00")), some("2020-01-01 00:00:00"));
}

#[test]
fn rfc3339_offsets() {
    let expected = [
        ("2020-01-01T00:00:00Z", "2020-01-01 00:00:00"),
        ("2020-01-01T00:00:00-05:30", "2020-01-01 05:30:00"),
        ("2020-01-01T00:30:00+01:00", "2019-12-31 23:30:00"),
        ("2020-01-01T12:00:00.123+02:00", "2020-01-01 10:00:00"),
        ("2020-01-01 00:00:00+08", "2019-12-31 16:00:00"),
        ("2020-01-01 00:00:00+08:00:99", "2019-12-31 16:00:00"),
        ("2020-01-01 00:00:00 +0800", "2019-11-28 16:00:00"),
        ("2020-01-01 00:00:00-00:90", "2020-01-01 01:30:00"),
        ("2020-01-01 00:00:00+-5", "2020-01-01 05:00:00"),
        ("2020-01-01 00:00:00+08:-30", "2019-12-31 16:30:00"),
        ("2020-01-01 00:00:00+1000000", "1905-12-03 08:00:00"),
        ("0001-01-01 00:00:00+01:00", "0001-12-31 23:00:00 BC"),
        ("2020-12-31 23:59:60+00:00", "2021-01-01 00:00:00"),
    ];
    for (text, moment) in expected {
        assert_eq!(written(Datetime::from_rfc3339(text)), some(moment));
    }
}

#[test]
fn rfc3339_carries_numbers_beyond_their_field() {
    let expected = [
        ("2020-13-01", "2021-01-01 00:00:00"),
        ("2020-02-31", "2020-03-02 00:00:00"),
        ("2020-00-10", "2019-12-10 00:00:00"),
        ("2020-01-00", "2019-12-31 00:00:00"),
        ("2020-02-30T10:00:00", "2020-03-01 10:00:00"),
        ("2020-01-01 24:60:60", "2020-01-02 01:01:00"),
        ("2020-01-01 99:99:99", "2020-01-05 04:40:39"),
        ("9999-99-99 99:99:99", "10007-06-11 04:40:39"),
    ];
    for (text, moment) in expected {
        assert_eq!(written(Datetime::from_rfc3339(text)), some(moment));
    }
}

#[test]
fn rfc3339_reads_numbers_at_fixed_places() {
    assert_eq!(written(Datetime::from_rfc3339("2020x01y01z00a00b00")), some("2020-01-01 00:00:00"));
    assert_eq!(written(Datetime::from_rfc3339("-123-01-01")), some("0123-01-01 00:00:00 BC"));
    assert_eq!(written(Datetime::from_rfc3339("+020-01-01")), some("0020-01-01 00:00:00"));
    assert_eq!(written(Datetime::from_rfc3339("2020-+1-01")), some("2020-01-01 00:00:00"));
    assert_eq!(written(Datetime::from_rfc3339("0000-01-01")), some("0000-01-01 00:00:00"));
    assert_eq!(written(Datetime::from_rfc3339("2020-01-01T00:00:00\u{e9}")), some("2020-01-01 00:00:00"));
}

#[test]
fn rfc3339_failures() {
    let texts = [
        "",
        "2020-01-0",
        "abcd-01-01",
        "2020-ab-01",
        "2020-01-ab",
        "2020-01-01 aa:00:00",
        "2020-01-01 00:bb:00",
        "2020-01-01 00:00:cc",
        "2020-01-01 00:00:00+",
        "2020-01-01 00:00:00-",
        "2020-01-01 00:00:00+08:",
        "2020-01-01 00:00:00+08:xx",
        "2020-01-01 00:00:00 x-1:x",
        "2020-01-01 00:00:00+99999999999999999999",
        "\u{e9}020-01-01",
        "20 20-01-01",
    ];
    for text in texts {
        assert!(Datetime::from_rfc3339(text).is_none());
    }
}

#[test]
fn loose_form_reads_six_runs() {
    assert_eq!(parts(Datetime::from_str("2020-01-02 03:04:05").unwrap()), (2020, 1, 2, 3, 4, 5));
    assert_eq!(parts(Datetime::from_str("2020-01-02T03:04:05Z").unwrap()), (2020, 1, 2, 3, 4, 5));
    assert_eq!(parts(Datetime::from_str("1 2 3 4 5 6 7 8").unwrap()), (1, 2, 3, 4, 5, 6));
    assert_eq!(parts(Datetime::from_str("0000-00-00 00:00:00").unwrap()), (0, 0, 0, 0, 0, 0));
    assert_eq!(
        parts(Datetime::from_str("2020-255-255 255:255:255").unwrap()),
        (2020, 255, 255, 255, 255, 255)
    );
}

#[test]
fn loose_form_fills_missing_runs_with_zero() {
    assert_eq!(parts(Datetime::from_str("2020/1/2").unwrap()), (2020, 1, 2, 0, 0, 0));
    assert_eq!(parts(Datetime::from_str("on 2020-01-02 at 3h").unwrap()), (2020, 1, 2, 3, 0, 0));
    assert_eq!(parts(Datetime::from_str("2020-01-02 03:04").unwrap()), (2020, 1, 2, 3, 4, 0));
    assert_eq!(parts(Datetime::from_str("x1y2z3").unwrap()), (1, 2, 3, 0, 0, 0));
    assert_eq!(parts(Datetime::from_str("12:34:56").unwrap()), (12, 34, 56, 0, 0, 0));
}

#[test]
fn loose_form_era_mark() {
    assert_eq!(parts(Datetime::from_str("0044-03-15 00:00:00 BC").unwrap()), (-44, 3, 15, 0, 0, 0));
    assert_eq!(parts(Datetime::from_str("44.3.15 1:2:3BC").unwrap()), (-44, 3, 15, 1, 2, 3));
    assert_eq!(parts(Datetime::from_str("2020-01-02 03:04:05 xBCx 7").unwrap()), (-2020, 1, 2, 3, 4, 5));
    assert_eq!(parts(Datetime::from_str("2020-01-02 03:04:05 ABCD").unwrap()), (-2020, 1, 2, 3, 4, 5));
    assert_eq!(parts(Datetime::from_str("2020-01-02 03:04:05\nBC").unwrap()), (-2020, 1, 2, 3, 4, 5));
    assert_eq!(parts(Datetime::from_str("2020-01-02 03:04:05 C BC B").unwrap()), (-2020, 1, 2, 3, 4, 5));
}

#[test]
fn loose_form_era_mark_that_does_not_count() {
    assert_eq!(parts(Datetime::from_str("0044-03-15 BC").unwrap()), (44, 3, 15, 0, 0, 0));
    assert_eq!(parts(Datetime::from_str("2020-01-02 03:04:05 bc").unwrap()), (2020, 1, 2, 3, 4, 5));
    assert_eq!(parts(Datetime::from_str("2020-01-02 03:04:05 B C").unwrap()), (2020, 1, 2, 3, 4, 5));
    assert_eq!(parts(Datetime::from_str("2020-01-02 03:04:05 x 7 BC").unwrap()), (2020, 1, 2, 3, 4, 5));
    assert_eq!(parts(Datetime::from_str("BC 2020-01-02 03:04:05").unwrap()), (2020, 1, 2, 3, 4, 5));
}

#[test]
fn loose_form_failures() {
    for text in ["", "abc", "2020-01", "1 2", "2020", "--", "BC"] {
        assert!(Datetime::from_str(text).is_none());
    }
}

#[test]
fn loose_form_year_month_and_day_must_fit() {
    assert!(Datetime::from_str("2020-300-01").is_none());
    assert!(Datetime::from_str("2020-01-256").is_none());
    assert!(Datetime::from_str("99999999999999999999-01-01").is_none());
    assert!(Datetime::from_str("9223372036854775808-1-1").is_none());
    assert_eq!(
        parts(Datetime::from_str("9223372036854775807-1-1").unwrap()),
        (9223372036854775807, 1, 1, 0, 0, 0)
    );
    assert_eq!(
        parts(Datetime::from_str("9223372036854775807-1-1 0:0:0 BC").unwrap()),
        (-9223372036854775807, 1, 1, 0, 0, 0)
    );
    assert_eq!(parts(Datetime::from_str("0000000000000000000002020-0001-0002").unwrap()), (2020, 1, 2, 0, 0, 0));
}

#[test]
fn loose_form_time_that_does_not_fit_is_zero() {
    assert_eq!(parts(Datetime::from_str("2020-01-02 300:04:05").unwrap()), (2020, 1, 2, 0, 4, 5));
    assert_eq!(parts(Datetime::from_str("2020-01-02 03:256:05").unwrap()), (2020, 1, 2, 3, 0, 5));
    assert_eq!(parts(Datetime::from_str("2020-01-02 03:04:999").unwrap()), (2020, 1, 2, 3, 4, 0));
}

#[test]
fn loose_form_digits_are_ascii_digits() {
    assert!(Datetime::from_str("\u{662}\u{660}\u{662}\u{660}-01-02").is_none());
    assert_eq!(
        parts(Datetime::from_str("2020\u{2014}01\u{2014}02 03\u{ff1a}04\u{ff1a}05").unwrap()),
        (2020, 1, 2, 3, 4, 5)
    );
}

#[test]
fn text_of_a_moment() {
    assert_eq!(Datetime::default().to_string(), "0000-00-00 00:00:00");
    assert_eq!(Datetime::from_str("1-2-3 4:5:6").unwrap().to_string(), "0001-02-03 04:05:06");
    assert_eq!(Datetime::from_str("12345-2-3 4:5:6").unwrap().to_string(), "12345-02-03 04:05:06");
    assert_eq!(Datetime::from_str("44-3-15 0:0:0 BC").unwrap().to_string(), "0044-03-15 00:00:00 BC");
    assert_eq!(
        Datetime::from_str("2020-255-255 255:255:255").unwrap().to_string(),
        "2020-255-255 255:255:255"
    );
    assert_eq!(
        Datetime::from_str("9223372036854775807-1-1 0:0:0 BC").unwrap().to_string(),
        "9223372036854775807-01-01 00:00:00 BC"
    );
}

#[test]
fn bytes_of_a_moment_are_its_text() {
    for text in ["0044-03-15 10:20:30 BC", "2020-02-29 23:59:59", "0000-00-00 00:00:00"] {
        let dt = Datetime::from_str(text).unwrap();
        assert_eq!(dt.to_bytes(), text.as_bytes().to_vec());
        assert_eq!(dt.to_string().into_bytes(), dt.to_bytes());
    }
}

#[test]
fn written_and_read_again_a_moment_is_itself() {
    let texts = [
        "2020-02-29 23:59:59",
        "0001-01-01 00:00:00",
        "0001-12-31 23:59:59 BC",
        "0044-03-15 10:20:30 BC",
        "123456-07-08 09:10:11",
        "123456-07-08 09:10:11 BC",
        "2020-255-255 255:255:255",
        "0000-00-00 00:00:00",
    ];
    for text in texts {
        let first = Datetime::from_str(text).unwrap();
        assert_eq!(first.to_string(), text);
        let second = Datetime::from_str(&first.to_string()).unwrap();
        assert_eq!(second, first);
    }
    let mut dt = Datetime::from_str("0003-01-01 00:00:00 BC").unwrap();
    for _ in 0..2200 {
        let again = Datetime::from_str(&dt.to_string()).unwrap();
        assert_eq!(again, dt);
        dt.add_seconds(86399 + 3600);
    }
}

#[test]
fn the_fixed_width_form_reads_what_is_written_in_the_common_era() {
    let mut dt = Datetime::from_str("1999-12-30 00:00:00").unwrap();
    for _ in 0..500 {
        let again = Datetime::from_rfc3339(&dt.to_string()).unwrap();
        assert_eq!(again, dt);
        dt.add_seconds(7 * 3600 + 11);
    }
}
