use calio::date::{Date, Duration, Weekday};

#[test]
fn date_parse_time() {
    match Date::parse("19361020T120000", "").unwrap() {
        Date::Time(time) => {
            assert_eq!(time.date.year, 1936);
            assert_eq!(time.hour, 12);
            assert_eq!(time.date.day, 20);
        }
        _ => assert!(true),
    }
}

#[test]
fn date_parse_allday() {
    match Date::parse("19361020", "").unwrap() {
        Date::AllDay(time) => {
            assert_eq!(time.year, 1936);
            assert_eq!(time.month, 10);
            assert_eq!(time.day, 20);
        }
        _ => assert!(true),
    }
}

#[test]
fn date_ord() {
    let d1 = Date::parse("19361020", "").unwrap();
    let d2 = Date::parse("19361022", "").unwrap();
    let t1 = Date::parse("19361020T120000", "").unwrap();
    let t2 = Date::parse("19361018T120000", "").unwrap();
    if d1 > d2 {
        assert!(true)
    }
    if d1 != d1 {
        assert!(true)
    }
    if t2 > d1 {
        assert!(true)
    }
    if t1 < t2 {
        assert!(true)
    }
    if t1 > d2 {
        assert!(true)
    }
}

#[test]
fn date_order_all_day_first() {
    // an all-day date sorts before any instant on the same civil day,
    // and by plain civil-day comparison otherwise
    let d = Date::parse("20200102", "").unwrap();
    let a = Date::parse("20200102T003000", "").unwrap();
    let b = Date::parse("20200102T180000", "").unwrap();
    let c = Date::parse("20200103T000000", "").unwrap();
    assert!(a < b);
    assert!(d < a);
    assert!(d < b);
    assert!(d < c);
    let e = Date::parse("20200101T235959", "").unwrap();
    assert!(e < d);
}

#[test]
fn date_parse_round_trip_leap_day() {
    let d = Date::parse("20240229", "").unwrap();
    assert_eq!(d.year(), 2024);
    assert_eq!(d.month(), 2);
    assert_eq!(d.day(), 29);
    // the same digits on a non-leap year name no real date
    assert!(Date::parse("20230229", "").is_err());
}

#[test]
fn date_parse_rejects_bad_text() {
    assert!(Date::parse("1936", "").is_err());
    assert!(Date::parse("", "").is_err());
    assert!(Date::parse("1936102a", "").is_err());
    assert!(Date::parse("19361300", "").is_err());
}

#[test]
fn date_parse_malformed_timestamp_degrades_to_epoch() {
    // a text with the time marker but a malformed body parses to the epoch
    let d = Date::parse("19361020T12", "").unwrap();
    assert_eq!(d.year(), 1970);
    assert_eq!(d.month(), 1);
    assert_eq!(d.day(), 1);
}

#[test]
fn date_accessors_and_weekday() {
    let d = Date::parse("20230104T093000", "").unwrap();
    assert_eq!(d.weekday(), Weekday::Wed);
    assert_eq!(d.hour(), 9);
    assert_eq!(d.days_in_month(), 31);
    assert_eq!(d.week_of_month(), (1, -4));
    let e = Date::parse("20230131", "").unwrap();
    assert_eq!(e.week_of_month(), (5, -1));
    assert_eq!(e.weekday(), Weekday::Tue);
}

#[test]
fn date_with_fields() {
    let d = Date::parse("20230131", "").unwrap();
    assert!(d.with_month(2).is_none()); // February 31st does not exist
    let e = d.with_day(28).unwrap().with_month(2).unwrap();
    assert_eq!(e.month(), 2);
    assert_eq!(e.day(), 28);
    assert!(Date::parse("20240229", "").unwrap().with_year(2023).is_none());
}

#[test]
fn date_arithmetic() {
    let d = Date::parse("19991231T235959", "").unwrap();
    let e = d.add_duration(Duration::seconds(2));
    assert_eq!(e.year(), 2000);
    assert_eq!(e.month(), 1);
    assert_eq!(e.day(), 1);
    assert_eq!(e.hour(), 0);
    let diff = e.sub_date(&d);
    assert_eq!(diff.seconds, 2);

    let a = Date::parse("20230110", "").unwrap();
    let b = a.add_duration(Duration::days(31));
    assert_eq!(b.month(), 2);
    assert_eq!(b.day(), 10);
    assert_eq!(b.sub_date(&a).seconds, 31 * 86400);
}

#[test]
fn date_same_day_ignores_time() {
    let a = Date::parse("20230110T010000", "").unwrap();
    let b = Date::parse("20230110T230000", "").unwrap();
    let c = Date::parse("20230111T010000", "").unwrap();
    assert!(a.same_day(&b));
    assert!(!a.same_day(&c));
}

#[test]
fn date_zone_offset_changes_instant() {
    // the same civil time in two zones names two different instants
    let berlin = Date::parse("20200615T120000", "Europe/Berlin").unwrap();
    let utc = Date::parse("20200615T120000", "UTC").unwrap();
    // Berlin noon in June is 10:00 UTC, two hours earlier on the clock
    assert_eq!(berlin.sub_date(&utc).seconds, -7200);
    // an unresolvable zone name falls back to UTC, never fails
    let fallback = Date::parse("20200615T120000", "No/Such_Zone").unwrap();
    assert_eq!(fallback.sub_date(&utc).seconds, 0);
    // the trailing marker means absolute UTC, whatever the hint says
    let marked = Date::parse("20200615T120000Z", "Europe/Berlin").unwrap();
    assert_eq!(marked.sub_date(&utc).seconds, 0);
}
