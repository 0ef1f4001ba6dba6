use calio::calendar::duration;
use calio::date::{Date, Duration, Weekday};
use calio::errors::EventError;
use calio::event::{End, Status};
use calio::periodic::Periodic;

fn daily_rule(start: &str, extra_key: &str, extra_value: &str) -> Periodic {
    let mut p = Periodic::new();
    p.set_param("FREQ", "DAILY").unwrap();
    p.set_param(extra_key, extra_value).unwrap();
    p.event.start = Date::parse(start, "").unwrap();
    p.event.end = End::Duration(Duration::seconds(0));
    p
}

#[test]
fn daily_count_five_yields_five_days() {
    let p = daily_rule("20230110", "COUNT", "5");
    let mut it = p.produce();
    for k in 0..5 {
        let e = it.next().expect("an occurrence is owed");
        assert_eq!(e.start.year(), 2023);
        assert_eq!(e.start.month(), 1);
        assert_eq!(e.start.day(), 10 + k);
        // each occurrence keeps the template's (zero) duration
        assert!(e.end_date().same_day(&e.start));
    }
    assert!(it.next().is_none());
    assert!(it.next().is_none());
}

#[test]
fn daily_interval_steps() {
    let mut p = Periodic::new();
    p.set_param("FREQ", "DAILY").unwrap();
    p.set_param("INTERVAL", "3").unwrap();
    p.set_param("COUNT", "3").unwrap();
    p.event.start = Date::parse("20230110", "").unwrap();
    let mut it = p.produce();
    assert_eq!(it.next().unwrap().start.day(), 10);
    assert_eq!(it.next().unwrap().start.day(), 13);
    assert_eq!(it.next().unwrap().start.day(), 16);
    assert!(it.next().is_none());
}

#[test]
fn weekly_byday_starts_in_seed_week() {
    // the seed is a Wednesday; the selected Monday of the same week
    // comes first all the same
    let mut p = Periodic::new();
    p.set_param("FREQ", "WEEKLY").unwrap();
    p.set_param("BYDAY", "MO,WE,FR").unwrap();
    p.event.start = Date::parse("20230104", "").unwrap();
    assert_eq!(p.event.start.weekday(), Weekday::Wed);
    let mut it = p.produce();
    let first = it.next().unwrap();
    let second = it.next().unwrap();
    let third = it.next().unwrap();
    let fourth = it.next().unwrap();
    assert_eq!(first.start.day(), 2); // Monday 2023-01-02
    assert_eq!(second.start.day(), 4); // Wednesday 2023-01-04
    assert_eq!(third.start.day(), 6); // Friday 2023-01-06
    assert_eq!(fourth.start.day(), 9); // next week's Monday
    assert_eq!(first.start.weekday(), Weekday::Mon);
    assert_eq!(second.start.weekday(), Weekday::Wed);
    assert_eq!(third.start.weekday(), Weekday::Fri);
}

#[test]
fn weekly_until_boundary() {
    // an Until bound equal to the seed's start yields exactly the seed
    let mut p = Periodic::new();
    p.set_param("FREQ", "WEEKLY").unwrap();
    p.set_param("UNTIL", "20230110").unwrap();
    p.event.start = Date::parse("20230110", "").unwrap();
    let mut it = p.produce();
    let only = it.next().unwrap();
    assert_eq!(only.start.day(), 10);
    assert!(it.next().is_none());
    // a bound one day before the seed yields nothing
    let mut q = Periodic::new();
    q.set_param("FREQ", "WEEKLY").unwrap();
    q.set_param("UNTIL", "20230109").unwrap();
    q.event.start = Date::parse("20230110", "").unwrap();
    let mut it2 = q.produce();
    assert!(it2.next().is_none());
}

#[test]
fn monthly_ordinal_selectors() {
    // the second Monday of each month
    let mut p = Periodic::new();
    p.set_param("FREQ", "MONTHLY").unwrap();
    p.set_param("BYDAY", "2MO").unwrap();
    p.set_param("COUNT", "3").unwrap();
    p.event.start = Date::parse("20230101", "").unwrap();
    let mut it = p.produce();
    assert_eq!(it.next().unwrap().start.day(), 9); // 2023-01-09
    assert_eq!(it.next().unwrap().start.day(), 13); // 2023-02-13
    assert_eq!(it.next().unwrap().start.day(), 13); // 2023-03-13
    assert!(it.next().is_none());
    // the last Friday of each month
    let mut q = Periodic::new();
    q.set_param("FREQ", "MONTHLY").unwrap();
    q.set_param("BYDAY", "-1FR").unwrap();
    q.set_param("COUNT", "2").unwrap();
    q.event.start = Date::parse("20230101", "").unwrap();
    let mut it2 = q.produce();
    assert_eq!(it2.next().unwrap().start.day(), 27); // 2023-01-27
    assert_eq!(it2.next().unwrap().start.day(), 24); // 2023-02-24
}

#[test]
fn monthly_skips_short_months() {
    // a monthly rule seeded on the 31st skips months without a 31st
    let mut p = Periodic::new();
    p.set_param("FREQ", "MONTHLY").unwrap();
    p.set_param("COUNT", "3").unwrap();
    p.event.start = Date::parse("20230131", "").unwrap();
    let mut it = p.produce();
    let a = it.next().unwrap();
    assert_eq!((a.start.month(), a.start.day()), (1, 31));
    let b = it.next().unwrap();
    assert_eq!((b.start.month(), b.start.day()), (3, 31));
    let c = it.next().unwrap();
    assert_eq!((c.start.month(), c.start.day()), (5, 31));
}

#[test]
fn yearly_leap_day() {
    let mut p = Periodic::new();
    p.set_param("FREQ", "YEARLY").unwrap();
    p.set_param("COUNT", "2").unwrap();
    p.event.start = Date::parse("20240229", "").unwrap();
    let mut it = p.produce();
    assert_eq!(it.next().unwrap().start.year(), 2024);
    assert_eq!(it.next().unwrap().start.year(), 2028);
    assert!(it.next().is_none());
}

#[test]
fn rule_parameter_errors() {
    let mut p = Periodic::new();
    assert_eq!(p.set_param("FREQ", "FORTNIGHTLY"), Err(EventError::FreqError));
    assert_eq!(p.set_param("INTERVAL", "0"), Err(EventError::IntError));
    assert_eq!(p.set_param("INTERVAL", "x"), Err(EventError::IntError));
    assert_eq!(p.set_param("COUNT", ""), Err(EventError::IntError));
    assert_eq!(p.set_param("BYDAY", "XX"), Err(EventError::BydayError));
    assert_eq!(p.set_param("BYDAY", "0MO"), Err(EventError::BydayError));
    assert_eq!(p.set_param("UNTIL", "20ab"), Err(EventError::DateError));
    // unrecognized keys are ignored
    assert!(p.set_param("WKST", "MO").is_ok());
    // the later of COUNT and UNTIL wins
    p.set_param("COUNT", "2").unwrap();
    p.set_param("UNTIL", "20230110").unwrap();
    p.set_param("FREQ", "DAILY").unwrap();
    p.event.start = Date::parse("20230110", "").unwrap();
    let mut it = p.produce();
    assert!(it.next().is_some());
    assert!(it.next().is_none()); // the Until bound governs, not the count
}

#[test]
fn duration_grammar() {
    assert_eq!(duration("1W2D").unwrap().seconds, 604800 + 2 * 86400);
    assert_eq!(duration("PT1H30M").unwrap().seconds, 3600 + 30 * 60);
    assert_eq!(duration("P1DT12H").unwrap().seconds, 86400 + 12 * 3600);
    assert_eq!(duration("10S").unwrap().seconds, 10);
    // unrecognized characters are ignored
    assert_eq!(duration("xyz").unwrap().seconds, 0);
    // a unit with no digits before it is an integer error
    assert_eq!(duration("D"), Err(EventError::IntError));
    // a minus negates what has accumulated when it appears
    assert_eq!(duration("1D-1D").unwrap().seconds, 0);
}

#[test]
fn status_keywords() {
    assert_eq!(Status::from_str("CONFIRMED"), Ok(Status::Confirmed));
    assert_eq!(Status::from_str("TENTATIVE"), Ok(Status::Tentative));
    assert_eq!(Status::from_str("CANCELLED"), Ok(Status::Canceled));
    assert_eq!(Status::from_str("confirmed"), Err(EventError::StatusError));
    assert_eq!(Status::from_str(""), Err(EventError::StatusError));
}
