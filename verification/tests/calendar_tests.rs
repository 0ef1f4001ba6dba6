use calio::calendar::{Calendar, Component, Param, Property};
use calio::errors::EventError;
use calio::event::Status;

fn prop(name: &str, value: &str) -> Property {
    Property { name: name.to_string(), value: value.to_string(), params: Vec::new() }
}

fn single_component(summary: &str, start: &str) -> Component {
    Component { properties: vec![prop("SUMMARY", summary), prop("DTSTART", start)] }
}

fn document() -> Vec<Component> {
    // two single events around a daily rule's occurrences
    let mut comps = Vec::new();
    comps.push(single_component("first", "20230110T100000"));
    comps.push(single_component("third", "20230110T140000"));
    comps.push(Component {
        properties: vec![
            prop("SUMMARY", "periodic"),
            prop("DTSTART", "20230110T120000"),
            prop("RRULE", "FREQ=DAILY"),
        ],
    });
    comps
}

#[test]
fn merge_interleaves_in_ascending_order() {
    let cal = Calendar::parse(&document()).unwrap();
    let mut it = cal.iter();
    let a = it.next().unwrap();
    let b = it.next().unwrap();
    let c = it.next().unwrap();
    let d = it.next().unwrap();
    assert_eq!(a.summary, "first"); // 10:00
    assert_eq!(b.summary, "periodic"); // 12:00
    assert_eq!(c.summary, "third"); // 14:00
    assert_eq!(d.summary, "periodic"); // next day's 12:00
    assert_eq!(d.start.day(), 11);
    assert!(a.start < b.start && b.start < c.start && c.start < d.start);
}

#[test]
fn merged_streams_of_equal_parses_agree() {
    // parsing the same document twice gives element-wise equal streams
    let c1 = Calendar::parse(&document()).unwrap();
    let c2 = Calendar::parse(&document()).unwrap();
    let mut i1 = c1.iter();
    let mut i2 = c2.iter();
    for _ in 0..10 {
        let a = i1.next();
        let b = i2.next();
        assert_eq!(a.is_some(), b.is_some());
        if let (Some(x), Some(y)) = (a, b) {
            assert_eq!(x, y);
        }
    }
}

#[test]
fn singles_are_sorted_once() {
    let mut comps = Vec::new();
    comps.push(single_component("late", "20230112"));
    comps.push(single_component("early", "20230110"));
    comps.push(single_component("middle", "20230111"));
    let cal = Calendar::parse(&comps).unwrap();
    assert_eq!(cal.single.len(), 3);
    assert_eq!(cal.single[0].summary, "early");
    assert_eq!(cal.single[1].summary, "middle");
    assert_eq!(cal.single[2].summary, "late");
    assert_eq!(cal.periodic.len(), 0);
}

#[test]
fn component_fields_are_dispatched() {
    let comp = Component {
        properties: vec![
            prop("SUMMARY", "a talk"),
            prop("LOCATION", "the hall"),
            prop("DESCRIPTION", "about things"),
            prop("STATUS", "TENTATIVE"),
            prop("DTSTART", "20230110T100000"),
            prop("DTEND", "20230110T113000"),
            prop("IGNORED-FIELD", "whatever"),
        ],
    };
    let cal = Calendar::parse(&vec![comp]).unwrap();
    let e = &cal.single[0];
    assert_eq!(e.summary, "a talk");
    assert_eq!(e.location, "the hall");
    assert_eq!(e.description, "about things");
    assert_eq!(e.status, Status::Tentative);
    assert_eq!(e.end_date().hour(), 11);
    assert_eq!(e.end_date().sub_date(&e.start).seconds, 5400);
}

#[test]
fn duration_property_sets_relative_end() {
    let comp = Component {
        properties: vec![prop("DTSTART", "20230110T100000"), prop("DURATION", "PT1H30M")],
    };
    let cal = Calendar::parse(&vec![comp]).unwrap();
    let e = &cal.single[0];
    assert_eq!(e.end_date().sub_date(&e.start).seconds, 5400);
}

#[test]
fn tzid_parameter_reaches_the_date() {
    let dtstart = Property {
        name: "DTSTART".to_string(),
        value: "20200615T120000".to_string(),
        params: vec![Param {
            name: "TZID".to_string(),
            values: vec!["Europe/Berlin".to_string()],
        }],
    };
    let comp = Component { properties: vec![dtstart] };
    let cal = Calendar::parse(&vec![comp]).unwrap();
    let utc = calio::date::Date::parse("20200615T120000", "UTC").unwrap();
    assert_eq!(cal.single[0].start.sub_date(&utc).seconds, -7200);
}

#[test]
fn first_bad_property_aborts_the_parse() {
    let mut comps = document();
    comps.push(Component { properties: vec![prop("STATUS", "MAYBE")] });
    assert_eq!(Calendar::parse(&comps), Err(EventError::StatusError));
    let mut comps2 = document();
    comps2.push(Component { properties: vec![prop("DTSTART", "nonsense")] });
    assert_eq!(Calendar::parse(&comps2), Err(EventError::DateError));
    let mut comps3 = document();
    comps3.push(Component {
        properties: vec![prop("DTSTART", "20230110"), prop("RRULE", "FREQ=SOMETIMES")],
    });
    assert_eq!(Calendar::parse(&comps3), Err(EventError::FreqError));
}

#[test]
fn rrule_property_params_apply_after_the_text() {
    // an unrecognized rule-text key is ignored; the property's own
    // parameters go through the same dispatch
    let rr = Property {
        name: "RRULE".to_string(),
        value: "FREQ=DAILY;X-NONSENSE=1".to_string(),
        params: vec![Param { name: "COUNT".to_string(), values: vec!["2".to_string()] }],
    };
    let comp = Component { properties: vec![prop("DTSTART", "20230110"), rr] };
    let cal = Calendar::parse(&vec![comp]).unwrap();
    assert_eq!(cal.periodic.len(), 1);
    let mut it = cal.periodic[0].produce();
    assert!(it.next().is_some());
    assert!(it.next().is_some());
    assert!(it.next().is_none());
}
