use almanac::calendar::Calendar;
use almanac::date::Date;
use almanac::errors::EventError;
use almanac::event::{End, Event};

fn ics(body: &str) -> String {
    format!("BEGIN:VCALENDAR\n{}\nEND:VCALENDAR\n", body)
}

fn wide_window(cal: &Calendar) -> Vec<Event> {
    cal.iter(&Date::new(), &Date::max())
}

#[test]
fn single_event_roundtrip() {
    let text = ics(
        "BEGIN:VEVENT\nDTSTART:20240115T090000Z\nDTEND:20240115T100000Z\nSUMMARY:Test\nEND:VEVENT",
    );
    let cal = Calendar::parse(&text).unwrap();
    assert_eq!(cal.single.len(), 1);
    assert_eq!(cal.periodic.len(), 0);
    let e = &cal.single[0];
    assert_eq!(e.summary, "Test");
    assert_eq!(e.start.year(), 2024);
    assert_eq!(e.start.month(), 1);
    assert_eq!(e.start.day(), 15);
    assert_eq!(e.start.hour(), 9);
    assert_eq!(e.end_date().hour(), 10);
}

#[test]
fn daily_rrule_three_occurrences() {
    let text = ics(
        "BEGIN:VEVENT\nDTSTART:20240115T090000Z\nDTEND:20240115T100000Z\nSUMMARY:Test\nRRULE:FREQ=DAILY;COUNT=3\nEND:VEVENT",
    );
    let cal = Calendar::parse(&text).unwrap();
    assert_eq!(cal.single.len(), 0);
    assert_eq!(cal.periodic.len(), 1);
    let evs = wide_window(&cal);
    let days: Vec<(u32, u32)> = evs.iter().map(|e| (e.start.day(), e.start.hour())).collect();
    assert_eq!(days, vec![(15, 9), (16, 9), (17, 9)]);
    for e in &evs {
        assert_eq!(e.summary, "Test");
        assert_eq!(e.end_date().hour(), 10);
    }
}

#[test]
fn value_date_yields_allday() {
    let text = ics("BEGIN:VEVENT\nDTSTART;VALUE=DATE:20240115\nSUMMARY:Day\nEND:VEVENT");
    let cal = Calendar::parse(&text).unwrap();
    assert_eq!(cal.single.len(), 1);
    let e = &cal.single[0];
    assert!(matches!(e.start, Date::AllDay { .. }));
    assert_eq!(e.start.year(), 2024);
    assert_eq!(e.start.month(), 1);
    assert_eq!(e.start.day(), 15);
}

#[test]
fn two_files_merge_in_order() {
    let one = ics(
        "BEGIN:VEVENT\nDTSTART:20240115T110000Z\nDTEND:20240115T113000Z\nSUMMARY:Later\nEND:VEVENT",
    );
    let two = ics(
        "BEGIN:VEVENT\nDTSTART:20240115T100000Z\nDTEND:20240115T103000Z\nSUMMARY:Earlier\nEND:VEVENT",
    );
    let c1 = Calendar::parse(&one).unwrap();
    let c2 = Calendar::parse(&two).unwrap();
    let streams = vec![wide_window(&c1), wide_window(&c2)];
    let merged = almanac::merge::kmerge(&streams);
    let names: Vec<&str> = merged.iter().map(|e| e.summary.as_str()).collect();
    assert_eq!(names, vec!["Earlier", "Later"]);
}

#[test]
fn first_monday_until_rrule() {
    let text = ics(
        "BEGIN:VEVENT\nDTSTART:20240101T090000Z\nDTEND:20240101T093000Z\nSUMMARY:M\nRRULE:FREQ=MONTHLY;BYDAY=1MO;UNTIL=20240401T000000Z\nEND:VEVENT",
    );
    let cal = Calendar::parse(&text).unwrap();
    let evs = wide_window(&cal);
    let days: Vec<(u32, u32)> = evs.iter().map(|e| (e.start.month(), e.start.day())).collect();
    assert_eq!(days, vec![(1, 1), (2, 5), (3, 4)]);
}

#[test]
fn unknown_status_fails_parse() {
    let text = ics(
        "BEGIN:VEVENT\nDTSTART:20240115T090000Z\nSTATUS:FOO\nSUMMARY:Bad\nEND:VEVENT",
    );
    assert_eq!(Calendar::parse(&text).unwrap_err(), EventError::StatusError);
}

#[test]
fn known_statuses_parse() {
    let text = ics(
        "BEGIN:VEVENT\nDTSTART:20240115T090000Z\nSTATUS:TENTATIVE\nSUMMARY:S\nEND:VEVENT",
    );
    let cal = Calendar::parse(&text).unwrap();
    assert!(matches!(
        cal.single[0].status,
        almanac::event::Status::Tentative
    ));
}

#[test]
fn malformed_stream_is_ical_error() {
    assert_eq!(
        Calendar::parse("BEGIN:VCALENDAR\nBEGIN:VEVENT\n").unwrap_err(),
        EventError::IcalError
    );
}

#[test]
fn singles_are_sorted_by_start() {
    let text = ics(
        "BEGIN:VEVENT\nDTSTART:20240117T090000Z\nSUMMARY:C\nEND:VEVENT\nBEGIN:VEVENT\nDTSTART:20240115T090000Z\nSUMMARY:A\nEND:VEVENT\nBEGIN:VEVENT\nDTSTART:20240116T090000Z\nSUMMARY:B\nEND:VEVENT",
    );
    let cal = Calendar::parse(&text).unwrap();
    let names: Vec<&str> = cal.single.iter().map(|e| e.summary.as_str()).collect();
    assert_eq!(names, vec!["A", "B", "C"]);
}

#[test]
fn sort_is_stable_for_equal_events() {
    let text = ics(
        "BEGIN:VEVENT\nDTSTART:20240115T090000Z\nDTEND:20240115T100000Z\nSUMMARY:First\nEND:VEVENT\nBEGIN:VEVENT\nDTSTART:20240115T090000Z\nDTEND:20240115T100000Z\nSUMMARY:Second\nEND:VEVENT",
    );
    let cal = Calendar::parse(&text).unwrap();
    let names: Vec<&str> = cal.single.iter().map(|e| e.summary.as_str()).collect();
    assert_eq!(names, vec!["First", "Second"]);
}

#[test]
fn tzid_parameter_selects_zone() {
    let text = ics(
        "BEGIN:VEVENT\nDTSTART;TZID=America/New_York:20240115T090000\nSUMMARY:NY\nEND:VEVENT",
    );
    let cal = Calendar::parse(&text).unwrap();
    let e = &cal.single[0];
    let utc = Date::parse("20240115T140000Z", "").unwrap();
    assert_eq!(e.start.cmp(&utc), std::cmp::Ordering::Equal);
}

#[test]
fn window_clamp_keeps_inner_events() {
    let mk = |d: &str, end: &str, name: &str| {
        let mut e = Event::new();
        e.start = Date::parse(d, "").unwrap();
        e.end = End::Date(Date::parse(end, "").unwrap());
        e.summary = String::from(name);
        e
    };
    let e1 = mk("20240110T090000Z", "20240110T100000Z", "e1");
    let e2 = mk("20240112T090000Z", "20240112T100000Z", "e2");
    let e3 = mk("20240114T090000Z", "20240114T090000Z", "e3");
    let e4 = mk("20240116T090000Z", "20240116T100000Z", "e4");
    let first = e2.start;
    let last = e3.start;
    let all = vec![e1, e2, e3, e4];
    let got = almanac::event::get(&all, &first, &last);
    let names: Vec<&str> = got.iter().map(|e| e.summary.as_str()).collect();
    assert_eq!(names, vec!["e2", "e3"]);
}

#[test]
fn kmerge_is_sorted_permutation() {
    let mk = |d: &str, name: &str| {
        let mut e = Event::new();
        e.start = Date::parse(d, "").unwrap();
        e.end = End::Date(e.start);
        e.summary = String::from(name);
        e
    };
    let a = vec![mk("20240110T090000Z", "a1"), mk("20240112T090000Z", "a2")];
    let b = vec![
        mk("20240109T090000Z", "b1"),
        mk("20240111T090000Z", "b2"),
        mk("20240113T090000Z", "b3"),
    ];
    let merged = almanac::merge::kmerge(&vec![a, b]);
    let names: Vec<&str> = merged.iter().map(|e| e.summary.as_str()).collect();
    assert_eq!(names, vec!["b1", "a1", "b2", "a2", "b3"]);
    assert_eq!(merged.len(), 5);
    for w in merged.windows(2) {
        assert!(!matches!(
            w[0].start.cmp(&w[1].start),
            std::cmp::Ordering::Greater
        ));
    }
}

#[test]
fn iter_clamps_periodic_to_window() {
    let text = ics(
        "BEGIN:VEVENT\nDTSTART:20240101T090000Z\nDTEND:20240101T100000Z\nSUMMARY:D\nRRULE:FREQ=DAILY\nEND:VEVENT",
    );
    let cal = Calendar::parse(&text).unwrap();
    let first = Date::parse("20240110T000000Z", "").unwrap();
    let last = Date::parse("20240112T235900Z", "").unwrap();
    let evs = cal.iter(&first, &last);
    let days: Vec<u32> = evs.iter().map(|e| e.start.day()).collect();
    assert_eq!(days, vec![10, 11, 12]);
}

#[test]
fn rrule_property_parameters_apply() {
    // Parameters attached to the RRULE property work like value pairs.
    let text = ics(
        "BEGIN:VEVENT\nDTSTART:20240115T090000Z\nSUMMARY:P\nRRULE;COUNT=2:FREQ=DAILY\nEND:VEVENT",
    );
    let cal = Calendar::parse(&text).unwrap();
    let evs = wide_window(&cal);
    assert_eq!(evs.len(), 2);
}

#[test]
fn config_starts_empty() {
    let c = almanac::config::Config::new();
    assert!(c.cals.is_empty());
    assert!(c.period.is_empty());
}
