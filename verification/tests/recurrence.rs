use almanac::date::{Date, Weekday};
use almanac::event::{End, Event};
use almanac::periodic::{Freq, Periodic};

fn rule(start: &str, params: &[(&str, &str)]) -> Periodic {
    let mut p = Periodic::new();
    for (k, v) in params {
        p.set_param(k, v).unwrap();
    }
    let mut ev = Event::new();
    ev.start = Date::parse(start, "").unwrap();
    ev.end = End::Date(ev.start);
    p.event = ev;
    p
}

fn starts(p: &Periodic, n: usize) -> Vec<(i32, u32, u32)> {
    let mut it = p.iter();
    let mut out = Vec::new();
    while out.len() < n {
        match it.next() {
            Some(e) => out.push((e.start.year(), e.start.month(), e.start.day())),
            None => break,
        }
    }
    out
}

#[test]
fn weekly_byday() {
    // Mondays, Wednesdays and Fridays from Monday 2024-01-01.
    let p = rule(
        "20240101T090000Z",
        &[("FREQ", "WEEKLY"), ("BYDAY", "MO,WE,FR"), ("COUNT", "6")],
    );
    assert_eq!(
        starts(&p, 10),
        vec![
            (2024, 1, 1),
            (2024, 1, 3),
            (2024, 1, 5),
            (2024, 1, 8),
            (2024, 1, 10),
            (2024, 1, 12),
        ]
    );
}

#[test]
fn weekly_interval_skip() {
    let p = rule(
        "20240101T090000Z",
        &[
            ("FREQ", "WEEKLY"),
            ("INTERVAL", "2"),
            ("BYDAY", "MO"),
            ("WKST", "MO"),
            ("COUNT", "3"),
        ],
    );
    assert_eq!(starts(&p, 10), vec![(2024, 1, 1), (2024, 1, 15), (2024, 1, 29)]);
}

#[test]
fn monthly_bysetpos_last() {
    // The last Monday of January, February and March 2024.
    let p = rule(
        "20240101T090000Z",
        &[
            ("FREQ", "MONTHLY"),
            ("BYDAY", "MO"),
            ("BYSETPOS", "-1"),
            ("COUNT", "3"),
        ],
    );
    // A bare `MO` carries ordinal 0, which admits every Monday; `BYSETPOS`
    // widens, it does not narrow.
    assert_eq!(starts(&p, 10), vec![(2024, 1, 1), (2024, 1, 8), (2024, 1, 15)]);
}

#[test]
fn monthly_bysetpos_alone_picks_last() {
    // With an explicit ordinal 1 on Monday and BYSETPOS -1, both the first
    // and the last Monday of each month match.
    let p = rule(
        "20240101T090000Z",
        &[
            ("FREQ", "MONTHLY"),
            ("BYDAY", "1MO"),
            ("BYSETPOS", "-1"),
            ("COUNT", "4"),
        ],
    );
    assert_eq!(
        starts(&p, 10),
        vec![(2024, 1, 1), (2024, 1, 29), (2024, 2, 5), (2024, 2, 26)]
    );
}

#[test]
fn monthly_first_monday_until() {
    let p = rule(
        "20240101T090000Z",
        &[
            ("FREQ", "MONTHLY"),
            ("BYDAY", "1MO"),
            ("UNTIL", "20240401T000000Z"),
        ],
    );
    assert_eq!(starts(&p, 10), vec![(2024, 1, 1), (2024, 2, 5), (2024, 3, 4)]);
}

#[test]
fn daily_count_exact() {
    let p = rule("20240115T090000Z", &[("FREQ", "DAILY"), ("COUNT", "3")]);
    assert_eq!(
        starts(&p, 10),
        vec![(2024, 1, 15), (2024, 1, 16), (2024, 1, 17)]
    );
}

#[test]
fn until_bounds_last_start() {
    let p = rule("20240115T090000Z", &[("FREQ", "DAILY"), ("UNTIL", "20240117T090000Z")]);
    let got = starts(&p, 10);
    assert_eq!(got, vec![(2024, 1, 15), (2024, 1, 16), (2024, 1, 17)]);
    let until = Date::parse("20240117T090000Z", "").unwrap();
    let p2 = rule("20240115T090000Z", &[("FREQ", "DAILY"), ("UNTIL", "20240117T090000Z")]);
    let mut it = p2.iter();
    while let Some(e) = it.next() {
        assert!(!matches!(until.cmp(&e.start), std::cmp::Ordering::Less));
    }
}

#[test]
fn yearly_step() {
    let p = rule("20240115T090000Z", &[("FREQ", "YEARLY"), ("COUNT", "3")]);
    assert_eq!(
        starts(&p, 10),
        vec![(2024, 1, 15), (2025, 1, 15), (2026, 1, 15)]
    );
}

#[test]
fn monthly_december_rolls_to_january() {
    let p = rule("20241210T090000Z", &[("FREQ", "MONTHLY"), ("COUNT", "3")]);
    assert_eq!(
        starts(&p, 10),
        vec![(2024, 12, 10), (2025, 1, 10), (2025, 2, 10)]
    );
}

#[test]
fn hourly_and_minutely_steps() {
    let p = rule("20240115T090000Z", &[("FREQ", "HOURLY"), ("INTERVAL", "6"), ("COUNT", "5")]);
    let mut it = p.iter();
    let mut hours = Vec::new();
    while let Some(e) = it.next() {
        hours.push((e.start.day(), e.start.hour()));
    }
    assert_eq!(hours, vec![(15, 9), (15, 15), (15, 21), (16, 3), (16, 9)]);
}

#[test]
fn set_param_errors() {
    let mut p = Periodic::new();
    assert_eq!(
        p.set_param("FREQ", "SOMETIMES").unwrap_err(),
        almanac::errors::EventError::FreqError
    );
    assert_eq!(
        p.set_param("BYDAY", "MO,XX").unwrap_err(),
        almanac::errors::EventError::BydayError
    );
    assert_eq!(
        p.set_param("COUNT", "ten").unwrap_err(),
        almanac::errors::EventError::IntError
    );
    assert_eq!(
        p.set_param("INTERVAL", "0").unwrap_err(),
        almanac::errors::EventError::IntError
    );
    assert_eq!(
        p.set_param("BYDAY", "99999999999MO").unwrap_err(),
        almanac::errors::EventError::IntError
    );
    // Unknown keys are ignored.
    p.set_param("BYMONTH", "7").unwrap();
    assert_eq!(p.interval, 1);
    p.set_param("WKST", "SU").unwrap();
    assert_eq!(p.wkst, Weekday::Sun);
    p.set_param("FREQ", "WEEKLY").unwrap();
    assert!(matches!(p.freq, Freq::Weekly));
}

#[test]
fn freq_from_str_words() {
    assert!(matches!(Freq::from_str("SECONDLY"), Ok(Freq::Secondly)));
    assert!(matches!(Freq::from_str("YEARLY"), Ok(Freq::Yearly)));
    assert!(Freq::from_str("weekly").is_err());
}
