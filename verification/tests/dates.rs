use almanac::date::{Date, Duration, Weekday};

#[test]
fn date_parse_time() {
    match Date::parse("19361020T120000", "").unwrap() {
        d @ Date::Time { .. } => {
            assert_eq!(d.year(), 1936);
            assert_eq!(d.hour(), 12);
            assert_eq!(d.day(), 20);
        }
        _ => assert!(true),
    }
}

#[test]
fn parse_allday() {
    let d = Date::parse("20240115", "").unwrap();
    assert!(matches!(d, Date::AllDay { .. }));
    assert_eq!(d.year(), 2024);
    assert_eq!(d.month(), 1);
    assert_eq!(d.day(), 15);
}

#[test]
fn parse_absolute_time() {
    let d = Date::parse("20240115T090000Z", "").unwrap();
    assert!(matches!(d, Date::Time { .. }));
    assert_eq!(d.year(), 2024);
    assert_eq!(d.month(), 1);
    assert_eq!(d.day(), 15);
    assert_eq!(d.hour(), 9);
}

#[test]
fn parse_bad_allday_is_int_error() {
    assert_eq!(
        Date::parse("2024", "").unwrap_err(),
        almanac::errors::EventError::IntError
    );
    assert_eq!(
        Date::parse("20241315", "").unwrap_err(),
        almanac::errors::EventError::IntError
    );
}

#[test]
fn parse_bad_time_falls_back_to_epoch() {
    let d = Date::parse("2024011T090000", "").unwrap();
    assert_eq!(d, Date::new());
}

#[test]
fn parse_with_zone_offset() {
    // 09:00 in New York is 14:00 UTC on a winter day.
    let ny = Date::parse("20240115T090000", "America/New_York").unwrap();
    let utc = Date::parse("20240115T140000Z", "").unwrap();
    assert_eq!(ny.cmp(&utc), std::cmp::Ordering::Equal);
    assert_eq!(ny.hour(), 9);
}

#[test]
fn parse_unknown_zone_falls_back_to_utc() {
    let d = Date::parse("20240115T090000", "Nowhere/Special").unwrap();
    let utc = Date::parse("20240115T090000Z", "").unwrap();
    assert_eq!(d.cmp(&utc), std::cmp::Ordering::Equal);
}

#[test]
fn order_totality() {
    let a = Date::parse("20240115T090000Z", "").unwrap();
    let b = Date::parse("20240115T100000Z", "").unwrap();
    assert_eq!(a.cmp(&b), std::cmp::Ordering::Less);
    assert_eq!(b.cmp(&a), std::cmp::Ordering::Greater);
    assert_eq!(a.cmp(&a), std::cmp::Ordering::Equal);
}

#[test]
fn allday_sorts_before_time_on_same_day() {
    let all = Date::parse("20240115", "").unwrap();
    let timed = Date::parse("20240115T000000Z", "").unwrap();
    assert_eq!(all.cmp(&timed), std::cmp::Ordering::Less);
    assert_eq!(timed.cmp(&all), std::cmp::Ordering::Greater);
}

#[test]
fn sentinel_emptiness() {
    let e = Date::empty();
    assert_eq!(e.cmp(&Date::empty()), std::cmp::Ordering::Equal);
    assert_eq!(e.add(Duration::seconds(0)), e);
    let all = Date::parse("20240115", "").unwrap();
    assert_eq!(all.add(Duration::seconds(0)), all);
}

#[test]
fn add_and_sub() {
    let a = Date::parse("20240115T090000Z", "").unwrap();
    let b = a.add(Duration::days(1));
    assert_eq!(b.day(), 16);
    assert_eq!(b.hour(), 9);
    assert_eq!(b.sub(a).secs, 86400);
    let c = a.add(Duration::hours(25));
    assert_eq!(c.day(), 16);
    assert_eq!(c.hour(), 10);
}

#[test]
fn allday_add_truncates_to_days() {
    let a = Date::parse("20240115", "").unwrap();
    let b = a.add(Duration::seconds(86399));
    assert_eq!(b.day(), 15);
    let c = a.add(Duration::seconds(86401));
    assert_eq!(c.day(), 16);
}

#[test]
fn civil_accessors() {
    let d = Date::parse("20240229T120000Z", "").unwrap();
    assert_eq!(d.year(), 2024);
    assert_eq!(d.month(), 2);
    assert_eq!(d.day(), 29);
    assert_eq!(d.days_in_month(), 29);
    assert_eq!(d.weekday(), Weekday::Thu);
    let (w, nw) = d.week_of_month();
    assert_eq!(w, 5);
    assert_eq!(nw, -1);
}

#[test]
fn with_month_rejects_invalid() {
    let d = Date::parse("20240131T120000Z", "").unwrap();
    assert!(d.with_month(2).is_none());
    let e = d.with_month(3).unwrap();
    assert_eq!(e.month(), 3);
    assert_eq!(e.day(), 31);
}

#[test]
fn with_year_rejects_leap_day() {
    let d = Date::parse("20240229T120000Z", "").unwrap();
    assert!(d.with_year(2025).is_none());
    assert_eq!(d.with_year(2028).unwrap().year(), 2028);
}

#[test]
fn same_day_compares_civil_dates() {
    let a = Date::parse("20240115T090000Z", "").unwrap();
    let b = Date::parse("20240115T230000Z", "").unwrap();
    let c = Date::parse("20240116T000000Z", "").unwrap();
    assert!(a.same_day(&b));
    assert!(!a.same_day(&c));
}

#[test]
fn now_is_a_timed_value() {
    let n = Date::now();
    assert!(matches!(n, Date::Time { .. }));
    assert!(n.same_day(&n));
}
