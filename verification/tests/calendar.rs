use sidera_task::calendar::Date;

fn ymd(year: i32, month: u32, day: u32) -> Date {
    Date::from_ymd_opt(year, month, day).unwrap()
}

#[test]
fn day_numbers_count_from_year_one() {
    assert_eq!(ymd(1, 1, 1).days_from_ce(), 1);
    assert_eq!(ymd(2, 1, 1).days_from_ce(), 366);
    assert_eq!(ymd(0, 1, 1).days_from_ce(), -365);
    assert_eq!(ymd(1970, 1, 1).days_from_ce(), 719_163);
    assert_eq!(ymd(1999, 9, 3).days_from_ce(), 730_000);
}

#[test]
fn invalid_dates_are_refused() {
    assert!(Date::from_ymd_opt(2015, 0, 14).is_none());
    assert!(Date::from_ymd_opt(2015, 13, 1).is_none());
    assert!(Date::from_ymd_opt(2015, 2, 29).is_none());
    assert!(Date::from_ymd_opt(2016, 2, 29).is_some());
    assert!(Date::from_ymd_opt(1900, 2, 29).is_none());
    assert!(Date::from_ymd_opt(2000, 2, 29).is_some());
    assert!(Date::from_ymd_opt(-4, 2, 29).is_some());
    assert!(Date::from_ymd_opt(2015, 4, 31).is_none());
    assert!(Date::from_ymd_opt(400000, 1, 1).is_none());
    assert!(Date::from_ymd_opt(-400000, 1, 1).is_none());
}

#[test]
fn calendar_round_trip() {
    let d = ymd(2026, 8, 31);
    assert_eq!(d.ymd(), (2026, 8, 31));
    assert_eq!(d.year(), 2026);
    assert_eq!(d.month(), 8);
    assert_eq!(d.day(), 31);
    let back = Date::from_days_from_ce(d.days_from_ce()).unwrap();
    assert_eq!(back, d);
    assert_eq!(ymd(2024, 12, 31).ymd(), (2024, 12, 31));
}

#[test]
fn adding_and_subtracting_days() {
    let d = ymd(2025, 12, 31);
    assert_eq!(d.add_days(1).unwrap(), ymd(2026, 1, 1));
    assert_eq!(d.add_days(-365).unwrap(), ymd(2024, 12, 31));
    assert_eq!(ymd(2026, 3, 1).days_since(&ymd(2026, 2, 1)), 28);
    assert_eq!(ymd(2024, 3, 1).days_since(&ymd(2024, 2, 1)), 29);
    assert_eq!(ymd(2024, 2, 1).days_since(&ymd(2024, 3, 1)), -29);
    let max = Date::from_ymd_opt(262142, 12, 31).unwrap();
    assert!(max.add_days(1).is_none());
    assert!(Date::from_days_from_ce(max.days_from_ce() + 1).is_none());
}

#[test]
fn date_text() {
    assert_eq!(ymd(2026, 8, 31).to_text(), "2026-08-31");
    assert_eq!(ymd(2025, 1, 5).to_text(), "2025-01-05");
    assert_eq!(ymd(-5, 3, 4).to_text(), "-0005-03-04");
    assert_eq!(ymd(12345, 6, 7).to_text(), "+12345-06-07");
}
